//! Metadata persistence for state recovery: the part of the state that outlives the
//! process, collected from the state and restored to it.
use vstd::prelude::*;
use crate::state::{Files, FileView, Zone, ZoneView};
use crate::statics::{ShimmerState, ShimmerView};
use crate::tables::{
    path_table_entries, path_table_clear, path_table_insert, file_table_entries, file_table_clear,
    file_table_insert, zone_table_entries, zone_table_clear, zone_table_insert,
};

verus! {

broadcast use crate::statics::lemma_state_view;

/// The map that a list of key-value pairs describes, later pairs overriding earlier ones.
pub open spec fn pairs_to_map<K, V>(s: Seq<(K, V)>) -> Map<K, V>
    decreases s.len(),
{
    if s.len() == 0 {
        Map::empty()
    } else {
        pairs_to_map(s.drop_last()).insert(s.last().0, s.last().1)
    }
}

/// Whether no key occurs twice in a list of pairs.
pub open spec fn keys_distinct<K, V>(s: Seq<(K, V)>) -> bool {
    forall|i: int, j: int| 0 <= i < j < s.len() ==> s[i].0 != s[j].0
}

/// The pairs of paths, each by its characters, and file ids.
pub open spec fn path_pairs(s: Seq<(String, u32)>) -> Seq<(Seq<char>, u32)> {
    s.map_values(|p: (String, u32)| (p.0@, p.1))
}

/// The pairs of file ids and what each file's metadata says.
pub open spec fn file_pairs(s: Seq<(u32, Files)>) -> Seq<(u32, FileView)> {
    s.map_values(|p: (u32, Files)| (p.0, p.1@))
}

/// The pairs of zone numbers and what each zone's metadata says.
pub open spec fn zone_pairs(s: Seq<(u32, Zone)>) -> Seq<(u32, ZoneView)> {
    s.map_values(|p: (u32, Zone)| (p.0, p.1@))
}

/// What saved metadata says.
#[verifier::ext_equal]
pub struct MetadataView {
    pub paths: Map<Seq<char>, u32>,
    pub files: Map<u32, FileView>,
    pub zones: Map<u32, ZoneView>,
    pub free_zones: Seq<u32>,
    pub next_uid: u32,
}

/// The part of the state that is saved: file paths and ids, file and zone metadata, the
/// free zones and the next file id.
pub struct ShimmerMetadata {
    pub path_to_uid: Vec<(String, u32)>,
    pub filesystem: Vec<(u32, Files)>,
    pub zone_metadata: Vec<(u32, Zone)>,
    pub free_zones: Vec<u32>,
    pub next_uid: u32,
}

impl View for ShimmerMetadata {
    type V = MetadataView;

    open spec fn view(&self) -> MetadataView {
        MetadataView {
            paths: pairs_to_map(path_pairs(self.path_to_uid@)),
            files: pairs_to_map(file_pairs(self.filesystem@)),
            zones: pairs_to_map(zone_pairs(self.zone_metadata@)),
            free_zones: self.free_zones@,
            next_uid: self.next_uid,
        }
    }
}

/// The saved part of the state `v`.
pub open spec fn snapshot(v: ShimmerView) -> MetadataView {
    MetadataView {
        paths: v.paths,
        files: v.files,
        zones: v.zones,
        free_zones: v.free_zones,
        next_uid: v.next_uid,
    }
}

/// The state `v` with its saved part replaced by `m`.
pub open spec fn restored(v: ShimmerView, m: MetadataView) -> ShimmerView {
    ShimmerView {
        paths: m.paths,
        files: m.files,
        zones: m.zones,
        free_zones: m.free_zones,
        next_uid: m.next_uid,
        ..v
    }
}

/// A list of pairs with distinct keys, each pair in `m` and each key of `m` in the list,
/// describes `m`.
proof fn lemma_pairs_describe_map<K, V>(s: Seq<(K, V)>, m: Map<K, V>)
    requires
        keys_distinct(s),
        forall|i: int| 0 <= i < s.len() ==> m.contains_key(#[trigger] s[i].0) && m[s[i].0] == s[i].1,
        forall|k: K| m.contains_key(k) ==> exists|i: int| 0 <= i < s.len() && #[trigger] s[i].0 == k,
    ensures
        pairs_to_map(s) == m,
    decreases s.len(),
{
    if s.len() == 0 {
        assert(m =~= Map::empty());
    } else {
        let last = s.last();
        let rest = s.drop_last();
        let m1 = m.remove(last.0);
        assert forall|i: int| 0 <= i < rest.len() implies m1.contains_key(#[trigger] rest[i].0)
            && m1[rest[i].0] == rest[i].1 by {
            assert(s[i] == rest[i]);
            assert(s[i].0 != s[s.len() - 1].0);
        }
        assert forall|k: K| m1.contains_key(k) implies exists|i: int|
            0 <= i < rest.len() && #[trigger] rest[i].0 == k by {
            let i = choose|i: int| 0 <= i < s.len() && #[trigger] s[i].0 == k;
            assert(i != s.len() - 1);
            assert(rest[i].0 == k);
        }
        lemma_pairs_describe_map(rest, m1);
        assert(pairs_to_map(s) =~= m);
    }
}

impl ShimmerMetadata {
    /// Collects the saved part of the state. Each path, file and zone occurs once.
    pub fn from_globals(state: &ShimmerState) -> (m: Self)
        ensures
            m@ == snapshot(state@),
            keys_distinct(path_pairs(m.path_to_uid@)),
            keys_distinct(file_pairs(m.filesystem@)),
            keys_distinct(zone_pairs(m.zone_metadata@)),
    {
        let path_to_uid = path_table_entries(&state.path_to_uid);
        let filesystem = file_table_entries(&state.filesystem);
        let zone_metadata = zone_table_entries(&state.zone_metadata_map);
        let mut free_zones: Vec<u32> = Vec::new();
        let mut i: usize = 0;
        while i < state.free_zone.len()
            invariant
                0 <= i <= state.free_zone@.len(),
                free_zones@ == state.free_zone@.subrange(0, i as int),
            decreases state.free_zone@.len() - i,
        {
            free_zones.push(state.free_zone[i]);
            proof {
                assert(state.free_zone@.subrange(0, i as int + 1) =~= state.free_zone@.subrange(0, i as int).push(
                    state.free_zone@[i as int],
                ));
            }
            i = i + 1;
        }
        proof {
            assert(free_zones@ =~= state.free_zone@);
            let ps = path_pairs(path_to_uid@);
            assert forall|k: Seq<char>| state@.paths.contains_key(k) implies exists|i: int|
                0 <= i < ps.len() && #[trigger] ps[i].0 == k by {
                let i = choose|i: int| 0 <= i < path_to_uid@.len() && #[trigger] path_to_uid@[i].0@ == k;
                assert(ps[i].0 == k);
            }
            lemma_pairs_describe_map(ps, state@.paths);
            let fs = file_pairs(filesystem@);
            assert forall|k: u32| state@.files.contains_key(k) implies exists|i: int|
                0 <= i < fs.len() && #[trigger] fs[i].0 == k by {
                let i = choose|i: int| 0 <= i < filesystem@.len() && #[trigger] filesystem@[i].0 == k;
                assert(fs[i].0 == k);
            }
            lemma_pairs_describe_map(fs, state@.files);
            let zs = zone_pairs(zone_metadata@);
            assert forall|k: u32| state@.zones.contains_key(k) implies exists|i: int|
                0 <= i < zs.len() && #[trigger] zs[i].0 == k by {
                let i = choose|i: int| 0 <= i < zone_metadata@.len() && #[trigger] zone_metadata@[i].0 == k;
                assert(zs[i].0 == k);
            }
            lemma_pairs_describe_map(zs, state@.zones);
        }
        let m = ShimmerMetadata { path_to_uid, filesystem, zone_metadata, free_zones, next_uid: state.uid };
        proof {
            assert(m@ =~= snapshot(state@));
        }
        m
    }

    /// Restores the saved part of the state from this metadata, replacing what the state
    /// held; later pairs for the same key override earlier ones.
    pub fn restore_to_globals(&self, state: &mut ShimmerState)
        requires
            old(state).wf(),
        ensures
            final(state).wf(),
            final(state)@ == restored(old(state)@, self@),
    {
        let ghost v = state@;
        path_table_clear(&mut state.path_to_uid);
        file_table_clear(&mut state.filesystem);
        zone_table_clear(&mut state.zone_metadata_map);
        state.free_zone.clear();
        let mut i: usize = 0;
        while i < self.path_to_uid.len()
            invariant
                0 <= i <= self.path_to_uid@.len(),
                state@ == (ShimmerView {
                    paths: pairs_to_map(path_pairs(self.path_to_uid@.take(i as int))),
                    files: Map::empty(),
                    zones: Map::empty(),
                    free_zones: Seq::empty(),
                    ..v
                }),
            decreases self.path_to_uid@.len() - i,
        {
            let path = self.path_to_uid[i].0.clone();
            let uid = self.path_to_uid[i].1;
            path_table_insert(&mut state.path_to_uid, path, uid);
            proof {
                assert(path_pairs(self.path_to_uid@.take(i + 1)).drop_last() =~= path_pairs(
                    self.path_to_uid@.take(i as int),
                ));
                assert(state@.paths =~= pairs_to_map(path_pairs(self.path_to_uid@.take(i + 1))));
                assert(state@ =~= (ShimmerView {
                    paths: pairs_to_map(path_pairs(self.path_to_uid@.take(i + 1))),
                    files: Map::empty(),
                    zones: Map::empty(),
                    free_zones: Seq::empty(),
                    ..v
                }));
            }
            i = i + 1;
        }
        let ghost paths = pairs_to_map(path_pairs(self.path_to_uid@));
        proof {
            assert(self.path_to_uid@.take(self.path_to_uid@.len() as int) =~= self.path_to_uid@);
        }
        let mut i: usize = 0;
        while i < self.filesystem.len()
            invariant
                0 <= i <= self.filesystem@.len(),
                state@ == (ShimmerView {
                    paths,
                    files: pairs_to_map(file_pairs(self.filesystem@.take(i as int))),
                    zones: Map::empty(),
                    free_zones: Seq::empty(),
                    ..v
                }),
            decreases self.filesystem@.len() - i,
        {
            let uid = self.filesystem[i].0;
            let f = self.filesystem[i].1.duplicate();
            file_table_insert(&mut state.filesystem, uid, f);
            proof {
                assert(file_pairs(self.filesystem@.take(i + 1)).drop_last() =~= file_pairs(
                    self.filesystem@.take(i as int),
                ));
                assert(state@.files =~= pairs_to_map(file_pairs(self.filesystem@.take(i + 1))));
                assert(state@ =~= (ShimmerView {
                    paths,
                    files: pairs_to_map(file_pairs(self.filesystem@.take(i + 1))),
                    zones: Map::empty(),
                    free_zones: Seq::empty(),
                    ..v
                }));
            }
            i = i + 1;
        }
        let ghost files = pairs_to_map(file_pairs(self.filesystem@));
        proof {
            assert(self.filesystem@.take(self.filesystem@.len() as int) =~= self.filesystem@);
        }
        let mut i: usize = 0;
        while i < self.zone_metadata.len()
            invariant
                0 <= i <= self.zone_metadata@.len(),
                state@ == (ShimmerView {
                    paths,
                    files,
                    zones: pairs_to_map(zone_pairs(self.zone_metadata@.take(i as int))),
                    free_zones: Seq::empty(),
                    ..v
                }),
            decreases self.zone_metadata@.len() - i,
        {
            let zone = self.zone_metadata[i].0;
            let z = self.zone_metadata[i].1.duplicate();
            zone_table_insert(&mut state.zone_metadata_map, zone, z);
            proof {
                assert(zone_pairs(self.zone_metadata@.take(i + 1)).drop_last() =~= zone_pairs(
                    self.zone_metadata@.take(i as int),
                ));
                assert(state@.zones =~= pairs_to_map(zone_pairs(self.zone_metadata@.take(i + 1))));
                assert(state@ =~= (ShimmerView {
                    paths,
                    files,
                    zones: pairs_to_map(zone_pairs(self.zone_metadata@.take(i + 1))),
                    free_zones: Seq::empty(),
                    ..v
                }));
            }
            i = i + 1;
        }
        let ghost zones = pairs_to_map(zone_pairs(self.zone_metadata@));
        proof {
            assert(self.zone_metadata@.take(self.zone_metadata@.len() as int) =~= self.zone_metadata@);
        }
        let mut i: usize = 0;
        while i < self.free_zones.len()
            invariant
                0 <= i <= self.free_zones@.len(),
                state@ == (ShimmerView {
                    paths,
                    files,
                    zones,
                    free_zones: self.free_zones@.take(i as int),
                    ..v
                }),
            decreases self.free_zones@.len() - i,
        {
            state.free_zone.push_back(self.free_zones[i]);
            proof {
                assert(self.free_zones@.take(i + 1) =~= self.free_zones@.take(i as int).push(self.free_zones@[i as int]));
                assert(state@ =~= (ShimmerView {
                    paths,
                    files,
                    zones,
                    free_zones: self.free_zones@.take(i + 1),
                    ..v
                }));
            }
            i = i + 1;
        }
        state.uid = self.next_uid;
        proof {
            assert(self.free_zones@.take(self.free_zones@.len() as int) =~= self.free_zones@);
            assert(state@ =~= restored(v, self@));
        }
    }
}

/// Restoring a state's own saved part changes nothing, and restoring saved metadata puts
/// in place exactly what was saved.
pub proof fn lemma_restore_round_trip(v: ShimmerView, w: ShimmerView, m: MetadataView)
    ensures
        restored(v, snapshot(v)) == v,
        snapshot(restored(w, m)) == m,
{
    assert(restored(v, snapshot(v)) =~= v);
    assert(snapshot(restored(w, m)) =~= m);
}

} // verus!
