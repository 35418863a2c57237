//! The shared tables of the shim. Each is a `dashmap::DashMap`, as in the shim itself;
//! what Verus knows of them is what the functions below state, over a name for what
//! each kind of table holds. `DashMap` would let a table change through a shared
//! reference; here every change goes through a `&mut` reference to the table, so what a
//! table holds is fixed while it is only read.
use vstd::prelude::*;
use dashmap::DashMap;
use crate::state::{Stream, Files, FileView, Zone, ZoneView};
use crate::statics::{TrackedBuffer, BufferView};

verus! {

#[verifier::external_type_specification]
#[verifier::external_body]
#[verifier::reject_recursive_types(K)]
#[verifier::reject_recursive_types(V)]
#[verifier::reject_recursive_types(S)]
pub struct ExDashMap<K, V, S>(DashMap<K, V, S>);

/// What a table from file descriptors to numbers (file ids or buffer ids) holds.
pub uninterp spec fn fd_table(m: DashMap<i32, u32>) -> Map<i32, u32>;

/// `DashMap::new`: a new table holds nothing.
#[verifier::external_body]
pub(crate) fn fd_table_new() -> (table: DashMap<i32, u32>)
    ensures
        fd_table(table).is_empty(),
{
    DashMap::new()
}

/// `DashMap::get`: the value stored under `k`, if any, copied out of the entry guard.
#[verifier::external_body]
pub(crate) fn fd_table_get(m: &DashMap<i32, u32>, k: i32) -> (r: Option<u32>)
    ensures
        fd_table(*m).contains_key(k) ==> r == Some(fd_table(*m)[k]),
        !fd_table(*m).contains_key(k) ==> r is None,
{
    match m.get(&k) {
        Some(entry) => Some(*entry.value()),
        None => None,
    }
}

/// `DashMap::insert`: `k` maps to `v` afterwards, and every other key is unchanged.
#[verifier::external_body]
pub(crate) fn fd_table_insert(m: &mut DashMap<i32, u32>, k: i32, v: u32)
    ensures
        fd_table(*final(m)) == fd_table(*old(m)).insert(k, v),
{
    m.insert(k, v);
}

/// `DashMap::remove`: `k` is gone afterwards; the value it had, if any, is returned.
#[verifier::external_body]
pub(crate) fn fd_table_remove(m: &mut DashMap<i32, u32>, k: i32) -> (r: Option<u32>)
    ensures
        fd_table(*final(m)) == fd_table(*old(m)).remove(k),
        fd_table(*old(m)).contains_key(k) ==> r == Some(fd_table(*old(m))[k]),
        !fd_table(*old(m)).contains_key(k) ==> r is None,
{
    match m.remove(&k) {
        Some((_, v)) => Some(v),
        None => None,
    }
}
/// What a table from file descriptors to their streams holds.
pub uninterp spec fn stream_table(m: DashMap<i32, Stream>) -> Map<i32, Stream>;

/// `DashMap::new`: a new table holds nothing.
#[verifier::external_body]
pub(crate) fn stream_table_new() -> (table: DashMap<i32, Stream>)
    ensures
        stream_table(table).is_empty(),
{
    DashMap::new()
}

/// `DashMap::get`: the value stored under `k`, if any, copied out of the entry guard.
#[verifier::external_body]
pub(crate) fn stream_table_get(m: &DashMap<i32, Stream>, k: i32) -> (r: Option<Stream>)
    ensures
        stream_table(*m).contains_key(k) ==> r == Some(stream_table(*m)[k]),
        !stream_table(*m).contains_key(k) ==> r is None,
{
    match m.get(&k) {
        Some(entry) => Some(*entry.value()),
        None => None,
    }
}

/// `DashMap::insert`: `k` maps to `v` afterwards, and every other key is unchanged.
#[verifier::external_body]
pub(crate) fn stream_table_insert(m: &mut DashMap<i32, Stream>, k: i32, v: Stream)
    ensures
        stream_table(*final(m)) == stream_table(*old(m)).insert(k, v),
{
    m.insert(k, v);
}

/// `DashMap::remove`: `k` is gone afterwards; the value it had, if any, is returned.
#[verifier::external_body]
pub(crate) fn stream_table_remove(m: &mut DashMap<i32, Stream>, k: i32) -> (r: Option<Stream>)
    ensures
        stream_table(*final(m)) == stream_table(*old(m)).remove(k),
        stream_table(*old(m)).contains_key(k) ==> r == Some(stream_table(*old(m))[k]),
        !stream_table(*old(m)).contains_key(k) ==> r is None,
{
    match m.remove(&k) {
        Some((_, v)) => Some(v),
        None => None,
    }
}
/// What a table from streams to the zone each writes to holds.
pub uninterp spec fn hint_table(m: DashMap<Stream, u32>) -> Map<Stream, u32>;

/// `DashMap::new`: a new table holds nothing.
#[verifier::external_body]
pub(crate) fn hint_table_new() -> (table: DashMap<Stream, u32>)
    ensures
        hint_table(table).is_empty(),
{
    DashMap::new()
}

/// `DashMap::get`: the value stored under `k`, if any, copied out of the entry guard.
#[verifier::external_body]
pub(crate) fn hint_table_get(m: &DashMap<Stream, u32>, k: Stream) -> (r: Option<u32>)
    ensures
        hint_table(*m).contains_key(k) ==> r == Some(hint_table(*m)[k]),
        !hint_table(*m).contains_key(k) ==> r is None,
{
    match m.get(&k) {
        Some(entry) => Some(*entry.value()),
        None => None,
    }
}

/// `DashMap::insert`: `k` maps to `v` afterwards, and every other key is unchanged.
#[verifier::external_body]
pub(crate) fn hint_table_insert(m: &mut DashMap<Stream, u32>, k: Stream, v: u32)
    ensures
        hint_table(*final(m)) == hint_table(*old(m)).insert(k, v),
{
    m.insert(k, v);
}
/// What a table from open zones to their write offsets holds.
pub uninterp spec fn offset_table(m: DashMap<u32, u64>) -> Map<u32, u64>;

/// `DashMap::new`: a new table holds nothing.
#[verifier::external_body]
pub(crate) fn offset_table_new() -> (table: DashMap<u32, u64>)
    ensures
        offset_table(table).is_empty(),
{
    DashMap::new()
}

/// `DashMap::get`: the value stored under `k`, if any, copied out of the entry guard.
#[verifier::external_body]
pub(crate) fn offset_table_get(m: &DashMap<u32, u64>, k: u32) -> (r: Option<u64>)
    ensures
        offset_table(*m).contains_key(k) ==> r == Some(offset_table(*m)[k]),
        !offset_table(*m).contains_key(k) ==> r is None,
{
    match m.get(&k) {
        Some(entry) => Some(*entry.value()),
        None => None,
    }
}

/// `DashMap::insert`: `k` maps to `v` afterwards, and every other key is unchanged.
#[verifier::external_body]
pub(crate) fn offset_table_insert(m: &mut DashMap<u32, u64>, k: u32, v: u64)
    ensures
        offset_table(*final(m)) == offset_table(*old(m)).insert(k, v),
{
    m.insert(k, v);
}

/// `DashMap::remove`: `k` is gone afterwards; the value it had, if any, is returned.
#[verifier::external_body]
pub(crate) fn offset_table_remove(m: &mut DashMap<u32, u64>, k: u32) -> (r: Option<u64>)
    ensures
        offset_table(*final(m)) == offset_table(*old(m)).remove(k),
        offset_table(*old(m)).contains_key(k) ==> r == Some(offset_table(*old(m))[k]),
        !offset_table(*old(m)).contains_key(k) ==> r is None,
{
    match m.remove(&k) {
        Some((_, v)) => Some(v),
        None => None,
    }
}
/// What the table of path names holds, keyed by the characters of each path.
pub uninterp spec fn path_table(m: DashMap<String, u32>) -> Map<Seq<char>, u32>;

/// `DashMap::new`: a new table holds nothing.
#[verifier::external_body]
pub(crate) fn path_table_new() -> (table: DashMap<String, u32>)
    ensures
        path_table(table).is_empty(),
{
    DashMap::new()
}

/// `DashMap::get`: the id stored under the path `k`, if any.
#[verifier::external_body]
pub(crate) fn path_table_get(m: &DashMap<String, u32>, k: &String) -> (r: Option<u32>)
    ensures
        path_table(*m).contains_key(k@) ==> r == Some(path_table(*m)[k@]),
        !path_table(*m).contains_key(k@) ==> r is None,
{
    match m.get(k) {
        Some(entry) => Some(*entry.value()),
        None => None,
    }
}

/// `DashMap::insert`: the path `k` maps to `v` afterwards, and every other path is unchanged.
#[verifier::external_body]
pub(crate) fn path_table_insert(m: &mut DashMap<String, u32>, k: String, v: u32)
    ensures
        path_table(*final(m)) == path_table(*old(m)).insert(k@, v),
{
    m.insert(k, v);
}

/// `DashMap::remove`: the path `k` is gone afterwards; its id, if any, is returned.
#[verifier::external_body]
pub(crate) fn path_table_remove(m: &mut DashMap<String, u32>, k: &String) -> (r: Option<u32>)
    ensures
        path_table(*final(m)) == path_table(*old(m)).remove(k@),
        path_table(*old(m)).contains_key(k@) ==> r == Some(path_table(*old(m))[k@]),
        !path_table(*old(m)).contains_key(k@) ==> r is None,
{
    match m.remove(k) {
        Some((_, v)) => Some(v),
        None => None,
    }
}

/// `DashMap::clear`: the table holds nothing afterwards.
#[verifier::external_body]
pub(crate) fn path_table_clear(m: &mut DashMap<String, u32>)
    ensures
        path_table(*final(m)).is_empty(),
{
    m.clear();
}

/// `DashMap::iter`: every entry of the table, each once, in the table's own order.
#[verifier::external_body]
pub(crate) fn path_table_entries(m: &DashMap<String, u32>) -> (r: Vec<(String, u32)>)
    ensures
        forall|i: int, j: int| 0 <= i < j < r@.len() ==> r@[i].0@ != r@[j].0@,
        forall|i: int| 0 <= i < r@.len() ==> path_table(*m).contains_key(#[trigger] r@[i].0@)
            && path_table(*m)[r@[i].0@] == r@[i].1,
        forall|k: Seq<char>| path_table(*m).contains_key(k) ==> exists|i: int|
            0 <= i < r@.len() && #[trigger] r@[i].0@ == k,
{
    let mut r = Vec::new();
    for entry in m.iter() {
        r.push((entry.key().clone(), *entry.value()));
    }
    r
}
/// What a table of file ids to file metadata holds.
pub uninterp spec fn file_table(m: DashMap<u32, Files>) -> Map<u32, FileView>;

/// `DashMap::new`: a new table holds nothing.
#[verifier::external_body]
pub(crate) fn file_table_new() -> (table: DashMap<u32, Files>)
    ensures
        file_table(table).is_empty(),
{
    DashMap::new()
}

/// `DashMap::insert`: `k` maps to `v` afterwards, and every other key is unchanged.
#[verifier::external_body]
pub(crate) fn file_table_insert(m: &mut DashMap<u32, Files>, k: u32, v: Files)
    ensures
        file_table(*final(m)) == file_table(*old(m)).insert(k, v@),
{
    m.insert(k, v);
}

/// `DashMap::remove`: `k` is gone afterwards; the value it had, if any, is handed back.
#[verifier::external_body]
pub(crate) fn file_table_take(m: &mut DashMap<u32, Files>, k: u32) -> (r: Option<Files>)
    ensures
        file_table(*final(m)) == file_table(*old(m)).remove(k),
        file_table(*old(m)).contains_key(k) ==> r is Some && r.unwrap()@ == file_table(*old(m))[k],
        !file_table(*old(m)).contains_key(k) ==> r is None,
{
    match m.remove(&k) {
        Some((_, v)) => Some(v),
        None => None,
    }
}

/// `DashMap::get`: a clone of the value stored under `k`, if any.
#[verifier::external_body]
pub(crate) fn file_table_get(m: &DashMap<u32, Files>, k: u32) -> (r: Option<Files>)
    ensures
        file_table(*m).contains_key(k) ==> r is Some && r.unwrap()@ == file_table(*m)[k],
        !file_table(*m).contains_key(k) ==> r is None,
{
    match m.get(&k) {
        Some(entry) => Some(entry.value().clone()),
        None => None,
    }
}

/// `DashMap::clear`: the table holds nothing afterwards.
#[verifier::external_body]
pub(crate) fn file_table_clear(m: &mut DashMap<u32, Files>)
    ensures
        file_table(*final(m)).is_empty(),
{
    m.clear();
}

/// `DashMap::iter`: every entry of the table, each once and cloned, in the table's own order.
#[verifier::external_body]
pub(crate) fn file_table_entries(m: &DashMap<u32, Files>) -> (r: Vec<(u32, Files)>)
    ensures
        forall|i: int, j: int| 0 <= i < j < r@.len() ==> r@[i].0 != r@[j].0,
        forall|i: int| 0 <= i < r@.len() ==> file_table(*m).contains_key(#[trigger] r@[i].0)
            && file_table(*m)[r@[i].0] == r@[i].1@,
        forall|k: u32| file_table(*m).contains_key(k) ==> exists|i: int|
            0 <= i < r@.len() && #[trigger] r@[i].0 == k,
{
    let mut r = Vec::new();
    for entry in m.iter() {
        r.push((*entry.key(), entry.value().clone()));
    }
    r
}
/// What a table of zone numbers to zone metadata holds.
pub uninterp spec fn zone_table(m: DashMap<u32, Zone>) -> Map<u32, ZoneView>;

/// `DashMap::new`: a new table holds nothing.
#[verifier::external_body]
pub(crate) fn zone_table_new() -> (table: DashMap<u32, Zone>)
    ensures
        zone_table(table).is_empty(),
{
    DashMap::new()
}

/// `DashMap::insert`: `k` maps to `v` afterwards, and every other key is unchanged.
#[verifier::external_body]
pub(crate) fn zone_table_insert(m: &mut DashMap<u32, Zone>, k: u32, v: Zone)
    ensures
        zone_table(*final(m)) == zone_table(*old(m)).insert(k, v@),
{
    m.insert(k, v);
}

/// `DashMap::remove`: `k` is gone afterwards; the value it had, if any, is handed back.
#[verifier::external_body]
pub(crate) fn zone_table_take(m: &mut DashMap<u32, Zone>, k: u32) -> (r: Option<Zone>)
    ensures
        zone_table(*final(m)) == zone_table(*old(m)).remove(k),
        zone_table(*old(m)).contains_key(k) ==> r is Some && r.unwrap()@ == zone_table(*old(m))[k],
        !zone_table(*old(m)).contains_key(k) ==> r is None,
{
    match m.remove(&k) {
        Some((_, v)) => Some(v),
        None => None,
    }
}

/// `DashMap::get`: a clone of the value stored under `k`, if any.
#[verifier::external_body]
pub(crate) fn zone_table_get(m: &DashMap<u32, Zone>, k: u32) -> (r: Option<Zone>)
    ensures
        zone_table(*m).contains_key(k) ==> r is Some && r.unwrap()@ == zone_table(*m)[k],
        !zone_table(*m).contains_key(k) ==> r is None,
{
    match m.get(&k) {
        Some(entry) => Some(entry.value().clone()),
        None => None,
    }
}

/// `DashMap::clear`: the table holds nothing afterwards.
#[verifier::external_body]
pub(crate) fn zone_table_clear(m: &mut DashMap<u32, Zone>)
    ensures
        zone_table(*final(m)).is_empty(),
{
    m.clear();
}

/// `DashMap::iter`: every entry of the table, each once and cloned, in the table's own order.
#[verifier::external_body]
pub(crate) fn zone_table_entries(m: &DashMap<u32, Zone>) -> (r: Vec<(u32, Zone)>)
    ensures
        forall|i: int, j: int| 0 <= i < j < r@.len() ==> r@[i].0 != r@[j].0,
        forall|i: int| 0 <= i < r@.len() ==> zone_table(*m).contains_key(#[trigger] r@[i].0)
            && zone_table(*m)[r@[i].0] == r@[i].1@,
        forall|k: u32| zone_table(*m).contains_key(k) ==> exists|i: int|
            0 <= i < r@.len() && #[trigger] r@[i].0 == k,
{
    let mut r = Vec::new();
    for entry in m.iter() {
        r.push((*entry.key(), entry.value().clone()));
    }
    r
}
/// What a table of buffer ids to write buffers holds.
pub uninterp spec fn buffer_table(m: DashMap<u32, TrackedBuffer>) -> Map<u32, BufferView>;

/// `DashMap::new`: a new table holds nothing.
#[verifier::external_body]
pub(crate) fn buffer_table_new() -> (table: DashMap<u32, TrackedBuffer>)
    ensures
        buffer_table(table).is_empty(),
{
    DashMap::new()
}

/// `DashMap::insert`: `k` maps to `v` afterwards, and every other key is unchanged.
#[verifier::external_body]
pub(crate) fn buffer_table_insert(m: &mut DashMap<u32, TrackedBuffer>, k: u32, v: TrackedBuffer)
    ensures
        buffer_table(*final(m)) == buffer_table(*old(m)).insert(k, v@),
{
    m.insert(k, v);
}

/// `DashMap::remove`: `k` is gone afterwards; the value it had, if any, is handed back.
#[verifier::external_body]
pub(crate) fn buffer_table_take(m: &mut DashMap<u32, TrackedBuffer>, k: u32) -> (r: Option<TrackedBuffer>)
    ensures
        buffer_table(*final(m)) == buffer_table(*old(m)).remove(k),
        buffer_table(*old(m)).contains_key(k) ==> r is Some && r.unwrap()@ == buffer_table(*old(m))[k],
        !buffer_table(*old(m)).contains_key(k) ==> r is None,
{
    match m.remove(&k) {
        Some((_, v)) => Some(v),
        None => None,
    }
}

/// `DashMap::len`: the number of buffers in the table, which is finite.
#[verifier::external_body]
pub(crate) fn buffer_table_len(m: &DashMap<u32, TrackedBuffer>) -> (count: usize)
    ensures
        count == buffer_table(*m).len(),
{
    m.len()
}

/// `DashMap::iter`: every buffer id of the table with whether that buffer is free, each
/// once, in the table's own order.
#[verifier::external_body]
pub(crate) fn buffer_table_free_flags(m: &DashMap<u32, TrackedBuffer>) -> (r: Vec<(u32, bool)>)
    ensures
        forall|i: int, j: int| 0 <= i < j < r@.len() ==> r@[i].0 != r@[j].0,
        forall|i: int| 0 <= i < r@.len() ==> buffer_table(*m).contains_key(#[trigger] r@[i].0)
            && buffer_table(*m)[r@[i].0].is_free == r@[i].1,
        forall|k: u32| buffer_table(*m).contains_key(k) ==> exists|i: int|
            0 <= i < r@.len() && #[trigger] r@[i].0 == k,
{
    let mut r = Vec::new();
    for entry in m.iter() {
        r.push((*entry.key(), entry.value().is_free));
    }
    r
}

/// `DashMap::get`: a copy of the bytes of buffer `k`, if there is such a buffer.
#[verifier::external_body]
pub(crate) fn buffer_table_data(m: &DashMap<u32, TrackedBuffer>, k: u32) -> (r: Option<Vec<u8>>)
    ensures
        buffer_table(*m).contains_key(k) ==> r is Some && r.unwrap()@ == buffer_table(*m)[k].data,
        !buffer_table(*m).contains_key(k) ==> r is None,
{
    match m.get(&k) {
        Some(entry) => Some(entry.value().data.clone()),
        None => None,
    }
}
} // verus!
