//! What persisting buffers to zones and reading files back decides: where a buffer is
//! written and what the write records, when a zone is rotated, and which zone ranges and
//! buffered bytes a read of a file is served from.
use vstd::prelude::*;
use crate::state::{
    Stream, Extents, FileView, ZoneView, WriteRequest, WriteResponse, Files, Zone, align_to_page,
    aligned_size, empty_zone, zone_add_extent, BLOCK_SIZE, CHUNK_SIZE, PREFERRED_BUFFER_SIZE,
    MAX_ALIGNABLE_SIZE,
};
use crate::statics::{ShimmerState, ShimmerView};
use crate::helpers::{assign_zone, buffer_data_len};
use crate::tables::{
    hint_table_get, offset_table_get, offset_table_insert, offset_table_remove, file_table_take,
    file_table_insert, zone_table_take, zone_table_insert, buffer_table_data, fd_table_get,
    file_table_get,
};

verus! {

broadcast use crate::statics::lemma_state_view;

/// `files` after the write of extent `e` for file `uid`: the extent is appended to the
/// file's extents and its size is added to the file size (a file the shim has no record
/// of starts with this extent alone).
pub open spec fn file_after_write(files: Map<u32, FileView>, uid: u32, e: Extents) -> Map<
    u32,
    FileView,
> {
    if files.contains_key(uid) {
        files.insert(
            uid,
            FileView {
                file_size: files[uid].file_size.wrapping_add(e.actual_size),
                extents: files[uid].extents.push(e),
            },
        )
    } else {
        files.insert(uid, FileView { file_size: e.actual_size, extents: seq![e] })
    }
}

/// The metadata of `zone`, or that of an empty zone when there is none yet.
pub open spec fn zone_or_empty(zones: Map<u32, ZoneView>, zone: u32) -> ZoneView {
    if zones.contains_key(zone) {
        zones[zone]
    } else {
        empty_zone()
    }
}

/// `zones` with `zone` marked full, when there is such a zone.
pub open spec fn mark_zone_full(zones: Map<u32, ZoneView>, zone: u32) -> Map<u32, ZoneView> {
    if zones.contains_key(zone) {
        zones.insert(zone, ZoneView { is_full: true, ..zones[zone] })
    } else {
        zones
    }
}

/// What the writer does with a request, once the state is updated.
pub enum WriteOutcome {
    /// The buffer was empty: there is nothing to write, and the request is answered.
    Complete(WriteResponse),
    /// The zone had no room for the buffer: it is marked full and the stream moved to the
    /// next free zone. The zone file is padded to `pad_to` bytes and closed, and the same
    /// request is sent again.
    Retry { zone: u32, pad_to: u32 },
    /// The buffer, padded with zeros to `aligned_size` bytes, is appended to the zone file
    /// of `zone`. When `pad_after` is given, the zone is full afterwards: its file is padded
    /// to that size and closed. Then the request is answered with `response`.
    Write { zone: u32, aligned_size: u32, pad_after: Option<u32>, response: WriteResponse },
}

/// Why the writer cannot go on with a request.
#[derive(Debug, Clone, Copy, PartialEq, Eq, Structural)]
pub enum WriteError {
    /// The zone of the stream must be rotated, but no zone is free.
    NoFreeZone,
}

/// What `process_write_request` does to the state and answers, stated for each case.
pub open spec fn write_request_effect(
    v: ShimmerView,
    request: WriteRequest,
    post: ShimmerView,
    r: Result<WriteOutcome, WriteError>,
) -> bool {
    let zone = v.stream_zones[request.stream];
    let offset = v.zone_offsets[zone];
    let len = v.buffers[request.buffer].data.len();
    let aligned = aligned_size(len as int);
    let cfg = v.config.unwrap();
    let response = WriteResponse { id: request.id, fd: request.fd, buffer: request.buffer };
    if len == 0 {
        r == Ok::<WriteOutcome, WriteError>(WriteOutcome::Complete(response)) && post == v
    } else if offset + aligned > cfg.zone_capacity {
        if v.free_zones.len() == 0 {
            r == Err::<WriteOutcome, WriteError>(WriteError::NoFreeZone) && post == v
        } else {
            &&& r == Ok::<WriteOutcome, WriteError>(
                WriteOutcome::Retry { zone, pad_to: cfg.zone_size },
            )
            &&& post == ShimmerView {
                zones: mark_zone_full(v.zones, zone),
                zone_offsets: v.zone_offsets.remove(zone),
                stream_zones: v.stream_zones.insert(request.stream, v.free_zones[0]),
                free_zones: v.free_zones.subrange(1, v.free_zones.len() as int),
                ..v
            }
        }
    } else {
        let new_offset = offset + aligned;
        let rotates = new_offset >= cfg.zone_capacity;
        if rotates && v.free_zones.len() == 0 {
            r == Err::<WriteOutcome, WriteError>(WriteError::NoFreeZone) && post == v
        } else {
            let z = zone_or_empty(v.zones, zone);
            let extent = Extents {
                zone,
                offset: offset as u32,
                actual_size: len as u32,
                zone_extent_num: z.extent_count,
            };
            let zones1 = v.zones.insert(zone, zone_add_extent(z));
            let written = ShimmerView {
                files: file_after_write(v.files, request.file, extent),
                zones: zones1,
                bytes_written: v.bytes_written.wrapping_add(aligned as u64),
                zone_offsets: v.zone_offsets.insert(zone, new_offset as u64),
                ..v
            };
            &&& r == Ok::<WriteOutcome, WriteError>(
                WriteOutcome::Write {
                    zone,
                    aligned_size: aligned as u32,
                    pad_after: if rotates {
                        Some(cfg.zone_size)
                    } else {
                        None
                    },
                    response,
                },
            )
            &&& post == if rotates {
                ShimmerView {
                    zones: mark_zone_full(zones1, zone),
                    zone_offsets: v.zone_offsets.remove(zone),
                    stream_zones: v.stream_zones.insert(request.stream, v.free_zones[0]),
                    free_zones: v.free_zones.subrange(1, v.free_zones.len() as int),
                    ..written
                }
            } else {
                written
            }
        }
    }
}

/// Marks `zone` full, when there is metadata for it.
fn mark_full_if_present(state: &mut ShimmerState, zone: u32)
    requires
        old(state).wf(),
    ensures
        final(state).wf(),
        final(state)@ == (ShimmerView { zones: mark_zone_full(old(state)@.zones, zone), ..old(state)@ }),
{
    match zone_table_take(&mut state.zone_metadata_map, zone) {
        Some(mut z) => {
            z.mark_full();
            zone_table_insert(&mut state.zone_metadata_map, zone, z);
        },
        None => {},
    }
    proof {
        assert(state@ =~= (ShimmerView {
            zones: mark_zone_full(old(state)@.zones, zone),
            ..old(state)@
        }));
    }
}

/// Takes a write request off the queue: decides where the buffer goes, records the new
/// extent in the file's and the zone's metadata, advances the zone's write offset, and
/// rotates the stream to the next free zone when the zone has no room for the buffer or
/// is filled by it. What the caller then does with the zone files is in the outcome.
pub fn process_write_request(state: &mut ShimmerState, request: &WriteRequest) -> (r: Result<
    WriteOutcome,
    WriteError,
>)
    requires
        old(state).wf(),
        old(state)@.config is Some,
        old(state)@.stream_zones.contains_key(request.stream),
        old(state)@.zone_offsets.contains_key(old(state)@.stream_zones[request.stream]),
        old(state)@.buffers.contains_key(request.buffer),
    ensures
        final(state).wf(),
        write_request_effect(old(state)@, *request, final(state)@, r),
{
    let ghost v = state@;
    let zone = hint_table_get(&state.stream_to_hint, request.stream).unwrap();
    let offset = offset_table_get(&state.write_zones, zone).unwrap();
    let len = buffer_data_len(state, request.buffer);
    let response = WriteResponse::new(request.id, request.fd, request.buffer);
    if len == 0 {
        return Ok(WriteOutcome::Complete(response));
    }
    let cfg = state.config.unwrap();
    let actual = len as u32;
    let aligned = align_to_page(actual);
    let cap = cfg.zone_capacity as u64;
    let fits = aligned as u64 <= cap && offset <= cap - aligned as u64;
    if !fits {
        if state.free_zone.len() == 0 {
            return Err(WriteError::NoFreeZone);
        }
        mark_full_if_present(state, zone);
        offset_table_remove(&mut state.write_zones, zone);
        assign_zone(state, request.stream);
        proof {
            assert(state@ =~= (ShimmerView {
                zones: mark_zone_full(v.zones, zone),
                zone_offsets: v.zone_offsets.remove(zone),
                stream_zones: v.stream_zones.insert(request.stream, v.free_zones[0]),
                free_zones: v.free_zones.subrange(1, v.free_zones.len() as int),
                ..v
            }));
        }
        return Ok(WriteOutcome::Retry { zone, pad_to: cfg.zone_size });
    }
    let new_offset = offset + aligned as u64;
    let rotates = new_offset >= cap;
    if rotates && state.free_zone.len() == 0 {
        return Err(WriteError::NoFreeZone);
    }
    let mut z = match zone_table_take(&mut state.zone_metadata_map, zone) {
        Some(z) => z,
        None => Zone::new(),
    };
    let num = z.add_extent();
    zone_table_insert(&mut state.zone_metadata_map, zone, z);
    let extent = Extents::new(zone, offset as u32, actual, num);
    let file = match file_table_take(&mut state.filesystem, request.file) {
        Some(mut f) => {
            f.file_size = f.file_size.wrapping_add(actual);
            f.extents.push(extent);
            f
        },
        None => {
            let mut f = Files::new(actual);
            f.extents.push(extent);
            f
        },
    };
    file_table_insert(&mut state.filesystem, request.file, file);
    state.bytes_written = state.bytes_written.wrapping_add(aligned as u64);
    offset_table_insert(&mut state.write_zones, zone, new_offset);
    let ghost written = ShimmerView {
        files: file_after_write(v.files, request.file, extent),
        zones: v.zones.insert(zone, zone_add_extent(zone_or_empty(v.zones, zone))),
        bytes_written: v.bytes_written.wrapping_add(aligned as u64),
        zone_offsets: v.zone_offsets.insert(zone, new_offset),
        ..v
    };
    proof {
        assert(state@.files =~= written.files);
        assert(state@.zones =~= written.zones);
        assert(state@ =~= written);
    }
    if rotates {
        mark_full_if_present(state, zone);
        offset_table_remove(&mut state.write_zones, zone);
        assign_zone(state, request.stream);
        proof {
            assert(state@ =~= (ShimmerView {
                zones: mark_zone_full(written.zones, zone),
                zone_offsets: v.zone_offsets.remove(zone),
                stream_zones: v.stream_zones.insert(request.stream, v.free_zones[0]),
                free_zones: v.free_zones.subrange(1, v.free_zones.len() as int),
                ..written
            }));
        }
        return Ok(
            WriteOutcome::Write { zone, aligned_size: aligned, pad_after: Some(cfg.zone_size), response },
        );
    }
    Ok(WriteOutcome::Write { zone, aligned_size: aligned, pad_after: None, response })
}

/// A zone is closed after a write only when the write fills it. A buffer is written at the
/// write offset of its stream's zone, rounded up to whole blocks, and only when it fits in
/// the zone's capacity; the zone is then padded and closed, and the stream moved on, exactly
/// when the write reaches the capacity. Otherwise the zone stays open at the offset after
/// the write and the stream keeps it. A request is sent again only when the buffer did not
/// fit.
pub proof fn lemma_zone_closed_only_when_filled(
    v: ShimmerView,
    request: WriteRequest,
    post: ShimmerView,
    r: Result<WriteOutcome, WriteError>,
)
    requires
        write_request_effect(v, request, post, r),
    ensures
        ({
            let zone = v.stream_zones[request.stream];
            let offset = v.zone_offsets[zone];
            let len = v.buffers[request.buffer].data.len();
            let cap = v.config.unwrap().zone_capacity;
            &&& r matches Ok(WriteOutcome::Write { zone: wz, aligned_size: a, pad_after: p, .. })
                ==> {
                &&& wz == zone
                &&& a == aligned_size(len as int)
                &&& offset + a <= cap
                &&& (p is Some <==> offset + a >= cap)
                &&& p is None ==> post.zone_offsets.contains_key(zone) && post.zone_offsets[zone]
                    == offset + a && post.stream_zones[request.stream] == zone
                &&& p is Some ==> !post.zone_offsets.contains_key(zone)
                    && post.stream_zones[request.stream] == v.free_zones[0]
            }
            &&& r matches Ok(WriteOutcome::Retry { zone: rz, .. }) ==> rz == zone && offset
                + aligned_size(len as int) > cap
        }),
{
}

/// A zone that stays open after a write still has room: its write offset is below the
/// zone capacity.
pub proof fn lemma_open_zone_has_room(
    v: ShimmerView,
    request: WriteRequest,
    post: ShimmerView,
    zone: u32,
    aligned: u32,
    response: WriteResponse,
)
    requires
        write_request_effect(
            v,
            request,
            post,
            Ok(WriteOutcome::Write { zone, aligned_size: aligned, pad_after: None, response }),
        ),
    ensures
        post.zone_offsets.contains_key(zone),
        post.zone_offsets[zone] < v.config.unwrap().zone_capacity,
{
}

/// The extent that a write of buffer `request.buffer` records: in the stream's zone, at the
/// zone's write offset, numbered after the extents the zone has.
pub open spec fn written_extent(v: ShimmerView, request: WriteRequest) -> Extents {
    let zone = v.stream_zones[request.stream];
    Extents {
        zone,
        offset: v.zone_offsets[zone] as u32,
        actual_size: v.buffers[request.buffer].data.len() as u32,
        zone_extent_num: zone_or_empty(v.zones, zone).extent_count,
    }
}

/// Whether `r` is the outcome of a request whose buffer was written to a zone.
pub open spec fn is_zone_write(r: Result<WriteOutcome, WriteError>) -> bool {
    match r {
        Ok(WriteOutcome::Write { .. }) => true,
        _ => false,
    }
}

/// Every file's size is the number of bytes its extents hold.
pub open spec fn sizes_match_extents(v: ShimmerView) -> bool {
    forall|f: u32| #[trigger] v.files.contains_key(f) ==> v.files[f].file_size == extents_len(
        v.files[f].extents,
    )
}

/// Extent `e` is numbered below its zone's extent count and, while its zone is open for
/// writing, ends, rounded up to whole blocks, at or below the zone's write offset.
pub open spec fn extent_behind_writer(v: ShimmerView, e: Extents) -> bool {
    &&& e.zone_extent_num < zone_or_empty(v.zones, e.zone).extent_count
    &&& v.zone_offsets.contains_key(e.zone) ==> e.offset + aligned_size(e.actual_size as int)
        <= v.zone_offsets[e.zone]
}

/// Every extent of every file lies behind its zone's writer.
pub open spec fn extents_behind_writers(v: ShimmerView) -> bool {
    forall|f: u32, i: int|
        v.files.contains_key(f) && 0 <= i < v.files[f].extents.len() ==> extent_behind_writer(
            v,
            #[trigger] v.files[f].extents[i],
        )
}

proof fn lemma_extents_len_push(exts: Seq<Extents>, e: Extents)
    ensures
        extents_len(exts.push(e)) == extents_len(exts) + e.actual_size,
{
    let n = exts.len() as int;
    lemma_extent_start_prefix(exts, e, n);
    lemma_extent_start_step(exts.push(e), n);
}

/// The write path keeps the extent records sound. When every file's size is the sum of
/// its extents and every extent lies behind its zone's writer, both still hold after a
/// write request is processed, as long as the file's size and the zone's extent count do
/// not wrap. And an extent that a write records starts where every earlier extent of its
/// zone has ended and carries a number that none of them has.
pub proof fn lemma_write_keeps_extents_sound(
    v: ShimmerView,
    request: WriteRequest,
    post: ShimmerView,
    r: Result<WriteOutcome, WriteError>,
)
    requires
        crate::statics::state_wf(v),
        v.config is Some,
        v.stream_zones.contains_key(request.stream),
        v.zone_offsets.contains_key(v.stream_zones[request.stream]),
        v.buffers.contains_key(request.buffer),
        write_request_effect(v, request, post, r),
        sizes_match_extents(v),
        extents_behind_writers(v),
        zone_or_empty(v.zones, v.stream_zones[request.stream]).extent_count < u32::MAX,
        v.files.contains_key(request.file) ==> v.files[request.file].file_size
            + v.buffers[request.buffer].data.len() <= u32::MAX,
    ensures
        sizes_match_extents(post),
        extents_behind_writers(post),
        is_zone_write(r) ==> forall|f: u32, i: int|
            #![trigger v.files[f].extents[i]]
            v.files.contains_key(f) && 0 <= i < v.files[f].extents.len()
                && v.files[f].extents[i].zone == written_extent(v, request).zone ==> {
                let old_e = v.files[f].extents[i];
                let e = written_extent(v, request);
                &&& old_e.offset + aligned_size(old_e.actual_size as int) <= e.offset
                &&& old_e.zone_extent_num < e.zone_extent_num
            },
{
    let zone = v.stream_zones[request.stream];
    let offset = v.zone_offsets[zone];
    let len = v.buffers[request.buffer].data.len();
    let aligned = aligned_size(len as int);
    let cfg = v.config.unwrap();
    let e = written_extent(v, request);
    if len == 0 || post == v {
    } else if offset + aligned > cfg.zone_capacity {
        assert(post.files == v.files);
        assert forall|f: u32, i: int|
            post.files.contains_key(f) && 0 <= i < post.files[f].extents.len() implies
            extent_behind_writer(post, #[trigger] post.files[f].extents[i]) by {
            let x = v.files[f].extents[i];
            assert(extent_behind_writer(v, x));
            assert(zone_or_empty(post.zones, x.zone).extent_count == zone_or_empty(v.zones, x.zone).extent_count);
        }
    } else {
        let new_offset = offset + aligned;
        let z = zone_or_empty(v.zones, zone);
        assert(len <= PREFERRED_BUFFER_SIZE);
        assert(e.offset == offset);
        assert(e.actual_size == len);
        let zones1 = v.zones.insert(zone, zone_add_extent(z));
        assert(zone_or_empty(zones1, zone).extent_count == z.extent_count + 1);
        assert(post.files == file_after_write(v.files, request.file, e));
        assert forall|y: Extents| extent_behind_writer(v, y) implies #[trigger] extent_behind_writer(post, y) by {
            if y.zone == zone {
                assert(zone_or_empty(post.zones, y.zone).extent_count == z.extent_count + 1);
            } else {
                assert(zone_or_empty(post.zones, y.zone).extent_count == zone_or_empty(v.zones, y.zone).extent_count);
            }
        }
        assert(extent_behind_writer(post, e)) by {
            assert(zone_or_empty(post.zones, zone).extent_count == z.extent_count + 1);
        }
        assert forall|f: u32, i: int|
            post.files.contains_key(f) && 0 <= i < post.files[f].extents.len() implies
            extent_behind_writer(post, #[trigger] post.files[f].extents[i]) by {
            if f == request.file {
                if v.files.contains_key(f) {
                    if i < v.files[f].extents.len() {
                        assert(post.files[f].extents[i] == v.files[f].extents[i]);
                        assert(extent_behind_writer(v, v.files[f].extents[i]));
                    } else {
                        assert(post.files[f].extents[i] == e);
                    }
                } else {
                    assert(post.files[f].extents[i] == e);
                }
            } else {
                assert(extent_behind_writer(v, v.files[f].extents[i]));
            }
        }
        assert forall|f: u32| #[trigger] post.files.contains_key(f) implies post.files[f].file_size
            == extents_len(post.files[f].extents) by {
            if f == request.file {
                if v.files.contains_key(f) {
                    lemma_extents_len_push(v.files[f].extents, e);
                } else {
                    lemma_extents_len_push(Seq::empty(), e);
                    assert(seq![e] =~= Seq::<Extents>::empty().push(e));
                }
            }
        }
        assert forall|f: u32, i: int|
            #![trigger v.files[f].extents[i]]
            v.files.contains_key(f) && 0 <= i < v.files[f].extents.len()
                && v.files[f].extents[i].zone == zone implies {
                let old_e = v.files[f].extents[i];
                &&& old_e.offset + aligned_size(old_e.actual_size as int) <= e.offset
                &&& old_e.zone_extent_num < e.zone_extent_num
            } by {
            assert(extent_behind_writer(v, v.files[f].extents[i]));
        }
    }
}

/// The zone the stream currently writes to, if any.
pub fn zone_for_stream(state: &ShimmerState, stream: Stream) -> (zone: Option<u32>)
    ensures
        state@.stream_zones.contains_key(stream) ==> zone == Some(state@.stream_zones[stream]),
        !state@.stream_zones.contains_key(stream) ==> zone is None,
{
    hint_table_get(&state.stream_to_hint, stream)
}

/// The write offset of `zone`, if the zone is open for writing.
pub fn zone_writer_offset(state: &ShimmerState, zone: u32) -> (offset: Option<u64>)
    ensures
        state@.zone_offsets.contains_key(zone) ==> offset == Some(state@.zone_offsets[zone]),
        !state@.zone_offsets.contains_key(zone) ==> offset is None,
{
    offset_table_get(&state.write_zones, zone)
}

/// Opens `zone` for writing at `initial_offset`, the current length of its file; a zone
/// already open keeps its offset.
pub fn open_zone_writer(state: &mut ShimmerState, zone: u32, initial_offset: u64)
    requires
        old(state).wf(),
    ensures
        final(state).wf(),
        old(state)@.zone_offsets.contains_key(zone) ==> final(state)@ == old(state)@,
        !old(state)@.zone_offsets.contains_key(zone) ==> final(state)@ == (ShimmerView {
            zone_offsets: old(state)@.zone_offsets.insert(zone, initial_offset),
            ..old(state)@
        }),
{
    match offset_table_get(&state.write_zones, zone) {
        Some(_) => {
            proof {
                assert(state@ =~= old(state)@);
            }
        },
        None => {
            offset_table_insert(&mut state.write_zones, zone, initial_offset);
            proof {
                assert(state@ =~= (ShimmerView {
                    zone_offsets: old(state)@.zone_offsets.insert(zone, initial_offset),
                    ..old(state)@
                }));
            }
        },
    }
}

/// A copy of the bytes of buffer `buffer_id`, for the writer; the buffer itself keeps them
/// so that reads can still be served from it.
pub fn buffer_data(state: &ShimmerState, buffer_id: u32) -> (data: Option<Vec<u8>>)
    ensures
        state@.buffers.contains_key(buffer_id) ==> data is Some && data.unwrap()@
            == state@.buffers[buffer_id].data,
        !state@.buffers.contains_key(buffer_id) ==> data is None,
{
    buffer_table_data(&state.buffer_pool, buffer_id)
}

/// Pads `buffer` with zeros up to the next multiple of `BLOCK_SIZE`, as direct writes to a
/// zone require.
pub fn align_buffer(buffer: &mut Vec<u8>)
    requires
        old(buffer)@.len() <= MAX_ALIGNABLE_SIZE,
    ensures
        final(buffer)@.len() == aligned_size(old(buffer)@.len() as int),
        final(buffer)@ == old(buffer)@ + Seq::new(
            (aligned_size(old(buffer)@.len() as int) - old(buffer)@.len()) as nat,
            |i: int| 0u8,
        ),
{
    let target = align_to_page(buffer.len() as u32) as usize;
    let ghost start = buffer@;
    while buffer.len() < target
        invariant
            start.len() <= buffer@.len() <= target,
            target == aligned_size(start.len() as int),
            buffer@.subrange(0, start.len() as int) == start,
            forall|i: int| start.len() <= i < buffer@.len() ==> buffer@[i] == 0u8,
        decreases target - buffer@.len(),
    {
        buffer.push(0u8);
    }
    proof {
        assert(buffer@ =~= start + Seq::new((target - start.len()) as nat, |i: int| 0u8));
    }
}

/// The pieces in which a buffer of `total` bytes is written to a zone: as many pieces of
/// `CHUNK_SIZE` bytes as fit, then the remainder, if any.
pub fn write_chunks(total: usize) -> (chunks: Vec<usize>)
    ensures
        chunks@.len() == total as int / CHUNK_SIZE as int + if total as int % CHUNK_SIZE as int == 0 {
            0int
        } else {
            1int
        },
        forall|i: int| 0 <= i < total as int / CHUNK_SIZE as int ==> chunks@[i] == CHUNK_SIZE,
        total as int % CHUNK_SIZE as int != 0 ==> chunks@[chunks@.len() - 1] == total as int % CHUNK_SIZE as int,
{
    let mut chunks: Vec<usize> = Vec::new();
    let mut remaining = total;
    while remaining >= CHUNK_SIZE as usize
        invariant
            remaining <= total,
            (total - remaining) as int % CHUNK_SIZE as int == 0,
            chunks@.len() == (total - remaining) as int / CHUNK_SIZE as int,
            forall|i: int| 0 <= i < chunks@.len() ==> chunks@[i] == CHUNK_SIZE,
        decreases remaining,
    {
        chunks.push(CHUNK_SIZE as usize);
        remaining = remaining - CHUNK_SIZE as usize;
    }
    if remaining > 0 {
        chunks.push(remaining);
    }
    chunks
}

/// Returns a reset zone to the pool of free zones, at the end of the queue.
pub fn release_zone(state: &mut ShimmerState, zone: u32)
    requires
        old(state).wf(),
    ensures
        final(state).wf(),
        final(state)@ == (ShimmerView { free_zones: old(state)@.free_zones.push(zone), ..old(state)@ }),
{
    state.free_zone.push_back(zone);
    proof {
        assert(state@ =~= (ShimmerView {
            free_zones: old(state)@.free_zones.push(zone),
            ..old(state)@
        }));
    }
}

/// Where extent `i` starts in the file: the sizes of the extents before it, added up.
pub open spec fn extent_start(exts: Seq<Extents>, i: int) -> int
    decreases i,
{
    if i <= 0 || exts.len() == 0 {
        0
    } else if i > exts.len() {
        extent_start(exts, exts.len() as int)
    } else {
        extent_start(exts, i - 1) + exts[i - 1].actual_size
    }
}

/// The number of bytes of the file that its extents hold.
pub open spec fn extents_len(exts: Seq<Extents>) -> int {
    extent_start(exts, exts.len() as int)
}

/// The start of extent `i + 1` is the end of extent `i`, and starts grow with the index.
proof fn lemma_extent_start_step(exts: Seq<Extents>, i: int)
    requires
        0 <= i < exts.len(),
    ensures
        extent_start(exts, i + 1) == extent_start(exts, i) + exts[i].actual_size,
        0 <= extent_start(exts, i) <= i * 0xFFFF_FFFF,
    decreases i,
{
    if i > 0 {
        lemma_extent_start_step(exts, i - 1);
    }
}

/// Extent starts grow with the index.
proof fn lemma_extent_start_mono(exts: Seq<Extents>, i: int, j: int)
    requires
        0 <= i <= j <= exts.len(),
    ensures
        extent_start(exts, i) <= extent_start(exts, j),
    decreases j - i,
{
    if i < j {
        lemma_extent_start_step(exts, j - 1);
        lemma_extent_start_mono(exts, i, j - 1);
    }
}

/// A read of `len` bytes at `zone_offset` of the file of zone `zone`.
#[derive(Debug, Clone, Copy)]
pub struct ZoneRead {
    pub zone: u32,
    pub zone_offset: i64,
    pub len: usize,
}

/// A read of up to `count` bytes from the write buffer of a file, at `file_offset` of the
/// file, where the buffer holds the bytes from `buffer_start` on; they go `dest_offset`
/// bytes into the reader's memory.
#[derive(Debug, Clone, Copy)]
pub struct BufferRead {
    pub file_offset: i128,
    pub buffer_start: i128,
    pub count: usize,
    pub dest_offset: usize,
}

/// How a read of a file is served: from ranges of zone files, in order, each read into the
/// reader's memory right after the one before; then, if all of them delivered every byte,
/// from the file's write buffer.
pub struct ReadPlan {
    pub zone_reads: Vec<ZoneRead>,
    pub buffer_read: Option<BufferRead>,
}

/// The zone ranges that hold the bytes `pos..end` of the file, from extent `i` on: for each
/// extent that holds some of them, in file order, the part it holds.
pub open spec fn zone_reads_from(exts: Seq<Extents>, i: int, pos: int, end: int) -> Seq<ZoneRead>
    decreases exts.len() - i,
{
    if i < 0 || i >= exts.len() || pos >= end {
        Seq::empty()
    } else {
        let base = extent_start(exts, i);
        let top = base + exts[i].actual_size;
        if pos >= top {
            zone_reads_from(exts, i + 1, pos, end)
        } else {
            let stop = if end < top {
                end
            } else {
                top
            };
            seq![
                ZoneRead {
                    zone: exts[i].zone,
                    zone_offset: (exts[i].offset + (pos - base)) as i64,
                    len: (stop - pos) as usize,
                },
            ] + zone_reads_from(exts, i + 1, stop, end)
        }
    }
}

/// How a read of `count` bytes at `offset` of a file with extents `exts` is served. When
/// the offset lies within the extents, the zone ranges that hold the requested bytes are
/// read, and whatever lies past the extents is read from the write buffer, which holds the
/// bytes that follow them. Otherwise the whole read goes to the write buffer.
pub open spec fn read_plan_matches(exts: Seq<Extents>, offset: int, count: int, plan: ReadPlan) -> bool {
    let total = extents_len(exts);
    let end = offset + count;
    if 0 <= offset < total {
        &&& plan.zone_reads@ == zone_reads_from(exts, 0, offset, end)
        &&& if end > total {
            plan.buffer_read == Some(
                BufferRead {
                    file_offset: total as i128,
                    buffer_start: total as i128,
                    count: (end - total) as usize,
                    dest_offset: (total - offset) as usize,
                },
            )
        } else {
            plan.buffer_read is None
        }
    } else {
        &&& plan.zone_reads@.len() == 0
        &&& plan.buffer_read == Some(
            BufferRead {
                file_offset: offset as i128,
                buffer_start: total as i128,
                count: count as usize,
                dest_offset: 0,
            },
        )
    }
}

/// Plans a read of `count` bytes at `offset` of a file with the given extents.
pub fn plan_read(extents: &Vec<Extents>, offset: i64, count: usize) -> (plan: ReadPlan)
    ensures
        read_plan_matches(extents@, offset as int, count as int, plan),
{
    let ghost exts = extents@;
    let n = extents.len();
    let mut total: i128 = 0;
    let mut k: usize = 0;
    while k < n
        invariant
            exts == extents@,
            n == exts.len(),
            0 <= k <= n,
            total == extent_start(exts, k as int),
            total <= k * 0xFFFF_FFFF,
        decreases n - k,
    {
        proof {
            lemma_extent_start_step(exts, k as int);
        }
        total = total + extents[k].actual_size as i128;
        k = k + 1;
    }
    let start = offset as i128;
    let end = start + count as i128;
    if !(0 <= start && start < total) {
        return ReadPlan {
            zone_reads: Vec::new(),
            buffer_read: Some(
                BufferRead { file_offset: start, buffer_start: total, count, dest_offset: 0 },
            ),
        };
    }
    let mut reads: Vec<ZoneRead> = Vec::new();
    let mut base: i128 = 0;
    let mut pos: i128 = start;
    let mut i: usize = 0;
    while i < n && pos < end
        invariant
            exts == extents@,
            n == exts.len(),
            0 <= i <= n,
            base == extent_start(exts, i as int),
            base <= i * 0xFFFF_FFFF,
            start <= pos <= end,
            end == start + count,
            zone_reads_from(exts, 0, start as int, end as int) == reads@ + zone_reads_from(
                exts,
                i as int,
                pos as int,
                end as int,
            ),
            i < n && pos < end ==> base <= pos,
            i == n && pos < end ==> pos == total,
            pos <= total,
            total == extent_start(exts, n as int),
        decreases n - i,
    {
        proof {
            lemma_extent_start_step(exts, i as int);
            lemma_extent_start_mono(exts, i as int + 1, n as int);
        }
        let e = extents[i];
        let top = base + e.actual_size as i128;
        if pos < top {
            let stop = if end < top {
                end
            } else {
                top
            };
            let read = ZoneRead {
                zone: e.zone,
                zone_offset: (e.offset as i128 + (pos - base)) as i64,
                len: (stop - pos) as usize,
            };
            proof {
                assert(zone_reads_from(exts, i as int, pos as int, end as int) == seq![read]
                    + zone_reads_from(exts, i + 1, stop as int, end as int));
            }
            let ghost before = reads@;
            reads.push(read);
            proof {
                assert(reads@ =~= before + seq![read]);
                assert(before + (seq![read] + zone_reads_from(exts, i + 1, stop as int, end as int))
                    =~= reads@ + zone_reads_from(exts, i + 1, stop as int, end as int));
            }
            pos = stop;
        }
        base = top;
        i = i + 1;
    }
    proof {
        assert(zone_reads_from(exts, i as int, pos as int, end as int) =~= Seq::<ZoneRead>::empty());
        assert(reads@ + Seq::<ZoneRead>::empty() =~= reads@);
    }
    let buffer_read = if end > total {
        Some(
            BufferRead {
                file_offset: total,
                buffer_start: total,
                count: (end - total) as usize,
                dest_offset: (total - start) as usize,
            },
        )
    } else {
        None
    };
    ReadPlan { zone_reads: reads, buffer_read }
}

/// Where a read of a file stands after one of its zone reads.
#[derive(Debug, Clone, Copy, PartialEq, Eq, Structural)]
pub struct ReadStep {
    /// The bytes delivered so far.
    pub total: usize,
    /// Whether the next zone read, or else the read from the write buffer, follows.
    pub go_on: bool,
}

/// The step after a zone read that asked for `requested` bytes and got `bytes_read`, with
/// `total_read` bytes delivered before it: a failed read (nothing, or an error) stops the
/// read with what was delivered; a short read stops it after adding what arrived; a full
/// one adds its bytes and the read goes on.
pub fn after_zone_read(total_read: usize, requested: usize, bytes_read: isize) -> (step: ReadStep)
    requires
        bytes_read > 0 ==> total_read + bytes_read <= usize::MAX,
    ensures
        bytes_read <= 0 ==> step == (ReadStep { total: total_read, go_on: false }),
        bytes_read > 0 ==> step == (ReadStep {
            total: (total_read + bytes_read) as usize,
            go_on: bytes_read >= requested,
        }),
{
    if bytes_read <= 0 {
        return ReadStep { total: total_read, go_on: false };
    }
    let got = bytes_read as usize;
    ReadStep { total: total_read + got, go_on: got >= requested }
}

/// Where byte `p` of a file with extents `exts` is stored, looking from extent `i` on: the
/// zone of the extent that holds it, and its offset in that zone's file.
pub open spec fn byte_location_from(exts: Seq<Extents>, i: int, p: int) -> (u32, int) {
    let k = find_extent_from(exts, i, p).unwrap();
    (exts[k].zone, exts[k].offset + (p - extent_start(exts, k)))
}

/// Where byte `p` of a file with extents `exts` is stored.
pub open spec fn byte_location(exts: Seq<Extents>, p: int) -> (u32, int) {
    byte_location_from(exts, 0, p)
}

/// The number of bytes that the zone reads `rs` deliver.
pub open spec fn reads_len(rs: Seq<ZoneRead>) -> int
    decreases rs.len(),
{
    if rs.len() == 0 {
        0
    } else {
        rs[0].len + reads_len(rs.drop_first())
    }
}

/// Where the `t`-th byte that the zone reads `rs`, laid end to end, deliver comes from.
pub open spec fn delivered_from(rs: Seq<ZoneRead>, t: int) -> (u32, int)
    decreases rs.len(),
{
    if rs.len() == 0 {
        (0, 0)
    } else if t < rs[0].len {
        (rs[0].zone, rs[0].zone_offset + t)
    } else {
        delivered_from(rs.drop_first(), t - rs[0].len)
    }
}

proof fn lemma_zone_reads_deliver(exts: Seq<Extents>, i: int, pos: int, end: int)
    requires
        0 <= i <= exts.len(),
        extent_start(exts, i) <= pos || end <= pos,
        pos <= extents_len(exts),
        end - pos <= usize::MAX,
    ensures
        ({
            let rs = zone_reads_from(exts, i, pos, end);
            let stop = if end < extents_len(exts) {
                end
            } else {
                extents_len(exts)
            };
            &&& reads_len(rs) == if stop > pos {
                stop - pos
            } else {
                0
            }
            &&& forall|t: int|
                #![trigger find_extent_from(exts, i, pos + t)]
                #![trigger delivered_from(rs, t)]
                0 <= t < reads_len(rs) ==> find_extent_from(exts, i, pos + t) is Some && delivered_from(rs, t)
                    == byte_location_from(exts, i, pos + t)
        }),
    decreases exts.len() - i,
{
    let rs = zone_reads_from(exts, i, pos, end);
    if i >= exts.len() || pos >= end {
        return;
    }
    lemma_extent_start_step(exts, i);
    lemma_extent_start_mono(exts, i + 1, exts.len() as int);
    let base = extent_start(exts, i);
    let top = base + exts[i].actual_size;
    if pos >= top {
        lemma_zone_reads_deliver(exts, i + 1, pos, end);
        assert(rs == zone_reads_from(exts, i + 1, pos, end));
        assert forall|t: int|
            #![trigger find_extent_from(exts, i, pos + t)]
            #![trigger delivered_from(rs, t)]
            0 <= t < reads_len(rs) implies find_extent_from(exts, i, pos + t) is Some
            && delivered_from(rs, t) == byte_location_from(exts, i, pos + t) by {
            let rest = zone_reads_from(exts, i + 1, pos, end);
            assert(delivered_from(rest, t) == delivered_from(rs, t));
            assert(find_extent_from(exts, i + 1, pos + t) is Some);
            assert(find_extent_from(exts, i, pos + t) == find_extent_from(exts, i + 1, pos + t));
        }
        return;
    }
    let stop = if end < top {
        end
    } else {
        top
    };
    let first = ZoneRead {
        zone: exts[i].zone,
        zone_offset: (exts[i].offset + (pos - base)) as i64,
        len: (stop - pos) as usize,
    };
    let rest = zone_reads_from(exts, i + 1, stop, end);
    assert(rs == seq![first] + rest);
    assert(rs.drop_first() =~= rest);
    assert(rs[0] == first);
    lemma_zone_reads_deliver(exts, i + 1, stop, end);
    assert(reads_len(rs) == first.len + reads_len(rest));
    assert forall|t: int|
        #![trigger find_extent_from(exts, i, pos + t)]
        #![trigger delivered_from(rs, t)]
        0 <= t < reads_len(rs) implies find_extent_from(exts, i, pos + t) is Some
        && delivered_from(rs, t) == byte_location_from(exts, i, pos + t) by {
        if t < stop - pos {
            assert(find_extent_from(exts, i, pos + t) == Some(i));
        } else {
            assert(delivered_from(rs, t) == delivered_from(rest, t - (stop - pos)));
            assert(find_extent_from(exts, i + 1, stop + (t - (stop - pos))) is Some);
            assert(find_extent_from(exts, i, pos + t) == find_extent_from(exts, i + 1, pos + t));
        }
    }
}

/// Extents before `i` end at or before where extent `i` starts, so they hold no byte from
/// there on: looking for such a byte from the first extent or from extent `i` finds the same.
proof fn lemma_find_skips_earlier(exts: Seq<Extents>, i: int, p: int)
    requires
        0 <= i <= exts.len(),
        extent_start(exts, i) <= p,
    ensures
        find_extent_from(exts, 0, p) == find_extent_from(exts, i, p),
    decreases i,
{
    if i > 0 {
        lemma_extent_start_step(exts, i - 1);
        assert(find_extent_from(exts, i - 1, p) == find_extent_from(exts, i, p));
        lemma_find_skips_earlier(exts, i - 1, p);
    }
}

/// A read planned within a file's extents reads each requested byte that the extents hold
/// from where that byte is stored: the zone reads, laid end to end, deliver the bytes from
/// `offset` up to the end of the request or of the extents, in order, each from its zone
/// and offset in the zone file.
pub proof fn lemma_read_plan_reads_stored_bytes(exts: Seq<Extents>, offset: int, count: usize)
    requires
        0 <= offset < extents_len(exts),
    ensures
        ({
            let rs = zone_reads_from(exts, 0, offset, offset + count);
            let stop = if offset + count < extents_len(exts) {
                offset + count
            } else {
                extents_len(exts)
            };
            &&& reads_len(rs) == stop - offset
            &&& forall|t: int|
                #![trigger find_extent_from(exts, 0, offset + t)]
                #![trigger delivered_from(rs, t)]
                0 <= t < stop - offset ==> find_extent_from(exts, 0, offset + t) is Some
                    && delivered_from(rs, t) == byte_location(exts, offset + t)
        }),
{
    lemma_zone_reads_deliver(exts, 0, offset, offset + count);
}

proof fn lemma_extent_start_prefix(exts: Seq<Extents>, e: Extents, i: int)
    requires
        0 <= i <= exts.len(),
    ensures
        extent_start(exts.push(e), i) == extent_start(exts, i),
    decreases i,
{
    if i > 0 {
        lemma_extent_start_prefix(exts, e, i - 1);
        lemma_extent_start_step(exts, i - 1);
        lemma_extent_start_step(exts.push(e), i - 1);
    }
}

/// The bytes of a newly recorded extent are found where the writer put them: byte `t` of
/// the extent, which follows all earlier extents in the file, is located in the extent's
/// zone at the extent's offset plus `t`.
pub proof fn lemma_written_extent_located(exts: Seq<Extents>, e: Extents, t: int)
    requires
        0 <= t < e.actual_size,
    ensures
        find_extent_from(exts.push(e), 0, extents_len(exts) + t) == Some(exts.len() as int),
        byte_location(exts.push(e), extents_len(exts) + t) == (e.zone, e.offset + t),
{
    let all = exts.push(e);
    let n = exts.len() as int;
    lemma_extent_start_prefix(exts, e, n);
    assert(extent_start(all, n) == extents_len(exts));
    assert(all[n] == e);
    lemma_find_skips_earlier(all, n, extents_len(exts) + t);
    assert(find_extent_from(all, n, extents_len(exts) + t) == Some(n));
}

/// Bytes that a write adds to a file's write buffer without filling it are read back from
/// the buffer: a read of as many bytes at the file offset where they begin finds exactly
/// them, and nothing is handed to the writer.
pub proof fn lemma_buffered_write_reads_back(
    v: ShimmerView,
    fd: i32,
    data: Seq<u8>,
    post: ShimmerView,
    requests: Seq<WriteRequest>,
    buffer_start: int,
)
    requires
        crate::statics::state_wf(v),
        v.fd_buffers.contains_key(fd),
        v.buffers[v.fd_buffers[fd]].data.len() + data.len() <= PREFERRED_BUFFER_SIZE,
        crate::replacements::buffered_write_effect(v, fd, data, post, requests),
    ensures
        requests.len() == 0,
        buffered_bytes(
            post,
            fd,
            data.len() as int,
            buffer_start + v.buffers[v.fd_buffers[fd]].data.len(),
            buffer_start,
        ) == data,
{
    let b = v.fd_buffers[fd];
    let old_data = v.buffers[b].data;
    let plan = crate::replacements::append_plan(v.buffers, b, data);
    if data.len() == 0 {
        assert(plan.2.len() == 0);
        assert(post.buffers == v.buffers);
        assert(buffered_bytes(post, fd, 0, buffer_start + old_data.len(), buffer_start) =~= data);
    } else {
        assert(plan.2 =~= Seq::<u32>::empty());
        assert(post.fd_buffers[fd] == b);
        assert(post.buffers[b].data == old_data + data);
        assert((old_data + data).subrange(old_data.len() as int, (old_data + data).len() as int) =~= data);
    }
}

/// The bytes a read of up to `count` bytes at `file_offset` of the file open as `fd` finds
/// in that file's write buffer, which holds the bytes of the file from `buffer_start` on.
pub open spec fn buffered_bytes(v: ShimmerView, fd: i32, count: int, file_offset: int, buffer_start: int) -> Seq<u8> {
    if v.fd_buffers.contains_key(fd) {
        let data = v.buffers[v.fd_buffers[fd]].data;
        let rel = file_offset - buffer_start;
        if 0 <= rel < data.len() {
            let stop = if rel + count < data.len() {
                rel + count
            } else {
                data.len() as int
            };
            data.subrange(rel, stop)
        } else {
            Seq::empty()
        }
    } else {
        Seq::empty()
    }
}

/// Reads up to `count` bytes at `file_offset` of the file open as `fd` from its write
/// buffer, which holds the bytes of the file from `buffer_start` on: data that has not
/// reached a zone yet. Nothing is found when the file has no write buffer or the offset
/// lies outside the buffered bytes.
pub fn read_from_buffer(
    state: &ShimmerState,
    fd: i32,
    count: usize,
    file_offset: i128,
    buffer_start: i128,
) -> (bytes: Vec<u8>)
    requires
        state.wf(),
        i128::MIN <= file_offset - buffer_start <= i128::MAX,
    ensures
        bytes@ == buffered_bytes(state@, fd, count as int, file_offset as int, buffer_start as int),
{
    let mut bytes: Vec<u8> = Vec::new();
    let buffer_num = match fd_table_get(&state.file_to_buffer_pool, fd) {
        Some(b) => b,
        None => {
            return bytes;
        },
    };
    proof {
        assert(state@.fd_buffers.contains_key(fd) && state@.fd_buffers[fd] == buffer_num);
        assert(state@.buffers.contains_key(buffer_num));
    }
    let data = buffer_table_data(&state.buffer_pool, buffer_num).unwrap();
    let rel = file_offset - buffer_start;
    if rel < 0 || rel >= data.len() as i128 {
        return bytes;
    }
    let from = rel as usize;
    let stop: usize = if rel + (count as i128) < data.len() as i128 {
        from + count
    } else {
        data.len()
    };
    let mut i = from;
    while i < stop
        invariant
            from <= i <= stop <= data@.len(),
            bytes@ == data@.subrange(from as int, i as int),
        decreases stop - i,
    {
        bytes.push(data[i]);
        proof {
            assert(data@.subrange(from as int, i as int + 1) =~= data@.subrange(from as int, i as int).push(
                data@[i as int],
            ));
        }
        i = i + 1;
    }
    bytes
}

/// Why a file descriptor's extents cannot be looked up.
#[derive(Debug, Clone, Copy, PartialEq, Eq, Structural)]
pub enum FileLookupError {
    /// The descriptor is not a file of the shim.
    NotTracked,
    /// The descriptor is a file of the shim, but there is no metadata for its file.
    NoFileInfo,
}

/// The extents of the file open as `fd`, in file order.
pub fn fd_file_extents(state: &ShimmerState, fd: i32) -> (r: Result<Vec<Extents>, FileLookupError>)
    ensures
        !state@.fd_uids.contains_key(fd) ==> r == Err::<Vec<Extents>, FileLookupError>(
            FileLookupError::NotTracked,
        ),
        state@.fd_uids.contains_key(fd) && !state@.files.contains_key(state@.fd_uids[fd]) ==> r
            == Err::<Vec<Extents>, FileLookupError>(FileLookupError::NoFileInfo),
        state@.fd_uids.contains_key(fd) && state@.files.contains_key(state@.fd_uids[fd]) ==> (r matches Ok(
            e,
        ) && e@ == state@.files[state@.fd_uids[fd]].extents),
{
    let uid = match fd_table_get(&state.fd_to_uid, fd) {
        Some(uid) => uid,
        None => {
            return Err(FileLookupError::NotTracked);
        },
    };
    match file_table_get(&state.filesystem, uid) {
        Some(f) => Ok(f.extents),
        None => Err(FileLookupError::NoFileInfo),
    }
}

/// A readahead of `count` bytes at `zone_offset` of the file of zone `zone`.
#[derive(Debug, Clone, Copy)]
pub struct ReadaheadRange {
    pub zone: u32,
    pub zone_offset: i64,
    pub count: usize,
}

/// The zone ranges to read ahead for bytes `offset..end` of the file, from extent `i` on:
/// for each extent that holds some of them, in file order, the part it holds.
pub open spec fn readahead_from(exts: Seq<Extents>, i: int, offset: int, end: int) -> Seq<ReadaheadRange>
    decreases exts.len() - i,
{
    if i < 0 || i >= exts.len() {
        Seq::empty()
    } else {
        let base = extent_start(exts, i);
        let size = exts[i].actual_size as int;
        let lo = if offset - base > 0 {
            offset - base
        } else {
            0
        };
        let hi = if end - base < size {
            end - base
        } else {
            size
        };
        let rest = readahead_from(exts, i + 1, offset, end);
        if offset < base + size && end > base && hi - lo > 0 {
            seq![
                ReadaheadRange {
                    zone: exts[i].zone,
                    zone_offset: (exts[i].offset + lo) as i64,
                    count: (hi - lo) as usize,
                },
            ] + rest
        } else {
            rest
        }
    }
}

/// Plans a readahead of `count` bytes at `offset` of a file with the given extents: the
/// parts of its extents that overlap the range, in file order.
pub fn plan_readahead(extents: &Vec<Extents>, offset: i64, count: usize) -> (ranges: Vec<ReadaheadRange>)
    ensures
        ranges@ == readahead_from(extents@, 0, offset as int, offset + count),
{
    let ghost exts = extents@;
    let n = extents.len();
    let start = offset as i128;
    let end = start + count as i128;
    let mut ranges: Vec<ReadaheadRange> = Vec::new();
    let mut base: i128 = 0;
    let mut i: usize = 0;
    while i < n && base < end
        invariant
            exts == extents@,
            n == exts.len(),
            0 <= i <= n,
            base == extent_start(exts, i as int),
            base <= i * 0xFFFF_FFFF,
            end == start + count,
            readahead_from(exts, 0, start as int, end as int) == ranges@ + readahead_from(
                exts,
                i as int,
                start as int,
                end as int,
            ),
        decreases n - i,
    {
        proof {
            lemma_extent_start_step(exts, i as int);
        }
        let e = extents[i];
        let size = e.actual_size as i128;
        let lo: i128 = if start - base > 0 {
            start - base
        } else {
            0
        };
        let hi: i128 = if end - base < size {
            end - base
        } else {
            size
        };
        if start < base + size && end > base && hi - lo > 0 {
            let range = ReadaheadRange {
                zone: e.zone,
                zone_offset: (e.offset as i128 + lo) as i64,
                count: (hi - lo) as usize,
            };
            let ghost before = ranges@;
            ranges.push(range);
            proof {
                assert(before + (seq![range] + readahead_from(exts, i + 1, start as int, end as int))
                    =~= ranges@ + readahead_from(exts, i + 1, start as int, end as int));
            }
        }
        base = base + size;
        i = i + 1;
    }
    proof {
        lemma_readahead_past_end(exts, i as int, start as int, end as int);
        assert(ranges@ + Seq::<ReadaheadRange>::empty() =~= ranges@);
    }
    ranges
}

/// No extent that starts at or after the end of the range overlaps it.
proof fn lemma_readahead_past_end(exts: Seq<Extents>, i: int, offset: int, end: int)
    requires
        0 <= i <= exts.len(),
        i == exts.len() || extent_start(exts, i) >= end,
    ensures
        readahead_from(exts, i, offset, end) == Seq::<ReadaheadRange>::empty(),
    decreases exts.len() - i,
{
    if i < exts.len() {
        lemma_extent_start_step(exts, i);
        lemma_readahead_past_end(exts, i + 1, offset, end);
    }
}

/// Where a mapping of a file's bytes is redirected: to `zone_offset` of the file of zone
/// `zone`. `exceeds_extent` tells that the mapping reaches past the end of the extent.
#[derive(Debug, Clone, Copy)]
pub struct MmapTarget {
    pub zone: u32,
    pub zone_offset: i64,
    pub exceeds_extent: bool,
}

/// Why a mapping of a file cannot be redirected.
#[derive(Debug, Clone, Copy, PartialEq, Eq, Structural)]
pub enum MmapError {
    /// The file has no extents.
    NoExtents,
    /// The offset lies beyond the file's extents.
    BeyondFile,
}

/// The first extent, from `i` on, that holds byte `offset` of the file.
pub open spec fn find_extent_from(exts: Seq<Extents>, i: int, offset: int) -> Option<int>
    decreases exts.len() - i,
{
    if i < 0 || i >= exts.len() {
        None
    } else if extent_start(exts, i) <= offset < extent_start(exts, i) + exts[i].actual_size {
        Some(i)
    } else {
        find_extent_from(exts, i + 1, offset)
    }
}

/// Redirects a mapping of `length` bytes at `offset` of a file with the given extents to
/// the zone range that holds that offset.
pub fn mmap_target(extents: &Vec<Extents>, offset: i64, length: usize) -> (r: Result<MmapTarget, MmapError>)
    ensures
        extents@.len() == 0 ==> r == Err::<MmapTarget, MmapError>(MmapError::NoExtents),
        extents@.len() > 0 && find_extent_from(extents@, 0, offset as int) is None ==> r == Err::<
            MmapTarget,
            MmapError,
        >(MmapError::BeyondFile),
        extents@.len() > 0 && find_extent_from(extents@, 0, offset as int) is Some ==> ({
            let i = find_extent_from(extents@, 0, offset as int).unwrap();
            let e = extents@[i];
            let within = offset - extent_start(extents@, i);
            r == Ok::<MmapTarget, MmapError>(
                MmapTarget {
                    zone: e.zone,
                    zone_offset: (e.offset + within) as i64,
                    exceeds_extent: length > e.actual_size - within,
                },
            )
        }),
{
    let ghost exts = extents@;
    let n = extents.len();
    if n == 0 {
        return Err(MmapError::NoExtents);
    }
    let start = offset as i128;
    let mut base: i128 = 0;
    let mut i: usize = 0;
    while i < n
        invariant
            exts == extents@,
            n == exts.len(),
            0 <= i <= n,
            base == extent_start(exts, i as int),
            base <= i * 0xFFFF_FFFF,
            start == offset as i128,
            find_extent_from(exts, 0, start as int) == find_extent_from(exts, i as int, start as int),
        decreases n - i,
    {
        proof {
            lemma_extent_start_step(exts, i as int);
        }
        let e = extents[i];
        let top = base + e.actual_size as i128;
        if base <= start && start < top {
            proof {
                assert(find_extent_from(exts, i as int, start as int) == Some(i as int));
            }
            let within = start - base;
            return Ok(
                MmapTarget {
                    zone: e.zone,
                    zone_offset: (e.offset as i128 + within) as i64,
                    exceeds_extent: length as i128 > e.actual_size as i128 - within,
                },
            );
        }
        proof {
            assert(find_extent_from(exts, i as int, start as int) == find_extent_from(exts, i + 1, start as int));
        }
        base = top;
        i = i + 1;
    }
    proof {
        assert(find_extent_from(exts, n as int, start as int) is None);
    }
    Err(MmapError::BeyondFile)
}

} // verus!
