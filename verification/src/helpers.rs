//! Helper utilities for buffer and zone management.
use vstd::prelude::*;
use crate::state::{Stream, align_to_page, aligned_size, MAX_ALIGNABLE_SIZE, PREFERRED_BUFFER_SIZE};
use crate::statics::{ShimmerState, ShimmerView, BufferView, TrackedBuffer, buffer_in_use_by_fd};
use crate::tables::{
    hint_table_insert, buffer_table_free_flags, buffer_table_take, buffer_table_insert,
    buffer_table_len, offset_table_get,
};

verus! {

broadcast use crate::statics::lemma_state_view;

/// Whether buffer `k` is free and no buffer numbered below it is.
pub open spec fn is_lowest_free(b: Map<u32, BufferView>, k: u32) -> bool {
    &&& b.contains_key(k)
    &&& b[k].is_free
    &&& forall|j: u32| j < k && #[trigger] b.contains_key(j) ==> !b[j].is_free
}

/// Whether any buffer of `b` is free.
pub open spec fn has_free_buffer(b: Map<u32, BufferView>) -> bool {
    exists|k: u32| #[trigger] b.contains_key(k) && b[k].is_free
}

/// The buffer that the next claim hands out: the lowest-numbered free buffer, or else a new
/// buffer numbered after all the others.
pub open spec fn next_unused_buffer(b: Map<u32, BufferView>) -> u32 {
    if has_free_buffer(b) {
        choose|k: u32| is_lowest_free(b, k)
    } else {
        b.len() as u32
    }
}

/// `b` after buffer `k` is claimed: it is in use and holds nothing.
pub open spec fn claim_buffer(b: Map<u32, BufferView>, k: u32) -> Map<u32, BufferView> {
    b.insert(k, BufferView { data: Seq::empty(), is_free: false })
}

/// The lowest free buffer is unique, so the next claim is determined by the pool.
pub proof fn lemma_lowest_free_unique(b: Map<u32, BufferView>, k: u32)
    requires
        is_lowest_free(b, k),
    ensures
        has_free_buffer(b),
        next_unused_buffer(b) == k,
{
    assert(b.contains_key(k) && b[k].is_free);
    let c = choose|c: u32| is_lowest_free(b, c);
    assert(is_lowest_free(b, c));
    if c < k {
        assert(!b[c].is_free);
    } else if k < c {
        assert(!b[k].is_free);
    }
}

/// When some buffer of a densely numbered pool is free, there is a lowest free one, and the
/// next claim hands out a buffer that is free, or else a new one numbered after the pool.
pub proof fn lemma_next_unused_is_free_or_new(b: Map<u32, BufferView>)
    requires
        crate::statics::pool_is_dense(b),
        b.len() < u32::MAX,
    ensures
        ({
            let k = next_unused_buffer(b);
            ||| b.contains_key(k) && b[k].is_free
            ||| !b.contains_key(k) && k == b.len()
        }),
{
    if has_free_buffer(b) {
        let w = choose|w: u32| #[trigger] b.contains_key(w) && b[w].is_free;
        lemma_lowest_free_exists(b, w);
        let k = choose|k: u32| is_lowest_free(b, k);
        assert(is_lowest_free(b, k));
    } else {
        assert(!b.contains_key(b.len() as u32));
    }
}

proof fn lemma_lowest_free_exists(b: Map<u32, BufferView>, w: u32)
    requires
        b.contains_key(w),
        b[w].is_free,
    ensures
        exists|k: u32| is_lowest_free(b, k),
    decreases w,
{
    if exists|j: u32| j < w && #[trigger] b.contains_key(j) && b[j].is_free {
        let j = choose|j: u32| j < w && #[trigger] b.contains_key(j) && b[j].is_free;
        lemma_lowest_free_exists(b, j);
    } else {
        assert(is_lowest_free(b, w));
    }
}

/// Returning a freshly claimed buffer leaves the pool as it was before the claim.
pub proof fn lemma_return_undoes_claim(b: Map<u32, BufferView>, k: u32)
    requires
        b.contains_key(k),
        b[k].is_free,
        b[k].data.len() == 0,
    ensures
        claim_buffer(b, k).insert(k, BufferView { data: Seq::empty(), is_free: true }) == b,
{
    assert(b[k].data =~= Seq::<u8>::empty());
    assert(claim_buffer(b, k).insert(k, BufferView { data: Seq::empty(), is_free: true }) =~= b);
}

/// A zone whose write offset is within its capacity is at most 100 percent utilized.
pub proof fn lemma_utilization_at_most_full(offset: int, capacity: int)
    requires
        0 <= offset <= capacity,
        0 < capacity <= u32::MAX,
    ensures
        ((offset * 100) / capacity) as u32 <= 100,
{
    assert((offset * 100) / capacity <= 100) by (nonlinear_arith)
        requires
            0 <= offset <= capacity,
            0 < capacity,
    ;
    assert(0 <= (offset * 100) / capacity) by (nonlinear_arith)
        requires
            0 <= offset,
            0 < capacity,
    ;
}

/// Assigns a zone to a stream by allocating a free zone from the pool: the first zone of
/// the free queue leaves the queue and becomes the stream's zone.
pub fn assign_zone(state: &mut ShimmerState, input: Stream)
    requires
        old(state).wf(),
        old(state)@.free_zones.len() > 0,
    ensures
        final(state).wf(),
        final(state)@ == (ShimmerView {
            stream_zones: old(state)@.stream_zones.insert(input, old(state)@.free_zones[0]),
            free_zones: old(state)@.free_zones.subrange(1, old(state)@.free_zones.len() as int),
            ..old(state)@
        }),
{
    let zone = state.free_zone.pop_front().unwrap();
    hint_table_insert(&mut state.stream_to_hint, input, zone);
    proof {
        assert(state@ =~= (ShimmerView {
            stream_zones: old(state)@.stream_zones.insert(input, old(state)@.free_zones[0]),
            free_zones: old(state)@.free_zones.subrange(1, old(state)@.free_zones.len() as int),
            ..old(state)@
        }));
    }
}

/// Gets the next available buffer from the buffer pool: the lowest-numbered free buffer,
/// marked as used, or else a new buffer numbered after all the others.
pub fn get_unused_buffer(state: &mut ShimmerState) -> (buffer_id: u32)
    requires
        old(state).wf(),
        old(state)@.buffers.len() < u32::MAX,
    ensures
        final(state).wf(),
        buffer_id == next_unused_buffer(old(state)@.buffers),
        has_free_buffer(old(state)@.buffers) ==> is_lowest_free(old(state)@.buffers, buffer_id),
        !has_free_buffer(old(state)@.buffers) ==> buffer_id == old(state)@.buffers.len(),
        final(state)@ == (ShimmerView {
            buffers: claim_buffer(old(state)@.buffers, buffer_id),
            ..old(state)@
        }),
{
    let ghost b = state@.buffers;
    let flags = buffer_table_free_flags(&state.buffer_pool);
    let mut best: Option<u32> = None;
    let mut i: usize = 0;
    while i < flags.len()
        invariant
            0 <= i <= flags@.len(),
            forall|x: int, y: int| 0 <= x < y < flags@.len() ==> flags@[x].0 != flags@[y].0,
            forall|x: int|
                0 <= x < flags@.len() ==> b.contains_key(#[trigger] flags@[x].0) && b[flags@[x].0].is_free
                    == flags@[x].1,
            match best {
                Some(k) => b.contains_key(k) && b[k].is_free && forall|x: int|
                    0 <= x < i && #[trigger] flags@[x].1 ==> k <= flags@[x].0,
                None => forall|x: int| 0 <= x < i ==> !(#[trigger] flags@[x].1),
            },
        decreases flags@.len() - i,
    {
        let (key, free) = flags[i];
        if free {
            match best {
                Some(k) => {
                    if key < k {
                        best = Some(key);
                    }
                },
                None => {
                    best = Some(key);
                },
            }
        }
        i = i + 1;
    }
    match best {
        Some(k) => {
            proof {
                assert forall|j: u32| j < k && #[trigger] b.contains_key(j) implies !b[j].is_free by {
                    let x = choose|x: int| 0 <= x < flags@.len() && #[trigger] flags@[x].0 == j;
                    assert(flags@[x].0 == j);
                }
                assert(is_lowest_free(b, k));
                lemma_lowest_free_unique(b, k);
            }
            let mut buf = buffer_table_take(&mut state.buffer_pool, k).unwrap();
            buf.is_free = false;
            buffer_table_insert(&mut state.buffer_pool, k, buf);
            proof {
                assert(buf@.data.len() == 0);
                assert(buf@.data =~= Seq::<u8>::empty());
                assert(state@.buffers =~= claim_buffer(b, k));
                assert(state@ =~= (ShimmerView { buffers: claim_buffer(b, k), ..old(state)@ }));
            }
            k
        },
        None => {
            proof {
                if has_free_buffer(b) {
                    let w = choose|w: u32| #[trigger] b.contains_key(w) && b[w].is_free;
                    let x = choose|x: int| 0 <= x < flags@.len() && #[trigger] flags@[x].0 == w;
                    assert(flags@[x].1);
                }
            }
            let n = buffer_table_len(&state.buffer_pool);
            let id = n as u32;
            let mut buf = TrackedBuffer::new();
            buf.is_free = false;
            buffer_table_insert(&mut state.buffer_pool, id, buf);
            proof {
                let nb = claim_buffer(b, id);
                assert(!b.contains_key(id));
                assert(nb.dom() =~= b.dom().insert(id));
                assert(nb.len() == b.len() + 1);
                assert(state@.buffers =~= nb);
                assert(state@ =~= (ShimmerView { buffers: nb, ..old(state)@ }));
            }
            id
        },
    }
}

/// Returns a buffer to the free pool for reuse: its bytes are dropped and it is free.
/// An id that names no buffer changes nothing. The descriptor tables are left as they
/// are: a descriptor that still collects its writes in the buffer keeps it, so the state
/// stays sound exactly when no descriptor does, as when a closing descriptor has given
/// the buffer up first.
pub fn return_buffer(state: &mut ShimmerState, buffer_id: u32)
    requires
        old(state).wf(),
    ensures
        !(old(state)@.buffers.contains_key(buffer_id) && buffer_in_use_by_fd(old(state)@, buffer_id))
            ==> final(state).wf(),
        old(state)@.buffers.contains_key(buffer_id) ==> final(state)@ == (ShimmerView {
            buffers: old(state)@.buffers.insert(
                buffer_id,
                BufferView { data: Seq::empty(), is_free: true },
            ),
            ..old(state)@
        }),
        !old(state)@.buffers.contains_key(buffer_id) ==> final(state)@ == old(state)@,
{
    let ghost b = state@.buffers;
    match buffer_table_take(&mut state.buffer_pool, buffer_id) {
        Some(mut buf) => {
            buf.data.clear();
            buf.is_free = true;
            buffer_table_insert(&mut state.buffer_pool, buffer_id, buf);
            proof {
                let nb = b.insert(buffer_id, BufferView { data: Seq::empty(), is_free: true });
                assert(nb.dom() =~= b.dom());
                assert(state@.buffers =~= nb);
                assert(state@ =~= (ShimmerView { buffers: nb, ..old(state)@ }));
                if !buffer_in_use_by_fd(old(state)@, buffer_id) {
                    assert forall|fd: i32| #[trigger] state@.fd_buffers.contains_key(fd)
                        implies state@.fd_buffers[fd] != buffer_id by {
                        if state@.fd_buffers[fd] == buffer_id {
                            assert(buffer_in_use_by_fd(old(state)@, buffer_id));
                        }
                    }
                }
            }
        },
        None => {
            proof {
                assert(state@.buffers =~= b);
                assert(state@ =~= old(state)@);
            }
        },
    }
}

/// Calculates the utilization percentage of a zone: its write offset as a share of the
/// zone capacity. Returns 0 if the zone is not open for writing, without reading the
/// configuration.
pub fn get_zone_utilization(state: &ShimmerState, zone: u32) -> (pct: u32)
    requires
        state@.zone_offsets.contains_key(zone) ==> state@.config is Some
            && state@.config.unwrap().zone_capacity > 0,
    ensures
        state@.zone_offsets.contains_key(zone) ==> pct == ((state@.zone_offsets[zone] * 100)
            / (state@.config.unwrap().zone_capacity as int)) as u32,
        !state@.zone_offsets.contains_key(zone) ==> pct == 0,
{
    match offset_table_get(&state.write_zones, zone) {
        Some(offset) => {
            let cap = state.config.unwrap().zone_capacity;
            let scaled: u128 = offset as u128 * 100;
            (scaled / cap as u128) as u32
        },
        None => 0,
    }
}

/// Checks if a buffer of the given size, rounded up to whole blocks, fits in the remaining
/// capacity of the zone: after its write offset when the zone is open for writing, and in
/// the whole zone capacity when it is not.
pub fn can_fit_buffer(state: &ShimmerState, zone: u32, buffer_size: u32) -> (fits: bool)
    requires
        state@.config is Some,
        buffer_size <= MAX_ALIGNABLE_SIZE,
    ensures
        state@.zone_offsets.contains_key(zone) ==> fits == (state@.zone_offsets[zone]
            + aligned_size(buffer_size as int) <= state@.config.unwrap().zone_capacity),
        !state@.zone_offsets.contains_key(zone) ==> fits == (aligned_size(buffer_size as int)
            <= state@.config.unwrap().zone_capacity),
{
    let aligned = align_to_page(buffer_size);
    let cap = state.config.unwrap().zone_capacity;
    match offset_table_get(&state.write_zones, zone) {
        Some(offset) => aligned <= cap && offset <= (cap - aligned) as u64,
        None => aligned <= cap,
    }
}

/// The number of bytes buffer `buffer_id` holds.
pub(crate) fn buffer_data_len(state: &mut ShimmerState, buffer_id: u32) -> (n: usize)
    requires
        old(state).wf(),
        old(state)@.buffers.contains_key(buffer_id),
    ensures
        final(state)@ == old(state)@,
        n == old(state)@.buffers[buffer_id].data.len(),
{
    let ghost b = state@.buffers;
    let buf = buffer_table_take(&mut state.buffer_pool, buffer_id).unwrap();
    let n = buf.data.len();
    buffer_table_insert(&mut state.buffer_pool, buffer_id, buf);
    proof {
        assert(state@.buffers =~= b);
        assert(state@ =~= old(state)@);
    }
    n
}

/// Appends `data[from..to]` to the bytes of buffer `buffer_id`, which is in use.
pub(crate) fn append_bytes(state: &mut ShimmerState, buffer_id: u32, data: &[u8], from: usize, to: usize)
    requires
        old(state).wf(),
        old(state)@.buffers.contains_key(buffer_id),
        !old(state)@.buffers[buffer_id].is_free,
        from <= to <= data@.len(),
        old(state)@.buffers[buffer_id].data.len() + (to - from) <= PREFERRED_BUFFER_SIZE,
    ensures
        final(state).wf(),
        final(state)@ == (ShimmerView {
            buffers: old(state)@.buffers.insert(
                buffer_id,
                BufferView {
                    data: old(state)@.buffers[buffer_id].data + data@.subrange(from as int, to as int),
                    is_free: false,
                },
            ),
            ..old(state)@
        }),
{
    let ghost b = state@.buffers;
    let mut buf = buffer_table_take(&mut state.buffer_pool, buffer_id).unwrap();
    let ghost start = buf.data@;
    let mut i: usize = from;
    while i < to
        invariant
            from <= i <= to <= data@.len(),
            buf.data@ == start + data@.subrange(from as int, i as int),
            buf.is_free == b[buffer_id].is_free,
            start == b[buffer_id].data,
        decreases to - i,
    {
        buf.data.push(data[i]);
        proof {
            assert(data@.subrange(from as int, i as int + 1) =~= data@.subrange(from as int, i as int).push(data@[i as int]));
        }
        i = i + 1;
    }
    buffer_table_insert(&mut state.buffer_pool, buffer_id, buf);
    proof {
        let nb = b.insert(
            buffer_id,
            BufferView { data: b[buffer_id].data + data@.subrange(from as int, to as int), is_free: false },
        );
        assert(nb.dom() =~= b.dom());
        assert(state@.buffers =~= nb);
        assert(state@ =~= (ShimmerView { buffers: nb, ..old(state)@ }));
    }
}

} // verus!
