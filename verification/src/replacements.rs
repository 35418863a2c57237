//! What the intercepted file operations decide: which files the shim takes over, how
//! their writes are buffered and handed to the writer, and what opening, closing and
//! unlinking a file does to the shim's state.
use vstd::prelude::*;
use crate::state::{
    Stream, WriteRequest, PREFERRED_BUFFER_SIZE, Files, FileView, Extents, ZoneView, Zone,
    ZoneConfig, zone_delete_extent, zone_extent_live, zone_reclaimable, empty_zone,
};
use crate::statics::{
    ShimmerState, ShimmerView, BufferView, TrackedBuffer, NUM_BUFFERS, empty_view, pool_is_dense,
};
use crate::helpers::{
    next_unused_buffer, claim_buffer, get_unused_buffer, is_lowest_free, has_free_buffer,
    buffer_data_len, append_bytes, lemma_next_unused_is_free_or_new, return_buffer, assign_zone,
};
use crate::tables::{
    fd_table_get, fd_table_insert, fd_table_remove, stream_table_get, stream_table_insert,
    stream_table_remove, path_table_get, path_table_insert, path_table_remove, file_table_take,
    file_table_insert, zone_table_take, zone_table_insert, buffer_table_insert,
};
use crate::metadata::{ShimmerMetadata, restored};

verus! {

broadcast use crate::statics::lemma_state_view;

/// The id `k` places after `base`, wrapping as the request counter does.
pub open spec fn id_after(base: u32, k: int) -> u32 {
    ((base + k) % 0x1_0000_0000) as u32
}

/// How appending `data` to buffer `b` of the pool `pool` goes: the pool afterwards, the
/// buffer that collects the file's writes afterwards, and the buffers handed to the
/// writer, in order. A buffer that holds `PREFERRED_BUFFER_SIZE` bytes is handed over and
/// replaced by the next unused buffer; bytes fill each buffer up to that size.
pub open spec fn append_plan(pool: Map<u32, BufferView>, b: u32, data: Seq<u8>) -> (Map<
    u32,
    BufferView,
>, u32, Seq<u32>)
    decreases data.len(),
{
    if data.len() == 0 {
        (pool, b, Seq::empty())
    } else {
        let full = pool[b].data.len() >= PREFERRED_BUFFER_SIZE;
        let cur = if full {
            next_unused_buffer(pool)
        } else {
            b
        };
        let p1 = if full {
            claim_buffer(pool, cur)
        } else {
            pool
        };
        let done = if full {
            seq![b]
        } else {
            Seq::empty()
        };
        let avail = PREFERRED_BUFFER_SIZE - p1[cur].data.len();
        if data.len() <= avail {
            (
                p1.insert(cur, BufferView { data: p1[cur].data + data, is_free: p1[cur].is_free }),
                cur,
                done,
            )
        } else {
            let p2 = p1.insert(
                cur,
                BufferView { data: p1[cur].data + data.take(avail), is_free: p1[cur].is_free },
            );
            let next = next_unused_buffer(p2);
            let rest = append_plan(claim_buffer(p2, next), next, data.skip(avail));
            (rest.0, rest.1, done + seq![cur] + rest.2)
        }
    }
}

/// Whether the buffers of `pool` are numbered densely, each holds at most
/// `PREFERRED_BUFFER_SIZE` bytes, and a free one holds nothing.
pub open spec fn pool_ok(pool: Map<u32, BufferView>) -> bool {
    &&& pool_is_dense(pool)
    &&& forall|k: u32| #[trigger] pool.contains_key(k) ==> pool[k].data.len() <= PREFERRED_BUFFER_SIZE
    &&& forall|k: u32| #[trigger] pool.contains_key(k) && pool[k].is_free ==> pool[k].data.len() == 0
}

/// The bytes of the buffers `ks` of `pool`, one buffer after another.
pub open spec fn chain_bytes(pool: Map<u32, BufferView>, ks: Seq<u32>) -> Seq<u8>
    decreases ks.len(),
{
    if ks.len() == 0 {
        Seq::empty()
    } else {
        pool[ks[0]].data + chain_bytes(pool, ks.drop_first())
    }
}

/// What appending `data` to buffer `b` of `pool` keeps, in the pool `post` afterwards:
/// the buffers it went through, those handed to the writer (`flushed`) and then the one
/// that collects writes afterwards (`last`), are distinct and start with `b`; laid end to
/// end, their bytes are the earlier bytes of `b` followed by `data`; each one handed over
/// is full; and no other buffer in use changes.
pub open spec fn bytes_spread(
    pool: Map<u32, BufferView>,
    b: u32,
    data: Seq<u8>,
    post: Map<u32, BufferView>,
    flushed: Seq<u32>,
    last: u32,
) -> bool {
    let chain = flushed.push(last);
    &&& chain[0] == b
    &&& chain.no_duplicates()
    &&& chain_bytes(post, chain) == pool[b].data + data
    &&& forall|i: int| 0 <= i < flushed.len() ==> #[trigger] post[flushed[i]].data.len()
        == PREFERRED_BUFFER_SIZE
    &&& forall|k: u32|
        #[trigger] pool.contains_key(k) && !pool[k].is_free && k != b ==> post.contains_key(k)
            && post[k] == pool[k]
}

proof fn lemma_chain_bytes_concat(pool: Map<u32, BufferView>, a: Seq<u32>, c: Seq<u32>)
    ensures
        chain_bytes(pool, a + c) == chain_bytes(pool, a) + chain_bytes(pool, c),
    decreases a.len(),
{
    if a.len() == 0 {
        assert(a + c =~= c);
        assert(Seq::<u8>::empty() + chain_bytes(pool, c) =~= chain_bytes(pool, c));
    } else {
        assert((a + c).drop_first() =~= a.drop_first() + c);
        lemma_chain_bytes_concat(pool, a.drop_first(), c);
        assert((a + c)[0] == a[0]);
        assert(pool[a[0]].data + (chain_bytes(pool, a.drop_first()) + chain_bytes(pool, c)) =~= (
        pool[a[0]].data + chain_bytes(pool, a.drop_first())) + chain_bytes(pool, c));
    }
}

/// Claiming the next unused buffer of a sound pool keeps it sound and gives a buffer that
/// was free or new, is in use now and holds nothing.
proof fn lemma_claim_next(pool: Map<u32, BufferView>)
    requires
        pool_ok(pool),
        pool.len() < u32::MAX,
    ensures
        ({
            let k = next_unused_buffer(pool);
            let p = claim_buffer(pool, k);
            &&& pool.contains_key(k) ==> pool[k].is_free
            &&& pool_ok(p)
            &&& p.contains_key(k) && !p[k].is_free && p[k].data.len() == 0
            &&& p.len() <= pool.len() + 1
            &&& forall|j: u32| j != k ==> p.contains_key(j) == pool.contains_key(j) && (pool.contains_key(j) ==> p[j] == pool[j])
        }),
{
    lemma_next_unused_is_free_or_new(pool);
    let k = next_unused_buffer(pool);
    let p = claim_buffer(pool, k);
    if pool.contains_key(k) {
        assert(p.dom() =~= pool.dom());
    } else {
        assert(p.dom() =~= pool.dom().insert(k));
    }
}

/// A buffer in use is never handed out again: in a sound pool of fewer than `u32::MAX`
/// buffers, the next claim picks another buffer, leaves the one in use as it is, and keeps
/// the pool sound and densely numbered.
pub proof fn lemma_in_use_buffer_not_reissued(pool: Map<u32, BufferView>, a: u32)
    requires
        pool_ok(pool),
        pool.len() < u32::MAX,
        pool.contains_key(a),
        !pool[a].is_free,
    ensures
        next_unused_buffer(pool) != a,
        claim_buffer(pool, next_unused_buffer(pool))[a] == pool[a],
        pool_ok(claim_buffer(pool, next_unused_buffer(pool))),
{
    lemma_claim_next(pool);
}

/// Appending to a buffer in use spreads the bytes over the buffers it goes through: the
/// buffers handed to the writer, then the one that collects writes afterwards. Laid end to
/// end, their bytes are the buffer's earlier bytes followed by the appended ones; each one
/// handed over is full; they are distinct, the first is the original buffer and every
/// other was free or new; and no other buffer in use changes.
pub proof fn lemma_append_keeps_bytes(pool: Map<u32, BufferView>, b: u32, data: Seq<u8>)
    requires
        pool_ok(pool),
        pool.contains_key(b),
        !pool[b].is_free,
        pool.len() + data.len() < u32::MAX,
    ensures
        ({
            let (p, last, flushed) = append_plan(pool, b, data);
            let chain = flushed.push(last);
            &&& chain[0] == b
            &&& chain.no_duplicates()
            &&& chain_bytes(p, chain) == pool[b].data + data
            &&& forall|i: int| 0 <= i < flushed.len() ==> #[trigger] p[flushed[i]].data.len()
                == PREFERRED_BUFFER_SIZE
            &&& pool_ok(p)
            &&& p.contains_key(last) && !p[last].is_free
            &&& p.len() <= pool.len() + data.len()
            &&& forall|k: u32|
                #[trigger] pool.contains_key(k) && !pool[k].is_free && k != b ==> !chain.contains(k)
                    && p.contains_key(k) && p[k] == pool[k]
        }),
    decreases data.len(),
{
    let (p, last, flushed) = append_plan(pool, b, data);
    let chain = flushed.push(last);
    if data.len() == 0 {
        assert(chain =~= seq![b]);
        assert(chain_bytes(p, chain.drop_first()) == Seq::<u8>::empty());
        assert(chain_bytes(p, chain) =~= pool[b].data + data);
        return;
    }
    let full = pool[b].data.len() >= PREFERRED_BUFFER_SIZE;
    if full {
        lemma_claim_next(pool);
    }
    let cur = if full {
        next_unused_buffer(pool)
    } else {
        b
    };
    let p1 = if full {
        claim_buffer(pool, cur)
    } else {
        pool
    };
    let done: Seq<u32> = if full {
        seq![b]
    } else {
        Seq::empty()
    };
    assert(full ==> cur != b);
    assert(p1.contains_key(cur) && !p1[cur].is_free);
    assert(pool_ok(p1));
    assert(p1.len() <= pool.len() + 1);
    assert(full ==> p1[b] == pool[b]);
    let avail = PREFERRED_BUFFER_SIZE - p1[cur].data.len();
    assert(avail > 0);
    if data.len() <= avail {
        let nv = BufferView { data: p1[cur].data + data, is_free: p1[cur].is_free };
        assert(p == p1.insert(cur, nv));
        assert(p.dom() =~= p1.dom());
        if full {
            assert(chain =~= seq![b, cur]);
            assert(chain.drop_first() =~= seq![cur]);
            assert(chain.drop_first().drop_first() =~= Seq::<u32>::empty());
            assert(p1[cur].data =~= Seq::<u8>::empty());
            assert(p[b] == pool[b]);
            assert(p[cur].data =~= data);
            assert(chain_bytes(p, seq![cur]) == p[cur].data + chain_bytes(p, Seq::<u32>::empty()));
            assert(chain_bytes(p, seq![cur]) =~= data);
            assert(chain_bytes(p, chain) == p[b].data + chain_bytes(p, seq![cur]));
            assert(chain_bytes(p, chain) =~= pool[b].data + data);
        } else {
            assert(chain =~= seq![b]);
            assert(chain.drop_first() =~= Seq::<u32>::empty());
            assert(chain_bytes(p, chain) == p[b].data + chain_bytes(p, Seq::<u32>::empty()));
            assert(chain_bytes(p, chain) =~= pool[b].data + data);
        }
        return;
    }
    let p2 = p1.insert(cur, BufferView { data: p1[cur].data + data.take(avail), is_free: p1[cur].is_free });
    assert(p2.dom() =~= p1.dom());
    assert(p2[cur].data.len() == PREFERRED_BUFFER_SIZE);
    assert(pool_ok(p2));
    lemma_claim_next(p2);
    let next = next_unused_buffer(p2);
    let p3 = claim_buffer(p2, next);
    assert(next != cur);
    assert(full ==> next != b);
    let rest = data.skip(avail);
    assert(p3.len() + rest.len() < u32::MAX);
    lemma_append_keeps_bytes(p3, next, rest);
    let r = append_plan(p3, next, rest);
    assert(p == r.0 && last == r.1);
    assert(flushed == done + seq![cur] + r.2);
    let chain2 = r.2.push(r.1);
    assert(chain =~= done + (seq![cur] + chain2));
    assert(p3.contains_key(cur) && !p3[cur].is_free && cur != next);
    assert(p[cur] == p3[cur]);
    assert(!chain2.contains(cur));
    lemma_chain_bytes_concat(p, done, seq![cur] + chain2);
    lemma_chain_bytes_concat(p, seq![cur], chain2);
    assert(seq![cur].drop_first() =~= Seq::<u32>::empty());
    assert(chain_bytes(p, seq![cur]) == p[cur].data + chain_bytes(p, Seq::<u32>::empty()));
    assert(chain_bytes(p, seq![cur]) =~= p[cur].data);
    assert(p3[next].data =~= Seq::<u8>::empty());
    assert(chain_bytes(p, chain2) == rest);
    if full {
        assert(p3.contains_key(b) && !p3[b].is_free && b != next);
        assert(p[b] == pool[b]);
        assert(!chain2.contains(b));
        assert(done.drop_first() =~= Seq::<u32>::empty());
        assert(chain_bytes(p, done) =~= pool[b].data);
        assert(p1[cur].data =~= Seq::<u8>::empty());
        assert(chain_bytes(p, chain) =~= pool[b].data + data);
        assert(chain.no_duplicates()) by {
            assert forall|i: int, j: int| 0 <= i < chain.len() && 0 <= j < chain.len() && i != j
                implies chain[i] != chain[j] by {
                if i >= 2 && j >= 2 {
                    assert(chain[i] == chain2[i - 2] && chain[j] == chain2[j - 2]);
                } else if i >= 2 {
                    assert(chain2.contains(chain[i]));
                } else if j >= 2 {
                    assert(chain2.contains(chain[j]));
                }
            }
        }
    } else {
        assert(done =~= Seq::<u32>::empty());
        assert(chain_bytes(p, done) =~= Seq::<u8>::empty());
        assert(chain_bytes(p, chain) =~= pool[b].data + data);
        assert(chain.no_duplicates()) by {
            assert forall|i: int, j: int| 0 <= i < chain.len() && 0 <= j < chain.len() && i != j
                implies chain[i] != chain[j] by {
                if i >= 1 && j >= 1 {
                    assert(chain[i] == chain2[i - 1] && chain[j] == chain2[j - 1]);
                } else if i >= 1 {
                    assert(chain2.contains(chain[i]));
                } else {
                    assert(chain2.contains(chain[j]));
                }
            }
        }
    }
    assert forall|i: int| 0 <= i < flushed.len() implies #[trigger] p[flushed[i]].data.len()
        == PREFERRED_BUFFER_SIZE by {
        if i < done.len() {
            assert(flushed[i] == b);
        } else if i == done.len() {
            assert(flushed[i] == cur);
        } else {
            assert(flushed[i] == r.2[i - done.len() - 1]);
        }
    }
    assert forall|k: u32|
        #[trigger] pool.contains_key(k) && !pool[k].is_free && k != b implies !chain.contains(k)
            && p.contains_key(k) && p[k] == pool[k] by {
        assert(k != cur);
        assert(p1.contains_key(k) && p1[k] == pool[k]);
        assert(p2.contains_key(k) && p2[k] == pool[k]);
        assert(k != next);
        assert(p3.contains_key(k) && p3[k] == pool[k]);
        assert(!chain2.contains(k) && r.0.contains_key(k) && r.0[k] == p3[k]);
        if chain.contains(k) {
            let i = choose|i: int| 0 <= i < chain.len() && chain[i] == k;
            if full {
                if i >= 2 {
                    assert(chain2.contains(k));
                }
            } else {
                if i >= 1 {
                    assert(chain2.contains(k));
                }
            }
        }
    }
}

/// The write request for buffer `buffer` of the file open as `fd`.
pub open spec fn write_request_for(
    v: ShimmerView,
    id: u32,
    fd: i32,
    buffer: u32,
    stream: Stream,
) -> WriteRequest {
    WriteRequest { id, file: v.fd_uids[fd], buffer, stream, fd }
}

/// Builds the request that hands buffer `buffer_num` of the file open as `fd` to the
/// writer, under the next request id.
pub fn queue_buffer_for_write(
    state: &mut ShimmerState,
    fd: i32,
    buffer_num: u32,
    stream: Stream,
) -> (request: WriteRequest)
    requires
        old(state).wf(),
        old(state)@.fd_uids.contains_key(fd),
    ensures
        final(state).wf(),
        request == write_request_for(old(state)@, old(state)@.next_write_id, fd, buffer_num, stream),
        final(state)@ == (ShimmerView {
            next_write_id: id_after(old(state)@.next_write_id, 1),
            ..old(state)@
        }),
{
    let request_id = state.write_id;
    state.write_id = state.write_id.wrapping_add(1);
    let file = fd_table_get(&state.fd_to_uid, fd).unwrap();
    proof {
        assert(state@ =~= (ShimmerView {
            next_write_id: id_after(old(state)@.next_write_id, 1),
            ..old(state)@
        }));
    }
    WriteRequest::new(request_id, file, buffer_num, stream, fd)
}

/// Claims the next unused buffer for the file open as `fd`: it collects the file's writes
/// from now on.
fn claim_buffer_for_fd(state: &mut ShimmerState, fd: i32) -> (nb: u32)
    requires
        old(state).wf(),
        old(state)@.fd_uids.contains_key(fd),
        old(state)@.buffers.len() < u32::MAX,
    ensures
        final(state).wf(),
        nb == next_unused_buffer(old(state)@.buffers),
        final(state)@ == (ShimmerView {
            buffers: claim_buffer(old(state)@.buffers, nb),
            fd_buffers: old(state)@.fd_buffers.insert(fd, nb),
            ..old(state)@
        }),
{
    let ghost v1 = state@;
    let nb = get_unused_buffer(state);
    let ghost v2 = state@;
    fd_table_insert(&mut state.file_to_buffer_pool, fd, nb);
    proof {
        let v3 = state@;
        assert(v3 =~= (ShimmerView {
            buffers: claim_buffer(v1.buffers, nb),
            fd_buffers: v1.fd_buffers.insert(fd, nb),
            ..v1
        }));
        // No other descriptor used the claimed buffer: it was free or new.
        assert forall|other: i32| #[trigger] v1.fd_buffers.contains_key(other)
            implies v1.fd_buffers[other] != nb by {
            if has_free_buffer(v1.buffers) {
                assert(is_lowest_free(v1.buffers, nb));
            }
        }
        assert forall|f: i32| #[trigger] v3.fd_buffers.contains_key(f) implies v3.fd_uids.contains_key(f)
            && v3.buffers.contains_key(v3.fd_buffers[f]) && !v3.buffers[v3.fd_buffers[f]].is_free by {
            if f != fd {
                assert(v1.fd_buffers.contains_key(f));
                assert(v1.fd_buffers[f] != nb);
            }
        }
        assert forall|f1: i32, f2: i32|
            v3.fd_buffers.contains_key(f1) && v3.fd_buffers.contains_key(f2) && f1 != f2
            implies #[trigger] v3.fd_buffers[f1] != #[trigger] v3.fd_buffers[f2] by {
            if f1 != fd && f2 != fd {
                assert(v1.fd_buffers[f1] != v1.fd_buffers[f2]);
            } else if f1 == fd {
                assert(v1.fd_buffers.contains_key(f2));
            } else {
                assert(v1.fd_buffers.contains_key(f1));
            }
        }
    }
    nb
}

/// Appends the bytes of a write to the buffers of the file open as `fd`, starting with
/// `buffer_num`. Each buffer that reaches `PREFERRED_BUFFER_SIZE` bytes is handed to the
/// writer and replaced by an unused buffer, which then collects the file's writes. The
/// requests that hand buffers over are returned in order, for the caller to send; the
/// descriptor must name a known file when there is any, since a request names the file.
/// The buffer appended to is in use, as the buffer a descriptor collects its writes in
/// always is: bytes in a free buffer would reach whichever file claims it next.
#[verifier::rlimit(40)]
pub fn append_to_buffer(
    state: &mut ShimmerState,
    fd: i32,
    buffer_num: u32,
    stream: Stream,
    data: &[u8],
) -> (requests: Vec<WriteRequest>)
    requires
        old(state).wf(),
        old(state)@.buffers.contains_key(buffer_num),
        !old(state)@.buffers[buffer_num].is_free,
        append_plan(old(state)@.buffers, buffer_num, data@).2.len() > 0 ==> old(
            state,
        )@.fd_uids.contains_key(fd),
        old(state)@.buffers.len() + data@.len() < u32::MAX,
    ensures
        final(state).wf(),
        ({
            let (pool, last, flushed) = append_plan(old(state)@.buffers, buffer_num, data@);
            &&& final(state)@ == (ShimmerView {
                buffers: pool,
                fd_buffers: if flushed.len() > 0 {
                    old(state)@.fd_buffers.insert(fd, last)
                } else {
                    old(state)@.fd_buffers
                },
                next_write_id: id_after(old(state)@.next_write_id, flushed.len() as int),
                ..old(state)@
            })
            &&& requests@.len() == flushed.len()
            &&& forall|k: int|
                0 <= k < flushed.len() ==> #[trigger] requests@[k] == write_request_for(
                    old(state)@,
                    id_after(old(state)@.next_write_id, k),
                    fd,
                    flushed[k],
                    stream,
                )
            &&& bytes_spread(old(state)@.buffers, buffer_num, data@, pool, flushed, last)
        }),
{
    let ghost s0 = state@;
    proof {
        lemma_append_keeps_bytes(s0.buffers, buffer_num, data@);
    }
    let ghost plan = append_plan(s0.buffers, buffer_num, data@);
    let ghost mut flushed: Seq<u32> = Seq::empty();
    let mut requests: Vec<WriteRequest> = Vec::new();
    let mut b = buffer_num;
    let mut pos: usize = 0;
    proof {
        assert(data@.skip(0) =~= data@);
    }
    while pos < data.len()
        invariant
            state.wf(),
            0 <= pos <= data@.len(),
            flushed.len() < plan.2.len() ==> state@.fd_uids.contains_key(fd),
            state@.buffers.contains_key(b),
            !state@.buffers[b].is_free,
            state@.buffers.len() + (data@.len() - pos) < u32::MAX,
            ({
                let r = append_plan(state@.buffers, b, data@.skip(pos as int));
                &&& r.0 == plan.0
                &&& r.1 == plan.1
                &&& flushed + r.2 == plan.2
            }),
            requests@.len() == flushed.len(),
            forall|k: int|
                0 <= k < flushed.len() ==> #[trigger] requests@[k] == write_request_for(
                    s0,
                    id_after(s0.next_write_id, k),
                    fd,
                    flushed[k],
                    stream,
                ),
            state@ == (ShimmerView {
                buffers: state@.buffers,
                fd_buffers: if flushed.len() > 0 {
                    s0.fd_buffers.insert(fd, b)
                } else {
                    s0.fd_buffers
                },
                next_write_id: id_after(s0.next_write_id, flushed.len() as int),
                ..s0
            }),
        decreases data@.len() - pos,
    {
        let ghost d = data@.skip(pos as int);
        let ghost pool_before = state@.buffers;
        let ghost b_before = b;
        let cur_len = buffer_data_len(state, b);
        let avail: usize;
        if cur_len >= PREFERRED_BUFFER_SIZE {
            let request = queue_buffer_for_write(state, fd, b, stream);
            requests.push(request);
            proof {
                flushed = flushed.push(b);
            }
            let nb = claim_buffer_for_fd(state, fd);
            b = nb;
            avail = PREFERRED_BUFFER_SIZE;
            proof {
                assert(state@.buffers[b].data =~= Seq::<u8>::empty());
            }
        } else {
            avail = PREFERRED_BUFFER_SIZE - cur_len;
        }
        let remaining = data.len() - pos;
        if remaining <= avail {
            append_bytes(state, b, data, pos, data.len());
            proof {
                assert(data@.subrange(pos as int, data@.len() as int) =~= d);
            }
            pos = data.len();
        } else {
            append_bytes(state, b, data, pos, pos + avail);
            let request = queue_buffer_for_write(state, fd, b, stream);
            requests.push(request);
            proof {
                flushed = flushed.push(b);
                assert(data@.subrange(pos as int, pos + avail) =~= d.take(avail as int));
            }
            let nb = claim_buffer_for_fd(state, fd);
            b = nb;
            pos = pos + avail;
            proof {
                assert(data@.skip(pos as int) =~= d.skip(avail as int));
            }
        }
    }
    requests
}

/// The buffer that collects the writes of the file open as `fd`, and the pool once it is
/// chosen: the file's own buffer, or else the next unused buffer, claimed for it.
pub open spec fn write_buffer_for(v: ShimmerView, fd: i32) -> (u32, Map<u32, BufferView>) {
    if v.fd_buffers.contains_key(fd) {
        (v.fd_buffers[fd], v.buffers)
    } else {
        let b = next_unused_buffer(v.buffers);
        (b, claim_buffer(v.buffers, b))
    }
}

/// What a buffered write of `data` to the file open as `fd` does to the state, and the
/// requests it hands to the writer.
pub open spec fn buffered_write_effect(
    v: ShimmerView,
    fd: i32,
    data: Seq<u8>,
    post: ShimmerView,
    requests: Seq<WriteRequest>,
) -> bool {
    let (b, pool) = write_buffer_for(v, fd);
    let (final_pool, last, flushed) = append_plan(pool, b, data);
    let stream = v.fd_streams[fd];
    &&& post == ShimmerView {
        buffers: final_pool,
        fd_buffers: v.fd_buffers.insert(
            fd,
            if flushed.len() > 0 {
                last
            } else {
                b
            },
        ),
        next_write_id: id_after(v.next_write_id, flushed.len() as int),
        ..v
    }
    &&& requests.len() == flushed.len()
    &&& forall|k: int|
        0 <= k < flushed.len() ==> #[trigger] requests[k] == write_request_for(
            v,
            id_after(v.next_write_id, k),
            fd,
            flushed[k],
            stream,
        )
    &&& bytes_spread(pool, b, data, post.buffers, flushed, last)
}

/// Every request that a buffered write hands to the writer is for the descriptor written
/// through, its file and its stream, under consecutive request ids from the next one; the
/// buffers handed over are distinct and full, and the descriptor's stream and file do not
/// change.
pub proof fn lemma_write_requests_carry_stream(
    v: ShimmerView,
    fd: i32,
    data: Seq<u8>,
    post: ShimmerView,
    requests: Seq<WriteRequest>,
)
    requires
        buffered_write_effect(v, fd, data, post, requests),
    ensures
        forall|k: int|
            0 <= k < requests.len() ==> {
                &&& (#[trigger] requests[k]).stream == v.fd_streams[fd]
                &&& requests[k].fd == fd
                &&& requests[k].file == v.fd_uids[fd]
                &&& requests[k].id == id_after(v.next_write_id, k)
                &&& post.buffers[requests[k].buffer].data.len() == PREFERRED_BUFFER_SIZE
            },
        forall|j: int, k: int|
            0 <= j < k < requests.len() ==> #[trigger] requests[j].buffer != #[trigger] requests[k].buffer,
        post.fd_streams == v.fd_streams,
        post.fd_uids == v.fd_uids,
{
    let (b, pool) = write_buffer_for(v, fd);
    let (final_pool, last, flushed) = append_plan(pool, b, data);
    let chain = flushed.push(last);
    assert forall|j: int, k: int|
        0 <= j < k < requests.len() implies #[trigger] requests[j].buffer != #[trigger] requests[k].buffer by {
        assert(requests[j].buffer == flushed[j]);
        assert(requests[k].buffer == flushed[k]);
        assert(chain[j] == flushed[j]);
        assert(chain[k] == flushed[k]);
    }
    assert forall|k: int| 0 <= k < requests.len() implies
        post.buffers[(#[trigger] requests[k]).buffer].data.len() == PREFERRED_BUFFER_SIZE by {
        assert(requests[k].buffer == flushed[k]);
    }
}

/// Where an intercepted write goes.
pub enum WriteRoute {
    /// The file is not one of the shim's: the write goes to the file itself.
    PassThrough,
    /// The bytes were buffered; `requests` hand full buffers to the writer, in order. When
    /// `write_through` is set, the write is exactly one block and also goes to the file
    /// itself, before it is buffered.
    Buffered { requests: Vec<WriteRequest>, write_through: bool },
}

/// Handles write operations for tracked files: buffers the bytes in the file's write
/// buffer (claiming one when the file has none yet) and hands full buffers to the writer.
/// Writes to other files pass through.
pub fn handle_write(state: &mut ShimmerState, fd: i32, data: &[u8]) -> (route: WriteRoute)
    requires
        old(state).wf(),
        old(state)@.fd_streams.contains_key(fd) ==> old(state)@.buffers.len() + data@.len() + 1
            < u32::MAX,
    ensures
        final(state).wf(),
        !old(state)@.fd_streams.contains_key(fd) ==> route is PassThrough && final(state)@ == old(
            state,
        )@,
        old(state)@.fd_streams.contains_key(fd) ==> (route matches WriteRoute::Buffered {
            requests,
            write_through,
        } && write_through == (data@.len() == 4096) && buffered_write_effect(
            old(state)@,
            fd,
            data@,
            final(state)@,
            requests@,
        )),
{
    let ghost v = state@;
    let stream = match stream_table_get(&state.fd_to_stream, fd) {
        Some(s) => s,
        None => {
            return WriteRoute::PassThrough;
        },
    };
    let write_through = data.len() == 4096;
    let buffer_num = match fd_table_get(&state.file_to_buffer_pool, fd) {
        Some(b) => b,
        None => claim_buffer_for_fd(state, fd),
    };
    proof {
        assert(state@.fd_buffers =~= v.fd_buffers.insert(fd, buffer_num));
    }
    let requests = append_to_buffer(state, fd, buffer_num, stream, data);
    proof {
        let (b, pool) = write_buffer_for(v, fd);
        let (final_pool, last, flushed) = append_plan(pool, b, data@);
        assert(state@.fd_buffers =~= v.fd_buffers.insert(
            fd,
            if flushed.len() > 0 {
                last
            } else {
                b
            },
        ));
        assert(state@ =~= (ShimmerView {
            buffers: final_pool,
            fd_buffers: v.fd_buffers.insert(
                fd,
                if flushed.len() > 0 {
                    last
                } else {
                    b
                },
            ),
            next_write_id: id_after(v.next_write_id, flushed.len() as int),
            ..v
        }));
    }
    WriteRoute::Buffered { requests, write_through }
}

/// Handles sync operations: when the file open as `fd` has a write buffer, the request
/// that hands it to the writer.
pub fn handle_sync(state: &mut ShimmerState, fd: i32) -> (request: Option<WriteRequest>)
    requires
        old(state).wf(),
    ensures
        final(state).wf(),
        old(state)@.fd_buffers.contains_key(fd) ==> request == Some(
            write_request_for(
                old(state)@,
                old(state)@.next_write_id,
                fd,
                old(state)@.fd_buffers[fd],
                old(state)@.fd_streams[fd],
            ),
        ) && final(state)@ == (ShimmerView {
            next_write_id: id_after(old(state)@.next_write_id, 1),
            ..old(state)@
        }),
        !old(state)@.fd_buffers.contains_key(fd) ==> request is None && final(state)@ == old(
            state,
        )@,
{
    match fd_table_get(&state.file_to_buffer_pool, fd) {
        Some(buffer) => {
            proof {
                assert(state@.fd_uids.contains_key(fd));
                assert(state@.fd_streams.contains_key(fd));
            }
            let stream = stream_table_get(&state.fd_to_stream, fd).unwrap();
            Some(queue_buffer_for_write(state, fd, buffer, stream))
        },
        None => None,
    }
}

/// Whether `s` ends with `suffix`.
pub open spec fn ends_with(s: Seq<char>, suffix: Seq<char>) -> bool {
    s.len() >= suffix.len() && s.subrange(s.len() - suffix.len(), s.len() as int) == suffix
}

/// Whether the shim takes over the file at `path`: its sorted tables, logs and LSM files.
pub open spec fn is_tracked(path: Seq<char>) -> bool {
    ||| ends_with(path, seq!['.', 's', 's', 't'])
    ||| ends_with(path, seq!['.', 'l', 'o', 'g'])
    ||| ends_with(path, seq!['.', 'l', 's', 'm'])
}

/// Whether the shim takes over the file at `path`: one whose name ends in `.sst`, `.log`
/// or `.lsm`.
pub fn is_tracked_path(path: &str) -> (taken_over: bool)
    ensures
        taken_over == is_tracked(path@),
{
    let n = path.unicode_len();
    if n < 4 {
        return false;
    }
    let c0 = path.get_char(n - 4);
    let c1 = path.get_char(n - 3);
    let c2 = path.get_char(n - 2);
    let c3 = path.get_char(n - 1);
    proof {
        assert(path@.subrange(n - 4, n as int) =~= seq![c0, c1, c2, c3]);
    }
    c0 == '.' && ((c1 == 's' && c2 == 's' && c3 == 't') || (c1 == 'l' && c2 == 'o' && c3 == 'g') || (c1
        == 'l' && c2 == 's' && c3 == 'm'))
}

/// What opening a tracked file does to the state.
pub open spec fn open_effect(v: ShimmerView, path: Seq<char>, fd: i32, stream: Stream, post: ShimmerView, uid: u32) -> bool {
    &&& uid == if v.paths.contains_key(path) {
        v.paths[path]
    } else {
        v.next_uid
    }
    &&& post == ShimmerView {
        fd_streams: if v.fd_streams.contains_key(fd) {
            v.fd_streams
        } else {
            v.fd_streams.insert(fd, stream)
        },
        paths: v.paths.insert(path, uid),
        fd_uids: v.fd_uids.insert(fd, uid),
        files: if v.files.contains_key(uid) {
            v.files
        } else {
            v.files.insert(uid, FileView { file_size: 0, extents: Seq::empty() })
        },
        next_uid: v.next_uid.wrapping_add(1),
        ..v
    }
}

/// Records the opening of the tracked file at `path` as `fd`, with the stream predicted for
/// it: the path keeps its file id or gets the next one (the id counter advances on every
/// open), the descriptor is mapped to the id and, unless it already had one, to the stream,
/// and a new file gets empty metadata. Returns the file id.
pub fn register_open(state: &mut ShimmerState, path: &String, fd: i32, stream: Stream) -> (uid: u32)
    requires
        old(state).wf(),
    ensures
        final(state).wf(),
        open_effect(old(state)@, path@, fd, stream, final(state)@, uid),
{
    let ghost v = state@;
    if stream_table_get(&state.fd_to_stream, fd).is_none() {
        stream_table_insert(&mut state.fd_to_stream, fd, stream);
    }
    let fresh = state.uid;
    state.uid = state.uid.wrapping_add(1);
    let uid = match path_table_get(&state.path_to_uid, path) {
        Some(existing) => existing,
        None => {
            path_table_insert(&mut state.path_to_uid, path.clone(), fresh);
            fresh
        },
    };
    fd_table_insert(&mut state.fd_to_uid, fd, uid);
    match file_table_take(&mut state.filesystem, uid) {
        Some(f) => {
            file_table_insert(&mut state.filesystem, uid, f);
        },
        None => {
            file_table_insert(&mut state.filesystem, uid, Files::new(0));
        },
    }
    proof {
        let post = ShimmerView {
            fd_streams: if v.fd_streams.contains_key(fd) {
                v.fd_streams
            } else {
                v.fd_streams.insert(fd, stream)
            },
            paths: v.paths.insert(path@, uid),
            fd_uids: v.fd_uids.insert(fd, uid),
            files: if v.files.contains_key(uid) {
                v.files
            } else {
                v.files.insert(uid, FileView { file_size: 0, extents: Seq::empty() })
            },
            next_uid: v.next_uid.wrapping_add(1),
            ..v
        };
        assert(state@.paths =~= post.paths);
        assert(state@.files =~= post.files);
        assert(state@.fd_streams =~= post.fd_streams);
        assert(state@ =~= post);
        assert(state@.fd_uids.dom() =~= state@.fd_streams.dom());
    }
    uid
}

/// Opening a path again gives the file id it got before.
pub proof fn lemma_reopen_keeps_uid(
    v1: ShimmerView,
    path: Seq<char>,
    fd1: i32,
    s1: Stream,
    v2: ShimmerView,
    u1: u32,
    fd2: i32,
    s2: Stream,
    v3: ShimmerView,
    u2: u32,
)
    requires
        open_effect(v1, path, fd1, s1, v2, u1),
        open_effect(v2, path, fd2, s2, v3, u2),
    ensures
        u2 == u1,
        v3.fd_uids[fd1] == v3.fd_uids[fd2] || fd1 == fd2,
{
}

/// Opening a file gives its path a file id and the descriptor that id, and leaves the
/// metadata of every file as it was: a path opened before keeps its id, and a file that
/// has metadata, such as one written and closed before, keeps its size and extents. Only a
/// file with no metadata yet gets that of an empty file. Zones and buffers do not change.
pub proof fn lemma_open_keeps_file_metadata(
    v: ShimmerView,
    path: Seq<char>,
    fd: i32,
    stream: Stream,
    post: ShimmerView,
    uid: u32,
)
    requires
        open_effect(v, path, fd, stream, post, uid),
    ensures
        post.paths.contains_key(path) && post.paths[path] == uid,
        post.fd_uids.contains_key(fd) && post.fd_uids[fd] == uid,
        v.paths.contains_key(path) ==> uid == v.paths[path],
        post.files.contains_key(uid),
        v.files.contains_key(uid) ==> post.files[uid] == v.files[uid],
        !v.files.contains_key(uid) ==> post.files[uid].file_size == 0
            && post.files[uid].extents.len() == 0,
        forall|u: u32| u != uid ==> (#[trigger] post.files.contains_key(u) <==> v.files.contains_key(u)),
        forall|u: u32| #[trigger] v.files.contains_key(u) ==> post.files[u] == v.files[u],
        post.zones == v.zones,
        post.buffers == v.buffers,
{
}

/// The request that hands the write buffer of `fd` to the writer before the descriptor is
/// closed. Descriptors below 5 are left alone.
pub fn close_sync_request(state: &mut ShimmerState, fd: i32) -> (request: Option<WriteRequest>)
    requires
        old(state).wf(),
    ensures
        final(state).wf(),
        fd < 5 ==> request is None && final(state)@ == old(state)@,
        fd >= 5 && old(state)@.fd_buffers.contains_key(fd) ==> request == Some(
            write_request_for(
                old(state)@,
                old(state)@.next_write_id,
                fd,
                old(state)@.fd_buffers[fd],
                old(state)@.fd_streams[fd],
            ),
        ) && final(state)@ == (ShimmerView {
            next_write_id: id_after(old(state)@.next_write_id, 1),
            ..old(state)@
        }),
        fd >= 5 && !old(state)@.fd_buffers.contains_key(fd) ==> request is None && final(state)@
            == old(state)@,
{
    if fd < 5 {
        return None;
    }
    handle_sync(state, fd)
}

/// Forgets the descriptor `fd` once its file is closed: its write buffer, if any, returns
/// to the pool, and it no longer names a file or stream. Descriptors below 5 are left
/// alone.
pub fn close_fd(state: &mut ShimmerState, fd: i32)
    requires
        old(state).wf(),
    ensures
        final(state).wf(),
        fd < 5 ==> final(state)@ == old(state)@,
        fd >= 5 ==> final(state)@ == (ShimmerView {
            buffers: if old(state)@.fd_buffers.contains_key(fd) {
                old(state)@.buffers.insert(
                    old(state)@.fd_buffers[fd],
                    BufferView { data: Seq::empty(), is_free: true },
                )
            } else {
                old(state)@.buffers
            },
            fd_buffers: old(state)@.fd_buffers.remove(fd),
            fd_uids: old(state)@.fd_uids.remove(fd),
            fd_streams: old(state)@.fd_streams.remove(fd),
            ..old(state)@
        }),
{
    if fd < 5 {
        return;
    }
    let ghost v = state@;
    match fd_table_remove(&mut state.file_to_buffer_pool, fd) {
        Some(buffer) => {
            proof {
                assert forall|other: i32| #[trigger] state@.fd_buffers.contains_key(other)
                    implies state@.fd_buffers[other] != buffer by {
                    assert(v.fd_buffers.contains_key(other) && other != fd);
                    assert(v.fd_buffers[other] != v.fd_buffers[fd]);
                }
                assert(!crate::statics::buffer_in_use_by_fd(state@, buffer));
            }
            return_buffer(state, buffer);
        },
        None => {},
    }
    fd_table_remove(&mut state.fd_to_uid, fd);
    stream_table_remove(&mut state.fd_to_stream, fd);
    proof {
        assert(state@.fd_uids.dom() =~= state@.fd_streams.dom());
        assert(state@ =~= (ShimmerView {
            buffers: if v.fd_buffers.contains_key(fd) {
                v.buffers.insert(v.fd_buffers[fd], BufferView { data: Seq::empty(), is_free: true })
            } else {
                v.buffers
            },
            fd_buffers: v.fd_buffers.remove(fd),
            fd_uids: v.fd_uids.remove(fd),
            fd_streams: v.fd_streams.remove(fd),
            ..v
        }));
    }
}

/// The zones after the extents `exts` of an unlinked file are deleted, one after another.
pub open spec fn zones_after_unlink(zones: Map<u32, ZoneView>, exts: Seq<Extents>) -> Map<u32, ZoneView>
    decreases exts.len(),
{
    if exts.len() == 0 {
        zones
    } else {
        let z = zones_after_unlink(zones, exts.drop_last());
        let e = exts.last();
        if z.contains_key(e.zone) {
            z.insert(e.zone, zone_delete_extent(z[e.zone], e.zone_extent_num, e.actual_size))
        } else {
            z
        }
    }
}

/// The zones that deleting the extents `exts` of an unlinked file leaves reclaimable, each
/// once, in the order the deletions made them so.
pub open spec fn reclaim_after_unlink(zones: Map<u32, ZoneView>, exts: Seq<Extents>) -> Seq<u32>
    decreases exts.len(),
{
    if exts.len() == 0 {
        Seq::empty()
    } else {
        let prev = reclaim_after_unlink(zones, exts.drop_last());
        let z = zones_after_unlink(zones, exts.drop_last());
        let e = exts.last();
        if z.contains_key(e.zone) && zone_extent_live(z[e.zone], e.zone_extent_num)
            && zone_reclaimable(zone_delete_extent(z[e.zone], e.zone_extent_num, e.actual_size))
            && !prev.contains(e.zone) {
            prev.push(e.zone)
        } else {
            prev
        }
    }
}

/// Every zone that unlinking hands to the garbage collector is full and wholly deleted once
/// all the file's extents are deleted.
pub proof fn lemma_unlink_gc_zones_reclaimable(zones: Map<u32, ZoneView>, exts: Seq<Extents>)
    ensures
        forall|z: u32| #[trigger] reclaim_after_unlink(zones, exts).contains(z) ==> zones_after_unlink(
            zones,
            exts,
        ).contains_key(z) && zone_reclaimable(zones_after_unlink(zones, exts)[z]),
    decreases exts.len(),
{
    if exts.len() > 0 {
        let rest = exts.drop_last();
        lemma_unlink_gc_zones_reclaimable(zones, rest);
        let prev = reclaim_after_unlink(zones, rest);
        let zs = zones_after_unlink(zones, rest);
        let e = exts.last();
        assert forall|z: u32| #[trigger] reclaim_after_unlink(zones, exts).contains(z) implies zones_after_unlink(
            zones,
            exts,
        ).contains_key(z) && zone_reclaimable(zones_after_unlink(zones, exts)[z]) by {
            if zs.contains_key(e.zone) {
                let d = zone_delete_extent(zs[e.zone], e.zone_extent_num, e.actual_size);
                if z == e.zone {
                    if prev.contains(z) {
                        // Already reclaimable: every extent is deleted, so this deletion changes nothing.
                        assert(!zone_extent_live(zs[e.zone], e.zone_extent_num));
                        assert(d == zs[e.zone]);
                    }
                } else {
                    if reclaim_after_unlink(zones, exts) != prev {
                        assert(reclaim_after_unlink(zones, exts) == prev.push(e.zone));
                        assert(prev.push(e.zone).contains(z) ==> prev.contains(z)) by {
                            if prev.push(e.zone).contains(z) {
                                let i = choose|i: int| 0 <= i < prev.push(e.zone).len()
                                    && prev.push(e.zone)[i] == z;
                                assert(prev[i] == z);
                            }
                        }
                    }
                }
            }
        }
    }
}

/// What unlinking the file at `path` does to the state, and the zones it hands to the
/// garbage collector.
pub open spec fn unlink_effect(v: ShimmerView, path: Seq<char>, post: ShimmerView, gc: Seq<u32>) -> bool {
    if v.paths.contains_key(path) && v.files.contains_key(v.paths[path]) {
        let exts = v.files[v.paths[path]].extents;
        &&& post == ShimmerView {
            paths: v.paths.remove(path),
            files: v.files.remove(v.paths[path]),
            zones: zones_after_unlink(v.zones, exts),
            ..v
        }
        &&& gc == reclaim_after_unlink(v.zones, exts)
    } else {
        &&& post == ShimmerView { paths: v.paths.remove(path), ..v }
        &&& gc.len() == 0
    }
}

/// Deleting the extents `exts` marks exactly the zone extents they name: a zone's extent
/// `k` is deleted afterwards when it was before or when one of `exts` is extent `k` of that
/// zone, and no other flag changes. Which zones there are, their extent counts, whether
/// they are full, and how many deletion flags each has stay as they were.
proof fn lemma_unlink_marks_named_extents(zones: Map<u32, ZoneView>, exts: Seq<Extents>)
    ensures
        zones_after_unlink(zones, exts).dom() == zones.dom(),
        forall|z: u32| #[trigger] zones.contains_key(z) ==> {
            let a = zones_after_unlink(zones, exts)[z];
            &&& a.extent_count == zones[z].extent_count
            &&& a.is_full == zones[z].is_full
            &&& a.deleted_extents.len() == zones[z].deleted_extents.len()
        },
        forall|z: u32, k: int|
            zones.contains_key(z) && 0 <= k < zones[z].deleted_extents.len() ==> (
            #[trigger] zones_after_unlink(zones, exts)[z].deleted_extents[k] <==> (
            zones[z].deleted_extents[k] || exists|j: int|
                0 <= j < exts.len() && (#[trigger] exts[j]).zone == z && exts[j].zone_extent_num == k)),
    decreases exts.len(),
{
    if exts.len() > 0 {
        let rest = exts.drop_last();
        lemma_unlink_marks_named_extents(zones, rest);
        let zs = zones_after_unlink(zones, rest);
        let e = exts.last();
        let after = zones_after_unlink(zones, exts);
        assert(after.dom() =~= zones.dom());
        assert forall|z: u32, k: int|
            zones.contains_key(z) && 0 <= k < zones[z].deleted_extents.len() implies (
            #[trigger] after[z].deleted_extents[k] <==> (
            zones[z].deleted_extents[k] || exists|j: int|
                0 <= j < exts.len() && (#[trigger] exts[j]).zone == z && exts[j].zone_extent_num == k)) by {
            assert(zs[z].deleted_extents[k] <==> (zones[z].deleted_extents[k] || exists|j: int|
                0 <= j < rest.len() && (#[trigger] rest[j]).zone == z && rest[j].zone_extent_num == k));
            if exists|j: int| 0 <= j < rest.len() && (#[trigger] rest[j]).zone == z && rest[j].zone_extent_num == k {
                let j = choose|j: int| 0 <= j < rest.len() && (#[trigger] rest[j]).zone == z && rest[j].zone_extent_num == k;
                assert(exts[j] == rest[j]);
            }
            if exists|j: int| 0 <= j < exts.len() && (#[trigger] exts[j]).zone == z && exts[j].zone_extent_num == k {
                let j = choose|j: int| 0 <= j < exts.len() && (#[trigger] exts[j]).zone == z && exts[j].zone_extent_num == k;
                if j < rest.len() {
                    assert(rest[j] == exts[j]);
                } else {
                    assert(exts[j] == e);
                }
            }
            if z == e.zone && k == e.zone_extent_num {
                assert(exts[exts.len() - 1] == e);
            }
        }
    }
}

/// Unlinking a file marks deleted exactly the zone extents that the file's extents name,
/// and no other: a zone's extent `k` is deleted afterwards when it was before or when one
/// of the file's extents is extent `k` of that zone. Zones keep their extent counts and
/// whether they are full. Every other file keeps its metadata, and an unknown path leaves
/// the zones alone.
pub proof fn lemma_unlink_deletes_named_extents(
    v: ShimmerView,
    path: Seq<char>,
    post: ShimmerView,
    gc: Seq<u32>,
)
    requires
        unlink_effect(v, path, post, gc),
    ensures
        !post.paths.contains_key(path),
        post.zones.dom() == v.zones.dom(),
        forall|z: u32| #[trigger] v.zones.contains_key(z) ==> {
            &&& post.zones[z].extent_count == v.zones[z].extent_count
            &&& post.zones[z].is_full == v.zones[z].is_full
            &&& post.zones[z].deleted_extents.len() == v.zones[z].deleted_extents.len()
        },
        v.paths.contains_key(path) && v.files.contains_key(v.paths[path]) ==> {
            let exts = v.files[v.paths[path]].extents;
            forall|z: u32, k: int|
                v.zones.contains_key(z) && 0 <= k < v.zones[z].deleted_extents.len() ==> (
                #[trigger] post.zones[z].deleted_extents[k] <==> (
                v.zones[z].deleted_extents[k] || exists|j: int|
                    0 <= j < exts.len() && (#[trigger] exts[j]).zone == z && exts[j].zone_extent_num == k))
        },
        !(v.paths.contains_key(path) && v.files.contains_key(v.paths[path])) ==> post.zones == v.zones,
        forall|u: u32| #[trigger] v.files.contains_key(u) && !(v.paths.contains_key(path) && u == v.paths[path])
            ==> post.files.contains_key(u) && post.files[u] == v.files[u],
{
    if v.paths.contains_key(path) && v.files.contains_key(v.paths[path]) {
        lemma_unlink_marks_named_extents(v.zones, v.files[v.paths[path]].extents);
    }
}

fn contains_zone(zones: &Vec<u32>, zone: u32) -> (found: bool)
    ensures
        found == zones@.contains(zone),
{
    let mut i: usize = 0;
    while i < zones.len()
        invariant
            0 <= i <= zones@.len(),
            forall|j: int| 0 <= j < i ==> zones@[j] != zone,
        decreases zones@.len() - i,
    {
        if zones[i] == zone {
            return true;
        }
        i = i + 1;
    }
    false
}

/// Forgets the file at `path` when it is unlinked: the path and the file's metadata go, and
/// every extent of the file is marked deleted in its zone. Returns the zones that this
/// leaves full and wholly deleted, for the garbage collector to reclaim.
pub fn unlink_path(state: &mut ShimmerState, path: &String) -> (gc: Vec<u32>)
    requires
        old(state).wf(),
    ensures
        final(state).wf(),
        unlink_effect(old(state)@, path@, final(state)@, gc@),
{
    let ghost v = state@;
    let mut gc: Vec<u32> = Vec::new();
    let uid = match path_table_remove(&mut state.path_to_uid, path) {
        Some(uid) => uid,
        None => {
            proof {
                assert(state@ =~= (ShimmerView { paths: v.paths.remove(path@), ..v }));
            }
            return gc;
        },
    };
    let file = match file_table_take(&mut state.filesystem, uid) {
        Some(f) => f,
        None => {
            proof {
                assert(state@ =~= (ShimmerView { paths: v.paths.remove(path@), ..v }));
            }
            return gc;
        },
    };
    let ghost exts = file.extents@;
    let mut j: usize = 0;
    proof {
        assert(exts.take(0) =~= Seq::<Extents>::empty());
    }
    while j < file.extents.len()
        invariant
            state.wf(),
            crate::statics::state_wf(v),
            exts == file.extents@,
            0 <= j <= exts.len(),
            state@ == (ShimmerView {
                paths: v.paths.remove(path@),
                files: v.files.remove(uid),
                zones: zones_after_unlink(v.zones, exts.take(j as int)),
                ..v
            }),
            gc@ == reclaim_after_unlink(v.zones, exts.take(j as int)),
        decreases exts.len() - j,
    {
        let e = file.extents[j];
        proof {
            assert(exts.take(j + 1).drop_last() =~= exts.take(j as int));
            assert(exts.take(j + 1).last() == e);
        }
        let ghost zones_before = state@.zones;
        let ghost gc_before = gc@;
        match zone_table_take(&mut state.zone_metadata_map, e.zone) {
            Some(mut z) => {
                let deleted = z.mark_extent_deleted(e.zone_extent_num, e.actual_size);
                if deleted && z.should_gc() && !contains_zone(&gc, e.zone) {
                    gc.push(e.zone);
                }
                zone_table_insert(&mut state.zone_metadata_map, e.zone, z);
            },
            None => {},
        }
        proof {
            assert(state@.zones =~= zones_after_unlink(v.zones, exts.take(j + 1)));
            assert(state@ =~= (ShimmerView {
                paths: v.paths.remove(path@),
                files: v.files.remove(uid),
                zones: zones_after_unlink(v.zones, exts.take(j + 1)),
                ..v
            }));
        }
        j = j + 1;
    }
    proof {
        assert(exts.take(exts.len() as int) =~= exts);
    }
    gc
}

/// How a thread waiting for a reply spends the next moment, by how long it has waited.
#[derive(Debug, Clone, Copy, PartialEq, Eq, Structural)]
pub enum WaitStep {
    /// Yield the processor to other threads.
    Yield,
    /// Spin briefly.
    Spin,
    /// Sleep for the given number of microseconds.
    Sleep(u64),
}

/// Time-based backoff for waiting loops: yield for the first 20 microseconds, then spin up
/// to a millisecond, then sleep 10 microseconds at a time.
pub fn smart_wait(elapsed_micros: u128) -> (step: WaitStep)
    ensures
        elapsed_micros <= 20 ==> step == WaitStep::Yield,
        20 < elapsed_micros <= 1000 ==> step == WaitStep::Spin,
        elapsed_micros > 1000 ==> step == WaitStep::Sleep(10),
{
    if elapsed_micros <= 20 {
        WaitStep::Yield
    } else if elapsed_micros <= 1000 {
        WaitStep::Spin
    } else {
        WaitStep::Sleep(10)
    }
}

/// What loading saved metadata at startup found.
pub enum MetadataLoad {
    /// Saved metadata was read.
    Loaded(ShimmerMetadata),
    /// There is no saved metadata.
    Missing,
    /// Saved metadata could not be read.
    Failed,
}

/// Why the shim cannot start.
#[derive(Debug, Clone, Copy, PartialEq, Eq, Structural)]
pub enum SetupError {
    /// Fewer than two zones are free for the log and sorted-table streams.
    NotEnoughFreeZones,
}

/// The zones `from..to`, in order.
pub open spec fn zone_range(from: int, to: int) -> Seq<u32> {
    if from >= to {
        Seq::empty()
    } else {
        Seq::new((to - from) as nat, |i: int| (from + i) as u32)
    }
}

/// The metadata of `n` fresh zones, numbered from 0.
pub open spec fn fresh_zones(n: u32) -> Map<u32, ZoneView> {
    Map::new(|k: u32| k < n, |k: u32| empty_zone())
}

/// The buffer pool the shim starts with: `NUM_BUFFERS` free, empty buffers.
pub open spec fn initial_pool() -> Map<u32, BufferView> {
    Map::new(|k: u32| k < NUM_BUFFERS, |k: u32| BufferView { data: Seq::empty(), is_free: true })
}

/// The state at startup, before the streams get their zones: with saved metadata it is
/// restored; without, every zone is fresh and zones from 2 on are free; when the metadata
/// could not be read, every zone is fresh and free.
pub open spec fn startup_view(config: ZoneConfig, load: MetadataLoad) -> ShimmerView {
    let base = ShimmerView { config: Some(config), buffers: initial_pool(), ..empty_view() };
    match load {
        MetadataLoad::Loaded(m) => restored(base, m@),
        MetadataLoad::Missing => ShimmerView {
            zones: fresh_zones(config.zone_num),
            free_zones: zone_range(2, config.zone_num as int),
            ..base
        },
        MetadataLoad::Failed => ShimmerView {
            zones: fresh_zones(config.zone_num),
            free_zones: zone_range(0, config.zone_num as int),
            ..base
        },
    }
}

/// The state once the shim has started: the startup state, with the first two free zones
/// given to the log and the sorted-table streams, in that order.
pub open spec fn started_view(config: ZoneConfig, load: MetadataLoad) -> ShimmerView {
    let v = startup_view(config, load);
    ShimmerView {
        stream_zones: Map::empty().insert(Stream::LOG, v.free_zones[0]).insert(
            Stream::SSTable,
            v.free_zones[1],
        ),
        free_zones: v.free_zones.subrange(2, v.free_zones.len() as int),
        ..v
    }
}

/// Starting from saved metadata restores it wholly: the paths and their file ids, the
/// file and zone metadata and the file id counter are the saved ones, the two streams get
/// the first two saved free zones and the rest stay free in order; no descriptor is open,
/// the configuration is the given one and the pool holds buffers `0..NUM_BUFFERS`, each
/// free and empty.
pub proof fn lemma_setup_restores_saved(config: ZoneConfig, m: ShimmerMetadata, post: ShimmerView)
    requires
        m@.free_zones.len() >= 2,
        post == started_view(config, MetadataLoad::Loaded(m)),
    ensures
        post.paths == m@.paths,
        post.files == m@.files,
        post.zones == m@.zones,
        post.next_uid == m.next_uid,
        post.free_zones == m@.free_zones.subrange(2, m@.free_zones.len() as int),
        post.stream_zones[Stream::LOG] == m@.free_zones[0],
        post.stream_zones[Stream::SSTable] == m@.free_zones[1],
        post.fd_uids.is_empty() && post.fd_streams.is_empty() && post.fd_buffers.is_empty(),
        post.config == Some(config),
        forall|k: u32| #[trigger] post.buffers.contains_key(k) <==> k < NUM_BUFFERS,
        forall|k: u32| #[trigger] post.buffers.contains_key(k) ==> post.buffers[k].is_free
            && post.buffers[k].data.len() == 0,
{
    assert(post.fd_uids =~= Map::<i32, u32>::empty());
}

/// Initializes the shim's state at library load: the zone configuration, the saved
/// metadata or fresh zones, the buffer pool, and a zone each for the log and the
/// sorted-table streams, taken from the free zones in that order.
pub fn setup(config: ZoneConfig, load: MetadataLoad) -> (r: Result<ShimmerState, SetupError>)
    ensures
        r is Err <==> startup_view(config, load).free_zones.len() < 2,
        r matches Ok(s) ==> s.wf() && s@ == started_view(config, load),
{
    let ghost v = startup_view(config, load);
    let mut state = ShimmerState::new();
    state.config = Some(config);
    let mut i: u32 = 0;
    proof {
        assert(state@.buffers.dom() =~= Set::<u32>::empty());
    }
    while (i as usize) < NUM_BUFFERS
        invariant
            0 <= i <= NUM_BUFFERS,
            state@ == (ShimmerView {
                config: Some(config),
                buffers: Map::new(
                    |k: u32| k < i,
                    |k: u32| BufferView { data: Seq::empty(), is_free: true },
                ),
                ..empty_view()
            }),
            state@.buffers.len() == i,
            state@.buffers.dom().finite(),
        decreases NUM_BUFFERS - i,
    {
        let ghost before = state@.buffers;
        buffer_table_insert(&mut state.buffer_pool, i, TrackedBuffer::new());
        proof {
            assert(!before.contains_key(i));
            assert(state@.buffers.dom() =~= before.dom().insert(i));
            assert(state@.buffers =~= Map::new(
                |k: u32| k < i + 1,
                |k: u32| BufferView { data: Seq::empty(), is_free: true },
            ));
            assert(state@ =~= (ShimmerView {
                config: Some(config),
                buffers: Map::new(
                    |k: u32| k < i + 1,
                    |k: u32| BufferView { data: Seq::empty(), is_free: true },
                ),
                ..empty_view()
            }));
        }
        i = i + 1;
    }
    proof {
        assert(state@.buffers =~= initial_pool());
        assert(state@.buffers.dom() =~= Set::new(|k: u32| k < NUM_BUFFERS));
        assert(state.wf());
    }
    let ghost base = state@;
    match load {
        MetadataLoad::Loaded(m) => {
            m.restore_to_globals(&mut state);
        },
        MetadataLoad::Missing => {
            init_fresh_zones(&mut state, config.zone_num, 2);
        },
        MetadataLoad::Failed => {
            init_fresh_zones(&mut state, config.zone_num, 0);
        },
    }
    proof {
        assert(state@ =~= v);
    }
    if state.free_zone.len() < 2 {
        return Err(SetupError::NotEnoughFreeZones);
    }
    assign_zone(&mut state, Stream::LOG);
    assign_zone(&mut state, Stream::SSTable);
    proof {
        assert(state@.stream_zones =~= Map::empty().insert(Stream::LOG, v.free_zones[0]).insert(
            Stream::SSTable,
            v.free_zones[1],
        ));
        assert(state@.free_zones =~= v.free_zones.subrange(2, v.free_zones.len() as int));
    }
    Ok(state)
}

/// Gives a state without zones `zone_num` fresh zones, of which those from `first_free` on
/// are free.
fn init_fresh_zones(state: &mut ShimmerState, zone_num: u32, first_free: u32)
    requires
        old(state).wf(),
        old(state)@.zones.is_empty(),
        old(state)@.free_zones.len() == 0,
    ensures
        final(state).wf(),
        final(state)@ == (ShimmerView {
            zones: fresh_zones(zone_num),
            free_zones: zone_range(first_free as int, zone_num as int),
            ..old(state)@
        }),
{
    let ghost v = state@;
    let mut i: u32 = 0;
    proof {
        assert(v.zones =~= Map::new(|k: u32| k < 0, |k: u32| empty_zone()));
    }
    while i < zone_num
        invariant
            0 <= i <= zone_num,
            state@ == (ShimmerView { zones: Map::new(|k: u32| k < i, |k: u32| empty_zone()), ..v }),
            crate::statics::state_wf(v),
        decreases zone_num - i,
    {
        zone_table_insert(&mut state.zone_metadata_map, i, Zone::new());
        proof {
            assert(state@.zones =~= Map::new(|k: u32| k < i + 1, |k: u32| empty_zone()));
            assert(state@ =~= (ShimmerView {
                zones: Map::new(|k: u32| k < i + 1, |k: u32| empty_zone()),
                ..v
            }));
        }
        i = i + 1;
    }
    let mut z = first_free;
    proof {
        assert(state@.zones =~= fresh_zones(zone_num));
        assert(zone_range(first_free as int, first_free as int) =~= Seq::<u32>::empty());
        assert(state@ =~= (ShimmerView {
            zones: fresh_zones(zone_num),
            free_zones: zone_range(first_free as int, z as int),
            ..v
        }));
    }
    if z < zone_num {
        while z < zone_num
            invariant
                first_free <= z <= zone_num,
                state@ == (ShimmerView {
                    zones: fresh_zones(zone_num),
                    free_zones: zone_range(first_free as int, z as int),
                    ..v
                }),
                crate::statics::state_wf(v),
            decreases zone_num - z,
        {
            state.free_zone.push_back(z);
            proof {
                assert(zone_range(first_free as int, z + 1) =~= zone_range(first_free as int, z as int).push(z));
                assert(state@ =~= (ShimmerView {
                    zones: fresh_zones(zone_num),
                    free_zones: zone_range(first_free as int, z + 1),
                    ..v
                }));
            }
            z = z + 1;
        }
    }
    proof {
        if first_free >= zone_num {
            assert(state@.free_zones =~= zone_range(first_free as int, zone_num as int));
        }
        assert(state@ =~= (ShimmerView {
            zones: fresh_zones(zone_num),
            free_zones: zone_range(first_free as int, zone_num as int),
            ..v
        }));
    }
}

} // verus!
