//! Laws of the allocator that relate several operations, stated over the
//! same spec functions the operations' contracts use.

use vstd::prelude::*;
use crate::fit::fits;
use crate::free::{coalesce, free_post, freed_covered, merges_next, merges_prev};
use crate::state::{lemma_order, seq_wf, spec_needed, Allocator, Block, HEADER_SIZE};

verus! {

/// Disjointness: two distinct live allocations occupy disjoint payload
/// ranges; no byte belongs to both.
pub proof fn lemma_live_disjoint(a: &Allocator, p1: usize, p2: usize)
    requires
        a.wf(),
        a.is_live(p1),
        a.is_live(p2),
        p1 != p2,
    ensures
        p1 + (a.blocks@[a.live_index(p1)].size - HEADER_SIZE) <= p2 || p2 + (a.blocks@[a.live_index(
            p2,
        )].size - HEADER_SIZE) <= p1,
{
    let bs = a.blocks@;
    let cap = a.capacity as int;
    let i1 = a.live_index(p1);
    let i2 = a.live_index(p2);
    assert(0 <= i1 < bs.len() && !bs[i1].free && bs[i1].offset + HEADER_SIZE == p1);
    assert(0 <= i2 < bs.len() && !bs[i2].free && bs[i2].offset + HEADER_SIZE == p2);
    if i1 == i2 {
        assert(false);
    } else if i1 < i2 {
        lemma_order(bs, cap, i1, i2);
    } else {
        lemma_order(bs, cap, i2, i1);
    }
}

/// Round-trip: after freeing an allocation that was big enough for an
/// `n`-byte request, some free block again fits that request, so the
/// request is owed success by `allocate`'s contract.
pub proof fn lemma_round_trip(mid: &Allocator, post: &Allocator, p: usize, n: usize)
    requires
        mid.wf(),
        mid.is_live(p),
        mid.blocks@[mid.live_index(p)].size >= spec_needed(n),
        free_post(*mid, *post, p),
        freed_covered(mid.blocks@, post.blocks@, mid.live_index(p)),
    ensures
        exists|i: int|
            0 <= i < post.blocks@.len() && fits(#[trigger] post.blocks@[i], spec_needed(n)),
{
    let i = mid.live_index(p);
    let k = choose|k: int|
        0 <= k < post.blocks@.len() && (#[trigger] post.blocks@[k]).free && post.blocks@[k].offset
            <= mid.blocks@[i].offset && mid.blocks@[i].offset + mid.blocks@[i].size
            <= post.blocks@[k].offset + post.blocks@[k].size;
    assert(post.blocks@[k].size >= mid.blocks@[i].size);
    assert(fits(post.blocks@[k], spec_needed(n)));
}

/// Coalescing: a freed block merges with whichever physical neighbors are
/// free — in either order of freeing, the result is a single free block
/// spanning the combined range.
pub proof fn lemma_coalesce_spans(bs: Seq<Block>, cap: int, i: int)
    requires
        seq_wf(bs, cap),
        cap <= usize::MAX,
        0 <= i < bs.len(),
        !bs[i].free,
    ensures
        merges_next(bs, i) && !merges_prev(bs, i) ==> coalesce(bs, i)[i] == (Block {
            offset: bs[i].offset,
            size: (bs[i].size + bs[i + 1].size) as usize,
            free: true,
        }),
        merges_prev(bs, i) && !merges_next(bs, i) ==> coalesce(bs, i)[i - 1] == (Block {
            offset: bs[i - 1].offset,
            size: (bs[i - 1].size + bs[i].size) as usize,
            free: true,
        }),
        merges_prev(bs, i) && merges_next(bs, i) ==> coalesce(bs, i)[i - 1] == (Block {
            offset: bs[i - 1].offset,
            size: (bs[i - 1].size + bs[i].size + bs[i + 1].size) as usize,
            free: true,
        }),
{
    crate::free::lemma_coalesce_elems(bs, cap, i);
}

} // verus!
