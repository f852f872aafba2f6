//! The first-fit search order of the circular free list, as specification.
//!
//! The free list is the address-ordered cycle of all free blocks, with the
//! head at an arbitrary member. A walk starts just past the head, runs to the
//! highest address, wraps to the lowest, and visits the head last.

use vstd::prelude::*;
use crate::state::Block;

verus! {

/// The block can serve a request needing `needed` total bytes.
pub open spec fn fits(b: Block, needed: int) -> bool {
    b.free && b.size >= needed
}

/// Index of the first fitting block in `[lo, hi)`, scanning upward.
pub open spec fn find_fit(bs: Seq<Block>, lo: int, hi: int, needed: int) -> Option<int>
    decreases hi - lo,
{
    if lo >= hi {
        None
    } else if fits(bs[lo], needed) {
        Some(lo)
    } else {
        find_fit(bs, lo + 1, hi, needed)
    }
}

/// Index of the last free block in `[lo, hi)`, or `None` when none is free.
pub open spec fn find_last_free(bs: Seq<Block>, lo: int, hi: int) -> Option<int>
    decreases hi - lo,
{
    if lo >= hi {
        None
    } else if bs[hi - 1].free {
        Some(hi - 1)
    } else {
        find_last_free(bs, lo, hi - 1)
    }
}

/// The block chosen by the first-fit walk from head index `h`: the walk
/// visits indices `h+1, ..., len-1, 0, ..., h`, free blocks only.
pub open spec fn first_fit(bs: Seq<Block>, h: int, needed: int) -> Option<int> {
    match find_fit(bs, h + 1, bs.len() as int, needed) {
        Some(j) => Some(j),
        None => find_fit(bs, 0, h + 1, needed),
    }
}

/// The free block visited immediately before index `j` on that same walk,
/// or `h` itself when no other free block lies in between: the list
/// predecessor of `j` as the walk encounters it.
pub open spec fn walk_prev(bs: Seq<Block>, h: int, j: int) -> int {
    if j > h {
        match find_last_free(bs, h + 1, j) {
            Some(k) => k,
            None => h,
        }
    } else {
        match find_last_free(bs, 0, j) {
            Some(k) => k,
            None => match find_last_free(bs, h + 1, bs.len() as int) {
                Some(k) => k,
                None => h,
            },
        }
    }
}

/// The block a first-fit walk chooses is free and large enough.
pub proof fn lemma_first_fit_fits(bs: Seq<Block>, h: int, needed: int, j: int)
    requires
        0 <= h < bs.len(),
        first_fit(bs, h, needed) == Some(j),
    ensures
        0 <= j < bs.len(),
        fits(bs[j], needed),
{
    match find_fit(bs, h + 1, bs.len() as int, needed) {
        Some(j1) => lemma_find_fit_some(bs, h + 1, bs.len() as int, needed, j1),
        None => lemma_find_fit_some(bs, 0, h + 1, needed, j),
    }
}

/// A `None` search result means nothing in the range fits.
pub proof fn lemma_find_fit_none(bs: Seq<Block>, lo: int, hi: int, needed: int)
    requires
        find_fit(bs, lo, hi, needed) is None,
    ensures
        forall|k: int| lo <= k < hi ==> !fits(bs[k], needed),
    decreases hi - lo,
{
    if lo < hi {
        lemma_find_fit_none(bs, lo + 1, hi, needed);
    }
}

/// A `Some(j)` search result is a fit, and the first one in the range.
pub proof fn lemma_find_fit_some(bs: Seq<Block>, lo: int, hi: int, needed: int, j: int)
    requires
        find_fit(bs, lo, hi, needed) == Some(j),
    ensures
        lo <= j < hi,
        fits(bs[j], needed),
        forall|k: int| lo <= k < j ==> !fits(bs[k], needed),
    decreases hi - lo,
{
    if lo < hi && !fits(bs[lo], needed) {
        lemma_find_fit_some(bs, lo + 1, hi, needed, j);
    }
}

/// Scanning a longer range finds the earlier fit first.
pub proof fn lemma_find_fit_found(bs: Seq<Block>, lo: int, j: int, hi: int, needed: int)
    requires
        lo <= j < hi,
        find_fit(bs, lo, j, needed) is None,
        fits(bs[j], needed),
    ensures
        find_fit(bs, lo, hi, needed) == Some(j),
    decreases j - lo,
{
    if lo < j {
        lemma_find_fit_found(bs, lo + 1, j, hi, needed);
    }
}

/// A range with no fit at its end stays without a fit when extended by one.
pub proof fn lemma_find_fit_extend_none(bs: Seq<Block>, lo: int, hi: int, needed: int)
    requires
        lo <= hi,
        find_fit(bs, lo, hi, needed) is None,
        !fits(bs[hi], needed),
    ensures
        find_fit(bs, lo, hi + 1, needed) is None,
    decreases hi - lo,
{
    if lo < hi {
        lemma_find_fit_extend_none(bs, lo + 1, hi, needed);
    } else {
        assert(find_fit(bs, lo + 1, hi + 1, needed) is None);
    }
}

/// When nothing in the range fits, the search comes back empty.
pub proof fn lemma_find_fit_all_unfit(bs: Seq<Block>, lo: int, hi: int, needed: int)
    requires
        forall|k: int| lo <= k < hi ==> !fits(#[trigger] bs[k], needed),
    ensures
        find_fit(bs, lo, hi, needed) is None,
    decreases hi - lo,
{
    if lo < hi {
        lemma_find_fit_all_unfit(bs, lo + 1, hi, needed);
    }
}

/// A `None` last-free result means nothing in the range is free.
pub proof fn lemma_find_last_free_none(bs: Seq<Block>, lo: int, hi: int)
    requires
        find_last_free(bs, lo, hi) is None,
    ensures
        forall|k: int| lo <= k < hi ==> !(#[trigger] bs[k]).free,
    decreases hi - lo,
{
    if lo < hi {
        lemma_find_last_free_none(bs, lo, hi - 1);
    }
}

/// A `Some(k)` last-free result is free, in range, and the last such.
pub proof fn lemma_find_last_free_some(bs: Seq<Block>, lo: int, hi: int, k: int)
    requires
        find_last_free(bs, lo, hi) == Some(k),
    ensures
        lo <= k < hi,
        bs[k].free,
        forall|l: int| k < l < hi ==> !(#[trigger] bs[l]).free,
    decreases hi - lo,
{
    if lo < hi && !bs[hi - 1].free {
        lemma_find_last_free_some(bs, lo, hi - 1, k);
    }
}

/// Extending a range upward past a free block lands the last-free there.
pub proof fn lemma_find_last_free_extend(bs: Seq<Block>, lo: int, hi: int, k: int)
    requires
        lo <= k < hi,
        bs[k].free,
        forall|l: int| k < l < hi ==> !(#[trigger] bs[l]).free,
    ensures
        find_last_free(bs, lo, hi) == Some(k),
    decreases hi - k,
{
    if k < hi - 1 {
        lemma_find_last_free_extend(bs, lo, hi - 1, k);
    }
}

} // verus!
