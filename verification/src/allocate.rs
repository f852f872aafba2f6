//! The allocation engine: first-fit search over the free list, with
//! splitting of oversized blocks.

use vstd::prelude::*;
use crate::fit::{
    find_fit, find_last_free, first_fit, fits, lemma_find_fit_all_unfit, lemma_find_fit_extend_none,
    lemma_find_fit_found, lemma_find_fit_none, lemma_find_last_free_extend,
    lemma_find_last_free_none, lemma_find_last_free_some, walk_prev,
};
use crate::state::{
    allocated_at, free_at, lemma_in_capacity, lemma_offset_unique, lemma_order, needed_size,
    seq_wf, spec_needed, Allocator, Block, ALIGN, HEADER_SIZE, MIN_SPLIT,
};

verus! {

/// The chosen block shrunk to `needed` bytes and marked allocated, with a
/// new free block owning the remainder spliced in right after it.
pub open spec fn split_blocks(bs: Seq<Block>, j: int, needed: int) -> Seq<Block> {
    bs.update(j, Block { offset: bs[j].offset, size: needed as usize, free: false }).insert(
        j + 1,
        Block {
            offset: (bs[j].offset + needed) as usize,
            size: (bs[j].size - needed) as usize,
            free: true,
        },
    )
}

/// The chosen block handed out whole: only its free flag changes.
pub open spec fn consume_blocks(bs: Seq<Block>, j: int) -> Seq<Block> {
    bs.update(j, Block { offset: bs[j].offset, size: bs[j].size, free: false })
}

/// The free-list head after an allocation that chose block `j`, walking from
/// head index `h`: splitting moves a head to its remainder block; consuming
/// the head whole retargets it to the walk's predecessor, or empties the
/// list when the head was the sole free block.
pub open spec fn alloc_head(bs: Seq<Block>, h: int, j: int, needed: int, split: bool) -> Option<
    usize,
> {
    if split {
        if j == h {
            Some((bs[j].offset + needed) as usize)
        } else {
            Some(bs[h].offset)
        }
    } else {
        if walk_prev(bs, h, j) == j {
            None
        } else if j == h {
            Some(bs[walk_prev(bs, h, j)].offset)
        } else {
            Some(bs[h].offset)
        }
    }
}

/// Everything `alloc` promises of the state before (`pre`) and after
/// (`post`), the requested payload size, and the returned payload offset.
pub open spec fn alloc_post(pre: Allocator, post: Allocator, size: usize, r: Option<usize>) -> bool {
    let bs = pre.blocks@;
    let needed = spec_needed(size);
    &&& post.capacity == pre.capacity
    &&& post.data@ == pre.data@
    &&& match pre.head {
        None => r is None && post.state_eq(&pre),
        Some(hoff) => {
            if size == 0 {
                r is None && post.state_eq(&pre)
            } else {
                let h = crate::state::index_at(bs, hoff);
                match first_fit(bs, h, needed) {
                    None => r is None && post.state_eq(&pre),
                    Some(j) => {
                        let b = bs[j];
                        let split = b.size - needed >= MIN_SPLIT;
                        &&& r == Some((b.offset + HEADER_SIZE) as usize)
                        &&& post.registry@ == pre.registry@.push(b.offset)
                        &&& post.blocks@ == (if split {
                            split_blocks(bs, j, needed)
                        } else {
                            consume_blocks(bs, j)
                        })
                        &&& post.head == alloc_head(bs, h, j, needed, split)
                    },
                }
            }
        },
    }
}

/// Splitting keeps the partition well formed; the lemma also spells out
/// where each old block lands in the new sequence.
#[verifier::rlimit(100)]
pub proof fn lemma_split_wf(bs: Seq<Block>, cap: int, j: int, needed: int)
    requires
        seq_wf(bs, cap),
        cap <= usize::MAX,
        0 <= j < bs.len(),
        bs[j].free,
        MIN_SPLIT <= needed <= bs[j].size,
        needed % (ALIGN as int) == 0,
        bs[j].size - needed >= MIN_SPLIT,
    ensures
        seq_wf(split_blocks(bs, j, needed), cap),
        split_blocks(bs, j, needed).len() == bs.len() + 1,
        forall|k: int| 0 <= k < j ==> split_blocks(bs, j, needed)[k] == bs[k],
        split_blocks(bs, j, needed)[j] == (Block {
            offset: bs[j].offset,
            size: needed as usize,
            free: false,
        }),
        split_blocks(bs, j, needed)[j + 1] == (Block {
            offset: (bs[j].offset + needed) as usize,
            size: (bs[j].size - needed) as usize,
            free: true,
        }),
        forall|k: int| j + 1 < k < bs.len() + 1 ==> split_blocks(bs, j, needed)[k] == bs[k - 1],
{
    let s = split_blocks(bs, j, needed);
    lemma_in_capacity(bs, cap, j);
    crate::state::lemma_mod_sum_zero(bs[j].size as int, needed, ALIGN as int);
    crate::state::lemma_mod_sum_zero(bs[j].offset as int, needed, ALIGN as int);
    assert(s.len() == bs.len() + 1);
    assert(forall|k: int| 0 <= k < j ==> s[k] == bs[k]);
    assert(s[j] == (Block { offset: bs[j].offset, size: needed as usize, free: false }));
    assert(s[j + 1] == (Block {
        offset: (bs[j].offset + needed) as usize,
        size: (bs[j].size - needed) as usize,
        free: true,
    }));
    assert(forall|k: int| j + 1 < k < bs.len() + 1 ==> s[k] == bs[k - 1]);
    assert forall|k: int| 0 <= k < s.len() implies (#[trigger] s[k]).size >= HEADER_SIZE
        && s[k].size % ALIGN == 0 && s[k].offset % ALIGN == 0 by {
        if k < j {
            assert(s[k] == bs[k]);
        } else if k > j + 1 {
            assert(s[k] == bs[k - 1]);
        }
    }
    assert forall|k: int| 0 <= k < s.len() - 1 implies (#[trigger] s[k]).offset + s[k].size == s[k
        + 1].offset by {
        if k < j - 1 {
            assert(s[k] == bs[k] && s[k + 1] == bs[k + 1]);
        } else if k == j - 1 {
            assert(s[k] == bs[k]);
        } else if k == j + 1 {
            assert(k < s.len() - 1);
            assert(s[k + 1] == bs[k]);
            assert(bs[j].offset + bs[j].size == bs[j + 1].offset);
        } else if k > j + 1 {
            assert(s[k] == bs[k - 1] && s[k + 1] == bs[k]);
        }
    }
    assert(s[s.len() - 1].offset + s[s.len() - 1].size == cap) by {
        if j + 1 == bs.len() {
            assert(s[s.len() - 1] == s[j + 1]);
        } else {
            assert(s[s.len() - 1] == bs[bs.len() - 1]);
        }
    }
    assert forall|k: int, l: int| 0 <= k < s.len() - 1 && l == k + 1 implies !((#[trigger] s[k]).free
        && (#[trigger] s[l]).free) by {
        if k < j - 1 {
            assert(s[k] == bs[k] && s[l] == bs[k + 1]);
        } else if k == j - 1 {
            assert(s[l] == s[j]);
        } else if k == j + 1 {
            // the old successor of the split block was not free
            assert(s[l] == bs[j + 1]);
            assert(!(bs[j].free && bs[j + 1].free));
        } else if k > j + 1 {
            assert(s[k] == bs[k - 1] && s[l] == bs[k]);
        }
    }
}

/// Consuming a block whole changes only its free flag, so the partition
/// stays well formed.
pub proof fn lemma_consume_wf(bs: Seq<Block>, cap: int, j: int)
    requires
        seq_wf(bs, cap),
        0 <= j < bs.len(),
    ensures
        seq_wf(consume_blocks(bs, j), cap),
        consume_blocks(bs, j).len() == bs.len(),
        forall|k: int| 0 <= k < bs.len() && k != j ==> consume_blocks(bs, j)[k] == bs[k],
        consume_blocks(bs, j)[j] == (Block { offset: bs[j].offset, size: bs[j].size, free: false }),
{
}

impl Allocator {
    /// Serve the request from block `j`, found by the first-fit walk with
    /// list predecessor `prev`; split or consume it, retarget the head, and
    /// register the allocation. Returns the payload offset.
    #[verifier::rlimit(100)]
    fn take_block(&mut self, j: usize, prev: usize, h: usize, needed: usize) -> (p: usize)
        requires
            old(self).wf(),
            j < old(self).blocks@.len(),
            fits(old(self).blocks@[j as int], needed as int),
            h < old(self).blocks@.len(),
            old(self).blocks@[h as int].free,
            old(self).head == Some(old(self).blocks@[h as int].offset),
            prev as int == walk_prev(old(self).blocks@, h as int, j as int),
            MIN_SPLIT <= needed,
            needed % ALIGN == 0,
        ensures
            final(self).wf(),
            final(self).capacity == old(self).capacity,
            final(self).data@ == old(self).data@,
            final(self).registry@ == old(self).registry@.push(old(self).blocks@[j as int].offset),
            final(self).blocks@ == (if old(self).blocks@[j as int].size - needed >= MIN_SPLIT {
                split_blocks(old(self).blocks@, j as int, needed as int)
            } else {
                consume_blocks(old(self).blocks@, j as int)
            }),
            final(self).head == alloc_head(
                old(self).blocks@,
                h as int,
                j as int,
                needed as int,
                old(self).blocks@[j as int].size - needed >= MIN_SPLIT,
            ),
            p == old(self).blocks@[j as int].offset + HEADER_SIZE,
    {
        let ghost bs = self.blocks@;
        let ghost cap = self.capacity as int;
        let n = self.blocks.len();
        let b = self.blocks[j];
        proof {
            assert(j < n);
            lemma_in_capacity(bs, cap, j as int);
            if prev != j {
                lemma_walk_prev_free(bs, h as int, j as int);
            }
        }
        let rem = b.size - needed;
        if rem >= MIN_SPLIT {
            self.blocks.set(j, Block { offset: b.offset, size: needed, free: false });
            self.blocks.insert(j + 1, Block { offset: b.offset + needed, size: rem, free: true });
            if j == h {
                self.head = Some(b.offset + needed);
            }
            proof {
                lemma_split_wf(bs, cap, j as int, needed as int);
                assert(self.blocks@ =~= split_blocks(bs, j as int, needed as int));
                lemma_take_head_wf_split(bs, cap, self.blocks@, h as int, j as int, needed as int);
                lemma_split_alloc_offsets(bs, cap, j as int, needed as int);
            }
        } else {
            self.blocks.set(j, Block { offset: b.offset, size: b.size, free: false });
            if prev == j {
                self.head = None;
            } else if j == h {
                self.head = Some(self.blocks[prev].offset);
            }
            proof {
                lemma_consume_wf(bs, cap, j as int);
                assert(self.blocks@ =~= consume_blocks(bs, j as int));
                lemma_take_head_wf_consume(bs, cap, self.blocks@, h as int, j as int, prev as int);
                lemma_consume_alloc_offsets(bs, cap, j as int);
            }
        }
        self.registry.push(b.offset);
        proof {
            lemma_registry_after_take(bs, cap, self.blocks@, old(self).registry@, j as int);
        }
        b.offset + HEADER_SIZE
    }
}

impl Allocator {
    /// First-fit allocation of `size` payload bytes. Returns the payload's
    /// arena offset, or `None` when no free block can serve the request;
    /// `size == 0` is a defined no-op that returns `None` and changes
    /// nothing. The returned offset is aligned, and the request fails
    /// exactly when no free block is at least `spec_needed(size)` bytes.
    #[verifier::rlimit(100)]
    pub fn allocate(&mut self, size: usize) -> (r: Option<usize>)
        requires
            old(self).wf(),
        ensures
            final(self).wf(),
            alloc_post(*old(self), *final(self), size, r),
            r matches Some(p) ==> p % ALIGN == 0 && final(self).is_live(p) && 1 <= size
                && final(self).blocks@[final(self).live_index(p)] == (Block {
                offset: (p - HEADER_SIZE) as usize,
                size: final(self).blocks@[final(self).live_index(p)].size,
                free: false,
            }) && final(self).blocks@[final(self).live_index(p)].size >= spec_needed(size),
            (r is None <==> (size == 0 || forall|i: int|
                0 <= i < old(self).blocks@.len() ==> !fits(
                    #[trigger] old(self).blocks@[i],
                    spec_needed(size),
                ))),
            size > old(self).capacity ==> r is None,
    {
        let ghost pre = *self;
        let ghost bs = self.blocks@;
        let ghost cap = self.capacity as int;
        let ghost needspec = spec_needed(size);
        if size == 0 {
            return None;
        }
        proof {
            crate::align_up::lemma_align_up_props((size + HEADER_SIZE) as int, ALIGN as int);
        }
        if size > self.capacity {
            proof {
                assert forall|i: int| 0 <= i < bs.len() implies !fits(
                    #[trigger] bs[i],
                    needspec,
                ) by {
                    lemma_in_capacity(bs, cap, i);
                }
                match pre.head {
                    None => {},
                    Some(hoff) => {
                        let h = crate::state::index_at(bs, hoff);
                        assert(free_at(bs, hoff));
                        let w = choose|i: int|
                            0 <= i < bs.len() && (#[trigger] bs[i]).free && bs[i].offset == hoff;
                        assert(0 <= h < bs.len() && bs[h].offset == hoff);
                        lemma_find_fit_all_unfit(bs, h + 1, bs.len() as int, needspec);
                        lemma_find_fit_all_unfit(bs, 0, h + 1, needspec);
                    },
                }
            }
            return None;
        }
        let hoff = match self.head {
            Some(v) => v,
            None => {
                proof {
                    assert forall|i: int| 0 <= i < bs.len() implies !fits(
                        #[trigger] bs[i],
                        needspec,
                    ) by {}
                }
                return None;
            },
        };
        proof {
            assert(free_at(bs, hoff));
            let w = choose|i: int|
                0 <= i < bs.len() && (#[trigger] bs[i]).free && bs[i].offset == hoff;
            assert(0 <= w < bs.len() && bs[w].offset == hoff);
        }
        let h = self.find_index(hoff);
        proof {
            let hs = crate::state::index_at(bs, hoff);
            assert(0 <= hs < bs.len() && bs[hs].offset == hoff);
            lemma_offset_unique(bs, cap, h as int, hs);
            let w = choose|i: int|
                0 <= i < bs.len() && (#[trigger] bs[i]).free && bs[i].offset == hoff;
            lemma_offset_unique(bs, cap, h as int, w);
            assert(bs[h as int].free);
        }
        let needed = needed_size(size);
        let n = self.blocks.len();
        let mut prev: usize = h;
        let mut j: usize = h + 1;
        while j < n
            invariant
                pre == *old(self),
                *self == pre,
                size <= pre.capacity,
                self.wf(),
                bs == self.blocks@,
                n == bs.len(),
                h < n,
                bs[h as int].free,
                self.head == Some(hoff),
                hoff == bs[h as int].offset,
                h + 1 <= j <= n,
                needed == needspec,
                needspec == spec_needed(size),
                MIN_SPLIT <= needed,
                needed % ALIGN == 0,
                1 <= size,
                find_fit(bs, h + 1, j as int, needed as int) is None,
                (match find_last_free(bs, h + 1, j as int) {
                    Some(k) => prev as int == k,
                    None => prev == h,
                }),
                prev < n,
            decreases n - j,
        {
            let b = self.blocks[j];
            if b.free && b.size >= needed {
                proof {
                    lemma_find_fit_found(bs, h + 1, j as int, n as int, needed as int);
                    assert(first_fit(bs, h as int, needed as int) == Some(j as int));
                    assert(walk_prev(bs, h as int, j as int) == prev as int);
                }
                let p = self.take_block(j, prev, h, needed);
                proof {
                    lemma_alloc_success(pre, *self, size, h as int, j as int, p);
                }
                return Some(p);
            }
            proof {
                lemma_find_fit_extend_none(bs, h + 1, j as int, needed as int);
                if b.free {
                    lemma_find_last_free_extend(bs, h + 1, j + 1, j as int);
                } else {
                    assert(find_last_free(bs, h + 1, j + 1) == find_last_free(
                        bs,
                        h + 1,
                        j as int,
                    ));
                }
            }
            if b.free {
                prev = j;
            }
            j = j + 1;
        }
        let mut j2: usize = 0;
        while j2 <= h
            invariant
                pre == *old(self),
                *self == pre,
                size <= pre.capacity,
                self.wf(),
                bs == self.blocks@,
                n == bs.len(),
                h < n,
                bs[h as int].free,
                self.head == Some(hoff),
                hoff == bs[h as int].offset,
                j2 <= h + 1,
                needed == needspec,
                needspec == spec_needed(size),
                MIN_SPLIT <= needed,
                needed % ALIGN == 0,
                1 <= size,
                find_fit(bs, h + 1, n as int, needed as int) is None,
                find_fit(bs, 0, j2 as int, needed as int) is None,
                (match find_last_free(bs, 0, j2 as int) {
                    Some(k) => prev as int == k,
                    None => (match find_last_free(bs, h + 1, n as int) {
                        Some(k) => prev as int == k,
                        None => prev == h,
                    }),
                }),
                prev < n,
            decreases h + 1 - j2,
        {
            let b = self.blocks[j2];
            if b.free && b.size >= needed {
                proof {
                    lemma_find_fit_found(bs, 0, j2 as int, h + 1, needed as int);
                    assert(first_fit(bs, h as int, needed as int) == Some(j2 as int));
                    assert(walk_prev(bs, h as int, j2 as int) == prev as int);
                }
                let p = self.take_block(j2, prev, h, needed);
                proof {
                    lemma_alloc_success(pre, *self, size, h as int, j2 as int, p);
                }
                return Some(p);
            }
            proof {
                lemma_find_fit_extend_none(bs, 0, j2 as int, needed as int);
                if b.free {
                    lemma_find_last_free_extend(bs, 0, j2 + 1, j2 as int);
                } else {
                    assert(find_last_free(bs, 0, j2 + 1) == find_last_free(bs, 0, j2 as int));
                }
            }
            if b.free {
                prev = j2;
            }
            j2 = j2 + 1;
        }
        proof {
            assert(first_fit(bs, h as int, needed as int) is None);
            lemma_find_fit_none(bs, h + 1, n as int, needed as int);
            lemma_find_fit_none(bs, 0, h + 1, needed as int);
            assert forall|i: int| 0 <= i < bs.len() implies !fits(
                #[trigger] bs[i],
                needspec,
            ) by {}
        }
        None
    }
}

/// What the success path of `alloc` establishes, given that block `j` was
/// chosen by the first-fit walk from head index `h`.
#[verifier::rlimit(100)]
proof fn lemma_alloc_success(pre: Allocator, post: Allocator, size: usize, h: int, j: int, p: usize)
    requires
        pre.wf(),
        1 <= size,
        0 <= h < pre.blocks@.len(),
        pre.blocks@[h].free,
        pre.head == Some(pre.blocks@[h].offset),
        0 <= j < pre.blocks@.len(),
        fits(pre.blocks@[j], spec_needed(size)),
        first_fit(pre.blocks@, h, spec_needed(size)) == Some(j),
        MIN_SPLIT <= spec_needed(size),
        post.capacity == pre.capacity,
        post.data@ == pre.data@,
        post.registry@ == pre.registry@.push(pre.blocks@[j].offset),
        post.blocks@ == (if pre.blocks@[j].size - spec_needed(size) >= MIN_SPLIT {
            split_blocks(pre.blocks@, j, spec_needed(size))
        } else {
            consume_blocks(pre.blocks@, j)
        }),
        post.head == alloc_head(
            pre.blocks@,
            h,
            j,
            spec_needed(size),
            pre.blocks@[j].size - spec_needed(size) >= MIN_SPLIT,
        ),
        p == pre.blocks@[j].offset + HEADER_SIZE,
    ensures
        alloc_post(pre, post, size, Some(p)),
        p % ALIGN == 0,
        post.is_live(p),
        post.blocks@[post.live_index(p)] == (Block {
            offset: (p - HEADER_SIZE) as usize,
            size: post.blocks@[post.live_index(p)].size,
            free: false,
        }),
        post.blocks@[post.live_index(p)].size >= spec_needed(size),
{
    let bs = pre.blocks@;
    let cap = pre.capacity as int;
    let needed = spec_needed(size);
    let hs = crate::state::index_at(bs, pre.blocks@[h].offset);
    assert(0 <= hs < bs.len() && bs[hs].offset == bs[h].offset);
    lemma_offset_unique(bs, cap, h, hs);
    if bs[j].size - needed >= MIN_SPLIT {
        lemma_split_wf(bs, cap, j, needed);
        assert(!post.blocks@[j].free && post.blocks@[j].offset + HEADER_SIZE == p);
    } else {
        lemma_consume_wf(bs, cap, j);
        assert(!post.blocks@[j].free && post.blocks@[j].offset + HEADER_SIZE == p);
    }
    let li = post.live_index(p);
    assert(0 <= li < post.blocks@.len() && !post.blocks@[li].free && post.blocks@[li].offset
        + HEADER_SIZE == p);
    lemma_offset_unique(post.blocks@, cap, li, j);
}

/// Every allocated block of the state before an allocation survives it
/// unchanged (possibly at a shifted index).
pub proof fn lemma_alloc_keeps_allocated(
    pre: Allocator,
    post: Allocator,
    size: usize,
    r: Option<usize>,
    k: int,
)
    requires
        pre.wf(),
        alloc_post(pre, post, size, r),
        0 <= k < pre.blocks@.len(),
        !pre.blocks@[k].free,
    ensures
        exists|k2: int|
            0 <= k2 < post.blocks@.len() && #[trigger] post.blocks@[k2] == pre.blocks@[k],
{
    let bs = pre.blocks@;
    let cap = pre.capacity as int;
    let needed = spec_needed(size);
    match pre.head {
        None => {
            assert(post.blocks@[k] == bs[k]);
        },
        Some(hoff) => {
            if size == 0 {
                assert(post.blocks@[k] == bs[k]);
            } else {
                let h = crate::state::index_at(bs, hoff);
                assert(free_at(bs, hoff));
                assert(0 <= h < bs.len() && bs[h].offset == hoff);
                match first_fit(bs, h, needed) {
                    None => {
                        assert(post.blocks@[k] == bs[k]);
                    },
                    Some(j) => {
                        crate::fit::lemma_first_fit_fits(bs, h, needed, j);
                        if bs[j].size - needed >= MIN_SPLIT {
                            lemma_split_wf(bs, cap, j, needed);
                            if k < j {
                                assert(post.blocks@[k] == bs[k]);
                            } else {
                                assert(post.blocks@[k + 1] == bs[k]);
                            }
                        } else {
                            lemma_consume_wf(bs, cap, j);
                            assert(post.blocks@[k] == bs[k]);
                        }
                    },
                }
            }
        },
    }
}

/// The walk's predecessor of `j` is free whenever it is not `j` itself.
pub proof fn lemma_walk_prev_free(bs: Seq<Block>, h: int, j: int)
    requires
        0 <= h < bs.len(),
        0 <= j < bs.len(),
        bs[h].free,
    ensures
        0 <= walk_prev(bs, h, j) < bs.len(),
        walk_prev(bs, h, j) != j ==> bs[walk_prev(bs, h, j)].free,
{
    let p = walk_prev(bs, h, j);
    if j > h {
        match find_last_free(bs, h + 1, j) {
            Some(k) => lemma_find_last_free_some(bs, h + 1, j, k),
            None => {},
        }
    } else {
        match find_last_free(bs, 0, j) {
            Some(k) => lemma_find_last_free_some(bs, 0, j, k),
            None => {
                match find_last_free(bs, h + 1, bs.len() as int) {
                    Some(k) => lemma_find_last_free_some(bs, h + 1, bs.len() as int, k),
                    None => {},
                }
            },
        }
    }
}

/// If the walk's predecessor of `j` is `j` itself, `j` is the head and the
/// only free block.
pub proof fn lemma_walk_prev_self(bs: Seq<Block>, h: int, j: int)
    requires
        0 <= h < bs.len(),
        0 <= j < bs.len(),
        bs[h].free,
        walk_prev(bs, h, j) == j,
    ensures
        j == h,
        forall|k: int| 0 <= k < bs.len() && k != j ==> !(#[trigger] bs[k]).free,
{
    lemma_walk_prev_free(bs, h, j);
    if j > h {
        match find_last_free(bs, h + 1, j) {
            Some(k) => lemma_find_last_free_some(bs, h + 1, j, k),
            None => {},
        }
        assert(false);
    } else {
        match find_last_free(bs, 0, j) {
            Some(k) => {
                lemma_find_last_free_some(bs, 0, j, k);
                assert(false);
            },
            None => {
                match find_last_free(bs, h + 1, bs.len() as int) {
                    Some(k) => {
                        lemma_find_last_free_some(bs, h + 1, bs.len() as int, k);
                        assert(false);
                    },
                    None => {
                        lemma_find_last_free_none(bs, 0, j);
                        lemma_find_last_free_none(bs, h + 1, bs.len() as int);
                    },
                }
            },
        }
    }
}

/// Head well-formedness after a split.
proof fn lemma_take_head_wf_split(
    bs: Seq<Block>,
    cap: int,
    s: Seq<Block>,
    h: int,
    j: int,
    needed: int,
)
    requires
        seq_wf(bs, cap),
        cap <= usize::MAX,
        0 <= h < bs.len(),
        0 <= j < bs.len(),
        bs[h].free,
        bs[j].free,
        MIN_SPLIT <= needed <= bs[j].size,
        needed % (ALIGN as int) == 0,
        bs[j].size - needed >= MIN_SPLIT,
        s == split_blocks(bs, j, needed),
    ensures
        crate::state::head_wf(s, alloc_head(bs, h, j, needed, true)),
{
    lemma_split_wf(bs, cap, j, needed);
    if j == h {
        assert(s[j + 1].free && s[j + 1].offset == (bs[j].offset + needed) as usize);
    } else {
        if h < j {
            assert(s[h] == bs[h]);
        } else {
            assert(s[h + 1] == bs[h]);
        }
    }
}

/// Head well-formedness after consuming a block whole.
proof fn lemma_take_head_wf_consume(
    bs: Seq<Block>,
    cap: int,
    s: Seq<Block>,
    h: int,
    j: int,
    prev: int,
)
    requires
        seq_wf(bs, cap),
        0 <= h < bs.len(),
        0 <= j < bs.len(),
        bs[h].free,
        bs[j].free,
        prev == walk_prev(bs, h, j),
        s == consume_blocks(bs, j),
    ensures
        crate::state::head_wf(
            s,
            (if walk_prev(bs, h, j) == j {
                None
            } else if j == h {
                Some(bs[walk_prev(bs, h, j)].offset)
            } else {
                Some(bs[h].offset)
            }),
        ),
{
    lemma_consume_wf(bs, cap, j);
    if prev == j {
        lemma_walk_prev_self(bs, h, j);
        assert forall|k: int| 0 <= k < s.len() implies !(#[trigger] s[k]).free by {
            if k != j {
                assert(s[k] == bs[k]);
            }
        }
    } else if j == h {
        lemma_walk_prev_free(bs, h, j);
        assert(s[prev] == bs[prev]);
    } else {
        assert(s[h] == bs[h]);
    }
}

/// After allocating the free block `j`, the allocated offsets of the new
/// partition `s` are the old ones plus that of `j`; the pushed registry
/// matches them again.
pub proof fn lemma_registry_after_take(bs: Seq<Block>, cap: int, s: Seq<Block>, reg: Seq<usize>, j: int)
    requires
        seq_wf(bs, cap),
        crate::state::registry_wf(bs, reg),
        0 <= j < bs.len(),
        bs[j].free,
        forall|o: usize| allocated_at(s, o) <==> (allocated_at(bs, o) || o == bs[j].offset),
    ensures
        crate::state::registry_wf(s, reg.push(bs[j].offset)),
{
    let reg2 = reg.push(bs[j].offset);
    let o = bs[j].offset;
    assert forall|k: int, l: int| 0 <= k < l < reg2.len() implies reg2[k] != reg2[l] by {
        if l == reg.len() {
            if reg[k] == o {
                let i = choose|i: int|
                    0 <= i < bs.len() && !(#[trigger] bs[i]).free && bs[i].offset == reg[k];
                lemma_offset_unique(bs, cap, i, j);
            }
        }
    }
    assert forall|k: int| 0 <= k < reg2.len() implies allocated_at(s, #[trigger] reg2[k]) by {
        if k < reg.len() {
            assert(allocated_at(bs, reg2[k]));
        }
    }
    assert forall|i: int| 0 <= i < s.len() && !(#[trigger] s[i]).free implies reg2.contains(
        s[i].offset,
    ) by {
        assert(allocated_at(s, s[i].offset));
        if s[i].offset == o {
            assert(reg2[reg.len() as int] == o);
        } else {
            assert(allocated_at(bs, s[i].offset));
            assert(reg.contains(s[i].offset));
            let k = choose|k: int| 0 <= k < reg.len() && reg[k] == s[i].offset;
            assert(reg2[k] == s[i].offset);
        }
    }
}

/// The allocated offsets after a split: the old ones plus the split block's.
#[verifier::rlimit(100)]
pub proof fn lemma_split_alloc_offsets(bs: Seq<Block>, cap: int, j: int, needed: int)
    requires
        seq_wf(bs, cap),
        cap <= usize::MAX,
        0 <= j < bs.len(),
        bs[j].free,
        MIN_SPLIT <= needed <= bs[j].size,
        needed % (ALIGN as int) == 0,
        bs[j].size - needed >= MIN_SPLIT,
    ensures
        forall|o: usize|
            allocated_at(split_blocks(bs, j, needed), o) <==> (allocated_at(bs, o) || o
                == bs[j].offset),
{
    let s = split_blocks(bs, j, needed);
    lemma_split_wf(bs, cap, j, needed);
    assert forall|o: usize| allocated_at(s, o) implies (allocated_at(bs, o) || o
        == bs[j].offset) by {
        let i = choose|i: int| 0 <= i < s.len() && !(#[trigger] s[i]).free && s[i].offset == o;
        if i < j {
            assert(s[i] == bs[i]);
        } else if i > j + 1 {
            assert(s[i] == bs[i - 1]);
        }
    }
    assert forall|o: usize| (allocated_at(bs, o) || o == bs[j].offset) implies allocated_at(
        s,
        o,
    ) by {
        if o == bs[j].offset {
            assert(!s[j].free && s[j].offset == o);
        } else {
            let i = choose|i: int|
                0 <= i < bs.len() && !(#[trigger] bs[i]).free && bs[i].offset == o;
            if i < j {
                assert(s[i] == bs[i]);
            } else {
                assert(s[i + 1] == bs[i]);
            }
        }
    }
}

/// The allocated offsets after consuming block `j` whole.
pub proof fn lemma_consume_alloc_offsets(bs: Seq<Block>, cap: int, j: int)
    requires
        seq_wf(bs, cap),
        0 <= j < bs.len(),
        bs[j].free,
    ensures
        forall|o: usize|
            allocated_at(consume_blocks(bs, j), o) <==> (allocated_at(bs, o) || o
                == bs[j].offset),
{
    let s = consume_blocks(bs, j);
    lemma_consume_wf(bs, cap, j);
    assert forall|o: usize| allocated_at(s, o) implies (allocated_at(bs, o) || o
        == bs[j].offset) by {
        let i = choose|i: int| 0 <= i < s.len() && !(#[trigger] s[i]).free && s[i].offset == o;
        if i != j {
            assert(s[i] == bs[i]);
        }
    }
    assert forall|o: usize| (allocated_at(bs, o) || o == bs[j].offset) implies allocated_at(
        s,
        o,
    ) by {
        if o == bs[j].offset {
            assert(!s[j].free && s[j].offset == o);
        } else {
            let i = choose|i: int|
                0 <= i < bs.len() && !(#[trigger] bs[i]).free && bs[i].offset == o;
            assert(s[i] == bs[i]);
        }
    }
}

} // verus!
