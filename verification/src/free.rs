//! The deallocation engine: address-ordered reinsertion into the free list
//! with immediate coalescing of the two physical neighbors.

use vstd::prelude::*;
use crate::state::{
    allocated_at, free_at, head_wf, lemma_in_capacity, lemma_offset_unique, registry_wf, seq_wf,
    Allocator, Block, HEADER_SIZE,
};

verus! {

/// Whether the physical successor of block `i` is free (and so merged when
/// `i` is freed).
pub open spec fn merges_next(bs: Seq<Block>, i: int) -> bool {
    i + 1 < bs.len() && bs[i + 1].free
}

/// Whether the physical predecessor of block `i` is free.
pub open spec fn merges_prev(bs: Seq<Block>, i: int) -> bool {
    0 < i && bs[i - 1].free
}

/// The partition after freeing block `i`: the block is marked free and then
/// absorbed into whichever physical neighbors are free, leaving a single
/// free block spanning their combined range.
pub open spec fn coalesce(bs: Seq<Block>, i: int) -> Seq<Block> {
    let fwd = merges_next(bs, i);
    let bwd = merges_prev(bs, i);
    if fwd && bwd {
        bs.update(
            i - 1,
            Block {
                offset: bs[i - 1].offset,
                size: (bs[i - 1].size + bs[i].size + bs[i + 1].size) as usize,
                free: true,
            },
        ).remove(i + 1).remove(i)
    } else if fwd {
        bs.update(
            i,
            Block { offset: bs[i].offset, size: (bs[i].size + bs[i + 1].size) as usize, free: true },
        ).remove(i + 1)
    } else if bwd {
        bs.update(
            i - 1,
            Block {
                offset: bs[i - 1].offset,
                size: (bs[i - 1].size + bs[i].size) as usize,
                free: true,
            },
        ).remove(i)
    } else {
        bs.update(i, Block { offset: bs[i].offset, size: bs[i].size, free: true })
    }
}

/// The free-list head after freeing block `i`: a freed block into an empty
/// list becomes the head; a head absorbed by a forward merge moves to the
/// freed block, and a freed block that was (or became) the head and is
/// absorbed backward moves the head to its predecessor.
pub open spec fn free_head(bs: Seq<Block>, head: Option<usize>, i: int) -> Option<usize> {
    match head {
        None => Some(bs[i].offset),
        Some(h) => {
            let h1 = if merges_next(bs, i) && h == bs[i + 1].offset {
                bs[i].offset
            } else {
                h
            };
            let h2 = if merges_prev(bs, i) && h1 == bs[i].offset {
                bs[i - 1].offset
            } else {
                h1
            };
            Some(h2)
        },
    }
}

/// Everything `free` promises of the state before (`pre`) and after
/// (`post`) when handed the live payload offset `p`.
pub open spec fn free_post(pre: Allocator, post: Allocator, p: usize) -> bool {
    let i = pre.live_index(p);
    &&& post.capacity == pre.capacity
    &&& post.data@ == pre.data@
    &&& post.blocks@ == coalesce(pre.blocks@, i)
    &&& post.head == free_head(pre.blocks@, pre.head, i)
    &&& post.registry@ == pre.registry@.remove_value(pre.blocks@[i].offset)
}

/// After freeing block `i` the range it occupied lies inside one free block.
pub open spec fn freed_covered(bs: Seq<Block>, s: Seq<Block>, i: int) -> bool {
    exists|k: int|
        0 <= k < s.len() && (#[trigger] s[k]).free && s[k].offset <= bs[i].offset && bs[i].offset
            + bs[i].size <= s[k].offset + s[k].size
}

/// The length and the element-by-element layout of the coalesced
/// partition, in each of the four neighbor cases.
pub proof fn lemma_coalesce_elems(bs: Seq<Block>, cap: int, i: int)
    requires
        seq_wf(bs, cap),
        0 <= i < bs.len(),
        !bs[i].free,
    ensures
        merges_next(bs, i) && merges_prev(bs, i) ==> {
            let s = coalesce(bs, i);
            &&& s.len() == bs.len() - 2
            &&& (forall|k: int| 0 <= k < i - 1 ==> s[k] == bs[k])
            &&& s[i - 1] == (Block {
                offset: bs[i - 1].offset,
                size: (bs[i - 1].size + bs[i].size + bs[i + 1].size) as usize,
                free: true,
            })
            &&& (forall|k: int| i <= k < bs.len() - 2 ==> s[k] == bs[k + 2])
        },
        merges_next(bs, i) && !merges_prev(bs, i) ==> {
            let s = coalesce(bs, i);
            &&& s.len() == bs.len() - 1
            &&& (forall|k: int| 0 <= k < i ==> s[k] == bs[k])
            &&& s[i] == (Block {
                offset: bs[i].offset,
                size: (bs[i].size + bs[i + 1].size) as usize,
                free: true,
            })
            &&& (forall|k: int| i < k < bs.len() - 1 ==> s[k] == bs[k + 1])
        },
        !merges_next(bs, i) && merges_prev(bs, i) ==> {
            let s = coalesce(bs, i);
            &&& s.len() == bs.len() - 1
            &&& (forall|k: int| 0 <= k < i - 1 ==> s[k] == bs[k])
            &&& s[i - 1] == (Block {
                offset: bs[i - 1].offset,
                size: (bs[i - 1].size + bs[i].size) as usize,
                free: true,
            })
            &&& (forall|k: int| i <= k < bs.len() - 1 ==> s[k] == bs[k + 1])
        },
        !merges_next(bs, i) && !merges_prev(bs, i) ==> {
            let s = coalesce(bs, i);
            &&& s.len() == bs.len()
            &&& (forall|k: int| 0 <= k < bs.len() && k != i ==> s[k] == bs[k])
            &&& s[i] == (Block { offset: bs[i].offset, size: bs[i].size, free: true })
        },
{
}

/// Coalescing keeps the partition well formed.
#[verifier::rlimit(100)]
pub proof fn lemma_coalesce_seq_wf(bs: Seq<Block>, cap: int, i: int)
    requires
        seq_wf(bs, cap),
        cap <= usize::MAX,
        0 <= i < bs.len(),
        !bs[i].free,
    ensures
        seq_wf(coalesce(bs, i), cap),
{
    let s = coalesce(bs, i);
    let fwd = merges_next(bs, i);
    let bwd = merges_prev(bs, i);
    lemma_coalesce_elems(bs, cap, i);
    lemma_in_capacity(bs, cap, i);
    if fwd {
        lemma_in_capacity(bs, cap, i + 1);
        assert(bs[i].offset + bs[i].size == bs[i + 1].offset);
    }
    if bwd {
        lemma_in_capacity(bs, cap, i - 1);
        assert(bs[i - 1].offset + bs[i - 1].size == bs[i].offset);
    }
    if fwd {
        crate::state::lemma_mod_sum_zero(
            bs[i].size as int,
            bs[i + 1].size as int,
            crate::state::ALIGN as int,
        );
    }
    if bwd {
        crate::state::lemma_mod_sum_zero(
            bs[i - 1].size as int,
            bs[i].size + (if fwd {
                bs[i + 1].size as int
            } else {
                0
            }),
            crate::state::ALIGN as int,
        );
    }
    assert forall|k: int| 0 <= k < s.len() implies (#[trigger] s[k]).size >= HEADER_SIZE
        && s[k].size % crate::state::ALIGN == 0 && s[k].offset % crate::state::ALIGN == 0 by {
        if fwd && bwd {
            if k < i - 1 {
                assert(s[k] == bs[k]);
            } else if k >= i {
                assert(s[k] == bs[k + 2]);
            }
        } else if fwd {
            if k < i {
                assert(s[k] == bs[k]);
            } else if k > i {
                assert(s[k] == bs[k + 1]);
            }
        } else if bwd {
            if k < i - 1 {
                assert(s[k] == bs[k]);
            } else if k >= i {
                assert(s[k] == bs[k + 1]);
            }
        } else {
            if k != i {
                assert(s[k] == bs[k]);
            }
        }
    }
    assert forall|k: int| 0 <= k < s.len() - 1 implies (#[trigger] s[k]).offset + s[k].size == s[k
        + 1].offset by {
        if fwd && bwd {
            if k < i - 2 {
                assert(s[k] == bs[k] && s[k + 1] == bs[k + 1]);
            } else if k == i - 2 {
                assert(s[k] == bs[k]);
            } else if k == i - 1 {
                assert(s[k + 1] == bs[k + 3]);
                assert(bs[i - 1].offset + bs[i - 1].size == bs[i].offset);
                assert(bs[i].offset + bs[i].size == bs[i + 1].offset);
                assert(bs[i + 1].offset + bs[i + 1].size == bs[i + 2].offset);
            } else {
                assert(s[k] == bs[k + 2] && s[k + 1] == bs[k + 3]);
            }
        } else if fwd {
            if k < i - 1 {
                assert(s[k] == bs[k] && s[k + 1] == bs[k + 1]);
            } else if k == i - 1 {
                assert(s[k] == bs[k]);
            } else if k == i {
                assert(s[k + 1] == bs[k + 2]);
                assert(bs[i].offset + bs[i].size == bs[i + 1].offset);
                assert(bs[i + 1].offset + bs[i + 1].size == bs[i + 2].offset);
            } else {
                assert(s[k] == bs[k + 1] && s[k + 1] == bs[k + 2]);
            }
        } else if bwd {
            if k < i - 2 {
                assert(s[k] == bs[k] && s[k + 1] == bs[k + 1]);
            } else if k == i - 2 {
                assert(s[k] == bs[k]);
            } else if k == i - 1 {
                assert(s[k + 1] == bs[k + 2]);
                assert(bs[i - 1].offset + bs[i - 1].size == bs[i].offset);
                assert(bs[i].offset + bs[i].size == bs[i + 1].offset);
            } else {
                assert(s[k] == bs[k + 1] && s[k + 1] == bs[k + 2]);
            }
        } else {
            if k != i && k + 1 != i {
                assert(s[k] == bs[k] && s[k + 1] == bs[k + 1]);
            } else if k + 1 == i {
                assert(s[k] == bs[k]);
            }
        }
    }
    assert(s[s.len() - 1].offset + s[s.len() - 1].size == cap) by {
        if fwd && bwd {
            if i - 1 < s.len() - 1 {
                assert(s[s.len() - 1] == bs[bs.len() - 1]);
            } else {
                assert(bs[i - 1].offset + bs[i - 1].size == bs[i].offset);
                assert(bs[i].offset + bs[i].size == bs[i + 1].offset);
            }
        } else if fwd {
            if i < s.len() - 1 {
                assert(s[s.len() - 1] == bs[bs.len() - 1]);
            } else {
                assert(bs[i].offset + bs[i].size == bs[i + 1].offset);
            }
        } else if bwd {
            if i - 1 < s.len() - 1 {
                assert(s[s.len() - 1] == bs[bs.len() - 1]);
            } else {
                assert(bs[i - 1].offset + bs[i - 1].size == bs[i].offset);
            }
        } else {
            if i < s.len() - 1 {
                assert(s[s.len() - 1] == bs[bs.len() - 1]);
            }
        }
    }
    assert forall|k: int, l: int| 0 <= k < s.len() - 1 && l == k + 1 implies !((
    #[trigger] s[k]).free && (#[trigger] s[l]).free) by {
        if fwd && bwd {
            if k < i - 2 {
                assert(s[k] == bs[k] && s[l] == bs[k + 1]);
            } else if k == i - 2 {
                assert(s[k] == bs[k]);
                assert(!(bs[i - 2].free && bs[i - 1].free));
            } else if k == i - 1 {
                assert(s[l] == bs[k + 3]);
                assert(!(bs[i + 1].free && bs[i + 2].free));
            } else {
                assert(s[k] == bs[k + 2] && s[l] == bs[k + 3]);
            }
        } else if fwd {
            if k < i - 1 {
                assert(s[k] == bs[k] && s[l] == bs[k + 1]);
            } else if k == i - 1 {
                assert(s[k] == bs[k]);
            } else if k == i {
                assert(s[l] == bs[k + 2]);
                assert(!(bs[i + 1].free && bs[i + 2].free));
            } else {
                assert(s[k] == bs[k + 1] && s[l] == bs[k + 2]);
            }
        } else if bwd {
            if k < i - 2 {
                assert(s[k] == bs[k] && s[l] == bs[k + 1]);
            } else if k == i - 2 {
                assert(s[k] == bs[k]);
                assert(!(bs[i - 2].free && bs[i - 1].free));
            } else if k == i - 1 {
                assert(s[l] == bs[k + 2]);
            } else {
                assert(s[k] == bs[k + 1] && s[l] == bs[k + 2]);
            }
        } else {
            if k != i && l != i {
                assert(s[k] == bs[k] && s[l] == bs[k + 1]);
            } else if l == i {
                assert(s[k] == bs[k]);
            } else {
                assert(s[l] == bs[k + 1]);
            }
        }
    }
}

/// Coalescing removes exactly the freed block's offset from the allocated
/// ones and leaves one free block covering the freed range.
#[verifier::rlimit(100)]
pub proof fn lemma_coalesce_offsets(bs: Seq<Block>, cap: int, i: int)
    requires
        seq_wf(bs, cap),
        cap <= usize::MAX,
        0 <= i < bs.len(),
        !bs[i].free,
    ensures
        forall|o: usize|
            allocated_at(coalesce(bs, i), o) <==> (allocated_at(bs, o) && o != bs[i].offset),
        freed_covered(bs, coalesce(bs, i), i),
{
    let s = coalesce(bs, i);
    let fwd = merges_next(bs, i);
    let bwd = merges_prev(bs, i);
    lemma_coalesce_elems(bs, cap, i);
    lemma_in_capacity(bs, cap, i);
    if fwd {
        lemma_in_capacity(bs, cap, i + 1);
        assert(bs[i].offset + bs[i].size == bs[i + 1].offset);
    }
    if bwd {
        lemma_in_capacity(bs, cap, i - 1);
        assert(bs[i - 1].offset + bs[i - 1].size == bs[i].offset);
    }
    assert forall|o: usize| allocated_at(s, o) implies (allocated_at(bs, o) && o
        != bs[i].offset) by {
        let k = choose|k: int| 0 <= k < s.len() && !(#[trigger] s[k]).free && s[k].offset == o;
        let k0: int = if fwd && bwd {
            if k < i - 1 {
                k
            } else {
                k + 2
            }
        } else if fwd || bwd {
            if k < i {
                k
            } else {
                k + 1
            }
        } else {
            k
        };
        assert(0 <= k0 < bs.len() && !bs[k0].free && bs[k0].offset == o);
        assert(k0 != i);
        if o == bs[i].offset {
            lemma_offset_unique(bs, cap, k0, i);
        }
    }
    assert forall|o: usize| allocated_at(bs, o) && o != bs[i].offset implies allocated_at(
        s,
        o,
    ) by {
        let k = choose|k: int| 0 <= k < bs.len() && !(#[trigger] bs[k]).free && bs[k].offset == o;
        if fwd && bwd {
            if k < i - 1 {
                assert(!s[k].free && s[k].offset == o);
            } else {
                assert(k >= i + 2);
                assert(!s[k - 2].free && s[k - 2].offset == o);
            }
        } else if fwd {
            if k < i {
                assert(!s[k].free && s[k].offset == o);
            } else {
                assert(k >= i + 2);
                assert(!s[k - 1].free && s[k - 1].offset == o);
            }
        } else if bwd {
            if k < i - 1 {
                assert(!s[k].free && s[k].offset == o);
            } else {
                assert(k >= i + 1);
                assert(!s[k - 1].free && s[k - 1].offset == o);
            }
        } else {
            assert(!s[k].free && s[k].offset == o);
        }
    }
    if bwd {
        assert(bs[i - 1].offset + bs[i - 1].size == bs[i].offset);
        assert(s[i - 1].free && s[i - 1].offset <= bs[i].offset && bs[i].offset + bs[i].size <= s[i
            - 1].offset + s[i - 1].size);
    } else {
        assert(s[i].free && s[i].offset <= bs[i].offset && bs[i].offset + bs[i].size <= s[i].offset
            + s[i].size);
    }
}

/// Coalescing keeps the partition well formed, removes exactly the freed
/// block's offset from the allocated ones, and leaves one free block
/// covering the freed range.
pub proof fn lemma_coalesce_wf(bs: Seq<Block>, cap: int, i: int)
    requires
        seq_wf(bs, cap),
        cap <= usize::MAX,
        0 <= i < bs.len(),
        !bs[i].free,
    ensures
        seq_wf(coalesce(bs, i), cap),
        forall|o: usize|
            allocated_at(coalesce(bs, i), o) <==> (allocated_at(bs, o) && o != bs[i].offset),
        freed_covered(bs, coalesce(bs, i), i),
{
    lemma_coalesce_seq_wf(bs, cap, i);
    lemma_coalesce_offsets(bs, cap, i);
}

/// The retargeted head is well formed for the coalesced partition.
#[verifier::rlimit(60)]
pub proof fn lemma_free_head_wf(bs: Seq<Block>, cap: int, head: Option<usize>, i: int)
    requires
        seq_wf(bs, cap),
        cap <= usize::MAX,
        head_wf(bs, head),
        0 <= i < bs.len(),
        !bs[i].free,
    ensures
        head_wf(coalesce(bs, i), free_head(bs, head, i)),
{
    let s = coalesce(bs, i);
    let fwd = merges_next(bs, i);
    let bwd = merges_prev(bs, i);
    lemma_coalesce_wf(bs, cap, i);
    match head {
        None => {
            assert(!fwd && !bwd);
            assert(s[i].free && s[i].offset == bs[i].offset);
        },
        Some(h) => {
            let ih = choose|k: int|
                0 <= k < bs.len() && (#[trigger] bs[k]).free && bs[k].offset == h;
            assert(0 <= ih < bs.len() && bs[ih].free && bs[ih].offset == h);
            if fwd && h == bs[i + 1].offset {
                if bwd {
                    assert(s[i - 1].free && s[i - 1].offset == bs[i - 1].offset);
                } else {
                    assert(s[i].free && s[i].offset == bs[i].offset);
                }
            } else {
                // The old head block survives; find where it lands.
                lemma_offset_unique(bs, cap, ih, ih);
                assert(ih != i);
                if fwd {
                    assert(ih != i + 1) by {
                        if ih == i + 1 {
                            assert(h == bs[i + 1].offset);
                        }
                    }
                }
                if bwd && ih == i - 1 {
                    assert(s[i - 1].free && s[i - 1].offset == h);
                } else if fwd && bwd {
                    if ih < i - 1 {
                        assert(s[ih].free && s[ih].offset == h);
                    } else {
                        assert(ih >= i + 2);
                        assert(s[ih - 2].free && s[ih - 2].offset == h);
                    }
                } else if fwd {
                    if ih < i {
                        assert(s[ih].free && s[ih].offset == h);
                    } else {
                        assert(ih >= i + 2);
                        assert(s[ih - 1].free && s[ih - 1].offset == h);
                    }
                } else if bwd {
                    if ih < i - 1 {
                        assert(s[ih].free && s[ih].offset == h);
                    } else {
                        assert(ih >= i + 1);
                        assert(s[ih - 1].free && s[ih - 1].offset == h);
                    }
                } else {
                    assert(s[ih].free && s[ih].offset == h);
                }
            }
        },
    }
}

impl Allocator {
    /// Mark the allocated block `i` free, splice it into the address-ordered
    /// free list, and merge it with whichever physical neighbors are free.
    /// The registry is left untouched.
    pub(crate) fn free_block_at(&mut self, i: usize)
        requires
            seq_wf(old(self).blocks@, old(self).capacity as int),
            head_wf(old(self).blocks@, old(self).head),
            old(self).capacity + 64 <= usize::MAX,
            i < old(self).blocks@.len(),
            !old(self).blocks@[i as int].free,
        ensures
            final(self).blocks@ == coalesce(old(self).blocks@, i as int),
            final(self).head == free_head(old(self).blocks@, old(self).head, i as int),
            final(self).registry@ == old(self).registry@,
            final(self).data@ == old(self).data@,
            final(self).capacity == old(self).capacity,
            seq_wf(final(self).blocks@, final(self).capacity as int),
            head_wf(final(self).blocks@, final(self).head),
            freed_covered(old(self).blocks@, final(self).blocks@, i as int),
    {
        let ghost bs = self.blocks@;
        let ghost cap = self.capacity as int;
        proof {
            lemma_coalesce_wf(bs, cap, i as int);
            lemma_free_head_wf(bs, cap, self.head, i as int);
            lemma_in_capacity(bs, cap, i as int);
            if i + 1 < bs.len() {
                lemma_in_capacity(bs, cap, i as int + 1);
            }
        }
        let b = self.blocks[i];
        let n = self.blocks.len();
        let mut fwd = false;
        let mut next_off: usize = 0;
        let mut next_size: usize = 0;
        if i + 1 < n {
            let nb = self.blocks[i + 1];
            if nb.free {
                fwd = true;
                next_off = nb.offset;
                next_size = nb.size;
            }
        }
        let mut bwd = false;
        let mut prev_off: usize = 0;
        let mut prev_size: usize = 0;
        if i > 0 {
            let pb = self.blocks[i - 1];
            if pb.free {
                bwd = true;
                prev_off = pb.offset;
                prev_size = pb.size;
            }
        }
        let new_head = match self.head {
            None => Some(b.offset),
            Some(h) => {
                let h1 = if fwd && h == next_off {
                    b.offset
                } else {
                    h
                };
                let h2 = if bwd && h1 == b.offset {
                    prev_off
                } else {
                    h1
                };
                Some(h2)
            },
        };
        self.head = new_head;
        if fwd && bwd {
            self.blocks.set(
                i - 1,
                Block { offset: prev_off, size: prev_size + b.size + next_size, free: true },
            );
            self.blocks.remove(i + 1);
            self.blocks.remove(i);
        } else if fwd {
            self.blocks.set(i, Block { offset: b.offset, size: b.size + next_size, free: true });
            self.blocks.remove(i + 1);
        } else if bwd {
            self.blocks.set(
                i - 1,
                Block { offset: prev_off, size: prev_size + b.size, free: true },
            );
            self.blocks.remove(i);
        } else {
            self.blocks.set(i, Block { offset: b.offset, size: b.size, free: true });
        }
        proof {
            assert(self.blocks@ =~= coalesce(bs, i as int));
        }
    }

    /// Remove the first occurrence of `off` from the registry, if any.
    fn registry_remove(&mut self, off: usize)
        ensures
            final(self).registry@ == old(self).registry@.remove_value(off),
            final(self).blocks@ == old(self).blocks@,
            final(self).head == old(self).head,
            final(self).data@ == old(self).data@,
            final(self).capacity == old(self).capacity,
    {
        let ghost reg = self.registry@;
        proof {
            reg.index_of_first_ensures(off);
        }
        let n = self.registry.len();
        let mut k: usize = 0;
        while k < n
            invariant
                *self == *old(self),
                reg == self.registry@,
                n == reg.len(),
                k <= n,
                forall|l: int| 0 <= l < k ==> reg[l] != off,
                reg.index_of_first(off) matches Some(idx) ==> k <= idx,
            decreases n - k,
        {
            if self.registry[k] == off {
                proof {
                    reg.index_of_first_ensures(off);
                    assert(reg.index_of_first(off) == Some(k as int));
                }
                self.registry.remove(k);
                return ;
            }
            proof {
                reg.index_of_first_ensures(off);
            }
            k = k + 1;
        }
        proof {
            reg.index_of_first_ensures(off);
            match reg.index_of_first(off) {
                Some(idx) => {
                    assert(false);
                },
                None => {},
            }
        }
    }

    /// Return the block whose payload starts at `ptr` to the free list;
    /// `None` is a defined no-op. The freed range ends up inside a single
    /// free block, merged with its free physical neighbors; since
    /// well-formedness forbids two adjacent free blocks, no free block
    /// remains physically contiguous with the freed range.
    pub fn free(&mut self, ptr: Option<usize>)
        requires
            old(self).wf(),
            ptr matches Some(p) ==> old(self).is_live(p),
        ensures
            final(self).wf(),
            ptr is None ==> final(self).state_eq(&*old(self)),
            ptr matches Some(p) ==> free_post(*old(self), *final(self), p) && freed_covered(
                old(self).blocks@,
                final(self).blocks@,
                old(self).live_index(p),
            ),
    {
        let ghost pre = *self;
        let ghost bs = self.blocks@;
        let ghost cap = self.capacity as int;
        let p = match ptr {
            Some(p) => p,
            None => {
                return ;
            },
        };
        proof {
            let w = choose|k: int|
                0 <= k < bs.len() && !(#[trigger] bs[k]).free && bs[k].offset + HEADER_SIZE == p;
            assert(0 <= w < bs.len() && !bs[w].free && bs[w].offset + HEADER_SIZE == p);
            assert(bs[w].offset == p - HEADER_SIZE);
        }
        let i = self.find_index(p - HEADER_SIZE);
        proof {
            let w = choose|k: int|
                0 <= k < bs.len() && !(#[trigger] bs[k]).free && bs[k].offset + HEADER_SIZE == p;
            lemma_offset_unique(bs, cap, i as int, w);
            let li = pre.live_index(p);
            assert(0 <= li < bs.len() && !bs[li].free && bs[li].offset + HEADER_SIZE == p);
            lemma_offset_unique(bs, cap, i as int, li);
        }
        let off = p - HEADER_SIZE;
        self.registry_remove(off);
        let ghost reg2 = self.registry@;
        self.free_block_at(i);
        proof {
            lemma_coalesce_wf(bs, cap, i as int);
            lemma_registry_after_free(bs, cap, self.blocks@, pre.registry@, i as int);
        }
    }
}

/// The registry with the freed block's offset removed matches the coalesced
/// partition again.
proof fn lemma_registry_after_free(bs: Seq<Block>, cap: int, s: Seq<Block>, reg: Seq<usize>, i: int)
    requires
        seq_wf(bs, cap),
        registry_wf(bs, reg),
        0 <= i < bs.len(),
        !bs[i].free,
        forall|o: usize| allocated_at(s, o) <==> (allocated_at(bs, o) && o != bs[i].offset),
    ensures
        registry_wf(s, reg.remove_value(bs[i].offset)),
{
    let off = bs[i].offset;
    let reg2 = reg.remove_value(off);
    reg.index_of_first_ensures(off);
    assert(reg.contains(off)) by {
        assert(allocated_at(bs, off));
    }
    let idx = reg.index_of_first(off).unwrap();
    assert(reg2 == reg.remove(idx));
    assert forall|k: int, l: int| 0 <= k < l < reg2.len() implies reg2[k] != reg2[l] by {
        let k0: int = if k < idx {
            k
        } else {
            k + 1
        };
        let l0: int = if l < idx {
            l
        } else {
            l + 1
        };
        assert(reg2[k] == reg[k0] && reg2[l] == reg[l0]);
    }
    assert forall|k: int| 0 <= k < reg2.len() implies allocated_at(s, #[trigger] reg2[k]) by {
        let k0: int = if k < idx {
            k
        } else {
            k + 1
        };
        assert(reg2[k] == reg[k0]);
        assert(allocated_at(bs, reg[k0]));
        assert(reg[k0] != off);
    }
    assert forall|j: int| 0 <= j < s.len() && !(#[trigger] s[j]).free implies reg2.contains(
        s[j].offset,
    ) by {
        assert(allocated_at(s, s[j].offset));
        assert(allocated_at(bs, s[j].offset) && s[j].offset != off);
        assert(reg.contains(s[j].offset));
        let k = choose|k: int| 0 <= k < reg.len() && reg[k] == s[j].offset;
        if k < idx {
            assert(reg2[k] == reg[k]);
        } else {
            assert(k > idx);
            assert(reg2[k - 1] == reg[k]);
        }
    }
}

} // verus!
