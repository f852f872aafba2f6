//! The reallocation engine: in-place shrink, in-place growth by absorbing
//! the free physical successor when that satisfies the request, and a
//! copy-and-free fallback; a growth that fails leaves the state untouched.

use vstd::prelude::*;
use crate::allocate::{alloc_post, lemma_alloc_keeps_allocated};
use crate::fit::{find_last_free, lemma_find_last_free_none, lemma_find_last_free_some};
use crate::free::{coalesce, free_head, free_post, lemma_coalesce_wf};
use crate::state::{
    allocated_at, free_at, head_wf, lemma_in_capacity, lemma_offset_unique, registry_wf, seq_wf,
    spec_needed, Allocator, Block, ALIGN, HEADER_SIZE, MIN_SPLIT,
};

verus! {

/// Block `i` with its physical successor absorbed: the successor's bytes are
/// merged into `i`, which stays allocated.
pub open spec fn absorb_blocks(bs: Seq<Block>, i: int) -> Seq<Block> {
    bs.update(
        i,
        Block { offset: bs[i].offset, size: (bs[i].size + bs[i + 1].size) as usize, free: false },
    ).remove(i + 1)
}

/// The circular-list predecessor of free block `j`: the last free block
/// before it, wrapping past the arena's end; `j` itself when it is the only
/// free block.
pub open spec fn circ_prev_free(bs: Seq<Block>, j: int) -> int {
    match find_last_free(bs, 0, j) {
        Some(k) => k,
        None => match find_last_free(bs, j + 1, bs.len() as int) {
            Some(k) => k,
            None => j,
        },
    }
}

/// The free-list head after unlinking free block `j`: gone entirely when `j`
/// was the sole free block, retargeted to `j`'s list predecessor when `j`
/// was the head, and untouched otherwise.
pub open spec fn remove_head(bs: Seq<Block>, head: Option<usize>, j: int) -> Option<usize> {
    match head {
        None => None,
        Some(h) => {
            if h == bs[j].offset {
                if circ_prev_free(bs, j) == j {
                    None
                } else {
                    Some(bs[circ_prev_free(bs, j)].offset)
                }
            } else {
                Some(h)
            }
        },
    }
}

/// Block `i` cut down to `needed` bytes, the remainder carved off as a new
/// block right after it (not yet threaded into the free list).
pub open spec fn carve_blocks(bs: Seq<Block>, i: int, needed: int) -> Seq<Block> {
    bs.update(i, Block { offset: bs[i].offset, size: needed as usize, free: false }).insert(
        i + 1,
        Block {
            offset: (bs[i].offset + needed) as usize,
            size: (bs[i].size - needed) as usize,
            free: false,
        },
    )
}

/// Carving keeps the partition well formed; the allocated offsets gain
/// exactly the carved tail's.
#[verifier::rlimit(100)]
pub proof fn lemma_carve_wf(bs: Seq<Block>, cap: int, i: int, needed: int)
    requires
        seq_wf(bs, cap),
        cap <= usize::MAX,
        0 <= i < bs.len(),
        !bs[i].free,
        MIN_SPLIT <= needed <= bs[i].size,
        needed % (ALIGN as int) == 0,
        bs[i].size - needed >= MIN_SPLIT,
    ensures
        seq_wf(carve_blocks(bs, i, needed), cap),
        carve_blocks(bs, i, needed).len() == bs.len() + 1,
        forall|k: int| 0 <= k < i ==> carve_blocks(bs, i, needed)[k] == bs[k],
        carve_blocks(bs, i, needed)[i] == (Block {
            offset: bs[i].offset,
            size: needed as usize,
            free: false,
        }),
        carve_blocks(bs, i, needed)[i + 1] == (Block {
            offset: (bs[i].offset + needed) as usize,
            size: (bs[i].size - needed) as usize,
            free: false,
        }),
        forall|k: int| i + 1 < k < bs.len() + 1 ==> carve_blocks(bs, i, needed)[k] == bs[k - 1],
        forall|o: usize|
            allocated_at(carve_blocks(bs, i, needed), o) <==> (allocated_at(bs, o) || o
                == (bs[i].offset + needed) as usize),
{
    let s = carve_blocks(bs, i, needed);
    lemma_in_capacity(bs, cap, i);
    crate::state::lemma_mod_sum_zero(bs[i].size as int, needed, ALIGN as int);
    crate::state::lemma_mod_sum_zero(bs[i].offset as int, needed, ALIGN as int);
    assert(s.len() == bs.len() + 1);
    assert(forall|k: int| 0 <= k < i ==> s[k] == bs[k]);
    assert(s[i] == (Block { offset: bs[i].offset, size: needed as usize, free: false }));
    assert(s[i + 1] == (Block {
        offset: (bs[i].offset + needed) as usize,
        size: (bs[i].size - needed) as usize,
        free: false,
    }));
    assert(forall|k: int| i + 1 < k < bs.len() + 1 ==> s[k] == bs[k - 1]);
    assert forall|k: int| 0 <= k < s.len() implies (#[trigger] s[k]).size >= HEADER_SIZE
        && s[k].size % ALIGN == 0 && s[k].offset % ALIGN == 0 by {
        if k < i {
            assert(s[k] == bs[k]);
        } else if k > i + 1 {
            assert(s[k] == bs[k - 1]);
        }
    }
    assert forall|k: int| 0 <= k < s.len() - 1 implies (#[trigger] s[k]).offset + s[k].size == s[k
        + 1].offset by {
        if k < i - 1 {
            assert(s[k] == bs[k] && s[k + 1] == bs[k + 1]);
        } else if k == i - 1 {
            assert(s[k] == bs[k]);
        } else if k == i + 1 {
            assert(k < s.len() - 1);
            assert(s[k + 1] == bs[k]);
            assert(bs[i].offset + bs[i].size == bs[i + 1].offset);
        } else if k > i + 1 {
            assert(s[k] == bs[k - 1] && s[k + 1] == bs[k]);
        }
    }
    assert(s[s.len() - 1].offset + s[s.len() - 1].size == cap) by {
        if i + 1 == bs.len() {
            assert(s[s.len() - 1] == s[i + 1]);
        } else {
            assert(s[s.len() - 1] == bs[bs.len() - 1]);
        }
    }
    assert forall|k: int, l: int| 0 <= k < s.len() - 1 && l == k + 1 implies !((
    #[trigger] s[k]).free && (#[trigger] s[l]).free) by {
        if k < i - 1 {
            assert(s[k] == bs[k] && s[l] == bs[k + 1]);
        } else if k == i - 1 {
            assert(s[k] == bs[k] && s[l] == s[i]);
        } else if k > i + 1 {
            assert(s[k] == bs[k - 1] && s[l] == bs[k]);
        }
    }
    let toff = (bs[i].offset + needed) as usize;
    assert forall|o: usize| allocated_at(s, o) implies (allocated_at(bs, o) || o == toff) by {
        let k = choose|k: int| 0 <= k < s.len() && !(#[trigger] s[k]).free && s[k].offset == o;
        if k < i {
            assert(s[k] == bs[k]);
        } else if k == i {
            assert(!bs[i].free && s[i].offset == bs[i].offset);
        } else if k > i + 1 {
            assert(s[k] == bs[k - 1]);
        }
    }
    assert forall|o: usize| (allocated_at(bs, o) || o == toff) implies allocated_at(s, o) by {
        if o == toff {
            assert(!s[i + 1].free && s[i + 1].offset == o);
        } else {
            let k = choose|k: int|
                0 <= k < bs.len() && !(#[trigger] bs[k]).free && bs[k].offset == o;
            if k < i {
                assert(!s[k].free && s[k].offset == o);
            } else if k == i {
                assert(!s[i].free && s[i].offset == o);
            } else {
                assert(!s[k + 1].free && s[k + 1].offset == o);
            }
        }
    }
}

/// No block starts strictly inside another block's range.
pub proof fn lemma_no_offset_inside(bs: Seq<Block>, cap: int, i: int, o: usize)
    requires
        seq_wf(bs, cap),
        0 <= i < bs.len(),
        bs[i].offset < o < bs[i].offset + bs[i].size,
    ensures
        forall|k: int| 0 <= k < bs.len() ==> (#[trigger] bs[k]).offset != o,
{
    assert forall|k: int| 0 <= k < bs.len() implies (#[trigger] bs[k]).offset != o by {
        if bs[k].offset == o {
            if k < i {
                crate::state::lemma_order(bs, cap, k, i);
            } else if k > i {
                crate::state::lemma_order(bs, cap, i, k);
            }
        }
    }
}

/// Absorbing the free successor keeps the partition well formed and leaves
/// the allocated offsets unchanged.
#[verifier::rlimit(100)]
pub proof fn lemma_absorb_wf(bs: Seq<Block>, cap: int, i: int)
    requires
        seq_wf(bs, cap),
        cap <= usize::MAX,
        0 <= i,
        i + 1 < bs.len(),
        !bs[i].free,
        bs[i + 1].free,
    ensures
        seq_wf(absorb_blocks(bs, i), cap),
        absorb_blocks(bs, i).len() == bs.len() - 1,
        forall|k: int| 0 <= k < i ==> absorb_blocks(bs, i)[k] == bs[k],
        absorb_blocks(bs, i)[i] == (Block {
            offset: bs[i].offset,
            size: (bs[i].size + bs[i + 1].size) as usize,
            free: false,
        }),
        forall|k: int| i < k < bs.len() - 1 ==> absorb_blocks(bs, i)[k] == bs[k + 1],
        forall|o: usize| allocated_at(absorb_blocks(bs, i), o) <==> allocated_at(bs, o),
{
    let s = absorb_blocks(bs, i);
    lemma_in_capacity(bs, cap, i);
    lemma_in_capacity(bs, cap, i + 1);
    assert(bs[i].offset + bs[i].size == bs[i + 1].offset);
    crate::state::lemma_mod_sum_zero(bs[i].size as int, bs[i + 1].size as int, ALIGN as int);
    assert(s.len() == bs.len() - 1);
    assert(forall|k: int| 0 <= k < i ==> s[k] == bs[k]);
    assert(s[i] == (Block {
        offset: bs[i].offset,
        size: (bs[i].size + bs[i + 1].size) as usize,
        free: false,
    }));
    assert(forall|k: int| i < k < bs.len() - 1 ==> s[k] == bs[k + 1]);
    assert forall|k: int| 0 <= k < s.len() implies (#[trigger] s[k]).size >= HEADER_SIZE
        && s[k].size % ALIGN == 0 && s[k].offset % ALIGN == 0 by {
        if k < i {
            assert(s[k] == bs[k]);
        } else if k > i {
            assert(s[k] == bs[k + 1]);
        }
    }
    assert forall|k: int| 0 <= k < s.len() - 1 implies (#[trigger] s[k]).offset + s[k].size == s[k
        + 1].offset by {
        if k < i - 1 {
            assert(s[k] == bs[k] && s[k + 1] == bs[k + 1]);
        } else if k == i - 1 {
            assert(s[k] == bs[k]);
        } else if k == i {
            assert(s[k + 1] == bs[k + 2]);
            assert(bs[i + 1].offset + bs[i + 1].size == bs[i + 2].offset);
        } else {
            assert(s[k] == bs[k + 1] && s[k + 1] == bs[k + 2]);
        }
    }
    assert(s[s.len() - 1].offset + s[s.len() - 1].size == cap) by {
        if i == s.len() - 1 {
        } else {
            assert(s[s.len() - 1] == bs[bs.len() - 1]);
        }
    }
    assert forall|k: int, l: int| 0 <= k < s.len() - 1 && l == k + 1 implies !((
    #[trigger] s[k]).free && (#[trigger] s[l]).free) by {
        if k < i - 1 {
            assert(s[k] == bs[k] && s[l] == bs[k + 1]);
        } else if k == i - 1 {
            assert(s[k] == bs[k] && s[l] == s[i]);
        } else if k > i {
            assert(s[k] == bs[k + 1] && s[l] == bs[k + 2]);
        }
    }
    assert forall|o: usize| allocated_at(s, o) implies allocated_at(bs, o) by {
        let k = choose|k: int| 0 <= k < s.len() && !(#[trigger] s[k]).free && s[k].offset == o;
        if k < i {
            assert(!bs[k].free && bs[k].offset == o);
        } else if k == i {
            assert(!bs[i].free && bs[i].offset == o);
        } else {
            assert(!bs[k + 1].free && bs[k + 1].offset == o);
        }
    }
    assert forall|o: usize| allocated_at(bs, o) implies allocated_at(s, o) by {
        let k = choose|k: int| 0 <= k < bs.len() && !(#[trigger] bs[k]).free && bs[k].offset == o;
        if k < i {
            assert(!s[k].free && s[k].offset == o);
        } else if k == i {
            assert(!s[i].free && s[i].offset == o);
        } else {
            assert(k >= i + 2);
            assert(!s[k - 1].free && s[k - 1].offset == o);
        }
    }
}

/// After unlinking free block `j` and merging it into its allocated
/// predecessor, the retargeted head is well formed.
#[verifier::rlimit(100)]
pub proof fn lemma_remove_head_wf(bs: Seq<Block>, cap: int, head: Option<usize>, i: int)
    requires
        seq_wf(bs, cap),
        cap <= usize::MAX,
        head_wf(bs, head),
        0 <= i,
        i + 1 < bs.len(),
        !bs[i].free,
        bs[i + 1].free,
    ensures
        head_wf(absorb_blocks(bs, i), remove_head(bs, head, i + 1)),
{
    let s = absorb_blocks(bs, i);
    let j = i + 1;
    lemma_absorb_wf(bs, cap, i);
    match head {
        None => {
            assert(free_at(bs, bs[j].offset)) by {
                assert(bs[j].free && bs[j].offset == bs[j].offset);
            }
            assert(false);
        },
        Some(h) => {
            let ih = choose|k: int|
                0 <= k < bs.len() && (#[trigger] bs[k]).free && bs[k].offset == h;
            assert(0 <= ih < bs.len() && bs[ih].free && bs[ih].offset == h);
            if h == bs[j].offset {
                let pv = circ_prev_free(bs, j);
                if pv == j {
                    match find_last_free(bs, 0, j) {
                        Some(k) => {
                            lemma_find_last_free_some(bs, 0, j, k);
                            assert(false);
                        },
                        None => {
                            match find_last_free(bs, j + 1, bs.len() as int) {
                                Some(k) => {
                                    lemma_find_last_free_some(bs, j + 1, bs.len() as int, k);
                                    assert(false);
                                },
                                None => {
                                    lemma_find_last_free_none(bs, 0, j);
                                    lemma_find_last_free_none(bs, j + 1, bs.len() as int);
                                    assert forall|k: int| 0 <= k < s.len() implies !(
                                    #[trigger] s[k]).free by {
                                        if k < i {
                                            assert(s[k] == bs[k]);
                                        } else if k > i {
                                            assert(s[k] == bs[k + 1]);
                                        }
                                    }
                                },
                            }
                        },
                    }
                } else {
                    match find_last_free(bs, 0, j) {
                        Some(k) => {
                            lemma_find_last_free_some(bs, 0, j, k);
                            assert(k != i && k != j);
                            assert(k < i ==> s[k] == bs[k]);
                        },
                        None => {
                            let k = find_last_free(bs, j + 1, bs.len() as int)->Some_0;
                            lemma_find_last_free_some(bs, j + 1, bs.len() as int, k);
                            assert(s[k - 1] == bs[k]);
                        },
                    }
                }
            } else {
                lemma_offset_unique(bs, cap, ih, ih);
                assert(ih != j);
                assert(ih != i);
                if ih < i {
                    assert(s[ih] == bs[ih]);
                } else {
                    assert(s[ih - 1] == bs[ih]);
                }
            }
        },
    }
}

/// A registry stays well formed when the allocated offsets do not change.
pub proof fn lemma_registry_same(bs: Seq<Block>, s: Seq<Block>, reg: Seq<usize>)
    requires
        registry_wf(bs, reg),
        forall|o: usize| allocated_at(s, o) <==> allocated_at(bs, o),
    ensures
        registry_wf(s, reg),
{
    assert forall|j: int|
        0 <= j < s.len() && !(#[trigger] s[j]).free implies allocated_at(s, s[j].offset) by {
        assert(0 <= j < s.len() && !s[j].free && s[j].offset == s[j].offset);
    }
    assert forall|k: int| 0 <= k < reg.len() implies allocated_at(s, #[trigger] reg[k]) by {
        assert(allocated_at(bs, reg[k]));
    }
    assert forall|j: int| 0 <= j < s.len() && !(#[trigger] s[j]).free implies reg.contains(
        s[j].offset,
    ) by {
        assert(allocated_at(bs, s[j].offset));
        let k = choose|k: int| 0 <= k < bs.len() && !(#[trigger] bs[k]).free && bs[k].offset == s[j].offset;
        assert(reg.contains(bs[k].offset));
    }
}

impl Allocator {
    /// Find the circular-list predecessor of free block `j`: the nearest
    /// free block below it, else the highest free block above it, else
    /// `None` when `j` is the only free block.
    fn find_circ_prev(&self, j: usize) -> (r: Option<usize>)
        requires
            j < self.blocks@.len(),
        ensures
            match r {
                Some(k) => k < self.blocks@.len() && k as int == circ_prev_free(
                    self.blocks@,
                    j as int,
                ) && self.blocks@[k as int].free && k != j,
                None => circ_prev_free(self.blocks@, j as int) == j as int,
            },
    {
        let ghost bs = self.blocks@;
        let mut t: usize = j;
        while t > 0
            invariant
                bs == self.blocks@,
                t <= j < bs.len(),
                find_last_free(bs, 0, j as int) == find_last_free(bs, 0, t as int),
            decreases t,
        {
            if self.blocks[t - 1].free {
                proof {
                    assert(find_last_free(bs, 0, t as int) == Some(t - 1));
                }
                return Some(t - 1);
            }
            proof {
                assert(find_last_free(bs, 0, t as int) == find_last_free(bs, 0, t - 1));
            }
            t = t - 1;
        }
        let n = self.blocks.len();
        let mut u: usize = n;
        while u > j + 1
            invariant
                bs == self.blocks@,
                j < bs.len(),
                n == bs.len(),
                j + 1 <= u <= n,
                find_last_free(bs, 0, j as int) is None,
                find_last_free(bs, j + 1, n as int) == find_last_free(bs, j + 1, u as int),
            decreases u,
        {
            if self.blocks[u - 1].free {
                proof {
                    assert(find_last_free(bs, j + 1, u as int) == Some(u - 1));
                }
                return Some(u - 1);
            }
            proof {
                assert(find_last_free(bs, j + 1, u as int) == find_last_free(bs, j + 1, u - 1));
            }
            u = u - 1;
        }
        proof {
            assert(find_last_free(bs, j + 1, (j + 1) as int) is None);
        }
        None
    }

    /// Absorb the free physical successor of allocated block `i`: unlink it
    /// from the free list (retargeting the head if it was the head) and
    /// merge its bytes into block `i`.
    fn absorb_next(&mut self, i: usize)
        requires
            seq_wf(old(self).blocks@, old(self).capacity as int),
            head_wf(old(self).blocks@, old(self).head),
            old(self).capacity + 64 <= usize::MAX,
            i + 1 < old(self).blocks@.len(),
            !old(self).blocks@[i as int].free,
            old(self).blocks@[i as int + 1].free,
        ensures
            final(self).blocks@ == absorb_blocks(old(self).blocks@, i as int),
            final(self).head == remove_head(old(self).blocks@, old(self).head, i as int + 1),
            final(self).registry@ == old(self).registry@,
            final(self).data@ == old(self).data@,
            final(self).capacity == old(self).capacity,
            seq_wf(final(self).blocks@, final(self).capacity as int),
            head_wf(final(self).blocks@, final(self).head),
    {
        let ghost bs = self.blocks@;
        let ghost cap = self.capacity as int;
        let n = self.blocks.len();
        proof {
            assert(i + 1 < n);
            lemma_absorb_wf(bs, cap, i as int);
            lemma_remove_head_wf(bs, cap, self.head, i as int);
            lemma_in_capacity(bs, cap, i as int + 1);
        }
        let nb = self.blocks[i + 1];
        let fix = match self.head {
            Some(h) => h == nb.offset,
            None => false,
        };
        if fix {
            let pr = self.find_circ_prev(i + 1);
            match pr {
                Some(k) => {
                    let koff = self.blocks[k].offset;
                    self.head = Some(koff);
                },
                None => {
                    self.head = None;
                },
            }
        }
        let b = self.blocks[i];
        self.blocks.set(i, Block { offset: b.offset, size: b.size + nb.size, free: false });
        self.blocks.remove(i + 1);
        proof {
            assert(self.blocks@ =~= absorb_blocks(bs, i as int));
        }
    }

    /// Cut allocated block `i` down to `needed` bytes and return the carved
    /// tail to the free list, coalescing it with a free successor.
    fn carve_tail(&mut self, i: usize, needed: usize)
        requires
            seq_wf(old(self).blocks@, old(self).capacity as int),
            head_wf(old(self).blocks@, old(self).head),
            old(self).capacity + 64 <= usize::MAX,
            i < old(self).blocks@.len(),
            !old(self).blocks@[i as int].free,
            MIN_SPLIT <= needed <= old(self).blocks@[i as int].size,
            needed % ALIGN == 0,
            old(self).blocks@[i as int].size - needed >= MIN_SPLIT,
        ensures
            final(self).blocks@ == coalesce(
                carve_blocks(old(self).blocks@, i as int, needed as int),
                i as int + 1,
            ),
            final(self).head == free_head(
                carve_blocks(old(self).blocks@, i as int, needed as int),
                old(self).head,
                i as int + 1,
            ),
            final(self).registry@ == old(self).registry@,
            final(self).data@ == old(self).data@,
            final(self).capacity == old(self).capacity,
            seq_wf(final(self).blocks@, final(self).capacity as int),
            head_wf(final(self).blocks@, final(self).head),
            forall|o: usize|
                allocated_at(final(self).blocks@, o) <==> allocated_at(old(self).blocks@, o),
            final(self).blocks@[i as int] == (Block {
                offset: old(self).blocks@[i as int].offset,
                size: needed,
                free: false,
            }),
    {
        let ghost bs = self.blocks@;
        let ghost cap = self.capacity as int;
        let n = self.blocks.len();
        let b = self.blocks[i];
        proof {
            assert(i < n);
            lemma_carve_wf(bs, cap, i as int, needed as int);
            lemma_in_capacity(bs, cap, i as int);
        }
        self.blocks.set(i, Block { offset: b.offset, size: needed, free: false });
        self.blocks.insert(
            i + 1,
            Block { offset: b.offset + needed, size: b.size - needed, free: false },
        );
        let ghost carved = carve_blocks(bs, i as int, needed as int);
        proof {
            assert(self.blocks@ =~= carved);
            // The free blocks keep their offsets, so the head stays valid.
            assert(head_wf(carved, self.head)) by {
                match self.head {
                    None => {
                        assert forall|k: int| 0 <= k < carved.len() implies !(
                        #[trigger] carved[k]).free by {
                            if k < i {
                                assert(carved[k] == bs[k]);
                            } else if k > i + 1 {
                                assert(carved[k] == bs[k - 1]);
                            }
                        }
                    },
                    Some(h) => {
                        let ih = choose|k: int|
                            0 <= k < bs.len() && (#[trigger] bs[k]).free && bs[k].offset == h;
                        assert(0 <= ih < bs.len() && bs[ih].free && bs[ih].offset == h);
                        if ih < i {
                            assert(carved[ih] == bs[ih]);
                        } else {
                            assert(ih != i);
                            assert(carved[ih + 1] == bs[ih]);
                        }
                    },
                }
            }
        }
        self.free_block_at(i + 1);
        proof {
            let toff = (bs[i as int].offset + needed) as usize;
            lemma_coalesce_wf(carved, cap, i as int + 1);
            lemma_no_offset_inside(bs, cap, i as int, toff);
            assert forall|o: usize| allocated_at(self.blocks@, o) implies allocated_at(bs, o) by {
                assert(allocated_at(carved, o) && o != toff);
            }
            assert forall|o: usize| allocated_at(bs, o) implies allocated_at(self.blocks@, o) by {
                assert(allocated_at(carved, o));
                assert(o != toff);
            }
            assert(self.blocks@[i as int] == carved[i as int]) by {
                let cc = coalesce(carved, i as int + 1);
                crate::free::lemma_coalesce_elems(carved, cap, i as int + 1);
                assert(!crate::free::merges_prev(carved, i as int + 1));
            }
        }
    }
}

/// A shrink answers with the same address and leaves every arena byte as
/// it was.
pub open spec fn shrink_keeps_address(
    pre: Allocator,
    post: Allocator,
    p: usize,
    new_size: usize,
    r: Option<usize>,
) -> bool {
    pre.blocks@[pre.live_index(p)].size >= spec_needed(new_size) ==> r == Some(p) && post.data@
        == pre.data@
}

/// A successful reallocation keeps the leading payload bytes, readable at
/// the returned address.
pub open spec fn growth_keeps_bytes(
    pre: Allocator,
    post: Allocator,
    p: usize,
    new_size: usize,
    r: Option<usize>,
) -> bool {
    r matches Some(q) ==> post.is_live(q) && (forall|x: int|
        0 <= x < vstd::math::min(
            pre.blocks@[pre.live_index(p)].size - HEADER_SIZE,
            new_size as int,
        ) ==> #[trigger] post.data@[q + x] == pre.data@[p + x])
}

/// A failed growth leaves the allocator exactly as it was: the original
/// block, the free list, the registry and every arena byte untouched.
pub open spec fn failed_growth_keeps_state(pre: Allocator, post: Allocator, p: usize) -> bool {
    &&& post.state_eq(&pre)
    &&& post.is_live(p)
}

impl Allocator {
    /// Resize the allocation whose payload starts at `ptr` to `new_size`
    /// bytes. A `None` pointer delegates to `allocate`; a zero size frees
    /// the block and returns `None`. A shrink and a successful in-place
    /// growth keep the address; the fallback path copies the leading
    /// payload bytes to a fresh block and frees the old one, and a failed
    /// growth leaves the original allocation intact.
    #[verifier::rlimit(100)]
    pub fn realloc(&mut self, ptr: Option<usize>, new_size: usize) -> (r: Option<usize>)
        requires
            old(self).wf(),
            ptr matches Some(p) ==> old(self).is_live(p),
        ensures
            final(self).wf(),
            realloc_post(*old(self), *final(self), ptr, new_size, r),
            ptr matches Some(p) ==> (1 <= new_size ==> shrink_keeps_address(
                *old(self),
                *final(self),
                p,
                new_size,
                r,
            ) && growth_keeps_bytes(*old(self), *final(self), p, new_size, r)),
            ptr matches Some(p) ==> (1 <= new_size && r is None ==> failed_growth_keeps_state(
                *old(self),
                *final(self),
                p,
            )),
    {
        let ghost pre = *self;
        let ghost bs = self.blocks@;
        let ghost cap = self.capacity as int;
        let p = match ptr {
            None => {
                return self.allocate(new_size);
            },
            Some(p) => p,
        };
        if new_size == 0 {
            self.free(Some(p));
            return None;
        }
        proof {
            let w = choose|k: int|
                0 <= k < bs.len() && !(#[trigger] bs[k]).free && bs[k].offset + HEADER_SIZE == p;
            assert(0 <= w < bs.len() && !bs[w].free && bs[w].offset + HEADER_SIZE == p);
        }
        let i = self.find_index(p - HEADER_SIZE);
        proof {
            let w = choose|k: int|
                0 <= k < bs.len() && !(#[trigger] bs[k]).free && bs[k].offset + HEADER_SIZE == p;
            lemma_offset_unique(bs, cap, i as int, w);
            let li = pre.live_index(p);
            assert(0 <= li < bs.len() && !bs[li].free && bs[li].offset + HEADER_SIZE == p);
            lemma_offset_unique(bs, cap, i as int, li);
            lemma_in_capacity(bs, cap, i as int);
            crate::align_up::lemma_align_up_props((new_size + HEADER_SIZE) as int, ALIGN as int);
        }
        let b = self.blocks[i];
        let old_payload = b.size - HEADER_SIZE;
        let big = new_size > self.capacity;
        let needed: usize = if big {
            0
        } else {
            crate::state::needed_size(new_size)
        };
        let ghost needspec = spec_needed(new_size);
        proof {
            if big {
                assert(needspec > cap);
            } else {
                assert(needed == needspec);
            }
        }
        if !big && b.size >= needed {
            // Shrink (or exact fit): keep the address.
            if b.size - needed >= MIN_SPLIT {
                self.carve_tail(i, needed);
                proof {
                    lemma_registry_same(bs, self.blocks@, pre.registry@);
                }
            }
            proof {
                assert(carved_post(pre, *self, i as int, needspec));
                assert(self.is_live(p)) by {
                    assert(!self.blocks@[i as int].free && self.blocks@[i as int].offset
                        + HEADER_SIZE == p);
                }
            }
            return Some(p);
        }
        // Grow: absorb the free physical successor only when the merged
        // block satisfies the request; a failing growth must leave the
        // state untouched, so an insufficient neighbor is never absorbed.
        let n = self.blocks.len();
        if i + 1 < n && !big {
            let nxt = self.blocks[i + 1];
            if nxt.free {
                proof {
                    lemma_in_capacity(bs, cap, i as int);
                    lemma_in_capacity(bs, cap, i as int + 1);
                }
                if b.size + nxt.size >= needed {
                    self.absorb_next(i);
                    proof {
                        lemma_absorb_wf(bs, cap, i as int);
                        lemma_registry_same(bs, self.blocks@, pre.registry@);
                        assert(grow_mid(pre, *self, i as int));
                    }
                    let ghost mid = *self;
                    if self.blocks[i].size - needed >= MIN_SPLIT {
                        self.carve_tail(i, needed);
                        proof {
                            lemma_registry_same(mid.blocks@, self.blocks@, mid.registry@);
                        }
                    }
                    proof {
                        assert(carved_post(mid, *self, i as int, needspec));
                        assert(grow_mid(pre, mid, i as int));
                        assert(exists|m: Allocator|
                            #[trigger] grow_mid(pre, m, i as int) && carved_post(
                                m,
                                *self,
                                i as int,
                                needspec,
                            ));
                        assert(self.is_live(p)) by {
                            assert(!self.blocks@[i as int].free && self.blocks@[i as int].offset
                                + HEADER_SIZE == p);
                        }
                    }
                    return Some(p);
                }
            }
        }
        // Fallback: allocate afresh, copy, free the old block — run from the
        // untouched state, so a failing allocation leaves everything intact.
        proof {
            lemma_in_capacity(bs, cap, i as int);
            if i as int + 1 < bs.len() && bs[i as int + 1].free {
                lemma_in_capacity(bs, cap, i as int + 1);
                assert(bs[i as int].offset + bs[i as int].size == bs[i as int + 1].offset);
                if big {
                    assert(bs[i as int].size + bs[i as int + 1].size < needspec);
                }
            }
        }
        let q_opt = self.allocate(new_size);
        let q = match q_opt {
            None => {
                proof {
                    lemma_realloc_fail(pre, *self, p, new_size, i as int);
                }
                return None;
            },
            Some(q) => q,
        };
        let copy_len = if old_payload < new_size {
            old_payload
        } else {
            new_size
        };
        let ghost m1 = *self;
        proof {
            lemma_copy_setup(pre, m1, p, q, new_size, i as int, copy_len as int);
        }
        let mut x: usize = 0;
        while x < copy_len
            invariant
                self.blocks@ == m1.blocks@,
                self.head == m1.head,
                self.registry@ == m1.registry@,
                self.capacity == m1.capacity,
                self.data@.len() == m1.data@.len(),
                m1.data@.len() == m1.capacity,
                m1.capacity + 64 <= usize::MAX,
                x <= copy_len,
                p + copy_len <= m1.data@.len(),
                q + copy_len <= m1.data@.len(),
                p + copy_len <= q || q + copy_len <= p || p == q,
                forall|y: int| 0 <= y < x ==> #[trigger] self.data@[q + y] == m1.data@[p + y],
                forall|y: int|
                    0 <= y < self.data@.len() && !(q <= y < q + x) ==> #[trigger] self.data@[y]
                        == m1.data@[y],
            decreases copy_len - x,
        {
            let v = self.data[p + x];
            self.data.set(q + x, v);
            x = x + 1;
        }
        let ghost m2 = *self;
        proof {
            let dc = data_copied(m1.data@, p as int, q as int, copy_len as int);
            assert forall|y: int| 0 <= y < m2.data@.len() implies m2.data@[y] == dc[y] by {
                if q <= y < q + copy_len {
                    assert(m2.data@[q + (y - q)] == m1.data@[p + (y - q)]);
                } else {
                    assert(m2.data@[y] == m1.data@[y]);
                }
            }
            assert(m2.data@ =~= data_copied(m1.data@, p as int, q as int, copy_len as int));
            assert(m2.wf());
            assert(m2.is_live(p)) by {
                lemma_alloc_keeps_allocated(pre, m1, new_size, Some(q), i as int);
                let k2 = choose|k2: int|
                    0 <= k2 < m1.blocks@.len() && #[trigger] m1.blocks@[k2]
                        == pre.blocks@[i as int];
                assert(!m2.blocks@[k2].free && m2.blocks@[k2].offset + HEADER_SIZE == p);
            }
        }
        self.free(Some(p));
        proof {
            lemma_realloc_moved(pre, m1, m2, *self, p, q, new_size, i as int, copy_len as int);
            lemma_moved_block_live(pre, m1, m2, *self, p, q, new_size, i as int, copy_len as int);
        }
        Some(q)
    }
}

/// `d` with `cnt` bytes copied from offset `p` onto offset `q`, the rest
/// untouched.
pub open spec fn data_copied(d: Seq<u8>, p: int, q: int, cnt: int) -> Seq<u8> {
    Seq::new(d.len(), |x: int| if q <= x < q + cnt { d[x - q + p] } else { d[x] })
}

/// `mid` is `pre` with block `i` having absorbed its free successor.
pub open spec fn grow_mid(pre: Allocator, mid: Allocator, i: int) -> bool {
    &&& mid.blocks@ == absorb_blocks(pre.blocks@, i)
    &&& mid.head == remove_head(pre.blocks@, pre.head, i + 1)
    &&& mid.registry@ == pre.registry@
    &&& mid.data@ == pre.data@
    &&& mid.capacity == pre.capacity
}

/// The shrink step shared by a plain shrink and an in-place growth: block
/// `i` is cut to `needed` bytes and the excess, if worth a block, goes back
/// to the free list; otherwise everything stays as it is.
pub open spec fn carved_post(mid: Allocator, post: Allocator, i: int, needed: int) -> bool {
    &&& post.registry@ == mid.registry@
    &&& post.data@ == mid.data@
    &&& post.capacity == mid.capacity
    &&& if mid.blocks@[i].size - needed >= MIN_SPLIT {
        &&& post.blocks@ == coalesce(carve_blocks(mid.blocks@, i, needed), i + 1)
        &&& post.head == free_head(carve_blocks(mid.blocks@, i, needed), mid.head, i + 1)
    } else {
        &&& post.blocks@ == mid.blocks@
        &&& post.head == mid.head
    }
}

/// The copy-and-free fallback, run from state `mid`: a failed allocation
/// leaves `mid` untouched; a successful one is followed by copying
/// `copy_len` payload bytes to the new block and freeing the old one.
pub open spec fn moved_states(
    mid: Allocator,
    m1: Allocator,
    m2: Allocator,
    post: Allocator,
    p: usize,
    new_size: usize,
    copy_len: int,
    q: usize,
) -> bool {
    &&& alloc_post(mid, m1, new_size, Some(q))
    &&& m2.blocks@ == m1.blocks@
    &&& m2.head == m1.head
    &&& m2.registry@ == m1.registry@
    &&& m2.capacity == m1.capacity
    &&& m2.data@ == data_copied(m1.data@, p as int, q as int, copy_len)
    &&& free_post(m2, post, p)
}

pub open spec fn moved_exists(
    mid: Allocator,
    post: Allocator,
    p: usize,
    new_size: usize,
    copy_len: int,
    q: usize,
) -> bool {
    exists|m1: Allocator, m2: Allocator|
        #[trigger] moved_states(mid, m1, m2, post, p, new_size, copy_len, q)
}

pub open spec fn fallback_post(
    mid: Allocator,
    post: Allocator,
    p: usize,
    new_size: usize,
    copy_len: int,
    r: Option<usize>,
) -> bool {
    match r {
        None => alloc_post(mid, post, new_size, None),
        Some(q) => moved_exists(mid, post, p, new_size, copy_len, q),
    }
}

/// The growth path: the free physical successor is absorbed only when the
/// merged block satisfies the request (the request is then served in
/// place); otherwise the fallback allocate-copy-free runs from the
/// untouched state, so a failing growth mutates nothing.
pub open spec fn grow_post(
    pre: Allocator,
    post: Allocator,
    p: usize,
    new_size: usize,
    r: Option<usize>,
) -> bool {
    let i = pre.live_index(p);
    let bs = pre.blocks@;
    let needed = spec_needed(new_size);
    let can = i + 1 < bs.len() && bs[i + 1].free;
    let copy_len = vstd::math::min(bs[i].size - HEADER_SIZE, new_size as int);
    if can && bs[i].size + bs[i + 1].size >= needed {
        &&& r == Some(p)
        &&& exists|mid: Allocator|
            #[trigger] grow_mid(pre, mid, i) && carved_post(mid, post, i, needed)
    } else {
        fallback_post(pre, post, p, new_size, copy_len, r)
    }
}

/// Everything `realloc` promises: delegation to `alloc` for a null input
/// and to `free` for a zero size, an in-place shrink, and the growth path.
pub open spec fn realloc_post(
    pre: Allocator,
    post: Allocator,
    ptr: Option<usize>,
    new_size: usize,
    r: Option<usize>,
) -> bool {
    match ptr {
        None => alloc_post(pre, post, new_size, r),
        Some(p) => {
            if new_size == 0 {
                r is None && free_post(pre, post, p)
            } else {
                let i = pre.live_index(p);
                if pre.blocks@[i].size >= spec_needed(new_size) {
                    r == Some(p) && carved_post(pre, post, i, spec_needed(new_size))
                } else {
                    grow_post(pre, post, p, new_size, r)
                }
            }
        },
    }
}

/// A successful allocation hands out the payload of a block that was free
/// beforehand.
pub proof fn lemma_alloc_fresh(pre: Allocator, post: Allocator, size: usize, q: usize)
    requires
        seq_wf(pre.blocks@, pre.capacity as int),
        pre.capacity + 64 <= usize::MAX,
        head_wf(pre.blocks@, pre.head),
        alloc_post(pre, post, size, Some(q)),
    ensures
        exists|j: int|
            0 <= j < pre.blocks@.len() && (#[trigger] pre.blocks@[j]).free && pre.blocks@[j].offset
                + HEADER_SIZE == q,
{
    let bs = pre.blocks@;
    let needed = spec_needed(size);
    match pre.head {
        None => {
            assert(false);
        },
        Some(hoff) => {
            assert(size != 0);
            let h = crate::state::index_at(bs, hoff);
            assert(free_at(bs, hoff));
            assert(0 <= h < bs.len() && bs[h].offset == hoff);
            match crate::fit::first_fit(bs, h, needed) {
                None => {
                    assert(false);
                },
                Some(j) => {
                    crate::fit::lemma_first_fit_fits(bs, h, needed, j);
                    lemma_in_capacity(bs, pre.capacity as int, j);
                    assert(bs[j].free && bs[j].offset + HEADER_SIZE == q);
                },
            }
        },
    }
}

/// What a failed fallback allocation leaves behind: the grow path's
/// contract, with the whole state untouched.
#[verifier::rlimit(100)]
pub proof fn lemma_realloc_fail(pre: Allocator, post: Allocator, p: usize, new_size: usize, i: int)
    requires
        seq_wf(pre.blocks@, pre.capacity as int),
        pre.capacity + 64 <= usize::MAX,
        1 <= new_size,
        0 <= i < pre.blocks@.len(),
        pre.live_index(p) == i,
        !pre.blocks@[i].free,
        pre.blocks@[i].offset + HEADER_SIZE == p,
        pre.blocks@[i].size < spec_needed(new_size),
        !(i + 1 < pre.blocks@.len() && pre.blocks@[i + 1].free && pre.blocks@[i].size
            + pre.blocks@[i + 1].size >= spec_needed(new_size)),
        alloc_post(pre, post, new_size, None),
    ensures
        realloc_post(pre, post, Some(p), new_size, None),
        failed_growth_keeps_state(pre, post, p),
{
    assert(post.state_eq(&pre));
    let copy_len = vstd::math::min(pre.blocks@[i].size - HEADER_SIZE, new_size as int);
    assert(fallback_post(pre, post, p, new_size, copy_len, None));
    assert(grow_post(pre, post, p, new_size, None));
    assert(post.is_live(p)) by {
        assert(!post.blocks@[i].free && post.blocks@[i].offset + HEADER_SIZE == p);
    }
}

/// Bounds and disjointness for the fallback copy: both payload windows lie
/// inside the arena and do not overlap (unless they are one and the same).
pub proof fn lemma_copy_setup(
    pre: Allocator,
    m1: Allocator,
    p: usize,
    q: usize,
    new_size: usize,
    i: int,
    copy_len: int,
)
    requires
        pre.wf(),
        m1.wf(),
        1 <= new_size,
        alloc_post(pre, m1, new_size, Some(q)),
        m1.is_live(q),
        m1.blocks@[m1.live_index(q)].size >= spec_needed(new_size),
        0 <= i < pre.blocks@.len(),
        !pre.blocks@[i].free,
        pre.blocks@[i].offset + HEADER_SIZE == p,
        0 <= copy_len <= pre.blocks@[i].size - HEADER_SIZE,
        copy_len <= new_size,
    ensures
        p + copy_len <= m1.data@.len(),
        q + copy_len <= m1.data@.len(),
        p + copy_len <= q || q + copy_len <= p || p == q,
{
    let cap = m1.capacity as int;
    let jq = m1.live_index(q);
    assert(0 <= jq < m1.blocks@.len() && !m1.blocks@[jq].free && m1.blocks@[jq].offset
        + HEADER_SIZE == q);
    crate::align_up::lemma_align_up_props((new_size + HEADER_SIZE) as int, ALIGN as int);
    assert(m1.blocks@[jq].size >= new_size + HEADER_SIZE);
    lemma_in_capacity(m1.blocks@, cap, jq);
    assert(q + copy_len <= m1.data@.len());
    lemma_alloc_keeps_allocated(pre, m1, new_size, Some(q), i);
    let k2 = choose|k2: int|
        0 <= k2 < m1.blocks@.len() && #[trigger] m1.blocks@[k2] == pre.blocks@[i];
    lemma_in_capacity(m1.blocks@, cap, k2);
    assert(p + copy_len <= m1.data@.len());
    if m1.blocks@[k2].offset == m1.blocks@[jq].offset {
        lemma_offset_unique(m1.blocks@, cap, k2, jq);
        assert(p == q);
    } else if k2 < jq {
        crate::state::lemma_order(m1.blocks@, cap, k2, jq);
        assert(p + copy_len <= q);
    } else {
        crate::state::lemma_order(m1.blocks@, cap, jq, k2);
        assert(q + copy_len <= p);
    }
}

/// What the successful fallback path establishes once the old block has
/// been freed: the grow path's contract.
#[verifier::rlimit(100)]
pub proof fn lemma_realloc_moved(
    pre: Allocator,
    m1: Allocator,
    m2: Allocator,
    post: Allocator,
    p: usize,
    q: usize,
    new_size: usize,
    i: int,
    copy_len: int,
)
    requires
        seq_wf(pre.blocks@, pre.capacity as int),
        pre.capacity + 64 <= usize::MAX,
        m1.capacity == pre.capacity,
        head_wf(pre.blocks@, pre.head),
        seq_wf(m1.blocks@, m1.capacity as int),
        m1.data@.len() == m1.capacity,
        1 <= new_size,
        0 <= i < pre.blocks@.len(),
        pre.live_index(p) == i,
        !pre.blocks@[i].free,
        pre.blocks@[i].offset + HEADER_SIZE == p,
        pre.blocks@[i].size < spec_needed(new_size),
        copy_len == vstd::math::min(pre.blocks@[i].size - HEADER_SIZE, new_size as int),
        !(i + 1 < pre.blocks@.len() && pre.blocks@[i + 1].free && pre.blocks@[i].size
            + pre.blocks@[i + 1].size >= spec_needed(new_size)),
        alloc_post(pre, m1, new_size, Some(q)),
        m1.is_live(q),
        m2.blocks@ == m1.blocks@,
        m2.head == m1.head,
        m2.registry@ == m1.registry@,
        m2.capacity == m1.capacity,
        m2.data@ == data_copied(m1.data@, p as int, q as int, copy_len),
        q + copy_len <= m1.data@.len(),
        m2.is_live(p),
        free_post(m2, post, p),
        seq_wf(post.blocks@, post.capacity as int),
        post.capacity == m2.capacity,
    ensures
        realloc_post(pre, post, Some(p), new_size, Some(q)),
{
    assert(moved_states(pre, m1, m2, post, p, new_size, copy_len, q));
    assert(moved_exists(pre, post, p, new_size, copy_len, q)) by {
        assert(moved_states(pre, m1, m2, post, p, new_size, copy_len, q));
    }
    assert(fallback_post(pre, post, p, new_size, copy_len, Some(q)));
    assert(grow_post(pre, post, p, new_size, Some(q)));
}

/// On that same path the new block is live after the old one is freed, and
/// holds the copied bytes.
#[verifier::rlimit(100)]
pub proof fn lemma_moved_block_live(
    pre: Allocator,
    m1: Allocator,
    m2: Allocator,
    post: Allocator,
    p: usize,
    q: usize,
    new_size: usize,
    i: int,
    copy_len: int,
)
    requires
        seq_wf(pre.blocks@, pre.capacity as int),
        pre.capacity + 64 <= usize::MAX,
        m1.capacity == pre.capacity,
        head_wf(pre.blocks@, pre.head),
        seq_wf(m1.blocks@, m1.capacity as int),
        m1.data@.len() == m1.capacity,
        1 <= new_size,
        0 <= i < pre.blocks@.len(),
        pre.live_index(p) == i,
        !pre.blocks@[i].free,
        pre.blocks@[i].offset + HEADER_SIZE == p,
        pre.blocks@[i].size < spec_needed(new_size),
        copy_len == vstd::math::min(pre.blocks@[i].size - HEADER_SIZE, new_size as int),
        !(i + 1 < pre.blocks@.len() && pre.blocks@[i + 1].free && pre.blocks@[i].size
            + pre.blocks@[i + 1].size >= spec_needed(new_size)),
        alloc_post(pre, m1, new_size, Some(q)),
        m1.is_live(q),
        m2.blocks@ == m1.blocks@,
        m2.head == m1.head,
        m2.registry@ == m1.registry@,
        m2.capacity == m1.capacity,
        m2.data@ == data_copied(m1.data@, p as int, q as int, copy_len),
        q + copy_len <= m1.data@.len(),
        m2.is_live(p),
        free_post(m2, post, p),
        seq_wf(post.blocks@, post.capacity as int),
        post.capacity == m2.capacity,
    ensures
        post.is_live(q),
        forall|x: int| 0 <= x < copy_len ==> #[trigger] post.data@[q + x] == pre.data@[p + x],
{
    let cap = m1.capacity as int;
    let i2 = m2.live_index(p);
    assert(0 <= i2 < m2.blocks@.len() && !m2.blocks@[i2].free && m2.blocks@[i2].offset
        + HEADER_SIZE == p);
    lemma_coalesce_wf(m2.blocks@, cap, i2);
    let jq = m1.live_index(q);
    assert(0 <= jq < m1.blocks@.len() && !m1.blocks@[jq].free && m1.blocks@[jq].offset
        + HEADER_SIZE == q);
    let qoff = m1.blocks@[jq].offset;
    if qoff == m2.blocks@[i2].offset {
        lemma_alloc_fresh(pre, m1, new_size, q);
        let j = choose|j: int|
            0 <= j < pre.blocks@.len() && (#[trigger] pre.blocks@[j]).free
                && pre.blocks@[j].offset + HEADER_SIZE == q;
        lemma_offset_unique(pre.blocks@, pre.capacity as int, j, i);
        assert(false);
    }
    assert(allocated_at(m2.blocks@, qoff)) by {
        assert(!m2.blocks@[jq].free && m2.blocks@[jq].offset == qoff);
    }
    assert(allocated_at(post.blocks@, qoff));
    let kq = choose|k: int|
        0 <= k < post.blocks@.len() && !(#[trigger] post.blocks@[k]).free && post.blocks@[k].offset
            == qoff;
    assert(post.is_live(q)) by {
        assert(!post.blocks@[kq].free && post.blocks@[kq].offset + HEADER_SIZE == q);
    }
    assert forall|x: int| 0 <= x < copy_len implies #[trigger] post.data@[q + x] == pre.data@[p
        + x] by {
        assert(post.data@ == m2.data@);
        assert(m2.data@[q + x] == m1.data@[p + x]);
    }
}

} // verus!
