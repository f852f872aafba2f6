//! Diagnostic snapshot of the free list and the allocation registry: a pure
//! read of the allocator state, for an external sink to format.

use vstd::prelude::*;
use crate::state::{free_at, Allocator, Block};

verus! {

/// One node of the free list as a caller sees it: its arena address, total
/// size, free flag, and the address of its list successor.
#[derive(Clone, Copy, Debug, PartialEq, Eq, Structural)]
pub struct FreeListEntry {
    pub address: usize,
    pub size: usize,
    pub free: bool,
    pub next: usize,
}

/// A snapshot of the free list together with the registry of live
/// allocations.
pub struct StateDump {
    pub free_list: Vec<FreeListEntry>,
    pub allocated: Vec<usize>,
}

/// The entry reports a free block of the partition faithfully.
pub open spec fn entry_matches(bs: Seq<Block>, e: FreeListEntry) -> bool {
    exists|i: int|
        0 <= i < bs.len() && (#[trigger] bs[i]).free && bs[i].offset == e.address && bs[i].size
            == e.size
}

/// Some entry of the snapshot reports the block at `off`.
pub open spec fn entry_for(fl: Seq<FreeListEntry>, off: usize) -> bool {
    exists|k: int| 0 <= k < fl.len() && (#[trigger] fl[k]).address == off
}

impl Allocator {
    /// Observe the current free list, starting at its head, and the
    /// registry of live allocations. Purely observational: the state is
    /// not touched.
    #[verifier::rlimit(100)]
    pub fn dump_state(&self) -> (d: StateDump)
        requires
            self.wf(),
        ensures
            d.allocated@ == self.registry@,
            self.head is None ==> d.free_list@.len() == 0,
            self.head matches Some(h) ==> d.free_list@.len() > 0 && d.free_list@[0].address == h,
            forall|k: int|
                0 <= k < d.free_list@.len() ==> (#[trigger] d.free_list@[k]).free
                    && entry_matches(self.blocks@, d.free_list@[k]),
            forall|i: int|
                0 <= i < self.blocks@.len() && (#[trigger] self.blocks@[i]).free ==> entry_for(
                    d.free_list@,
                    self.blocks@[i].offset,
                ),
            forall|k: int|
                0 <= k < d.free_list@.len() - 1 ==> (#[trigger] d.free_list@[k]).next
                    == d.free_list@[k + 1].address,
            d.free_list@.len() > 0 ==> d.free_list@[d.free_list@.len() - 1].next
                == d.free_list@[0].address,
    {
        let ghost bs = self.blocks@;
        let mut fl: Vec<FreeListEntry> = Vec::new();
        let n = self.blocks.len();
        match self.head {
            None => {
                proof {
                    assert forall|i: int| 0 <= i < bs.len() implies !(#[trigger] bs[i]).free by {}
                }
            },
            Some(h) => {
                proof {
                    assert(free_at(bs, h));
                    let w = choose|i: int|
                        0 <= i < bs.len() && (#[trigger] bs[i]).free && bs[i].offset == h;
                    assert(0 <= w < bs.len() && bs[w].offset == h);
                }
                let hi = self.find_index(h);
                proof {
                    let w = choose|i: int|
                        0 <= i < bs.len() && (#[trigger] bs[i]).free && bs[i].offset == h;
                    crate::state::lemma_offset_unique(
                        bs,
                        self.capacity as int,
                        hi as int,
                        w,
                    );
                    assert(bs[hi as int].free);
                }
                let mut j = hi;
                while j < n
                    invariant
                        bs == self.blocks@,
                        n == bs.len(),
                        hi <= j <= n,
                        hi < n,
                        bs[hi as int].free,
                        bs[hi as int].offset == h,
                        fl@.len() > 0 ==> fl@[0].address == h,
                        j > hi ==> fl@.len() > 0,
                        forall|k: int|
                            0 <= k < fl@.len() ==> (#[trigger] fl@[k]).free && entry_matches(
                                bs,
                                fl@[k],
                            ),
                        forall|i: int|
                            hi <= i < j && (#[trigger] bs[i]).free ==> entry_for(
                                fl@,
                                bs[i].offset,
                            ),
                    decreases n - j,
                {
                    let b = self.blocks[j];
                    if b.free {
                        let ghost fl0 = fl@;
                        fl.push(
                            FreeListEntry { address: b.offset, size: b.size, free: true, next: 0 },
                        );
                        proof {
                            assert(fl@[fl@.len() - 1].address == b.offset);
                            assert forall|i: int|
                                hi <= i < j + 1 && (#[trigger] bs[i]).free implies entry_for(
                                fl@,
                                bs[i].offset,
                            ) by {
                                if i < j {
                                    let k = choose|k: int|
                                        0 <= k < fl0.len() && (#[trigger] fl0[k]).address
                                            == bs[i].offset;
                                    assert(fl@[k].address == bs[i].offset);
                                } else {
                                    assert(fl@[fl@.len() - 1].address == bs[i].offset);
                                }
                            }
                        }
                    }
                    j = j + 1;
                }
                let mut j2: usize = 0;
                while j2 < hi
                    invariant
                        bs == self.blocks@,
                        n == bs.len(),
                        hi < n,
                        j2 <= hi,
                        bs[hi as int].free,
                        bs[hi as int].offset == h,
                        fl@.len() > 0,
                        fl@[0].address == h,
                        forall|k: int|
                            0 <= k < fl@.len() ==> (#[trigger] fl@[k]).free && entry_matches(
                                bs,
                                fl@[k],
                            ),
                        forall|i: int|
                            hi <= i < n && (#[trigger] bs[i]).free ==> entry_for(
                                fl@,
                                bs[i].offset,
                            ),
                        forall|i: int|
                            0 <= i < j2 && (#[trigger] bs[i]).free ==> entry_for(
                                fl@,
                                bs[i].offset,
                            ),
                    decreases hi - j2,
                {
                    let b = self.blocks[j2];
                    if b.free {
                        let ghost fl0 = fl@;
                        fl.push(
                            FreeListEntry { address: b.offset, size: b.size, free: true, next: 0 },
                        );
                        proof {
                            lemma_entries_kept(fl0, fl@, bs, hi as int, n as int);
                            lemma_entries_kept(fl0, fl@, bs, 0, j2 as int);
                            assert(fl@[fl@.len() - 1].address == b.offset);
                        }
                    }
                    j2 = j2 + 1;
                }
            },
        }
        let ghost unpatched = fl@;
        let m = fl.len();
        if m > 0 {
            let first_addr = fl[0].address;
            let mut k: usize = 0;
            while k < m
                invariant
                    m == fl@.len(),
                    m > 0,
                    k <= m,
                    first_addr == fl@[0].address,
                    forall|l: int|
                        0 <= l < m ==> (#[trigger] fl@[l]).address == unpatched[l].address
                            && fl@[l].size == unpatched[l].size && fl@[l].free == unpatched[l].free,
                    forall|l: int|
                        0 <= l < k && l + 1 < m ==> (#[trigger] fl@[l]).next == unpatched[l
                            + 1].address,
                    forall|l: int|
                        0 <= l < k && l + 1 == m ==> (#[trigger] fl@[l]).next == unpatched[0].address,
                decreases m - k,
            {
                let nxt = if k + 1 < m {
                    self_next(&fl, k + 1)
                } else {
                    first_addr
                };
                let e = fl[k];
                fl.set(k, FreeListEntry { address: e.address, size: e.size, free: e.free, next: nxt });
                k = k + 1;
            }
        }
        proof {
            let fv = fl@;
            assert forall|k: int| 0 <= k < fv.len() implies (#[trigger] fv[k]).free
                && entry_matches(bs, fv[k]) by {
                let i = choose|i: int|
                    0 <= i < bs.len() && (#[trigger] bs[i]).free && bs[i].offset
                        == unpatched[k].address && bs[i].size == unpatched[k].size;
                assert(bs[i].free && bs[i].offset == fv[k].address && bs[i].size == fv[k].size);
            }
            assert forall|i: int|
                0 <= i < bs.len() && (#[trigger] bs[i]).free implies entry_for(
                fv,
                bs[i].offset,
            ) by {
                let k = choose|k: int|
                    0 <= k < unpatched.len() && (#[trigger] unpatched[k]).address == bs[i].offset;
                assert(fv[k].address == bs[i].offset);
            }
        }
        let mut allocated: Vec<usize> = Vec::new();
        let reg_len = self.registry.len();
        let mut t: usize = 0;
        while t < reg_len
            invariant
                reg_len == self.registry@.len(),
                t <= reg_len,
                allocated@ == self.registry@.subrange(0, t as int),
            decreases reg_len - t,
        {
            allocated.push(self.registry[t]);
            proof {
                assert(allocated@ =~= self.registry@.subrange(0, t + 1));
            }
            t = t + 1;
        }
        proof {
            assert(allocated@ =~= self.registry@);
        }
        StateDump { free_list: fl, allocated }
    }
}

/// Reading an entry's address (small helper for the patch loop).
fn self_next(fl: &Vec<FreeListEntry>, k: usize) -> (a: usize)
    requires
        k < fl@.len(),
    ensures
        a == fl@[k as int].address,
{
    fl[k].address
}

/// Pushing one more entry keeps every block that was already reported.
proof fn lemma_entries_kept(
    fl0: Seq<FreeListEntry>,
    fl1: Seq<FreeListEntry>,
    bs: Seq<Block>,
    lo: int,
    hi: int,
)
    requires
        fl1.len() == fl0.len() + 1,
        forall|k: int| 0 <= k < fl0.len() ==> fl1[k] == fl0[k],
        forall|i: int| lo <= i < hi && (#[trigger] bs[i]).free ==> entry_for(fl0, bs[i].offset),
    ensures
        forall|i: int| lo <= i < hi && (#[trigger] bs[i]).free ==> entry_for(fl1, bs[i].offset),
{
    assert forall|i: int| lo <= i < hi && (#[trigger] bs[i]).free implies entry_for(
        fl1,
        bs[i].offset,
    ) by {
        let k = choose|k: int| 0 <= k < fl0.len() && (#[trigger] fl0[k]).address == bs[i].offset;
        assert(fl1[k].address == bs[i].offset);
    }
}

} // verus!
