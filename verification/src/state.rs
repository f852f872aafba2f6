//! The allocator state: the arena, its partition into blocks, the free-list
//! head, and the diagnostic registry of live allocations.

use vstd::prelude::*;
use crate::align_up::{align_up, spec_align_up};
use vstd::arithmetic::div_mod::lemma_fundamental_div_mod;
use vstd::arithmetic::power2::{lemma2_to64, pow2};

verus! {

/// Bytes reserved in front of every payload for the block's metadata.
pub const HEADER_SIZE: usize = 32;

/// The block alignment: block offsets and sizes are multiples of it.
pub const ALIGN: usize = 16;

/// A free block is split only when the remainder could itself hold a header
/// plus one alignment unit; smaller remainders are handed out whole.
pub const MIN_SPLIT: usize = 48;

/// Capacity of the default arena: 1 MiB.
pub const ARENA_SIZE: usize = 1024 * 1024;

/// Metadata of one region carved from the arena. `offset` is arena-relative;
/// `size` counts the whole block including its header. The free-list link of
/// the classic intrusive design is not stored: the list is address-ordered,
/// so a free block's successor is the next free block by offset (wrapping).
#[derive(Clone, Copy, Debug, PartialEq, Eq, Structural)]
pub struct Block {
    pub offset: usize,
    pub size: usize,
    pub free: bool,
}

/// One arena allocator: a fixed-capacity byte region plus the block metadata.
pub struct Allocator {
    /// All blocks, sorted by offset; together they partition `[0, capacity)`.
    pub blocks: Vec<Block>,
    /// Offset of the free-list head block, or `None` when no block is free.
    pub head: Option<usize>,
    /// Diagnostic registry: offsets of the currently allocated blocks.
    pub registry: Vec<usize>,
    /// The arena's payload bytes.
    pub data: Vec<u8>,
    /// Fixed total capacity of the arena in bytes.
    pub capacity: usize,
}

/// The blocks partition `[0, cap)` without gap or overlap, each at least a
/// header in size, offsets and sizes multiples of the alignment, and with
/// no two physically adjacent blocks both free (immediate coalescing keeps
/// every free run merged into a single block).
pub open spec fn seq_wf(bs: Seq<Block>, cap: int) -> bool {
    &&& bs.len() >= 1
    &&& bs[0].offset == 0
    &&& (forall|i: int| 0 <= i < bs.len() ==> (#[trigger] bs[i]).size >= HEADER_SIZE)
    &&& (forall|i: int| 0 <= i < bs.len() ==> (#[trigger] bs[i]).size % ALIGN == 0)
    &&& (forall|i: int| 0 <= i < bs.len() ==> (#[trigger] bs[i]).offset % ALIGN == 0)
    &&& (forall|i: int, j: int|
        0 <= i < bs.len() - 1 && j == i + 1 ==> (#[trigger] bs[i]).offset + bs[i].size
            == (#[trigger] bs[j]).offset)
    &&& bs[bs.len() - 1].offset + bs[bs.len() - 1].size == cap
    &&& (forall|i: int, j: int|
        0 <= i < bs.len() - 1 && j == i + 1 ==> !((#[trigger] bs[i]).free && (#[trigger] bs[j]).free))
}

/// Some block is free.
pub open spec fn free_exists(bs: Seq<Block>) -> bool {
    exists|i: int| 0 <= i < bs.len() && (#[trigger] bs[i]).free
}

/// `off` is the offset of a free block.
pub open spec fn free_at(bs: Seq<Block>, off: usize) -> bool {
    exists|i: int| 0 <= i < bs.len() && (#[trigger] bs[i]).free && bs[i].offset == off
}

/// The head is `None` exactly when no block is free, and otherwise names a
/// free block's offset.
pub open spec fn head_wf(bs: Seq<Block>, head: Option<usize>) -> bool {
    match head {
        None => !free_exists(bs),
        Some(h) => free_at(bs, h),
    }
}

/// `off` is the offset of an allocated (non-free) block.
pub open spec fn allocated_at(bs: Seq<Block>, off: usize) -> bool {
    exists|i: int| 0 <= i < bs.len() && !(#[trigger] bs[i]).free && bs[i].offset == off
}

/// The registry holds exactly the offsets of the allocated blocks, each once.
pub open spec fn registry_wf(bs: Seq<Block>, reg: Seq<usize>) -> bool {
    &&& (forall|k: int, l: int| 0 <= k < l < reg.len() ==> reg[k] != reg[l])
    &&& (forall|k: int| 0 <= k < reg.len() ==> allocated_at(bs, #[trigger] reg[k]))
    &&& (forall|i: int|
        0 <= i < bs.len() && !(#[trigger] bs[i]).free ==> reg.contains(bs[i].offset))
}

/// The index of the block whose offset is `off` (unique when `seq_wf` holds).
pub open spec fn index_at(bs: Seq<Block>, off: usize) -> int {
    choose|i: int| 0 <= i < bs.len() && (#[trigger] bs[i]).offset == off
}

impl Allocator {
    /// The allocator's invariant, established by `init` and kept by every
    /// operation.
    pub open spec fn wf(&self) -> bool {
        &&& seq_wf(self.blocks@, self.capacity as int)
        &&& head_wf(self.blocks@, self.head)
        &&& registry_wf(self.blocks@, self.registry@)
        &&& self.data@.len() == self.capacity
        &&& self.capacity + 64 <= usize::MAX
    }

    /// `p` is the payload address of a currently allocated block.
    pub open spec fn is_live(&self, p: usize) -> bool {
        exists|i: int|
            0 <= i < self.blocks@.len() && !(#[trigger] self.blocks@[i]).free
                && self.blocks@[i].offset + HEADER_SIZE == p
    }

    /// The index of the live block whose payload starts at `p`.
    pub open spec fn live_index(&self, p: usize) -> int {
        choose|i: int|
            0 <= i < self.blocks@.len() && !(#[trigger] self.blocks@[i]).free
                && self.blocks@[i].offset + HEADER_SIZE == p
    }

    /// `addr` lies inside the payload of a currently allocated block.
    pub open spec fn in_live_payload(&self, addr: usize) -> bool {
        exists|i: int|
            0 <= i < self.blocks@.len() && !(#[trigger] self.blocks@[i]).free
                && self.blocks@[i].offset + HEADER_SIZE <= addr < self.blocks@[i].offset
                + self.blocks@[i].size
    }

    /// States equal field by field, views compared as mathematical values.
    pub open spec fn state_eq(&self, other: &Allocator) -> bool {
        &&& self.blocks@ == other.blocks@
        &&& self.head == other.head
        &&& self.registry@ == other.registry@
        &&& self.data@ == other.data@
        &&& self.capacity == other.capacity
    }

    /// Set up an arena of `capacity` bytes: one all-free block spanning it,
    /// installed as the sole, self-linked member of the free list.
    pub fn init(capacity: usize) -> (a: Allocator)
        requires
            capacity % ALIGN == 0,
            HEADER_SIZE <= capacity,
            capacity + 64 <= usize::MAX,
        ensures
            a.wf(),
            a.capacity == capacity,
            a.blocks@ =~= seq![Block { offset: 0, size: capacity, free: true }],
            a.head == Some(0usize),
            a.registry@ =~= Seq::<usize>::empty(),
            a.data@ =~= Seq::new(capacity as nat, |i: int| 0u8),
    {
        let mut blocks: Vec<Block> = Vec::new();
        blocks.push(Block { offset: 0, size: capacity, free: true });
        let data: Vec<u8> = vec![0u8; capacity];
        let a = Allocator { blocks, head: Some(0), registry: Vec::new(), data, capacity };
        proof {
            assert(a.blocks@[0].free);
            assert(a.data@ =~= Seq::new(capacity as nat, |i: int| 0u8));
        }
        a
    }
}

/// Total bytes a request of `size` payload bytes occupies: the payload plus
/// a header, rounded up to the alignment.
pub open spec fn spec_needed(size: usize) -> int {
    spec_align_up(size + HEADER_SIZE, ALIGN as int)
}

/// Compute the needed total size for a `size`-byte request.
pub fn needed_size(size: usize) -> (n: usize)
    requires
        size + HEADER_SIZE + ALIGN <= usize::MAX,
    ensures
        n == spec_needed(size),
        n % ALIGN == 0,
        size + HEADER_SIZE <= n < size + HEADER_SIZE + ALIGN,
        1 <= size ==> MIN_SPLIT <= n,
{
    proof {
        lemma2_to64();
        assert(ALIGN == pow2(4));
    }
    let n = align_up(size + HEADER_SIZE, ALIGN);
    proof {
        if 1 <= size {
            lemma_fundamental_div_mod(n as int, ALIGN as int);
        }
    }
    n
}

impl Allocator {
    /// Write one byte into a live allocation's payload.
    pub fn write_byte(&mut self, addr: usize, val: u8)
        requires
            old(self).wf(),
            old(self).in_live_payload(addr),
        ensures
            final(self).wf(),
            final(self).data@ == old(self).data@.update(addr as int, val),
            final(self).blocks@ == old(self).blocks@,
            final(self).head == old(self).head,
            final(self).registry@ == old(self).registry@,
            final(self).capacity == old(self).capacity,
    {
        proof {
            let w = choose|i: int|
                0 <= i < self.blocks@.len() && !(#[trigger] self.blocks@[i]).free
                    && self.blocks@[i].offset + HEADER_SIZE <= addr < self.blocks@[i].offset
                    + self.blocks@[i].size;
            lemma_in_capacity(self.blocks@, self.capacity as int, w);
        }
        self.data.set(addr, val);
    }

    /// Read one byte from a live allocation's payload.
    pub fn read_byte(&self, addr: usize) -> (v: u8)
        requires
            self.wf(),
            self.in_live_payload(addr),
        ensures
            v == self.data@[addr as int],
    {
        proof {
            let w = choose|i: int|
                0 <= i < self.blocks@.len() && !(#[trigger] self.blocks@[i]).free
                    && self.blocks@[i].offset + HEADER_SIZE <= addr < self.blocks@[i].offset
                    + self.blocks@[i].size;
            lemma_in_capacity(self.blocks@, self.capacity as int, w);
        }
        self.data[addr]
    }

    /// Find the index of the block whose offset is `off`.
    pub(crate) fn find_index(&self, off: usize) -> (i: usize)
        requires
            exists|k: int|
                0 <= k < self.blocks@.len() && (#[trigger] self.blocks@[k]).offset == off,
        ensures
            i < self.blocks@.len(),
            self.blocks@[i as int].offset == off,
    {
        let n = self.blocks.len();
        let mut i: usize = 0;
        loop
            invariant
                i <= n,
                n == self.blocks@.len(),
                exists|k: int|
                    i <= k < self.blocks@.len() && (#[trigger] self.blocks@[k]).offset == off,
            decreases n - i,
        {
            if self.blocks[i].offset == off {
                return i;
            }
            i = i + 1;
        }
    }
}

/// Sums and differences of multiples of `m` are multiples of `m`.
pub proof fn lemma_mod_sum_zero(a: int, b: int, m: int)
    requires
        0 < m,
        a % m == 0,
        b % m == 0,
    ensures
        (a + b) % m == 0,
        (a - b) % m == 0,
{
    vstd::arithmetic::div_mod::lemma_small_mod(0, m as nat);
    vstd::arithmetic::div_mod::lemma_add_mod_noop(a, b, m);
    vstd::arithmetic::div_mod::lemma_sub_mod_noop(a, b, m);
}

/// Blocks are laid out in strictly ascending order: an earlier block ends at
/// or before a later one begins.
pub proof fn lemma_order(bs: Seq<Block>, cap: int, i: int, j: int)
    requires
        seq_wf(bs, cap),
        0 <= i <= j < bs.len(),
    ensures
        bs[i].offset <= bs[j].offset,
        i < j ==> bs[i].offset + bs[i].size <= bs[j].offset,
    decreases j - i,
{
    if i < j {
        lemma_order(bs, cap, i + 1, j);
    }
}

/// Every block lies inside the arena.
pub proof fn lemma_in_capacity(bs: Seq<Block>, cap: int, i: int)
    requires
        seq_wf(bs, cap),
        0 <= i < bs.len(),
    ensures
        bs[i].offset + bs[i].size <= cap,
        bs[i].size <= cap,
{
    lemma_order(bs, cap, i, bs.len() - 1);
    lemma_order(bs, cap, 0, i);
}

/// Offsets identify blocks uniquely.
pub proof fn lemma_offset_unique(bs: Seq<Block>, cap: int, i: int, j: int)
    requires
        seq_wf(bs, cap),
        0 <= i < bs.len(),
        0 <= j < bs.len(),
        bs[i].offset == bs[j].offset,
    ensures
        i == j,
{
    if i < j {
        lemma_order(bs, cap, i, j);
    }
    if j < i {
        lemma_order(bs, cap, j, i);
    }
}

} // verus!
