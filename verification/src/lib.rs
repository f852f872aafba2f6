//! A fixed-arena memory allocator: `alloc`, `free` and `realloc` over a single
//! contiguous byte region of fixed capacity, with no underlying system allocator.
//!
//! The arena is modelled with arena-relative integer offsets. Every region
//! carved from the arena is a `Block` whose metadata (offset, total size,
//! free flag) is kept in a vector sorted by offset that partitions the whole
//! arena; the address-ordered circular free list of the classic design is
//! represented by that order together with an explicit head offset.

pub mod align_up;
pub mod allocate;
pub mod dump;
pub mod fit;
pub mod free;
pub mod laws;
pub mod realloc;
pub mod state;
