//! A bump allocator over a reserved virtual address range, and a growable
//! typed sequence built on it.
//!
//! The allocator's decisions are made here on byte offsets from the start of
//! the reservation: where each allocation starts, when more pages must be
//! committed, and what a reset gives back. The operating system calls that
//! carry those decisions out are made by the program that owns the memory.
pub mod align;
pub mod arena;
pub mod arena_vec;

pub use align::ceil_align;
pub use arena::{Allocation, Arena, ArenaError, PageRange, GIB, KIB, MIB, PAGES_PER_COMMIT};
pub use arena_vec::ArenaVec;
