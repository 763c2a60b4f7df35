//! Heap allocation for a freestanding kernel: a segregated-storage
//! allocator (one LIFO free list per power-of-two size class, backed by a
//! first-fit allocator that merges adjacent free runs) over a fixed address
//! window, and the text writer of the VGA screen.
use vstd::prelude::*;

pub mod fallback;
pub mod fixed_size_block;
pub mod size_class;
pub mod vga_buffer;

verus! {

} // verus!
