//! Allocators that name their blocks by address, a leak detector that
//! watches another allocator, and a growable array over any of them.

pub mod allocator;
pub mod words;
pub mod ld_alloc;
pub mod dynarray;
pub mod scope_guard;
pub mod misc;
pub mod laws;
