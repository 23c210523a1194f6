//! Memory management.
pub mod allocator;
pub mod pmap;
pub mod uio;
pub mod vm;
