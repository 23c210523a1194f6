//! Physical frame allocation: a buddy system behind per-CPU caches.
pub mod buddy;
pub mod history;
pub mod magazine;
pub mod types;
pub mod frame_allocator;
