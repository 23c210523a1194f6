//! Address maps.
pub mod address_map;
pub mod entry;
pub mod perm;
pub mod separation;
pub mod splay;

pub mod heap;
pub mod fork;
