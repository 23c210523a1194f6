//! Page tables: Sv39 entries, the three-level table and the address spaces
//! built from it.
pub mod asid;
pub mod container;
pub mod pte;
pub mod range;
pub mod shootdown;
pub mod space;
pub mod table;
