//! The machine-independent core of a small RISC-V kernel: physical frame
//! allocation, page tables, address spaces, copy-on-write objects, processes,
//! signals, program loading and sockets.
pub mod boot;
pub mod hal;
pub mod mm;
pub mod net;
pub mod proc;
