//! Types shared by every subsystem: addresses, page numbers and error codes.
pub mod addr;
pub mod errno;
pub mod trap;
