//! Sockets.
pub mod addr;
pub mod socket;
pub mod tcp;
pub mod udp;
pub mod util;
