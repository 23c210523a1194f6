//! Virtual memory: pages, objects, address maps and faults.
pub mod fault;
pub mod fault_async;
pub mod map;
pub mod object;
pub mod page;
pub mod page_daemon;
pub mod page_map;
pub mod page_ref;
pub mod page_wait;
pub mod pager;
pub mod shadow;
pub mod vm_map;
pub mod vm_object;
pub mod wait_queue;
