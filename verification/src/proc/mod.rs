//! Processes: signals, creation, execution of programs, exit and waiting.
pub mod clone;
pub mod deep_copy;
pub mod elf;
pub mod exec;
pub mod exit_wait;
pub mod fork;
pub mod pid;
pub mod signal;
pub mod syscall_result;
pub mod syscalls;
pub mod task;
pub mod user_copy;
pub mod wait4;
