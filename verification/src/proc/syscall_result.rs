//! What a system call comes to.
use vstd::prelude::*;

verus! {

/// What the executor does after a system call.
#[derive(Debug, Clone, Copy, PartialEq, Eq, Structural)]
pub enum SyscallResult {
    /// Return to user mode with this value.
    ResumeUserspace(u64),
    /// The process has ended.
    Terminated,
}

} // verus!
