//! Kernel error codes.
use vstd::prelude::*;

verus! {

/// Why a kernel operation was refused.
#[derive(Debug, Clone, Copy, PartialEq, Eq, Structural)]
pub enum Errno {
    Eperm,
    Enoent,
    Esrch,
    Eintr,
    Eio,
    E2big,
    Enoexec,
    Ebadf,
    Echild,
    Eagain,
    Enomem,
    Eacces,
    Efault,
    Einval,
    Epipe,
    Eloop,
    Enosys,
    Eaddrinuse,
    Eaddrnotavail,
    Enotconn,
    Eisconn,
    Econnrefused,
    Econnreset,
    Etimedout,
    Emsgsize,
    Edestaddrreq,
    Eopnotsupp,
    Enobufs,
}

/// What a kernel operation returns.
pub type KernelResult<T> = Result<T, Errno>;

} // verus!
