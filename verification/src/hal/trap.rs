//! The registers of a user program.
use vstd::prelude::*;

verus! {

/// Register state saved when a user program traps.
#[derive(Debug, Clone, Copy)]
pub struct TrapFrame {
    /// General registers.
    pub x: [u64; 32],
    /// Status register.
    pub sstatus: u64,
    /// Where the program goes on.
    pub sepc: u64,
}

/// Size of the saved registers in bytes.
pub const TRAP_FRAME_SIZE: u64 = 272;

impl TrapFrame {
    /// All registers zero.
    pub fn zero() -> (r: Self)
        ensures
            forall|i: int| 0 <= i < 32 ==> #[trigger] r.x@[i] == 0,
            r.sstatus == 0,
            r.sepc == 0,
    {
        TrapFrame { x: [0; 32], sstatus: 0, sepc: 0 }
    }

    /// Set the value that a system call returns.
    pub fn set_ret_val(&mut self, v: u64)
        ensures
            final(self).x@ == old(self).x@.update(10, v),
            final(self).sstatus == old(self).sstatus,
            final(self).sepc == old(self).sepc,
    {
        self.x[10] = v;
    }

    /// Go on after the instruction that trapped.
    pub fn advance_pc(&mut self)
        ensures
            final(self).sepc == old(self).sepc.wrapping_add(4),
            final(self).x@ == old(self).x@,
            final(self).sstatus == old(self).sstatus,
    {
        self.sepc = self.sepc.wrapping_add(4);
    }

    /// Set the stack pointer.
    pub fn set_sp(&mut self, sp: u64)
        ensures
            final(self).x@ == old(self).x@.update(2, sp),
            final(self).sstatus == old(self).sstatus,
            final(self).sepc == old(self).sepc,
    {
        self.x[2] = sp;
    }

    /// Set the thread pointer.
    pub fn set_tls(&mut self, tls: u64)
        ensures
            final(self).x@ == old(self).x@.update(4, tls),
            final(self).sstatus == old(self).sstatus,
            final(self).sepc == old(self).sepc,
    {
        self.x[4] = tls;
    }
}

} // verus!
