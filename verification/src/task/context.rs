//! The register state that is saved for a task.

use vstd::prelude::*;

verus! {

/// The registers of a task at the moment it trapped into the kernel.
#[derive(Copy, Clone, Debug, PartialEq, Eq)]
pub struct TrapContext {
    /// The general registers `x0` to `x31`.
    pub x: [u64; 32],
    /// The status register.
    pub sstatus: u64,
    /// The address at which the task resumes.
    pub sepc: u64,
    /// The token of the kernel's address space.
    pub kernel_satp: u64,
    /// The top of the task's kernel stack.
    pub kernel_sp: u64,
    /// The address of the kernel's trap handler.
    pub trap_handler: u64,
}

/// The number of the register that carries the first argument of a system
/// call and its result.
pub const REG_A0: usize = 10;

/// The number of the stack pointer register.
pub const REG_SP: usize = 2;

impl TrapContext {
    /// Whether the context is that of a task that is about to enter user
    /// mode at `entry` with its stack pointer at `sp`: every other general
    /// register is zero.
    pub open spec fn is_init(
        &self,
        entry: u64,
        sp: u64,
        kernel_satp: u64,
        kernel_sp: u64,
        trap_handler: u64,
    ) -> bool {
        &&& self.sepc == entry
        &&& self.sstatus == 0
        &&& self.kernel_satp == kernel_satp
        &&& self.kernel_sp == kernel_sp
        &&& self.trap_handler == trap_handler
        &&& forall|i: int|
            0 <= i < 32 ==> self.x[i] == if i == REG_SP {
                sp
            } else {
                0
            }
    }

    /// The context of a task that is about to enter user mode at `entry`
    /// with its stack pointer at `sp`: every other general register is
    /// zero.
    pub fn app_init_context(
        entry: u64,
        sp: u64,
        kernel_satp: u64,
        kernel_sp: u64,
        trap_handler: u64,
    ) -> (r: TrapContext)
        ensures
            r.is_init(entry, sp, kernel_satp, kernel_sp, trap_handler),
    {
        let mut x: [u64; 32] = [0u64;32];
        x[REG_SP] = sp;
        TrapContext { x, sstatus: 0, sepc: entry, kernel_satp, kernel_sp, trap_handler }
    }

    /// Sets the stack pointer.
    pub fn set_sp(&mut self, sp: u64)
        ensures
            final(self).x@ == old(self).x@.update(REG_SP as int, sp),
            final(self).sstatus == old(self).sstatus,
            final(self).sepc == old(self).sepc,
            final(self).kernel_satp == old(self).kernel_satp,
            final(self).kernel_sp == old(self).kernel_sp,
            final(self).trap_handler == old(self).trap_handler,
    {
        self.x[REG_SP] = sp;
    }

    /// Sets the register that carries the result of a system call.
    pub fn set_return(&mut self, value: u64)
        ensures
            final(self).x@ == old(self).x@.update(REG_A0 as int, value),
            final(self).sstatus == old(self).sstatus,
            final(self).sepc == old(self).sepc,
            final(self).kernel_satp == old(self).kernel_satp,
            final(self).kernel_sp == old(self).kernel_sp,
            final(self).trap_handler == old(self).trap_handler,
    {
        self.x[REG_A0] = value;
    }
}

/// The registers that a switch between tasks saves: the return address, the
/// kernel stack pointer and the callee-saved registers.
#[derive(Copy, Clone, Debug, PartialEq, Eq)]
pub struct TaskContext {
    /// The address at which the task resumes in the kernel.
    pub ra: u64,
    /// The kernel stack pointer.
    pub sp: u64,
    /// The callee-saved registers.
    pub s: [u64; 12],
}

impl TaskContext {
    /// The context with every register zero.
    pub fn zero_init() -> (r: TaskContext)
        ensures
            r.ra == 0,
            r.sp == 0,
            forall|i: int| 0 <= i < 12 ==> r.s[i] == 0,
    {
        TaskContext { ra: 0, sp: 0, s: [0u64;12] }
    }

    /// The context of a task that resumes at `trap_return` on the kernel
    /// stack whose top is `kstack_ptr`.
    pub fn goto_trap_return(trap_return: u64, kstack_ptr: u64) -> (r: TaskContext)
        ensures
            r.ra == trap_return,
            r.sp == kstack_ptr,
            forall|i: int| 0 <= i < 12 ==> r.s[i] == 0,
    {
        TaskContext { ra: trap_return, sp: kstack_ptr, s: [0u64;12] }
    }
}

} // verus!
