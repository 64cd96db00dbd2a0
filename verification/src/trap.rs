//! Trap frames, task contexts, and trap dispatch.
//!
//! The entry trampoline saves 31 general-purpose registers, the status
//! register and the exception program counter on the faulting thread's
//! kernel stack; the layout constants here are the contract surface the
//! assembly addresses by fixed offsets. The dispatch decision — what the
//! high-level handler does for each trap cause — is a pure function.

use vstd::prelude::*;

use crate::config::{
    GUARD_PAGE_SIZE, KERNEL_STACK_SIZE, KERNEL_STACK_TOP, TRAP_FRAME_GPRS,
};

verus! {

/// Byte offset of the `&Thread` back-pointer below the kernel stack top.
pub const THREAD_PTR_OFFSET: u64 = 8;

/// Size in bytes of a saved trap frame: 31 registers, sstatus, sepc.
pub const TRAP_FRAME_SIZE: u64 = 264;

/// Byte offset of the trap frame below the kernel stack top (the
/// back-pointer sits above it).
pub const TRAP_FRAME_OFFSET: u64 = 272;

/// Size in bytes of a saved task context: ra, sp, s0..s11.
pub const TASK_CONTEXT_SIZE: u64 = 112;

/// The marker for the trap subsystem; bringing the hardware trap vector
/// up is the board's work, outside this model.
pub struct TrapImpl;

/// The register snapshot the entry trampoline saves: `x[i]` holds
/// register `x(i+1)` (x0 is hard-wired to zero), plus sstatus and sepc.
pub struct TrapFrameImpl {
    pub x: Vec<u64>,
    pub sstatus: u64,
    pub sepc: u64,
}

/// The callee-saved snapshot used for voluntary context switches.
#[derive(Clone, Copy, Debug, PartialEq, Eq, Structural)]
pub struct TaskContextImpl {
    pub ra: u64,
    pub sp: u64,
    pub s0: u64,
    pub s1: u64,
    pub s2: u64,
    pub s3: u64,
    pub s4: u64,
    pub s5: u64,
    pub s6: u64,
    pub s7: u64,
    pub s8: u64,
    pub s9: u64,
    pub s10: u64,
    pub s11: u64,
}

impl TrapFrameImpl {
    /// A frame holds exactly the 31 saved registers.
    pub open spec fn wf(self) -> bool {
        self.x.len() == TRAP_FRAME_GPRS
    }

    /// The fresh frame of a new user thread: user stack pointer in sp
    /// (x2), program counter at the image entry, everything else zero.
    pub fn init(user_sp: u64, entry: u64) -> (r: TrapFrameImpl)
        ensures
            r.wf(),
            r.x[1] == user_sp,
            r.sepc == entry,
            forall|i: int| 0 <= i < 31 && i != 1 ==> r.x[i] == 0,
    {
        let mut x: Vec<u64> = Vec::new();
        let mut i: usize = 0;
        while i < 31
            invariant
                i <= 31,
                x.len() == i,
                forall|j: int| 0 <= j < i ==> x[j] == 0,
            decreases 31 - i,
        {
            x.push(0);
            i = i + 1;
        }
        let mut f = TrapFrameImpl { x, sstatus: 0, sepc: entry };
        f.x[1] = user_sp;
        f
    }

    /// The syscall number: register a7 (x17).
    pub fn syscall_number(&self) -> (r: u64)
        requires
            self.wf(),
        ensures
            r == self.x[16],
    {
        self.x[16]
    }

    /// The k-th syscall argument: registers a0..a5 (x10..x15).
    pub fn syscall_arg(&self, k: usize) -> (r: u64)
        requires
            self.wf(),
            k < 6,
        ensures
            r == self.x[9 + k],
    {
        self.x[9 + k]
    }

    /// Deliver a syscall result: write it to a0 (x10) and step the saved
    /// program counter past the `ecall` instruction, so the thread
    /// resumes after it.
    pub fn finish_syscall(&mut self, ret: u64)
        requires
            old(self).wf(),
            old(self).sepc + 4 <= u64::MAX,
        ensures
            final(self).wf(),
            final(self).x@ == old(self).x@.update(9, ret),
            final(self).sepc == old(self).sepc + 4,
            final(self).sstatus == old(self).sstatus,
    {
        self.x[9] = ret;
        self.sepc = self.sepc + 4;
    }
}

impl TrapFrameImpl {
    /// The child's frame at fork: a copy of the parent's with the
    /// return-value register a0 set to zero, so the child observes a
    /// zero result from the fork call.
    pub fn fork_child_frame(&self) -> (r: TrapFrameImpl)
        requires
            self.wf(),
        ensures
            r.wf(),
            r.x@ == self.x@.update(9, 0u64),
            r.sepc == self.sepc,
            r.sstatus == self.sstatus,
    {
        let mut x: Vec<u64> = Vec::new();
        let mut i: usize = 0;
        while i < 31
            invariant
                self.wf(),
                i <= 31,
                x@.len() == i,
                forall|j: int| 0 <= j < i ==> x@[j] == self.x@[j],
            decreases 31 - i,
        {
            x.push(self.x[i]);
            i = i + 1;
        }
        let mut f = TrapFrameImpl { x, sstatus: self.sstatus, sepc: self.sepc };
        f.x[9] = 0;
        proof {
            assert(f.x@ =~= self.x@.update(9, 0u64));
        }
        f
    }
}

/// The trap causes the dispatcher distinguishes.
#[derive(Clone, Copy, Debug, PartialEq, Eq, Structural)]
pub enum TrapCause {
    SupervisorTimer,
    SupervisorExternal,
    UserEnvCall,
    LoadPageFault,
    StorePageFault,
    InstructionPageFault,
    LoadAccessFault,
    StoreAccessFault,
    InstructionAccessFault,
    Unknown,
}

/// The privilege mode the trap came from.
#[derive(Clone, Copy, Debug, PartialEq, Eq, Structural)]
pub enum PrivilegeMode {
    User,
    Supervisor,
}

/// What the high-level handler does with a trap.
#[derive(Clone, Copy, Debug, PartialEq, Eq, Structural)]
pub enum TrapAction {
    /// Timer tick from user mode: acknowledge, reprogram, yield to the
    /// scheduler (preemption).
    TimerYield,
    /// Timer tick from kernel mode: acknowledge, reprogram, resume.
    TimerResume,
    /// ECALL from user mode: re-enable interrupts and run the syscall.
    Syscall,
    /// A load/store/instruction page or access fault: run the address
    /// space's page-fault handler on the fault address.
    PageFault,
    /// Anything else is fatal.
    Fatal,
}

/// What the dispatcher decides for each cause and mode.
pub open spec fn spec_dispatch(cause: TrapCause, mode: PrivilegeMode) -> TrapAction {
    match cause {
        TrapCause::SupervisorTimer => if mode is User {
            TrapAction::TimerYield
        } else {
            TrapAction::TimerResume
        },
        TrapCause::UserEnvCall => TrapAction::Syscall,
        TrapCause::LoadPageFault => TrapAction::PageFault,
        TrapCause::StorePageFault => TrapAction::PageFault,
        TrapCause::InstructionPageFault => TrapAction::PageFault,
        TrapCause::LoadAccessFault => TrapAction::PageFault,
        TrapCause::StoreAccessFault => TrapAction::PageFault,
        _ => TrapAction::Fatal,
    }
}

/// The dispatch decision of the trap handler: a timer tick preempts user
/// code and resumes kernel code; a user environment call is a syscall;
/// load, store and instruction faults go to the page-fault handler;
/// external interrupts and unknown causes are fatal.
pub fn dispatch_trap(cause: TrapCause, mode: PrivilegeMode) -> (r: TrapAction)
    ensures
        r == spec_dispatch(cause, mode),
{
    match cause {
        TrapCause::SupervisorTimer => {
            match mode {
                PrivilegeMode::User => TrapAction::TimerYield,
                PrivilegeMode::Supervisor => TrapAction::TimerResume,
            }
        },
        TrapCause::UserEnvCall => TrapAction::Syscall,
        TrapCause::LoadPageFault => TrapAction::PageFault,
        TrapCause::StorePageFault => TrapAction::PageFault,
        TrapCause::InstructionPageFault => TrapAction::PageFault,
        TrapCause::LoadAccessFault => TrapAction::PageFault,
        TrapCause::StoreAccessFault => TrapAction::PageFault,
        TrapCause::InstructionAccessFault => TrapAction::Fatal,
        TrapCause::SupervisorExternal => TrapAction::Fatal,
        TrapCause::Unknown => TrapAction::Fatal,
    }
}

/// The kernel stack top of the thread whose stack pointer is `sp`:
/// round up to the stack-size alignment, as the entry trampoline does by
/// masking.
pub fn kernel_stack_top_of_sp(sp: u64) -> (r: u64)
    requires
        sp % KERNEL_STACK_SIZE != 0,
        sp < KERNEL_STACK_TOP,
    ensures
        r % KERNEL_STACK_SIZE == 0,
        sp < r,
        r - sp < KERNEL_STACK_SIZE,
{
    let d: u64 = sp - 1 + KERNEL_STACK_SIZE;
    let t: u64 = d & !(KERNEL_STACK_SIZE - 1);
    proof {
        assert(t % 0x1_0000 == 0 && sp < t && t - sp < 0x1_0000) by (bit_vector)
            requires
                t == d & !0xffff,
                d == sp - 1 + 0x1_0000,
                sp % 0x1_0000 != 0,
                sp < 0xffff_ffff_fffe_0000,
        ;
    }
    t
}

/// The kernel stack of thread `tid`: stacks descend from
/// `KERNEL_STACK_TOP`, spaced by the stack size plus a guard page. The
/// bound keeps every stack inside the kernel half, above the device
/// window.
pub fn get_kernel_stack_range(tid: u64) -> (r: crate::address::VARange)
    requires
        tid < 0x1f_0000,
    ensures
        r.end.0 == KERNEL_STACK_TOP - tid * (KERNEL_STACK_SIZE + GUARD_PAGE_SIZE),
        r.start.0 == r.end.0 - KERNEL_STACK_SIZE,
        r.start.0 < r.end.0,
{
    let top: u64 = KERNEL_STACK_TOP - tid * (KERNEL_STACK_SIZE + GUARD_PAGE_SIZE);
    crate::address::VARange { start: crate::address::VA(top - KERNEL_STACK_SIZE), end: crate::address::VA(top) }
}

} // verus!
