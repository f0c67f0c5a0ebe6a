use crate::pages::USER_BASE;
use crate::riscv::{scause_of, Exception, Scause};
use vstd::prelude::*;

verus! {

/// System call: write one character to the console.
pub const SYS_PUTCHAR: u32 = 1;
/// System call: read one character from the console.
pub const SYS_GETCHAR: u32 = 2;
/// System call: end the calling process.
pub const SYS_EXIT: u32 = 3;

/// Width of one instruction, in bytes.
pub const INSTRUCTION_WIDTH: u32 = 4;

/// `scause` value of an environment call from user mode.
pub const ENV_CALL_CAUSE: u32 = 8;

/// The "traps were enabled" bit of `sstatus`, restored into the interrupt
/// enable on trap return.
pub const SSTATUS_SPIE: u32 = 0x20;

/// The registers saved on the kernel stack when a trap is taken.
#[derive(Clone, Copy, Debug, PartialEq, Eq, Structural)]
pub struct TrapFrame {
    pub ra: u32,
    pub gp: u32,
    pub tp: u32,
    pub t0: u32,
    pub t1: u32,
    pub t2: u32,
    pub t3: u32,
    pub t4: u32,
    pub t5: u32,
    pub t6: u32,
    pub a0: u32,
    pub a1: u32,
    pub a2: u32,
    pub a3: u32,
    pub a4: u32,
    pub a5: u32,
    pub a6: u32,
    pub a7: u32,
    pub s0: u32,
    pub s1: u32,
    pub s2: u32,
    pub s3: u32,
    pub s4: u32,
    pub s5: u32,
    pub s6: u32,
    pub s7: u32,
    pub s8: u32,
    pub s9: u32,
    pub s10: u32,
    pub s11: u32,
    pub sp: u32,
}

/// What the platform does to finish a trap.
#[derive(Clone, Copy, Debug, PartialEq, Eq, Structural)]
pub enum TrapAction {
    /// Forward `ch` to the console once, then return from the trap at `resume_pc`.
    PutChar { ch: u32, resume_pc: u32 },
    /// Read a character from the console, yielding to the next runnable
    /// process while none is available, then return from the trap at `resume_pc`.
    GetChar { resume_pc: u32 },
    /// Run the exit path of the current process; the trap does not return.
    Exit,
    /// Halt: the system call number is unknown.
    BadSyscall { number: u32 },
    /// Halt: the trap is not an environment call. Reports the cause, the
    /// faulting value and the resume address.
    Fatal { cause: Scause, stval: u32, sepc: u32 },
}

/// Address of the instruction after the one at `pc`.
pub open spec fn next_pc(pc: u32) -> u32 {
    ((pc + INSTRUCTION_WIDTH) % 0x1_0000_0000) as u32
}

/// The action that ends a trap with frame `f`, cause `scause`, faulting value
/// `stval` and resume address `sepc`. Only environment calls are served; the
/// call number is in `a3` and its argument in `a0`.
pub open spec fn trap_action(f: TrapFrame, scause: u32, stval: u32, sepc: u32) -> TrapAction {
    if scause_of(scause) == Scause::Exception(Exception::EnvironmentCall) {
        if f.a3 == SYS_PUTCHAR {
            TrapAction::PutChar { ch: f.a0, resume_pc: next_pc(sepc) }
        } else if f.a3 == SYS_GETCHAR {
            TrapAction::GetChar { resume_pc: next_pc(sepc) }
        } else if f.a3 == SYS_EXIT {
            TrapAction::Exit
        } else {
            TrapAction::BadSyscall { number: f.a3 }
        }
    } else {
        TrapAction::Fatal { cause: scause_of(scause), stval, sepc }
    }
}

/// Decides how a system call ends.
pub fn handle_syscall(f: &TrapFrame, sepc: u32) -> (r: TrapAction)
    ensures
        r == trap_action(*f, ENV_CALL_CAUSE, 0, sepc),
{
    proof {
        assert(ENV_CALL_CAUSE & 0x8000_0000u32 == 0) by (bit_vector);
    }
    let resume_pc = sepc.wrapping_add(INSTRUCTION_WIDTH);
    if f.a3 == SYS_PUTCHAR {
        TrapAction::PutChar { ch: f.a0, resume_pc }
    } else if f.a3 == SYS_GETCHAR {
        TrapAction::GetChar { resume_pc }
    } else if f.a3 == SYS_EXIT {
        TrapAction::Exit
    } else {
        TrapAction::BadSyscall { number: f.a3 }
    }
}

/// Decodes the cause of a trap and decides how it ends: environment calls are
/// served and resume one instruction further on; every other cause is fatal.
pub fn handle_trap(f: &TrapFrame, scause: u32, stval: u32, sepc: u32) -> (r: TrapAction)
    ensures
        r == trap_action(*f, scause, stval, sepc),
{
    let cause = Scause::from(scause);
    match cause {
        Scause::Exception(Exception::EnvironmentCall) => {
            proof {
                assert(ENV_CALL_CAUSE & 0x8000_0000u32 == 0) by (bit_vector);
            }
            handle_syscall(f, sepc)
        },
        _ => TrapAction::Fatal { cause, stval, sepc },
    }
}

/// Ends one attempt of the "read character" call with what the console
/// returned: a character (non-negative) goes into `a0` and the call is done;
/// a negative value means none was available, the frame is unchanged and the
/// caller yields and tries again.
pub fn complete_get_char(f: &mut TrapFrame, got: i32) -> (done: bool)
    ensures
        done == (got >= 0),
        done ==> *final(f) == (TrapFrame { a0: got as u32, ..*old(f) }),
        !done ==> *final(f) == *old(f),
{
    if got >= 0 {
        f.a0 = got as u32;
        true
    } else {
        false
    }
}

/// What the user-mode entry trampoline sets before returning from the trap
/// into a fresh application: the resume address and the status register.
#[derive(Clone, Copy, Debug, PartialEq, Eq, Structural)]
pub struct UserEntry {
    pub sepc: u32,
    pub sstatus: u32,
}

/// A fresh application starts at `USER_BASE` with traps enabled after the
/// return to user mode.
pub fn user_entry() -> (r: UserEntry)
    ensures
        r == (UserEntry { sepc: USER_BASE, sstatus: SSTATUS_SPIE }),
{
    UserEntry { sepc: USER_BASE, sstatus: SSTATUS_SPIE }
}

} // verus!
