use crate::trap::{
    next_pc, trap_action, TrapAction, TrapFrame, ENV_CALL_CAUSE, SYS_EXIT, SYS_GETCHAR, SYS_PUTCHAR,
};
use vstd::prelude::*;
use vstd::string::StrSliceExecFns;

verus! {

/// The registers an application sets for a system call: the call number in
/// `a3`, the arguments in `a0`..`a2`.
#[derive(Clone, Copy, Debug, PartialEq, Eq, Structural)]
pub struct SyscallArgs {
    pub a0: u32,
    pub a1: u32,
    pub a2: u32,
    pub a3: u32,
}

pub open spec fn syscall_args(sysno: u32, arg0: u32, arg1: u32, arg2: u32) -> SyscallArgs {
    SyscallArgs { a0: arg0, a1: arg1, a2: arg2, a3: sysno }
}

fn syscall(sysno: u32, arg0: u32, arg1: u32, arg2: u32) -> (r: SyscallArgs)
    ensures
        r == syscall_args(sysno, arg0, arg1, arg2),
{
    SyscallArgs { a0: arg0, a1: arg1, a2: arg2, a3: sysno }
}

/// The system call that writes `ch` to the console.
pub fn put_char(ch: char) -> (r: SyscallArgs)
    ensures
        r == syscall_args(SYS_PUTCHAR, ch as u32, 0, 0),
{
    syscall(SYS_PUTCHAR, ch as u32, 0, 0)
}

/// The system calls that write `s` to the console: one per character, in order.
pub fn print(s: &str) -> (r: Vec<SyscallArgs>)
    ensures
        r@.len() == s@.len(),
        forall|i: int|
            0 <= i < s@.len() ==> #[trigger] r@[i] == syscall_args(SYS_PUTCHAR, s@[i] as u32, 0, 0),
{
    let n = s.unicode_len();
    let mut out: Vec<SyscallArgs> = Vec::new();
    let mut i: usize = 0;
    while i < n
        invariant
            n == s@.len(),
            i <= n,
            out@.len() == i,
            forall|k: int|
                0 <= k < i ==> #[trigger] out@[k] == syscall_args(SYS_PUTCHAR, s@[k] as u32, 0, 0),
        decreases n - i,
    {
        out.push(put_char(s.get_char(i)));
        i = i + 1;
    }
    out
}

/// The system call that reads one character from the console.
pub fn get_char() -> (r: SyscallArgs)
    ensures
        r == syscall_args(SYS_GETCHAR, 0, 0, 0),
{
    syscall(SYS_GETCHAR, 0, 0, 0)
}

/// The system call that ends the calling process.
pub fn exit() -> (r: SyscallArgs)
    ensures
        r == syscall_args(SYS_EXIT, 0, 0, 0),
{
    syscall(SYS_EXIT, 0, 0, 0)
}

/// The trap frame the kernel sees when an application makes call `args`.
pub open spec fn frame_of_call(args: SyscallArgs, rest: TrapFrame) -> TrapFrame {
    TrapFrame { a0: args.a0, a1: args.a1, a2: args.a2, a3: args.a3, ..rest }
}

/// Syscall round trip: an application writing a printable ASCII character
/// makes the kernel forward exactly that character to the console, once,
/// and resume the application one instruction after the call.
pub proof fn lemma_put_char_round_trip(ch: char, rest: TrapFrame, stval: u32, sepc: u32)
    requires
        0x20 <= ch as u32 <= 0x7e,
    ensures
        trap_action(
            frame_of_call(syscall_args(SYS_PUTCHAR, ch as u32, 0, 0), rest),
            ENV_CALL_CAUSE,
            stval,
            sepc,
        ) == (TrapAction::PutChar { ch: ch as u32, resume_pc: next_pc(sepc) }),
{
    assert(ENV_CALL_CAUSE & 0x8000_0000u32 == 0) by (bit_vector);
}

} // verus!
