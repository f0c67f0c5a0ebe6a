use rvkernel::console;
use rvkernel::pages::USER_BASE;
use rvkernel::riscv::{stvec_value, Exception, Interrupt, Scause, Stval, TrapMode};
use rvkernel::trap::{
    complete_get_char, handle_syscall, handle_trap, user_entry, TrapAction, TrapFrame,
    ENV_CALL_CAUSE, SSTATUS_SPIE, SYS_EXIT, SYS_GETCHAR, SYS_PUTCHAR,
};
use rvkernel::user;

fn frame() -> TrapFrame {
    TrapFrame {
        ra: 1, gp: 2, tp: 3, t0: 4, t1: 5, t2: 6, t3: 7, t4: 8, t5: 9, t6: 10,
        a0: 11, a1: 12, a2: 13, a3: 14, a4: 15, a5: 16, a6: 17, a7: 18,
        s0: 19, s1: 20, s2: 21, s3: 22, s4: 23, s5: 24, s6: 25, s7: 26,
        s8: 27, s9: 28, s10: 29, s11: 30, sp: 31,
    }
}

fn frame_for(call: user::SyscallArgs) -> TrapFrame {
    TrapFrame { a0: call.a0, a1: call.a1, a2: call.a2, a3: call.a3, ..frame() }
}

#[test]
fn scause_decodes_exceptions() {
    assert_eq!(Scause::from(8), Scause::Exception(Exception::EnvironmentCall));
    assert_eq!(Scause::from(2), Scause::Exception(Exception::IllegalInstruction));
    assert_eq!(Scause::from(13), Scause::Exception(Exception::LoadpageFault));
    assert_eq!(Scause::from(15), Scause::Exception(Exception::StoreAmoPageFault));
    assert_eq!(Scause::from(4), Scause::Exception(Exception::Unknown));
    assert_eq!(Scause::from(9), Scause::Exception(Exception::Unknown));
}

#[test]
fn scause_decodes_interrupts() {
    assert_eq!(Scause::from(0x8000_0001), Scause::Interrupt(Interrupt::SupervisorSoftware));
    assert_eq!(Scause::from(0x8000_0005), Scause::Interrupt(Interrupt::SupervisorTimer));
    assert_eq!(Scause::from(0x8000_0000), Scause::Interrupt(Interrupt::UserSoftware));
    assert_eq!(Scause::from(0x8000_0004), Scause::Interrupt(Interrupt::UserTimer));
    assert_eq!(Scause::from(0x8000_0009), Scause::Interrupt(Interrupt::Unknown));
}

#[test]
fn try_from_reports_unknown_codes() {
    assert_eq!(Interrupt::try_from(5), Ok(Interrupt::SupervisorTimer));
    assert_eq!(Interrupt::try_from(2), Err(Interrupt::Unknown));
    assert_eq!(Exception::try_from(7), Ok(Exception::StoreAmoAccessFault));
    assert_eq!(Exception::try_from(14), Err(Exception::Unknown));
}

#[test]
fn put_char_round_trip_resumes_after_ecall() {
    let call = user::put_char('h');
    assert_eq!(call.a3, SYS_PUTCHAR);
    let f = frame_for(call);
    let action = handle_trap(&f, ENV_CALL_CAUSE, 0, 0x0100_0040);
    assert_eq!(action, TrapAction::PutChar { ch: 'h' as u32, resume_pc: 0x0100_0044 });
}

#[test]
fn resume_pc_wraps_at_top_of_address_space() {
    let f = frame_for(user::put_char('x'));
    let action = handle_trap(&f, ENV_CALL_CAUSE, 0, 0xffff_fffc);
    assert_eq!(action, TrapAction::PutChar { ch: 'x' as u32, resume_pc: 0 });
}

#[test]
fn get_char_and_exit_calls() {
    let g = frame_for(user::get_char());
    assert_eq!(g.a3, SYS_GETCHAR);
    assert_eq!(handle_trap(&g, 8, 0, 0x100), TrapAction::GetChar { resume_pc: 0x104 });
    let x = frame_for(user::exit());
    assert_eq!(x.a3, SYS_EXIT);
    assert_eq!(handle_trap(&x, 8, 0, 0x100), TrapAction::Exit);
    assert_eq!(handle_syscall(&x, 0x100), TrapAction::Exit);
}

#[test]
fn unknown_syscall_is_fatal() {
    let f = TrapFrame { a3: 42, ..frame() };
    assert_eq!(handle_trap(&f, 8, 0, 0x100), TrapAction::BadSyscall { number: 42 });
}

#[test]
fn other_traps_are_fatal_with_report() {
    let f = frame();
    assert_eq!(
        handle_trap(&f, 2, 0xdead, 0x0100_0010),
        TrapAction::Fatal {
            cause: Scause::Exception(Exception::IllegalInstruction),
            stval: 0xdead,
            sepc: 0x0100_0010
        }
    );
    assert_eq!(
        handle_trap(&f, 0x8000_0005, 0, 0x20),
        TrapAction::Fatal { cause: Scause::Interrupt(Interrupt::SupervisorTimer), stval: 0, sepc: 0x20 }
    );
    assert_eq!(
        handle_trap(&f, 12, 0x1000, 0x30),
        TrapAction::Fatal { cause: Scause::Exception(Exception::InstructionPageFault), stval: 0x1000, sepc: 0x30 }
    );
}

#[test]
fn get_char_completion() {
    let mut f = frame();
    assert!(!complete_get_char(&mut f, -1));
    assert_eq!(f, frame());
    assert!(complete_get_char(&mut f, 'k' as i32));
    assert_eq!(f, TrapFrame { a0: 'k' as u32, ..frame() });
}

#[test]
fn user_print_makes_one_call_per_char() {
    let calls = user::print("hi!");
    assert_eq!(calls.len(), 3);
    assert_eq!(calls[0], user::put_char('h'));
    assert_eq!(calls[2].a0, '!' as u32);
    assert!(user::print("").is_empty());
}

#[test]
fn console_calls_use_firmware_selectors() {
    let c = console::put_char('Z' as u32);
    assert_eq!(c.args, ['Z' as u32, 0, 0, 0, 0, 0, 0, 1]);
    assert_eq!(console::get_char().args, [0, 0, 0, 0, 0, 0, 0, 2]);
    let out = console::print("ok");
    assert_eq!(out.len(), 2);
    assert_eq!(out[0].args[0], 'o' as u32);
    assert_eq!(out[1].args[0], 'k' as u32);
}

#[test]
fn user_entry_starts_at_user_base_with_traps_enabled() {
    let u = user_entry();
    assert_eq!(u.sepc, USER_BASE);
    assert_eq!(u.sstatus, SSTATUS_SPIE);
    assert_eq!(SSTATUS_SPIE, 1 << 5);
}

#[test]
fn stvec_combines_address_and_mode() {
    assert_eq!(stvec_value(0x8020_0100, TrapMode::Direct), 0x8020_0100);
    assert_eq!(stvec_value(0x8020_0100, TrapMode::Vectored), 0x8020_0101);
    assert_eq!(Stval(5).0, 5);
}
