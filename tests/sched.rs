use rvkernel::error::KernelError;
use rvkernel::pages::{translate, PhysMemory, PAGE_V, USER_BASE, USER_FLAGS};
use rvkernel::proc::{
    recycle_and_run_next, run_next_proc, Executer, ProcContext, ProcState, Process, Runner,
    TaskEntries, PROCS_MAX, PROC_STACK_LEN, SATP_SV32,
};

const ENTRIES: TaskEntries = TaskEntries { user_entry: 0x8020_1000, recycle: 0x8020_2000 };
const STACKS: u32 = 0x8030_0000;

fn memory() -> PhysMemory {
    PhysMemory::new(0x8020_0000, 0x8040_0000, 0x8050_0000)
}

fn states(e: &Executer) -> Vec<ProcState> {
    (0..PROCS_MAX).map(|i| e.process(i).state).collect()
}

fn running_count(e: &Executer) -> usize {
    states(e).iter().filter(|s| **s == ProcState::Running).count()
}

fn check_one_running(e: &Executer) {
    assert_eq!(running_count(e), 1);
    assert_eq!(e.process(e.current()).state, ProcState::Running);
}

#[test]
fn new_scheduler_runs_idle() {
    let mut mem = memory();
    let e = Executer::new(&mut mem, ENTRIES, STACKS).unwrap();
    assert_eq!(states(&e), vec![ProcState::Running, ProcState::Unused, ProcState::Unused]);
    assert_eq!(e.current(), 0);
    for i in 0..PROCS_MAX {
        assert_eq!(e.process(i).pid, i);
        assert_eq!(e.process(i).stack_top, STACKS + (i as u32 + 1) * PROC_STACK_LEN);
    }
    let root = e.process(0).page_table;
    assert_eq!(root, 0x8040_0000);
    assert!(translate(&mem, root, 0x8020_0000).is_some());
}

#[test]
fn context_new_is_zero() {
    let c = ProcContext::new();
    assert_eq!(c.ra, 0);
    assert_eq!(c.sp, 0);
    assert_eq!(c.s11, 0);
    assert_eq!(c.current_pc, 0);
    let p = Process::new(2, 0x9000);
    assert_eq!(p.state, ProcState::Unused);
    assert_eq!(p.pid, 2);
    assert_eq!(p.ctx, c);
}

#[test]
fn push_fills_first_free_slot() {
    let mut mem = memory();
    let mut e = Executer::new(&mut mem, ENTRIES, STACKS).unwrap();
    let app = [0x13u8; 100];
    let before = mem.next_paddr();
    assert_eq!(e.push(&mut mem, &app), Ok(()));
    assert_eq!(states(&e), vec![ProcState::Running, ProcState::Runnable, ProcState::Unused]);
    let p = e.process(1);
    assert_eq!(p.page_table, before);
    assert_eq!(p.ctx.ra, ENTRIES.recycle);
    assert_eq!(p.ctx.current_pc, ENTRIES.user_entry);
    let top = STACKS + 2 * PROC_STACK_LEN;
    assert_eq!(p.ctx.sp, (top & !7) - 32);
    assert_eq!(p.ctx.sp % 8, 0);
    let ue = translate(&mem, p.page_table, USER_BASE).unwrap();
    assert_eq!(ue & 0x3ff, USER_FLAGS | PAGE_V);
    let ke = translate(&mem, p.page_table, 0x8020_0000).unwrap();
    assert_eq!((ke >> 10) << 12, 0x8020_0000);
    assert_ne!(p.page_table, e.process(0).page_table);
}

#[test]
fn push_without_free_slot_fails() {
    let mut mem = memory();
    let mut e = Executer::new(&mut mem, ENTRIES, STACKS).unwrap();
    e.push(&mut mem, &[1, 2, 3]).unwrap();
    e.push(&mut mem, &[4, 5, 6]).unwrap();
    let used = mem.next_paddr();
    assert_eq!(e.push(&mut mem, &[7]), Err(KernelError::NoFreeSlot));
    assert_eq!(mem.next_paddr(), used);
    assert_eq!(states(&e), vec![ProcState::Running, ProcState::Runnable, ProcState::Runnable]);
}

#[test]
fn push_out_of_memory_leaves_scheduler_unchanged() {
    let mut mem = PhysMemory::new(0x8020_0000, 0x8040_0000, 0x8040_0000 + 4 * 4096);
    let mut e = Executer::new(&mut mem, ENTRIES, STACKS).unwrap();
    assert_eq!(e.push(&mut mem, &[1u8; 4096 * 4]), Err(KernelError::OutOfMemory));
    assert_eq!(states(&e), vec![ProcState::Running, ProcState::Unused, ProcState::Unused]);
}

#[test]
fn step_with_nothing_runnable_changes_nothing() {
    let mut mem = memory();
    let mut e = Executer::new(&mut mem, ENTRIES, STACKS).unwrap();
    assert_eq!(e.run_next(), None);
    assert_eq!(e.current(), 0);
    check_one_running(&e);
}

#[test]
fn step_reports_switch() {
    let mut mem = memory();
    let mut e = Executer::new(&mut mem, ENTRIES, STACKS).unwrap();
    e.push(&mut mem, &[1]).unwrap();
    let pt = e.process(1).page_table;
    let sp = e.process(1).ctx.sp;
    let sw = e.run_next().unwrap();
    assert_eq!(sw.prev, 0);
    assert_eq!(sw.next, 1);
    assert_eq!(sw.satp, SATP_SV32 | (pt / 4096));
    assert_eq!(sw.sscratch, sp);
    assert_eq!(e.process(1).satp(), sw.satp);
    assert_eq!(states(&e), vec![ProcState::Runnable, ProcState::Running, ProcState::Unused]);
}

#[test]
fn round_robin_visits_each_runnable_once_in_order() {
    let mut mem = memory();
    let mut e = Executer::new(&mut mem, ENTRIES, STACKS).unwrap();
    e.push(&mut mem, &[1]).unwrap();
    e.push(&mut mem, &[2]).unwrap();
    let mut order = vec![];
    for _ in 0..7 {
        let sw = e.run_next().unwrap();
        order.push(sw.next);
        check_one_running(&e);
    }
    assert_eq!(order, vec![1, 2, 0, 1, 2, 0, 1]);
}

#[test]
fn round_robin_wraps_past_unused_slot() {
    let mut mem = memory();
    let mut e = Executer::new(&mut mem, ENTRIES, STACKS).unwrap();
    e.push(&mut mem, &[1]).unwrap();
    e.push(&mut mem, &[2]).unwrap();
    e.run_next().unwrap(); // idle -> 1
    e.t_return().unwrap(); // 1 exits -> 2
    assert_eq!(e.current(), 2);
    let mut order = vec![];
    for _ in 0..4 {
        order.push(e.run_next().unwrap().next);
    }
    assert_eq!(order, vec![0, 2, 0, 2]);
}

#[test]
fn exited_slot_is_never_selected_until_reused() {
    let mut mem = memory();
    let mut e = Executer::new(&mut mem, ENTRIES, STACKS).unwrap();
    e.push(&mut mem, &[1]).unwrap();
    e.push(&mut mem, &[2]).unwrap();
    e.run_next().unwrap(); // -> 1
    let sw = e.t_return().unwrap();
    assert_eq!((sw.prev, sw.next), (1, 2));
    assert_eq!(e.process(1).state, ProcState::Unused);
    for _ in 0..6 {
        let sw = e.run_next().unwrap();
        assert_ne!(sw.next, 1);
        assert_eq!(e.process(1).state, ProcState::Unused);
        check_one_running(&e);
    }
    // a later push takes the recycled slot, which is scheduled again
    e.push(&mut mem, &[3]).unwrap();
    assert_eq!(e.process(1).state, ProcState::Runnable);
    let mut seen = false;
    for _ in 0..3 {
        if e.run_next().unwrap().next == 1 {
            seen = true;
        }
    }
    assert!(seen);
}

#[test]
fn idle_never_exits() {
    let mut mem = memory();
    let mut e = Executer::new(&mut mem, ENTRIES, STACKS).unwrap();
    e.push(&mut mem, &[1]).unwrap();
    assert_eq!(e.t_return(), None);
    assert_eq!(states(&e), vec![ProcState::Running, ProcState::Runnable, ProcState::Unused]);
}

#[test]
fn last_task_exit_returns_to_idle() {
    let mut mem = memory();
    let mut e = Executer::new(&mut mem, ENTRIES, STACKS).unwrap();
    e.push(&mut mem, &[1]).unwrap();
    e.run_next().unwrap();
    let sw = e.t_return().unwrap();
    assert_eq!((sw.prev, sw.next), (1, 0));
    check_one_running(&e);
    assert_eq!(e.run_next(), None);
}

#[test]
fn scheduler_is_published_once() {
    let mut mem = memory();
    let mut runner = Runner::new();
    assert!(!runner.is_running());
    assert_eq!(run_next_proc(&mut runner), Err(KernelError::NotRunning));
    assert_eq!(recycle_and_run_next(&mut runner), Err(KernelError::NotRunning));
    let e = Executer::new(&mut mem, ENTRIES, STACKS).unwrap();
    assert_eq!(e.run(&mut runner), Ok(()));
    assert!(runner.is_running());
    let other = Executer::new(&mut mem, ENTRIES, STACKS).unwrap();
    assert_eq!(other.run(&mut runner), Err(KernelError::AlreadyRunning));
    assert!(runner.executer().is_some());
}

/// Boot with two tasks that each print and yield a few times, then return;
/// the run loop of the idle process ends once neither is runnable.
#[test]
fn end_to_end_two_tasks_until_both_exit() {
    let mut mem = memory();
    let mut e = Executer::new(&mut mem, ENTRIES, STACKS).unwrap();
    assert_eq!(e.push(&mut mem, b"appA"), Ok(()));
    assert_eq!(e.push(&mut mem, b"appB"), Ok(()));
    assert_eq!(states(&e), vec![ProcState::Running, ProcState::Runnable, ProcState::Runnable]);
    let mut runner = Runner::new();
    e.run(&mut runner).unwrap();

    let rounds = 3;
    let mut yields = [0usize; PROCS_MAX];
    let mut trace = vec![0usize];
    let mut output = String::new();
    loop {
        // the idle process's run loop: step until nothing is runnable
        let sw = run_next_proc(&mut runner).unwrap();
        let Some(sw) = sw else { break };
        let mut cur = sw.next;
        trace.push(cur);
        // tasks run until control comes back to the idle process
        while cur != 0 {
            let slot = cur;
            if yields[slot] < rounds {
                output.push(if slot == 1 { 'A' } else { 'B' });
                yields[slot] += 1;
                cur = run_next_proc(&mut runner).unwrap().unwrap().next;
            } else {
                cur = recycle_and_run_next(&mut runner).unwrap().unwrap().next;
            }
            trace.push(cur);
            let ex = runner.executer().unwrap();
            check_one_running(ex);
        }
    }
    assert_eq!(output, "ABABAB");
    assert_eq!(trace, vec![0, 1, 2, 0, 1, 2, 0, 1, 2, 0, 1, 2, 0]);
    let ex = runner.executer().unwrap();
    assert_eq!(states(ex), vec![ProcState::Running, ProcState::Unused, ProcState::Unused]);
}

#[test]
fn boot_needs_root_and_one_leaf_table_per_segment() {
    // the kernel range 0x8020_0000 .. 0x8040_3000 touches two 4 MiB segments
    let mut enough = PhysMemory::new(0x8020_0000, 0x8040_0000, 0x8040_3000);
    assert!(Executer::new(&mut enough, ENTRIES, STACKS).is_ok());
    let mut short = PhysMemory::new(0x8020_0000, 0x8040_0000, 0x8040_2000);
    assert_eq!(Executer::new(&mut short, ENTRIES, STACKS).err(), Some(KernelError::OutOfMemory));
    let mut unaligned = PhysMemory::new(0x8020_0010, 0x8040_0000, 0x8040_3000);
    assert_eq!(Executer::new(&mut unaligned, ENTRIES, STACKS).err(), Some(KernelError::Unaligned));
}

#[test]
fn each_task_has_its_own_root() {
    let mut mem = memory();
    let mut e = Executer::new(&mut mem, ENTRIES, STACKS).unwrap();
    e.push(&mut mem, &[1]).unwrap();
    e.push(&mut mem, &[2]).unwrap();
    let roots: Vec<u32> = (0..PROCS_MAX).map(|i| e.process(i).page_table).collect();
    assert_ne!(roots[0], roots[1]);
    assert_ne!(roots[1], roots[2]);
    assert_ne!(roots[0], roots[2]);
    assert!(roots.iter().all(|r| r % 4096 == 0));
}

#[test]
fn idle_exit_changes_nothing() {
    let mut mem = memory();
    let mut e = Executer::new(&mut mem, ENTRIES, STACKS).unwrap();
    let before: Vec<Process> = (0..PROCS_MAX).map(|i| *e.process(i)).collect();
    assert_eq!(e.t_return(), None);
    let after: Vec<Process> = (0..PROCS_MAX).map(|i| *e.process(i)).collect();
    assert_eq!(before, after);
    assert_eq!(e.process(1).page_table, 0);
}
