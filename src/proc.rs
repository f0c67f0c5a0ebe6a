use crate::addr::align_down;
use vstd::arithmetic::power2::{lemma2_to64, pow2};
use crate::error::KernelError;
use crate::pages::{
    app_pages, in_kernel_range, leaf_pte, map_one_app, maps_app_page, new_address_space,
    segments_spanned, PhysMemory, KERNEL_FLAGS, PAGE_SIZE, USER_BASE,
};
use vstd::prelude::*;

verus! {

/// Number of process slots, the idle process's included.
pub const PROCS_MAX: usize = 3;

/// Size of each process's kernel stack, in bytes.
pub const PROC_STACK_LEN: u32 = 8192;

/// Bytes kept free at the top of a fresh kernel stack.
pub const STACK_RESERVE: u32 = 32;

/// Paging-enabled bit of the `satp` register (SV32 mode).
pub const SATP_SV32: u32 = 0x8000_0000;

#[derive(Clone, Copy, Debug, PartialEq, Eq, Structural)]
pub enum ProcState {
    Unused,
    Running,
    Runnable,
}

/// Abstract state of the scheduler: the state of each slot and the index of
/// the current one.
pub ghost struct SchedView {
    pub states: Seq<ProcState>,
    pub current: int,
}

/// The first slot in the state `Runnable`, scanning from `cur + d` on and
/// wrapping around, without coming back to `cur`.
pub open spec fn scan(states: Seq<ProcState>, cur: int, d: nat) -> Option<int>
    decreases states.len() - d,
{
    if d >= states.len() {
        None
    } else if states[(cur + d) % (states.len() as int)] == ProcState::Runnable {
        Some((cur + d) % (states.len() as int))
    } else {
        scan(states, cur, d + 1)
    }
}

impl SchedView {
    /// Exactly one slot is `Running`, and it is the current one.
    pub open spec fn exactly_one_running(self) -> bool {
        &&& 0 <= self.current < self.states.len()
        &&& self.states[self.current] == ProcState::Running
        &&& forall|i: int|
            0 <= i < self.states.len() && i != self.current ==> self.states[i] != ProcState::Running
    }

    pub open spec fn wf(self) -> bool {
        &&& self.states.len() == PROCS_MAX
        &&& self.exactly_one_running()
        &&& self.states[0] != ProcState::Unused
    }

    /// The slot a step switches to, if any.
    pub open spec fn next_runnable(self) -> Option<int> {
        scan(self.states, self.current, 0)
    }

    /// One scheduling step: the current slot goes back to `Runnable` unless it
    /// is `Unused`, and the next runnable slot becomes `Running` and current.
    /// With no runnable slot nothing changes.
    pub open spec fn step(self) -> SchedView {
        match self.next_runnable() {
            None => self,
            Some(j) => {
                let demoted = if self.states[self.current] != ProcState::Unused {
                    self.states.update(self.current, ProcState::Runnable)
                } else {
                    self.states
                };
                SchedView { states: demoted.update(j, ProcState::Running), current: j }
            },
        }
    }

    /// The exit path: a current slot other than the idle one becomes `Unused`,
    /// then a step follows. The idle slot never exits.
    pub open spec fn exit_step(self) -> SchedView {
        if self.current != 0 {
            SchedView { states: self.states.update(self.current, ProcState::Unused), current: self.current }.step()
        } else {
            self
        }
    }

    /// `m` scheduling steps in a row.
    pub open spec fn steps(self, m: nat) -> SchedView
        decreases m,
    {
        if m == 0 {
            self
        } else {
            self.step().steps((m - 1) as nat)
        }
    }
}


/// The registers a context switch saves and restores, in the order the
/// switch routine lays them out: return address, stack pointer, the
/// callee-saved `s0`..`s11`, and the program counter to resume at.
#[derive(Clone, Copy, Debug, PartialEq, Eq, Structural)]
pub struct ProcContext {
    pub ra: u32,
    pub sp: u32,
    pub s0: u32,
    pub s1: u32,
    pub s2: u32,
    pub s3: u32,
    pub s4: u32,
    pub s5: u32,
    pub s6: u32,
    pub s7: u32,
    pub s8: u32,
    pub s9: u32,
    pub s10: u32,
    pub s11: u32,
    pub current_pc: u32,
}

/// A context with every register zero.
pub open spec fn zero_context() -> ProcContext {
    ProcContext {
        ra: 0,
        sp: 0,
        s0: 0,
        s1: 0,
        s2: 0,
        s3: 0,
        s4: 0,
        s5: 0,
        s6: 0,
        s7: 0,
        s8: 0,
        s9: 0,
        s10: 0,
        s11: 0,
        current_pc: 0,
    }
}

impl ProcContext {
    pub fn new() -> (r: ProcContext)
        ensures
            r == zero_context(),
    {
        ProcContext {
            ra: 0,
            sp: 0,
            s0: 0,
            s1: 0,
            s2: 0,
            s3: 0,
            s4: 0,
            s5: 0,
            s6: 0,
            s7: 0,
            s8: 0,
            s9: 0,
            s10: 0,
            s11: 0,
            current_pc: 0,
        }
    }
}

/// Where a fresh task starts: the user-mode entry trampoline it first resumes
/// at, and the recycle-and-reschedule trampoline its entry function returns to.
#[derive(Clone, Copy, Debug, PartialEq, Eq, Structural)]
pub struct TaskEntries {
    pub user_entry: u32,
    pub recycle: u32,
}

/// Stack pointer of a fresh task whose kernel stack ends at `stack_top`: the
/// top rounded down to 8 bytes, less a small reserve.
pub open spec fn initial_sp(stack_top: u32) -> int {
    stack_top - stack_top % 8 - STACK_RESERVE
}

/// The saved context of a task about to run for the first time.
pub open spec fn task_context(entries: TaskEntries, stack_top: u32) -> ProcContext {
    ProcContext {
        ra: entries.recycle,
        sp: initial_sp(stack_top) as u32,
        current_pc: entries.user_entry,
        ..zero_context()
    }
}

/// Process control block.
#[derive(Clone, Copy, Debug, PartialEq, Eq, Structural)]
pub struct Process {
    pub pid: usize,
    pub state: ProcState,
    /// Physical address of the root page table of its address space.
    pub page_table: u32,
    /// Address one past the end of its private kernel stack.
    pub stack_top: u32,
    pub ctx: ProcContext,
}

impl Process {
    pub fn new(pid: usize, stack_top: u32) -> (r: Process)
        ensures
            r == (Process { pid, state: ProcState::Unused, page_table: 0, stack_top, ctx: zero_context() }),
    {
        Process { pid, state: ProcState::Unused, page_table: 0, stack_top, ctx: ProcContext::new() }
    }

    /// Value for the `satp` register that makes this address space active.
    pub fn satp(&self) -> (r: u32)
        ensures
            r == SATP_SV32 | (self.page_table / PAGE_SIZE),
    {
        SATP_SV32 | (self.page_table / PAGE_SIZE)
    }
}

/// What the platform does to hand the CPU to another process: program the
/// address-space register and the scratch register, then save the registers
/// into the context of slot `prev` and load those of slot `next`.
#[derive(Clone, Copy, Debug, PartialEq, Eq, Structural)]
pub struct ContextSwitch {
    pub prev: usize,
    pub next: usize,
    pub satp: u32,
    pub sscratch: u32,
}

/// Fixed table of process control blocks, with the index of the current one.
pub struct Executer {
    procs: Vec<Process>,
    running_proc_idx: usize,
    entries: TaskEntries,
}

impl View for Executer {
    type V = SchedView;

    closed spec fn view(&self) -> SchedView {
        SchedView {
            states: self.procs@.map_values(|p: Process| p.state),
            current: self.running_proc_idx as int,
        }
    }
}

impl Executer {
    pub closed spec fn inv(&self) -> bool {
        &&& self@.wf()
        &&& self.procs@.len() == PROCS_MAX
        &&& forall|i: int| 0 <= i < PROCS_MAX ==> #[trigger] self.procs@[i].stack_top >= PROC_STACK_LEN
    }

    /// The control block in slot `i`.
    pub closed spec fn slot(&self, i: int) -> Process {
        self.procs@[i]
    }

    /// The invariant includes the well-formedness of the scheduler state:
    /// three slots, exactly one of them `Running` and current, the idle slot
    /// in use.
    pub proof fn lemma_inv_wf(&self)
        requires
            self.inv(),
        ensures
            self@.wf(),
    {
    }

    /// Every slot in use has its root table below `bound`.
    pub open spec fn roots_below(&self, bound: int) -> bool {
        forall|i: int|
            0 <= i < PROCS_MAX && self@.states[i] != ProcState::Unused ==> #[trigger] self.slot(
                i,
            ).page_table < bound
    }

    pub closed spec fn entries(&self) -> TaskEntries {
        self.entries
    }

    pub fn current(&self) -> (r: usize)
        ensures
            r == self@.current,
    {
        self.running_proc_idx
    }

    /// The control block in slot `i`.
    pub fn process(&self, i: usize) -> (r: &Process)
        requires
            self.inv(),
            i < PROCS_MAX,
        ensures
            *r == self.slot(i as int),
            r.state == self@.states[i as int],
    {
        &self.procs[i]
    }

    /// The slot the next step switches to, if any: the scan starts at the
    /// current slot and wraps around, giving up when it comes back.
    fn find_runnable(&self) -> (r: Option<usize>)
        requires
            self.procs@.len() == PROCS_MAX,
            0 <= self@.current < PROCS_MAX,
        ensures
            r matches Some(j) ==> self@.next_runnable() == Some(j as int) && j < PROCS_MAX,
            r is None ==> self@.next_runnable() is None,
    {
        let n = self.procs.len();
        let cur = self.running_proc_idx;
        let mut d: usize = 0;
        while d < n
            invariant
                self.procs@.len() == PROCS_MAX,
                n == PROCS_MAX,
                cur == self@.current,
                cur < n,
                d <= n,
                scan(self@.states, cur as int, 0) == scan(self@.states, cur as int, d as nat),
            decreases n - d,
        {
            let idx = (cur + d) % n;
            assert(self@.states[idx as int] == self.procs@[idx as int].state);
            if self.procs[idx].state == ProcState::Runnable {
                return Some(idx);
            }
            d = d + 1;
        }
        None
    }

    /// One scheduling step. Returns the switch the platform performs, or
    /// `None` when no process is runnable, in which case nothing changes.
    pub fn run_next(&mut self) -> (r: Option<ContextSwitch>)
        requires
            old(self).inv(),
        ensures
            final(self).inv(),
            final(self)@ == old(self)@.step(),
            final(self).entries() == old(self).entries(),
            forall|i: int|
                0 <= i < PROCS_MAX ==> (#[trigger] final(self).slot(i)).ctx == old(self).slot(i).ctx
                    && final(self).slot(i).page_table == old(self).slot(i).page_table
                    && final(self).slot(i).pid == old(self).slot(i).pid
                    && final(self).slot(i).stack_top == old(self).slot(i).stack_top,
            forall|b: int| #[trigger] old(self).roots_below(b) ==> final(self).roots_below(b),
            r is None <==> old(self)@.next_runnable() is None,
            r matches Some(sw) ==> {
                &&& sw.prev == old(self)@.current
                &&& sw.next == final(self)@.current
                &&& sw.satp == SATP_SV32 | (old(self).slot(sw.next as int).page_table / PAGE_SIZE)
                &&& sw.sscratch == old(self).slot(sw.next as int).ctx.sp
            },
    {
        let ghost s = self@;
        let next = match self.find_runnable() {
            Some(j) => j,
            None => {
                return None;
            },
        };
        let prev = self.running_proc_idx;
        let ghost before = self.procs@;
        if self.procs[prev].state != ProcState::Unused {
            let mut p = self.procs[prev];
            p.state = ProcState::Runnable;
            self.procs.set(prev, p);
        }
        let mut q = self.procs[next];
        q.state = ProcState::Running;
        self.procs.set(next, q);
        self.running_proc_idx = next;
        proof {
            let demoted = if s.states[prev as int] != ProcState::Unused {
                s.states.update(prev as int, ProcState::Runnable)
            } else {
                s.states
            };
            assert(self@.states =~= demoted.update(next as int, ProcState::Running));
            lemma_step_wf(s);
            lemma_scan_runnable(s.states, s.current, 0);
            assert forall|b: int| #[trigger] old(self).roots_below(b) implies self.roots_below(b) by {
                assert forall|i: int|
                    0 <= i < PROCS_MAX && self@.states[i] != ProcState::Unused implies #[trigger] self.slot(
                    i,
                ).page_table < b by {
                    assert(old(self)@.states[i] != ProcState::Unused);
                    assert(old(self).slot(i).page_table == self.slot(i).page_table);
                }
            }
        }
        let satp = self.procs[next].satp();
        Some(ContextSwitch { prev, next, satp, sscratch: self.procs[next].ctx.sp })
    }

    /// The exit path of the current process: a slot other than the idle one
    /// becomes `Unused` and a step follows. Returns the switch of that step.
    pub fn t_return(&mut self) -> (r: Option<ContextSwitch>)
        requires
            old(self).inv(),
        ensures
            final(self).inv(),
            final(self)@ == old(self)@.exit_step(),
            final(self).entries() == old(self).entries(),
            forall|i: int|
                0 <= i < PROCS_MAX ==> (#[trigger] final(self).slot(i)).ctx == old(self).slot(i).ctx
                    && final(self).slot(i).page_table == old(self).slot(i).page_table
                    && final(self).slot(i).pid == old(self).slot(i).pid
                    && final(self).slot(i).stack_top == old(self).slot(i).stack_top,
            forall|b: int| #[trigger] old(self).roots_below(b) ==> final(self).roots_below(b),
            old(self)@.current == 0 ==> r is None && *final(self) == *old(self),
            old(self)@.current != 0 ==> (r matches Some(sw) && sw.prev == old(self)@.current && sw.next
                == final(self)@.current),
    {
        let cur = self.running_proc_idx;
        if cur != 0 {
            let ghost s = self@;
            let mut p = self.procs[cur];
            p.state = ProcState::Unused;
            self.procs.set(cur, p);
            proof {
                assert(self@.states =~= s.states.update(cur as int, ProcState::Unused));
                lemma_exit_wf(s);
                lemma_exit_has_next(s);
            }
            let ghost mid = self.procs@;
            let r = self.run_next_after_exit();
            proof {
                let t = SchedView { states: s.states.update(cur as int, ProcState::Unused), current: cur as int };
                lemma_scan_runnable(t.states, t.current, 0);
                assert forall|b: int| #[trigger] old(self).roots_below(b) implies self.roots_below(b) by {
                    assert forall|i: int|
                        0 <= i < PROCS_MAX && self@.states[i] != ProcState::Unused implies #[trigger] self.slot(
                        i,
                    ).page_table < b by {
                        assert(old(self)@.states[i] != ProcState::Unused);
                        assert(old(self).slot(i).page_table == self.slot(i).page_table);
                    }
                }
            }
            r
        } else {
            None
        }
    }

    /// A step taken right after the current slot became `Unused`.
    fn run_next_after_exit(&mut self) -> (r: Option<ContextSwitch>)
        requires
            old(self).procs@.len() == PROCS_MAX,
            forall|i: int| 0 <= i < PROCS_MAX ==> #[trigger] old(self).procs@[i].stack_top >= PROC_STACK_LEN,
            old(self)@.states.len() == PROCS_MAX,
            0 <= old(self)@.current < PROCS_MAX,
            old(self)@.current != 0,
            old(self)@.states[old(self)@.current] == ProcState::Unused,
            old(self)@.states[0] != ProcState::Unused,
            forall|i: int| 0 <= i < PROCS_MAX ==> old(self)@.states[i] != ProcState::Running,
            old(self)@.next_runnable() is Some,
        ensures
            final(self).inv(),
            final(self)@ == old(self)@.step(),
            final(self).entries() == old(self).entries(),
            forall|i: int|
                0 <= i < PROCS_MAX ==> (#[trigger] final(self).slot(i)).ctx == old(self).slot(i).ctx
                    && final(self).slot(i).page_table == old(self).slot(i).page_table
                    && final(self).slot(i).pid == old(self).slot(i).pid
                    && final(self).slot(i).stack_top == old(self).slot(i).stack_top,
            r matches Some(sw) && sw.prev == old(self)@.current && sw.next == final(self)@.current,
    {
        let ghost s = self@;
        let cur = self.running_proc_idx;
        let found = match self.find_runnable() {
            Some(j) => j,
            None => {
                proof {
                    assert(false);
                }
                return None;
            },
        };
        assert(s.next_runnable() == Some(found as int));
        let mut q = self.procs[found];
        q.state = ProcState::Running;
        self.procs.set(found, q);
        self.running_proc_idx = found;
        assert(self@.states =~= s.states.update(found as int, ProcState::Running));
        let satp = self.procs[found].satp();
        Some(ContextSwitch { prev: cur, next: found, satp, sscratch: self.procs[found].ctx.sp })
    }
}

proof fn lemma_scan_runnable(states: Seq<ProcState>, cur: int, d: nat)
    requires
        0 <= cur < states.len(),
    ensures
        scan(states, cur, d) matches Some(j) ==> 0 <= j < states.len() && states[j] == ProcState::Runnable,
    decreases states.len() - d,
{
    if d < states.len() {
        lemma_scan_runnable(states, cur, d + 1);
    }
}

/// A step keeps exactly one slot `Running`, and that slot current.
pub proof fn lemma_step_wf(s: SchedView)
    requires
        s.wf(),
    ensures
        s.step().wf(),
{
    lemma_scan_runnable(s.states, s.current, 0);
}

/// The exit path keeps exactly one slot `Running`, and that slot current.
pub proof fn lemma_exit_wf(s: SchedView)
    requires
        s.wf(),
    ensures
        s.exit_step().wf(),
{
    if s.current != 0 {
        let t = SchedView { states: s.states.update(s.current, ProcState::Unused), current: s.current };
        lemma_scan_runnable(t.states, t.current, 0);
        lemma_exit_has_next(s);
    }
}

/// After the current non-idle slot exits, some slot is runnable: the idle
/// slot at least.
proof fn lemma_exit_has_next(s: SchedView)
    requires
        s.wf(),
        s.current != 0,
    ensures
        scan(s.states.update(s.current, ProcState::Unused), s.current, 0) is Some,
{
    let t = s.states.update(s.current, ProcState::Unused);
    assert(t[0] == ProcState::Runnable);
    reveal_with_fuel(scan, 4);
}


/// The first `Unused` slot at index `i` or above.
pub open spec fn first_unused(states: Seq<ProcState>, i: nat) -> Option<int>
    decreases states.len() - i,
{
    if i >= states.len() {
        None
    } else if states[i as int] == ProcState::Unused {
        Some(i as int)
    } else {
        first_unused(states, i + 1)
    }
}

proof fn lemma_first_unused(states: Seq<ProcState>, i: nat)
    ensures
        first_unused(states, i) matches Some(j) ==> i <= j < states.len() && states[j]
            == ProcState::Unused,
    decreases states.len() - i,
{
    if i < states.len() {
        lemma_first_unused(states, i + 1);
    }
}

/// Address one past the end of the kernel stack of slot `i`.
pub open spec fn stack_top_of(stack_area: u32, i: int) -> int {
    stack_area + (i + 1) * PROC_STACK_LEN
}

impl Executer {
    /// The scheduler at boot: the idle process (slot 0) is `Running` in a
    /// fresh address space with the kernel identity-mapped, the other slots
    /// are `Unused`. Slot `i`'s kernel stack ends at
    /// `stack_area + (i + 1) * PROC_STACK_LEN`.
    pub fn new(mem: &mut PhysMemory, entries: TaskEntries, stack_area: u32) -> (r: Result<Executer, KernelError>)
        requires
            old(mem).inv(),
            stack_area + PROCS_MAX * PROC_STACK_LEN <= u32::MAX,
        ensures
            final(mem).inv(),
            final(mem)@.kernel_base == old(mem)@.kernel_base,
            final(mem)@.free_ram == old(mem)@.free_ram,
            final(mem)@.free_ram_end == old(mem)@.free_ram_end,
            r is Ok ==> old(mem)@.next() < final(mem)@.next() <= old(mem)@.next() + (1 + segments_spanned(
                old(mem)@.kernel_base,
                old(mem)@.free_ram_end,
            )) * PAGE_SIZE,
            r is Err ==> r == Err::<Executer, KernelError>(KernelError::OutOfMemory) || r == Err::<
                Executer,
                KernelError,
            >(KernelError::Unaligned),
            r == Err::<Executer, KernelError>(KernelError::Unaligned) ==> old(mem)@.kernel_base % 4096 != 0,
            r is Ok <==> (old(mem)@.kernel_base >= old(mem)@.free_ram_end || old(mem)@.kernel_base % 4096
                == 0) && old(mem)@.next() + (1 + segments_spanned(
                old(mem)@.kernel_base,
                old(mem)@.free_ram_end,
            )) * PAGE_SIZE <= old(mem)@.free_ram_end,
            old(mem)@.kernel_base < old(mem)@.free_ram_end && old(mem)@.kernel_base % 4096 != 0
                && old(mem)@.next() + PAGE_SIZE <= old(mem)@.free_ram_end ==> r == Err::<Executer, KernelError>(
                KernelError::Unaligned,
            ),
            r matches Ok(e) ==> {
                &&& e.inv()
                &&& e@.states == seq![ProcState::Running, ProcState::Unused, ProcState::Unused]
                &&& e@.current == 0
                &&& e.entries() == entries
                &&& forall|i: int|
                    0 <= i < PROCS_MAX ==> (#[trigger] e.slot(i)).pid == i && e.slot(i).stack_top
                        == stack_top_of(stack_area, i)
                &&& e.slot(0) == (Process {
                    pid: 0,
                    state: ProcState::Running,
                    page_table: old(mem)@.next() as u32,
                    stack_top: stack_top_of(stack_area, 0) as u32,
                    ctx: zero_context(),
                })
                &&& forall|i: int|
                    1 <= i < PROCS_MAX ==> #[trigger] e.slot(i) == (Process {
                        pid: i as usize,
                        state: ProcState::Unused,
                        page_table: 0,
                        stack_top: stack_top_of(stack_area, i) as u32,
                        ctx: zero_context(),
                    })
                &&& e.slot(0).page_table == old(mem)@.next()
                &&& e.slot(0).page_table % PAGE_SIZE == 0
                &&& e.roots_below(final(mem)@.next())
                &&& final(mem)@.table_wf(e.slot(0).page_table as int)
                &&& forall|va: u32| #[trigger]
                    in_kernel_range(old(mem)@, va) ==> final(mem)@.walk(e.slot(0).page_table as int, va)
                        == Some(leaf_pte(va, KERNEL_FLAGS))
            },
    {
        let root = match new_address_space(mem) {
            Ok(root) => root,
            Err(e) => {
                return Err(e);
            },
        };
        proof {
            old(mem).lemma_inv_wf();
            mem.lemma_inv_wf();
        }
        let mut idle = Process::new(0, stack_area + PROC_STACK_LEN);
        idle.state = ProcState::Running;
        idle.page_table = root;
        let mut procs: Vec<Process> = Vec::new();
        procs.push(idle);
        procs.push(Process::new(1, stack_area + 2 * PROC_STACK_LEN));
        procs.push(Process::new(2, stack_area + 3 * PROC_STACK_LEN));
        let e = Executer { procs, running_proc_idx: 0, entries };
        assert(e@.states =~= seq![ProcState::Running, ProcState::Unused, ProcState::Unused]);
        Ok(e)
    }

    fn find_unused(&self) -> (r: Option<usize>)
        requires
            self.procs@.len() == PROCS_MAX,
        ensures
            r matches Some(i) ==> first_unused(self@.states, 0) == Some(i as int) && i < PROCS_MAX,
            r is None ==> first_unused(self@.states, 0) is None,
    {
        let mut i: usize = 0;
        while i < self.procs.len()
            invariant
                self.procs@.len() == PROCS_MAX,
                i <= PROCS_MAX,
                first_unused(self@.states, 0) == first_unused(self@.states, i as nat),
            decreases PROCS_MAX - i,
        {
            assert(self@.states[i as int] == self.procs@[i as int].state);
            if self.procs[i].state == ProcState::Unused {
                return Some(i);
            }
            i = i + 1;
        }
        None
    }

    /// Creates a task for an application image in the first `Unused` slot:
    /// its context resumes at the user-mode entry trampoline with the recycle
    /// trampoline as return address and its stack pointer at the 8-byte
    /// aligned top of its kernel stack; its address space is fresh, with the
    /// kernel identity-mapped and the image mapped at `USER_BASE`. The slot
    /// becomes `Runnable`.
    ///
    /// Fails with `NoFreeSlot` when every slot is in use; the scheduler is
    /// unchanged whenever it fails.
    pub fn push(&mut self, mem: &mut PhysMemory, app: &[u8]) -> (r: Result<(), KernelError>)
        requires
            old(self).inv(),
            old(mem).inv(),
            app@.len() <= u32::MAX - USER_BASE,
        ensures
            final(mem).inv(),
            final(mem)@.kernel_base == old(mem)@.kernel_base,
            final(mem)@.free_ram == old(mem)@.free_ram,
            final(mem)@.free_ram_end == old(mem)@.free_ram_end,
            final(self).inv(),
            final(self).entries() == old(self).entries(),
            first_unused(old(self)@.states, 0) is None <==> r == Err::<(), KernelError>(
                KernelError::NoFreeSlot,
            ),
            r == Err::<(), KernelError>(KernelError::NoFreeSlot) ==> final(mem)@ == old(mem)@,
            r is Ok ==> old(mem)@.next() < final(mem)@.next() <= old(mem)@.next() + (1 + segments_spanned(
                old(mem)@.kernel_base,
                old(mem)@.free_ram_end,
            ) + app_pages(app@.len() as int) + segments_spanned(
                USER_BASE as int,
                USER_BASE + app@.len(),
            )) * PAGE_SIZE,
            r is Err ==> final(self)@ == old(self)@ && forall|i: int|
                0 <= i < PROCS_MAX ==> #[trigger] final(self).slot(i) == old(self).slot(i),
            r is Err && first_unused(old(self)@.states, 0) is Some ==> r == Err::<(), KernelError>(
                KernelError::OutOfMemory,
            ) || r == Err::<(), KernelError>(KernelError::Unaligned),
            r == Err::<(), KernelError>(KernelError::Unaligned) ==> old(mem)@.kernel_base % 4096 != 0,
            first_unused(old(self)@.states, 0) is Some && (old(mem)@.kernel_base >= old(mem)@.free_ram_end
                || old(mem)@.kernel_base % 4096 == 0) && old(mem)@.next() + (1 + segments_spanned(
                old(mem)@.kernel_base,
                old(mem)@.free_ram_end,
            ) + app_pages(app@.len() as int) + segments_spanned(
                USER_BASE as int,
                USER_BASE + app@.len(),
            )) * PAGE_SIZE <= old(mem)@.free_ram_end ==> r is Ok,
            r is Ok ==> {
                let i = first_unused(old(self)@.states, 0)->Some_0;
                let pt = final(self).slot(i).page_table as int;
                &&& final(self)@.states == old(self)@.states.update(i, ProcState::Runnable)
                &&& final(self)@.current == old(self)@.current
                &&& final(self).slot(i) == (Process {
                    state: ProcState::Runnable,
                    page_table: pt as u32,
                    ctx: task_context(old(self).entries(), old(self).slot(i).stack_top),
                    ..old(self).slot(i)
                })
                &&& forall|j: int|
                    0 <= j < PROCS_MAX && j != i ==> #[trigger] final(self).slot(j) == old(self).slot(j)
                &&& pt == old(mem)@.next()
                &&& pt % PAGE_SIZE as int == 0
                &&& old(self).roots_below(old(mem)@.next()) ==> {
                    &&& forall|j: int|
                        0 <= j < PROCS_MAX && j != i && final(self)@.states[j] != ProcState::Unused
                            ==> #[trigger] final(self).slot(j).page_table != pt
                    &&& final(self).roots_below(final(mem)@.next())
                }
                &&& final(mem)@.table_wf(pt)
                &&& forall|va: u32| #[trigger]
                    in_kernel_range(old(mem)@, va) && !(USER_BASE <= va < USER_BASE + app@.len())
                        ==> final(mem)@.walk(pt, va) == Some(leaf_pte(va, KERNEL_FLAGS))
                &&& forall|k: int|
                    0 <= k < app_pages(app@.len() as int) ==> #[trigger] maps_app_page(
                        final(mem)@,
                        pt,
                        app@,
                        k,
                    )
                &&& forall|f: int|
                    0 <= f < old(mem)@.frames.len() ==> #[trigger] final(mem)@.frames[f]
                        == old(mem)@.frames[f]
            },
    {
        let i = match self.find_unused() {
            Some(i) => i,
            None => {
                return Err(KernelError::NoFreeSlot);
            },
        };
        let ghost m0 = mem@;
        proof {
            mem.lemma_inv_wf();
        }
        let root = match new_address_space(mem) {
            Ok(root) => root,
            Err(e) => {
                return Err(e);
            },
        };
        let ghost m1 = mem@;
        match map_one_app(mem, root, app) {
            Ok(()) => {},
            Err(e) => {
                return Err(e);
            },
        }
        proof {
            let m2 = mem@;
            assert forall|va: u32| #[trigger]
                in_kernel_range(m0, va) && !(USER_BASE <= va < USER_BASE + app@.len()) implies m2.walk(
                root as int,
                va,
            ) == Some(leaf_pte(va, KERNEL_FLAGS)) by {
                assert(m2.walk(root as int, va) == m1.walk(root as int, va));
            }
            assert forall|f: int| 0 <= f < m0.frames.len() implies #[trigger] m2.frames[f] == m0.frames[f] by {
                assert(!m1.owns(root as int, f));
                assert(m1.frames[f] == m0.frames[f]);
            }
        }
        let mut p = self.procs[i];
        proof {
            lemma2_to64();
            assert(8usize == pow2(3));
        }
        let top = p.stack_top;
        let aligned = align_down(top as usize, 8) as u32;
        p.ctx = ProcContext::new();
        p.ctx.ra = self.entries.recycle;
        p.ctx.current_pc = self.entries.user_entry;
        p.ctx.sp = aligned - STACK_RESERVE;
        p.page_table = root;
        p.state = ProcState::Runnable;
        let ghost before = self@;
        let ghost before_slots = self.procs@;
        self.procs.set(i, p);
        proof {
            assert(self@.states =~= before.states.update(i as int, ProcState::Runnable));
            lemma_first_unused(before.states, 0);
            assert(before.states[i as int] == ProcState::Unused);
            mem.lemma_inv_wf();
            assert(mem@.in_arena(root as int));
            if old(self).roots_below(m0.next()) {
                assert forall|j: int|
                    0 <= j < PROCS_MAX && self@.states[j] != ProcState::Unused implies #[trigger] self.slot(
                    j,
                ).page_table < mem@.next() by {
                    if j != i {
                        assert(self.slot(j) == before_slots[j]);
                        assert(before_slots[j] == old(self).slot(j));
                        assert(self@.states[j] == before.states[j]);
                        assert(before.states[j] == old(self)@.states[j]);
                        assert(old(self).slot(j).page_table < m0.next());
                    } else {
                        assert(self.slot(j).page_table == root);
                    }
                }
                assert forall|j: int|
                    0 <= j < PROCS_MAX && j != i && self@.states[j] != ProcState::Unused implies #[trigger] self.slot(
                    j,
                ).page_table != root by {
                    assert(self.slot(j) == before_slots[j]);
                    assert(before_slots[j] == old(self).slot(j));
                    assert(self@.states[j] == before.states[j]);
                    assert(before.states[j] == old(self)@.states[j]);
                    assert(old(self).slot(j).page_table < m0.next());
                }
            }
        }
        Ok(())
    }
}


/// The single published scheduler, through which trap handling, which holds
/// no reference to it, yields and exits.
pub struct Runner {
    current: Option<Executer>,
}

impl Runner {
    pub closed spec fn is_published(&self) -> bool {
        self.current is Some
    }

    /// State of the published scheduler.
    pub closed spec fn sched(&self) -> SchedView {
        self.current->Some_0@
    }

    pub closed spec fn inv(&self) -> bool {
        self.current matches Some(e) ==> e.inv()
    }

    /// A handle with no scheduler published yet.
    pub fn new() -> (r: Runner)
        ensures
            r.inv(),
            !r.is_published(),
    {
        Runner { current: None }
    }

    pub fn is_running(&self) -> (r: bool)
        ensures
            r == self.is_published(),
    {
        self.current.is_some()
    }

    /// The published scheduler, if any.
    pub fn executer(&self) -> (r: Option<&Executer>)
        requires
            self.inv(),
        ensures
            r is Some == self.is_published(),
            r matches Some(e) ==> e.inv() && e@ == self.sched(),
    {
        self.current.as_ref()
    }
}

impl Executer {
    /// Publishes this scheduler as the one that runs; only one ever may.
    /// After that the platform repeats `run_next_proc` until it reports no
    /// runnable process. Fails with `AlreadyRunning`, leaving the published
    /// one in place, when a scheduler was published before.
    pub fn run(self, runner: &mut Runner) -> (r: Result<(), KernelError>)
        requires
            self.inv(),
            old(runner).inv(),
        ensures
            final(runner).inv(),
            old(runner).is_published() ==> r == Err::<(), KernelError>(KernelError::AlreadyRunning)
                && *final(runner) == *old(runner),
            !old(runner).is_published() ==> r is Ok && final(runner).is_published()
                && final(runner).sched() == self@,
    {
        if runner.current.is_some() {
            return Err(KernelError::AlreadyRunning);
        }
        runner.current = Some(self);
        Ok(())
    }
}

/// Yields the CPU to the next runnable process of the published scheduler.
/// Fails with `NotRunning`, changing nothing, when none is published.
pub fn run_next_proc(runner: &mut Runner) -> (r: Result<Option<ContextSwitch>, KernelError>)
    requires
        old(runner).inv(),
    ensures
        final(runner).inv(),
        final(runner).is_published() == old(runner).is_published(),
        !old(runner).is_published() ==> r == Err::<Option<ContextSwitch>, KernelError>(
            KernelError::NotRunning,
        ),
        old(runner).is_published() ==> (r matches Ok(sw) && final(runner).sched()
            == old(runner).sched().step() && (sw is None <==> old(runner).sched().next_runnable() is None)),
{
    match runner.current.take() {
        Some(mut e) => {
            let sw = e.run_next();
            runner.current = Some(e);
            Ok(sw)
        },
        None => Err(KernelError::NotRunning),
    }
}

/// The exit path of the current process of the published scheduler: it is
/// recycled, unless it is the idle process, and the next runnable process
/// runs. Fails with `NotRunning`, changing nothing, when none is published.
pub fn recycle_and_run_next(runner: &mut Runner) -> (r: Result<Option<ContextSwitch>, KernelError>)
    requires
        old(runner).inv(),
    ensures
        final(runner).inv(),
        final(runner).is_published() == old(runner).is_published(),
        !old(runner).is_published() ==> r == Err::<Option<ContextSwitch>, KernelError>(
            KernelError::NotRunning,
        ),
        old(runner).is_published() ==> (r matches Ok(sw) && final(runner).sched()
            == old(runner).sched().exit_step() && (sw is None <==> old(runner).sched().current == 0)),
{
    match runner.current.take() {
        Some(mut e) => {
            let sw = e.t_return();
            runner.current = Some(e);
            Ok(sw)
        },
        None => Err(KernelError::NotRunning),
    }
}


/// Number of `Runnable` slots among `states[i..]`.
pub open spec fn count_runnable(states: Seq<ProcState>, i: nat) -> nat
    decreases states.len() - i,
{
    if i >= states.len() {
        0
    } else {
        (if states[i as int] == ProcState::Runnable {
            1nat
        } else {
            0nat
        }) + count_runnable(states, i + 1)
    }
}

/// Distance from slot `cur` forward to slot `j`, wrapping around the table.
pub open spec fn cyclic_distance(cur: int, j: int) -> int {
    (j - cur + PROCS_MAX) % (PROCS_MAX as int)
}

/// Round-robin fairness: when `k` slots are `Runnable` and none exits, the
/// next `k` steps select each of them once, in ascending slot order from the
/// current slot, wrapping around the table.
#[verifier::spinoff_prover]
pub proof fn lemma_round_robin(s: SchedView)
    requires
        s.wf(),
    ensures
        forall|i: nat|
            i < count_runnable(s.states, 0) ==> s.states[#[trigger] s.steps(i + 1).current]
                == ProcState::Runnable,
        forall|i: nat, j: nat|
            i < j < count_runnable(s.states, 0) ==> cyclic_distance(
                s.current,
                #[trigger] s.steps(i + 1).current,
            ) < cyclic_distance(s.current, #[trigger] s.steps(j + 1).current),
{
    let c = s.current;
    let o1 = (c + 1) % 3;
    let o2 = (c + 2) % 3;
    let r1 = s.states[o1] == ProcState::Runnable;
    let r2 = s.states[o2] == ProcState::Runnable;
    let k = count_runnable(s.states, 0);
    assert(k == (if r1 { 1nat } else { 0nat }) + (if r2 { 1nat } else { 0nat })) by {
        reveal_with_fuel(count_runnable, 4);
        assert(c == 0 || c == 1 || c == 2);
    }
    let s1 = s.step();
    let s2 = s1.step();
    assert(s.steps(1) == s1) by {
        assert(s1.steps(0) == s1);
    }
    assert(s.steps(2) == s2) by {
        assert(s2.steps(0) == s2);
        assert(s1.steps(1) == s2);
    }
    if k >= 1 {
        let first = if r1 { o1 } else { o2 };
        assert(s.next_runnable() == Some(first)) by {
            reveal_with_fuel(scan, 4);
            assert(c == 0 || c == 1 || c == 2);
        }
        assert(s1.current == first);
        if k == 2 {
            assert(r1 && r2);
            assert(s1.states[o2] == ProcState::Runnable);
            assert(s1.states[c] == ProcState::Runnable);
            assert(s1.current == o1);
            assert(s1.states[o1] == ProcState::Running);
            assert((o1 + 1) % 3 == o2);
            assert(s1.next_runnable() == Some(o2)) by {
                reveal_with_fuel(scan, 4);
                assert(c == 0 || c == 1 || c == 2);
                assert(scan(s1.states, o1, 0) == scan(s1.states, o1, 1));
                assert(s1.states[(o1 + 1) % 3] == ProcState::Runnable);
            }
            assert(s2.current == o2);
            assert(cyclic_distance(c, o1) == 1 && cyclic_distance(c, o2) == 2);
        }
    }
    assert forall|i: nat| i < k implies s.states[#[trigger] s.steps(i + 1).current]
        == ProcState::Runnable by {
        assert(i == 0 || i == 1);
    }
    assert forall|i: nat, j: nat| i < j < k implies cyclic_distance(
        c,
        #[trigger] s.steps(i + 1).current,
    ) < cyclic_distance(c, #[trigger] s.steps(j + 1).current) by {
        assert(i == 0 && j == 1);
    }
}

proof fn lemma_unused_stays(t: SchedView, j: int, m: nat)
    requires
        t.wf(),
        0 <= j < PROCS_MAX,
        t.states[j] == ProcState::Unused,
    ensures
        t.steps(m).wf(),
        t.steps(m).states[j] == ProcState::Unused,
        t.steps(m).current != j,
    decreases m,
{
    lemma_scan_runnable(t.states, t.current, 0);
    lemma_step_wf(t);
    if m > 0 {
        lemma_unused_stays(t.step(), j, (m - 1) as nat);
    }
}

/// Exit finality: once the exit path has recycled the current slot, no later
/// step selects it again, and it stays `Unused`.
pub proof fn lemma_exit_final(s: SchedView, m: nat)
    requires
        s.wf(),
        s.current != 0,
    ensures
        s.exit_step().steps(m).current != s.current,
        s.exit_step().steps(m).states[s.current] == ProcState::Unused,
{
    let t = SchedView { states: s.states.update(s.current, ProcState::Unused), current: s.current };
    lemma_scan_runnable(t.states, t.current, 0);
    lemma_exit_wf(s);
    lemma_unused_stays(s.exit_step(), s.current, m);
}

} // verus!
