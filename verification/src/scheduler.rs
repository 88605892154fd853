//! The round-robin scheduler: process control blocks, the ready queue and
//! the cycle that runs the process at the head of the queue for one time
//! quantum.
//!
//! The idle process is created first, gets process id 0 and stays at the
//! front of the PCB list; it runs whenever the ready queue is empty and is
//! never queued. Every other live process is queued exactly once.
use vstd::prelude::*;
use std::collections::VecDeque;

use crate::cpu::{
    cpu_operation, events_view, reg, spec_run, CpuEvent, CpuEventView, CpuFault, RegisterFile,
};
use crate::memory::Memory;
use crate::print::{
    lemma_spools_independent, lemma_end_distinct, lemma_print_distinct, lemma_print_spooled, spec_end_spool, spec_print, spool_of, spool_pos,
    spools_distinct, spools_view, Spool, Spooler,
};
use crate::shell::{shell_load_prog, spec_load, LoadError};

verus! {

/// A process control block: the saved registers, the process id and the
/// name of the program file.
pub struct PCB {
    pub reg_state: RegisterFile,
    pub pid: u16,
    pub prog_fname: Vec<u8>,
}

/// The scheduler's state: the PCB list (the idle process first), the ready
/// queue of process ids, the next process id, and the print spooler.
pub struct Scheduler {
    pub pcblist: Vec<PCB>,
    pub readyq: VecDeque<u16>,
    pub pid_count: u16,
    pub printer: Spooler,
}

/// The scheduler's state as values.
pub struct SchedView {
    pub pcbs: Seq<PCB>,
    pub queue: Seq<u16>,
    pub pid_count: u16,
    pub spools: Seq<(u16, Seq<i32>)>,
}

impl View for Scheduler {
    type V = SchedView;

    open spec fn view(&self) -> SchedView {
        SchedView {
            pcbs: self.pcblist@,
            queue: self.readyq@,
            pid_count: self.pid_count,
            spools: self.printer@,
        }
    }
}

/// The registers a new process starts with: BASE at its load address, PC at
/// 0, IR0 and IR1 at -1 (so that it does not look exited), the rest 0.
pub open spec fn initial_pcb_regs(base: u16) -> RegisterFile {
    RegisterFile {
        pc: reg(0),
        ir0: reg(-1),
        ir1: reg(-1),
        ac: reg(0),
        mar: reg(0),
        mbr: reg(0),
        base: reg(base as int),
    }
}

pub open spec fn pids_distinct(pcbs: Seq<PCB>) -> bool {
    forall|i: int, j: int| 0 <= i < j < pcbs.len() ==> (#[trigger] pcbs[i]).pid != (#[trigger] pcbs[j]).pid
}

pub open spec fn queue_distinct(q: Seq<u16>) -> bool {
    forall|i: int, j: int| 0 <= i < j < q.len() ==> #[trigger] q[i] != #[trigger] q[j]
}

/// Process `pid` is a live process other than the idle one.
pub open spec fn is_live(pcbs: Seq<PCB>, pid: u16) -> bool {
    exists|i: int| 1 <= i < pcbs.len() && (#[trigger] pcbs[i]).pid == pid
}

/// The position of process `pid` in the PCB list.
pub open spec fn pcb_pos(pcbs: Seq<PCB>, pid: u16) -> int {
    choose|i: int| 0 <= i < pcbs.len() && (#[trigger] pcbs[i]).pid == pid
}

/// The scheduler's invariant: the idle process (id 0) heads the PCB list,
/// process ids are distinct and below the next id, and the ready queue holds
/// each live non-idle process exactly once and nothing else.
pub open spec fn sched_wf(s: SchedView) -> bool {
    &&& s.pcbs.len() >= 1
    &&& s.pcbs[0].pid == 0
    &&& pids_distinct(s.pcbs)
    &&& forall|i: int| 0 <= i < s.pcbs.len() ==> (#[trigger] s.pcbs[i]).pid < s.pid_count
    &&& queue_distinct(s.queue)
    &&& forall|k: int| 0 <= k < s.queue.len() ==> is_live(s.pcbs, #[trigger] s.queue[k])
    &&& forall|i: int| 1 <= i < s.pcbs.len() ==> s.queue.contains(#[trigger] s.pcbs[i].pid)
    &&& spools_distinct(s.spools)
}

impl Scheduler {
    pub open spec fn wf(&self) -> bool {
        sched_wf(self@)
    }
}

proof fn lemma_pcb_pos(pcbs: Seq<PCB>, pid: u16, i: int)
    requires
        pids_distinct(pcbs),
        0 <= i < pcbs.len(),
        pcbs[i].pid == pid,
    ensures
        pcb_pos(pcbs, pid) == i,
{
}

impl PCB {
    /// An empty control block: zero registers, process id 0, no file name.
    pub fn new() -> (p: PCB)
        ensures
            p.reg_state == crate::cpu::zero_registers(),
            p.pid == 0,
            p.prog_fname@ == Seq::<u8>::empty(),
    {
        PCB { reg_state: RegisterFile::new(), pid: 0, prog_fname: Vec::new() }
    }
}

/// An empty PCB list with room for one process per 60 words of memory (the
/// size assumed of an average program).
pub fn process_init_pcb_list(mem: &Memory) -> (l: Vec<PCB>)
    ensures
        l@ == Seq::<PCB>::empty(),
{
    let pcbl_size: usize = mem.size / 60;
    Vec::with_capacity(pcbl_size)
}

/// Creates the control block of a new process loaded at `base` from file
/// `fname`, gives it the next process id and appends it to the PCB list.
/// Returns its process id.
pub fn process_init_pcb(pcblist: &mut Vec<PCB>, pid_count: &mut u16, fname: Vec<u8>, base: u16) -> (pid: u16)
    requires
        *old(pid_count) < u16::MAX,
    ensures
        pid == *old(pid_count),
        *final(pid_count) == *old(pid_count) + 1,
        final(pcblist)@ == old(pcblist)@.push(
            PCB { reg_state: initial_pcb_regs(base), pid, prog_fname: fname },
        ),
{
    let mut proc = PCB::new();
    proc.reg_state.base.reg_val = base as i32;
    proc.reg_state.pc.reg_val = 0;
    proc.reg_state.ir0.reg_val = -1;
    proc.reg_state.ir1.reg_val = -1;
    proc.reg_state.ac.reg_val = 0;
    proc.reg_state.mar.reg_val = 0;
    proc.reg_state.mbr.reg_val = 0;
    let pid = *pid_count;
    proc.pid = pid;
    proc.prog_fname = fname;
    *pid_count = *pid_count + 1;
    pcblist.push(proc);
    pid
}

/// The position of process `pid` in the PCB list, searching from `from`.
fn find_pcb(pcblist: &Vec<PCB>, pid: u16, from: usize) -> (r: Option<usize>)
    ensures
        match r {
            Some(i) => from <= i < pcblist@.len() && pcblist@[i as int].pid == pid && forall|j: int|
                from <= j < i ==> (#[trigger] pcblist@[j]).pid != pid,
            None => forall|j: int| from <= j < pcblist@.len() ==> (#[trigger] pcblist@[j]).pid != pid,
        },
{
    let mut i = from;
    while i < pcblist.len()
        invariant
            from <= i,
            forall|j: int| from <= j < i ==> (#[trigger] pcblist@[j]).pid != pid,
        decreases pcblist@.len() - i,
    {
        if pcblist[i].pid == pid {
            return Some(i);
        }
        i = i + 1;
    }
    None
}

/// The position of the first control block, from position `from` on, whose
/// process id is `pid`.
pub open spec fn first_from(pcbs: Seq<PCB>, pid: u16, from: int) -> Option<int>
    decreases pcbs.len() - from,
{
    if from < 0 || from >= pcbs.len() {
        None
    } else if pcbs[from].pid == pid {
        Some(from)
    } else {
        first_from(pcbs, pid, from + 1)
    }
}

/// The PCB list without the first control block after position 0 whose
/// process id is `pid` (unchanged when there is none).
pub open spec fn spec_dispose(pcbs: Seq<PCB>, pid: u16) -> Seq<PCB> {
    match first_from(pcbs, pid, 1) {
        Some(i) => pcbs.remove(i),
        None => pcbs,
    }
}

/// The PCB list after disposing of the process ids `pids`, in order.
pub open spec fn spec_dispose_all(pcbs: Seq<PCB>, pids: Seq<u16>) -> Seq<PCB>
    decreases pids.len(),
{
    if pids.len() == 0 {
        pcbs
    } else {
        spec_dispose(spec_dispose_all(pcbs, pids.drop_last()), pids.last())
    }
}

proof fn lemma_first_from_found(pcbs: Seq<PCB>, pid: u16, from: int, j: int)
    requires
        0 <= from <= j < pcbs.len(),
        pcbs[j].pid == pid,
        forall|k: int| from <= k < j ==> (#[trigger] pcbs[k]).pid != pid,
    ensures
        first_from(pcbs, pid, from) == Some(j),
    decreases j - from,
{
    if from < j {
        lemma_first_from_found(pcbs, pid, from + 1, j);
    }
}

proof fn lemma_first_from_none(pcbs: Seq<PCB>, pid: u16, from: int)
    requires
        0 <= from,
        forall|k: int| from <= k < pcbs.len() ==> (#[trigger] pcbs[k]).pid != pid,
    ensures
        first_from(pcbs, pid, from) is None,
    decreases pcbs.len() - from,
{
    if from < pcbs.len() {
        lemma_first_from_none(pcbs, pid, from + 1);
    }
}

/// Removes from the PCB list the first control block after the idle
/// process's (position 0, never removed) whose process id is `pid`. Returns
/// whether there was one.
pub fn process_dispose_pcb(pcblist: &mut Vec<PCB>, pid: u16) -> (found: bool)
    ensures
        found ==> exists|i: int|
            1 <= i < old(pcblist)@.len() && (#[trigger] old(pcblist)@[i]).pid == pid && (forall|j: int|
                1 <= j < i ==> (#[trigger] old(pcblist)@[j]).pid != pid) && final(pcblist)@ == old(
                pcblist,
            )@.remove(i),
        !found ==> (forall|i: int| 1 <= i < old(pcblist)@.len() ==> (#[trigger] old(pcblist)@[i]).pid != pid)
            && final(pcblist)@ == old(pcblist)@,
        final(pcblist)@ == spec_dispose(old(pcblist)@, pid),
        found == first_from(old(pcblist)@, pid, 1) is Some,
{
    match find_pcb(pcblist, pid, 1) {
        Some(i) => {
            proof {
                lemma_first_from_found(pcblist@, pid, 1, i as int);
            }
            pcblist.remove(i);
            true
        },
        None => {
            proof {
                lemma_first_from_none(pcblist@, pid, 1);
            }
            false
        },
    }
}

/// An empty ready queue.
pub fn process_init_readyq() -> (q: VecDeque<u16>)
    ensures
        q@ == Seq::<u16>::empty(),
{
    VecDeque::new()
}

/// Queues process `pid` at the back of the ready queue.
pub fn process_insert_readyq(readyq: &mut VecDeque<u16>, pid: u16)
    ensures
        final(readyq)@ == old(readyq)@.push(pid),
{
    readyq.push_back(pid);
}

/// A context switch: hands back the CPU's registers, to be saved in the
/// control block of the outgoing process, and then loads `proc_in_regs`, if
/// given.
pub fn process_context_switch(regs: &mut RegisterFile, proc_in_regs: Option<&RegisterFile>) -> (saved: RegisterFile)
    ensures
        saved == *old(regs),
        *final(regs) == match proc_in_regs {
            Some(r) => *r,
            None => *old(regs),
        },
{
    let saved = *regs;
    match proc_in_regs {
        Some(r) => {
            *regs = *r;
        },
        None => {},
    }
    saved
}


/// The name of the idle program's file, `prog_idle`.
pub open spec fn idle_name() -> Seq<u8> {
    seq![112u8, 114, 111, 103, 95, 105, 100, 108, 101]
}

/// Loads the idle program (when its text could be read) at address 0 and
/// creates its control block. Returns its process id.
pub fn process_init_idle(
    mem: &mut Memory,
    pcblist: &mut Vec<PCB>,
    pid_count: &mut u16,
    idle_prog: Option<&[u8]>,
) -> (r: Result<u16, LoadError>)
    requires
        old(mem).wf(),
        *old(pid_count) < u16::MAX,
    ensures
        final(mem).wf(),
        final(mem).size == old(mem).size,
        match idle_prog {
            Some(p) => match spec_load(p@, old(mem).arr@, 0) {
                Ok(m) => final(mem).arr@ == m,
                Err(e) => r == Err::<u16, LoadError>(e) && final(mem).arr@ == old(mem).arr@
                    && *final(pid_count) == *old(pid_count) && final(pcblist)@ == old(pcblist)@,
            },
            None => final(mem).arr@ == old(mem).arr@,
        },
        r is Ok ==> {
            &&& r == Ok::<u16, LoadError>(*old(pid_count))
            &&& *final(pid_count) == *old(pid_count) + 1
            &&& final(pcblist)@.len() == old(pcblist)@.len() + 1
            &&& final(pcblist)@.drop_last() == old(pcblist)@
            &&& final(pcblist)@.last().reg_state == initial_pcb_regs(0)
            &&& final(pcblist)@.last().pid == *old(pid_count)
            &&& final(pcblist)@.last().prog_fname@ == idle_name()
        },
        idle_prog is None ==> r is Ok,
        (idle_prog is Some && spec_load(idle_prog->0@, old(mem).arr@, 0) is Ok) ==> r is Ok,
{
    let base_idle: u16 = 0;
    match idle_prog {
        Some(p) => {
            shell_load_prog(mem, p, base_idle as usize)?;
        },
        None => {},
    }
    let name: Vec<u8> = vec![112u8, 114, 111, 103, 95, 105, 100, 108, 101];
    assert(name@ =~= idle_name());
    let pid = process_init_pcb(pcblist, pid_count, name, base_idle);
    assert(final(pcblist)@.drop_last() =~= old(pcblist)@);
    Ok(pid)
}

/// A booted scheduler: the idle program loaded at address 0 (when its text
/// could be read), the idle process alone in the PCB list with id 0, an
/// empty ready queue and no spool.
pub fn scheduler_init(mem: &mut Memory, idle_prog: Option<&[u8]>) -> (r: Result<Scheduler, LoadError>)
    requires
        old(mem).wf(),
    ensures
        final(mem).wf(),
        final(mem).size == old(mem).size,
        match idle_prog {
            Some(p) => match spec_load(p@, old(mem).arr@, 0) {
                Ok(m) => r is Ok && final(mem).arr@ == m,
                Err(e) => r matches Err(e2) && e2 == e && final(mem).arr@ == old(mem).arr@,
            },
            None => r is Ok && final(mem).arr@ == old(mem).arr@,
        },
        r matches Ok(s) ==> {
            &&& s.wf()
            &&& s@.pcbs.len() == 1
            &&& s@.pcbs[0].pid == 0
            &&& s@.pcbs[0].reg_state == initial_pcb_regs(0)
            &&& s@.pcbs[0].prog_fname@ == idle_name()
            &&& s@.queue == Seq::<u16>::empty()
            &&& s@.pid_count == 1
            &&& s@.spools == Seq::<(u16, Seq<i32>)>::empty()
        },
{
    let mut pid_count: u16 = 0;
    let mut pcblist = process_init_pcb_list(mem);
    let readyq = process_init_readyq();
    process_init_idle(mem, &mut pcblist, &mut pid_count, idle_prog)?;
    let s = Scheduler { pcblist, readyq, pid_count, printer: Spooler::new() };
    assert(s@.pcbs[0] == pcblist@.last());
    Ok(s)
}

/// Submits a new process loaded at `base` from file `fname`: creates its
/// control block, opens its print spool and queues it at the back of the
/// ready queue. Returns its process id.
pub fn process_submit(sched: &mut Scheduler, p_fname: Vec<u8>, p_base: u16) -> (pid: u16)
    requires
        old(sched).wf(),
        old(sched).pid_count < u16::MAX,
    ensures
        final(sched).wf(),
        pid == old(sched).pid_count,
        final(sched)@.pid_count == old(sched)@.pid_count + 1,
        final(sched)@.pcbs == old(sched)@.pcbs.push(
            PCB { reg_state: initial_pcb_regs(p_base), pid, prog_fname: p_fname },
        ),
        final(sched)@.queue == old(sched)@.queue.push(pid),
        final(sched)@.spools == crate::print::spec_init_spool(old(sched)@.spools, pid),
{
    let pid = process_init_pcb(&mut sched.pcblist, &mut sched.pid_count, p_fname, p_base);
    sched.printer.print_init_spool(pid);
    process_insert_readyq(&mut sched.readyq, pid);
    proof {
        let s0 = old(sched)@;
        let s1 = sched@;
        assert forall|k: int| 0 <= k < s1.queue.len() implies is_live(s1.pcbs, #[trigger] s1.queue[k]) by {
            if k < s0.queue.len() {
                let i = choose|i: int| 1 <= i < s0.pcbs.len() && (#[trigger] s0.pcbs[i]).pid == s0.queue[k];
                assert(s1.pcbs[i] == s0.pcbs[i]);
            } else {
                assert(s1.pcbs[s0.pcbs.len() as int].pid == pid);
            }
        }
        assert forall|i: int| 1 <= i < s1.pcbs.len() implies s1.queue.contains(#[trigger] s1.pcbs[i].pid) by {
            if i < s0.pcbs.len() {
                assert(s1.pcbs[i] == s0.pcbs[i]);
                let k = choose|k: int| 0 <= k < s0.queue.len() && s0.queue[k] == s0.pcbs[i].pid;
                assert(s1.queue[k] == s0.queue[k]);
            } else {
                assert(s1.queue[s0.queue.len() as int] == pid);
            }
        }
        assert forall|i: int, j: int| 0 <= i < j < s1.queue.len() implies #[trigger] s1.queue[i] != #[trigger] s1.queue[j] by {
            if j == s0.queue.len() {
                let t = choose|t: int| 1 <= t < s0.pcbs.len() && (#[trigger] s0.pcbs[t]).pid == s0.queue[i];
            }
        }
    }
    pid
}

/// The scheduler after the process at the head of the queue (position `cur`
/// in the PCB list) leaves it and is removed: the invariant still holds.
proof fn lemma_remove_head(s: SchedView, cur: int, sp: Seq<(u16, Seq<i32>)>)
    requires
        sched_wf(s),
        s.queue.len() > 0,
        cur == pcb_pos(s.pcbs, s.queue[0]),
        spools_distinct(sp),
    ensures
        1 <= cur < s.pcbs.len(),
        s.pcbs[cur].pid == s.queue[0],
        sched_wf(SchedView { pcbs: s.pcbs.remove(cur), queue: s.queue.skip(1), pid_count: s.pid_count, spools: sp }),
{
    let p = s.queue[0];
    assert(is_live(s.pcbs, s.queue[0]));
    let i0 = choose|i: int| 1 <= i < s.pcbs.len() && (#[trigger] s.pcbs[i]).pid == p;
    lemma_pcb_pos(s.pcbs, p, i0);
    let n = SchedView { pcbs: s.pcbs.remove(cur), queue: s.queue.skip(1), pid_count: s.pid_count, spools: sp };
    assert(n.pcbs[0] == s.pcbs[0]);
    assert forall|i: int, j: int| 0 <= i < j < n.pcbs.len() implies (#[trigger] n.pcbs[i]).pid != (#[trigger] n.pcbs[j]).pid by {
        let a = if i < cur { i } else { i + 1 };
        let b = if j < cur { j } else { j + 1 };
        assert(n.pcbs[i] == s.pcbs[a]);
        assert(n.pcbs[j] == s.pcbs[b]);
    }
    assert forall|i: int| 0 <= i < n.pcbs.len() implies (#[trigger] n.pcbs[i]).pid < n.pid_count by {
        let a = if i < cur { i } else { i + 1 };
        assert(n.pcbs[i] == s.pcbs[a]);
    }
    assert forall|i: int, j: int| 0 <= i < j < n.queue.len() implies #[trigger] n.queue[i] != #[trigger] n.queue[j] by {
        assert(n.queue[i] == s.queue[i + 1]);
        assert(n.queue[j] == s.queue[j + 1]);
    }
    assert forall|k: int| 0 <= k < n.queue.len() implies is_live(n.pcbs, #[trigger] n.queue[k]) by {
        let q = s.queue[k + 1];
        assert(n.queue[k] == q);
        assert(q != p);
        assert(is_live(s.pcbs, s.queue[k + 1]));
        let i = choose|i: int| 1 <= i < s.pcbs.len() && (#[trigger] s.pcbs[i]).pid == q;
        assert(i != cur);
        if i < cur {
            assert(n.pcbs[i] == s.pcbs[i]);
        } else {
            assert(n.pcbs[i - 1] == s.pcbs[i]);
        }
    }
    assert forall|i: int| 1 <= i < n.pcbs.len() implies n.queue.contains(#[trigger] n.pcbs[i].pid) by {
        let a = if i < cur { i } else { i + 1 };
        assert(n.pcbs[i] == s.pcbs[a]);
        assert(a != cur);
        let x = s.pcbs[a].pid;
        assert(s.queue.contains(s.pcbs[a].pid));
        let k = choose|k: int| 0 <= k < s.queue.len() && s.queue[k] == x;
        assert(x != p);
        assert(k != 0);
        assert(n.queue[k - 1] == x);
    }
}

/// A process leaves: when `pexit` (it ended by itself) its spool is closed
/// and handed back, and its control block is removed from the PCB list.
/// Returns whether there was such a control block, and the spool.
pub fn process_exit(sched: &mut Scheduler, pid: u16, pexit: bool) -> (r: (bool, Option<Vec<i32>>))
    requires
        old(sched).printer.wf(),
    ensures
        final(sched).printer.wf(),
        final(sched)@.queue == old(sched)@.queue,
        final(sched)@.pid_count == old(sched)@.pid_count,
        pexit ==> final(sched)@.spools == spec_end_spool(old(sched)@.spools, pid) && match r.1 {
            Some(v) => spool_of(old(sched)@.spools, pid) == Some(v@),
            None => spool_of(old(sched)@.spools, pid) is None,
        },
        !pexit ==> final(sched)@.spools == old(sched)@.spools && r.1 is None,
        r.0 ==> exists|i: int|
            1 <= i < old(sched)@.pcbs.len() && (#[trigger] old(sched)@.pcbs[i]).pid == pid && (forall|j: int|
                1 <= j < i ==> (#[trigger] old(sched)@.pcbs[j]).pid != pid) && final(sched)@.pcbs == old(
                sched,
            )@.pcbs.remove(i),
        !r.0 ==> (forall|i: int| 1 <= i < old(sched)@.pcbs.len() ==> (#[trigger] old(sched)@.pcbs[i]).pid != pid)
            && final(sched)@.pcbs == old(sched)@.pcbs,
        final(sched)@.pcbs == spec_dispose(old(sched)@.pcbs, pid),
{
    let spool = if pexit {
        sched.printer.print_end_spool(pid)
    } else {
        None
    };
    let ghost before = sched.pcblist@;
    let found = process_dispose_pcb(&mut sched.pcblist, pid);
    proof {
        assert(before == old(sched)@.pcbs);
        if found {
            let i = choose|i: int|
                1 <= i < before.len() && (#[trigger] before[i]).pid == pid && (forall|j: int|
                    1 <= j < i ==> (#[trigger] before[j]).pid != pid) && sched.pcblist@ == before.remove(i);
            assert(sched@.pcbs == old(sched)@.pcbs.remove(i));
        }
    }
    (found, spool)
}

/// Shuts the scheduler down: every queued process, front to back, leaves
/// (its first control block after the idle one with its id is removed, and
/// its spool is not printed), and then every spool still open is closed.
/// Control blocks of processes that are not queued stay. Returns the process
/// ids that left, in order, and the spools. When the scheduler's invariant
/// held, only the idle process remains.
pub fn scheduler_terminate(sched: &mut Scheduler) -> (r: (Vec<u16>, Vec<Spool>))
    requires
        old(sched).printer.wf(),
    ensures
        final(sched).printer.wf(),
        r.0@ == old(sched)@.queue,
        spools_view(r.1@) == old(sched)@.spools,
        final(sched)@.pcbs == spec_dispose_all(old(sched)@.pcbs, old(sched)@.queue),
        final(sched)@.queue == Seq::<u16>::empty(),
        final(sched)@.pid_count == old(sched)@.pid_count,
        final(sched)@.spools == Seq::<(u16, Seq<i32>)>::empty(),
        old(sched).wf() ==> final(sched).wf() && final(sched)@.pcbs == seq![old(sched)@.pcbs[0]],
{
    let mut exited: Vec<u16> = Vec::new();
    proof {
        assert(old(sched)@.queue =~= exited@ + sched@.queue);
    }
    while sched.readyq.len() > 0
        invariant
            sched.printer.wf(),
            old(sched)@.queue == exited@ + sched@.queue,
            sched@.pcbs == spec_dispose_all(old(sched)@.pcbs, exited@),
            sched@.pid_count == old(sched)@.pid_count,
            sched@.spools == old(sched)@.spools,
            old(sched).wf() ==> sched.wf() && sched@.pcbs[0] == old(sched)@.pcbs[0],
        decreases sched@.queue.len(),
    {
        let ghost s0 = sched@;
        let ghost e0 = exited@;
        let pid = match sched.readyq.pop_front() {
            Some(p) => p,
            None => {
                proof {
                    assert(false);
                }
                0
            },
        };
        let (found, _) = process_exit(sched, pid, false);
        proof {
            if sched_wf(old(sched)@) {
                lemma_remove_head(s0, pcb_pos(s0.pcbs, pid), s0.spools);
                let cur = pcb_pos(s0.pcbs, pid);
                if !found {
                    assert(s0.pcbs[cur].pid == pid);
                } else {
                    let i = choose|i: int|
                        1 <= i < s0.pcbs.len() && (#[trigger] s0.pcbs[i]).pid == pid && (forall|j: int|
                            1 <= j < i ==> (#[trigger] s0.pcbs[j]).pid != pid) && sched@.pcbs == s0.pcbs.remove(i);
                    lemma_pcb_pos(s0.pcbs, pid, i);
                }
                assert(sched@.queue == s0.queue.skip(1));
            }
        }
        exited.push(pid);
        proof {
            assert(old(sched)@.queue =~= exited@ + sched@.queue);
            assert(exited@.drop_last() =~= e0);
        }
    }
    let flushed = sched.printer.print_terminate();
    proof {
        let s = sched@;
        assert(old(sched)@.queue =~= exited@);
        if sched_wf(old(sched)@) {
            if s.pcbs.len() > 1 {
                assert(s.queue.contains(s.pcbs[1].pid));
            }
            assert(s.pcbs =~= seq![old(sched)@.pcbs[0]]);
        }
    }
    (exited, flushed)
}

/// Where the events of a run go: a print by process `pid` goes to its spool
/// when it has one; every other event, in order, is handed on.
pub open spec fn spec_route(sp: Seq<(u16, Seq<i32>)>, pid: u16, evs: Seq<CpuEventView>) -> (Seq<(u16, Seq<i32>)>, Seq<CpuEventView>)
    decreases evs.len(),
{
    if evs.len() == 0 {
        (sp, Seq::empty())
    } else {
        let r = spec_route(sp, pid, evs.drop_last());
        match evs.last() {
            CpuEventView::Print(v) => if spool_pos(r.0, pid) is Some {
                (spec_print(r.0, pid, v), r.1)
            } else {
                (r.0, r.1.push(evs.last()))
            },
            _ => (r.0, r.1.push(evs.last())),
        }
    }
}

/// The values that the print events among `evs` print, in order.
pub open spec fn print_values(evs: Seq<CpuEventView>) -> Seq<i32>
    decreases evs.len(),
{
    if evs.len() == 0 {
        Seq::empty()
    } else {
        match evs.last() {
            CpuEventView::Print(v) => print_values(evs.drop_last()).push(v),
            _ => print_values(evs.drop_last()),
        }
    }
}

/// The events among `evs` that are not prints, in order.
pub open spec fn non_prints(evs: Seq<CpuEventView>) -> Seq<CpuEventView>
    decreases evs.len(),
{
    if evs.len() == 0 {
        Seq::empty()
    } else {
        match evs.last() {
            CpuEventView::Print(_) => non_prints(evs.drop_last()),
            _ => non_prints(evs.drop_last()).push(evs.last()),
        }
    }
}

/// For a process with an open spool, everything it prints is added to its
/// spool, in order, and every other event is handed on, in order; for a
/// process without one, every event is handed on and no spool changes.
pub proof fn lemma_route(sp: Seq<(u16, Seq<i32>)>, pid: u16, evs: Seq<CpuEventView>)
    requires
        spools_distinct(sp),
    ensures
        spool_pos(sp, pid) is Some ==> {
            &&& spool_pos(spec_route(sp, pid, evs).0, pid) is Some
            &&& spool_of(spec_route(sp, pid, evs).0, pid) == Some(spool_of(sp, pid)->0 + print_values(evs))
            &&& spec_route(sp, pid, evs).1 == non_prints(evs)
        },
        spool_pos(sp, pid) is None ==> spec_route(sp, pid, evs) == (sp, evs),
    decreases evs.len(),
{
    if evs.len() == 0 {
        assert(spool_of(sp, pid)->0 + Seq::<i32>::empty() =~= spool_of(sp, pid)->0);
        assert(evs =~= Seq::<CpuEventView>::empty());
    } else {
        lemma_route(sp, pid, evs.drop_last());
        lemma_route_distinct(sp, pid, evs.drop_last());
        let r = spec_route(sp, pid, evs.drop_last());
        if spool_pos(sp, pid) is Some {
            match evs.last() {
                CpuEventView::Print(v) => {
                    lemma_print_spooled(r.0, pid, v);
                    assert(spool_of(sp, pid)->0 + print_values(evs.drop_last()).push(v)
                        =~= (spool_of(sp, pid)->0 + print_values(evs.drop_last())).push(v));
                },
                _ => {},
            }
        } else {
            assert(evs.drop_last().push(evs.last()) =~= evs);
        }
    }
}

proof fn lemma_route_distinct(sp: Seq<(u16, Seq<i32>)>, pid: u16, evs: Seq<CpuEventView>)
    requires
        spools_distinct(sp),
    ensures
        spools_distinct(spec_route(sp, pid, evs).0),
    decreases evs.len(),
{
    if evs.len() > 0 {
        lemma_route_distinct(sp, pid, evs.drop_last());
        let r = spec_route(sp, pid, evs.drop_last());
        match evs.last() {
            CpuEventView::Print(v) => {
                lemma_print_distinct(r.0, pid, v);
            },
            _ => {},
        }
    }
}

/// Sends the prints of process `pid` to its spool, when it has one, and
/// hands back every other event in order.
fn route_events(printer: &mut Spooler, pid: u16, events: Vec<CpuEvent>) -> (passed: Vec<CpuEvent>)
    requires
        old(printer).wf(),
    ensures
        final(printer).wf(),
        (final(printer)@, events_view(passed@)) == spec_route(old(printer)@, pid, events_view(events@)),
{
    let ghost ev0 = events_view(events@);
    let ghost mut k: int = 0;
    let mut events = events;
    let mut passed: Vec<CpuEvent> = Vec::new();
    proof {
        assert(ev0.take(0) =~= Seq::<CpuEventView>::empty());
        assert(events_view(passed@) =~= Seq::<CpuEventView>::empty());
        assert(ev0.skip(0) =~= ev0);
    }
    while events.len() > 0
        invariant
            printer.wf(),
            0 <= k <= ev0.len(),
            events_view(events@) == ev0.skip(k),
            (printer@, events_view(passed@)) == spec_route(old(printer)@, pid, ev0.take(k)),
        decreases events@.len(),
    {
        let ghost eb = events@;
        proof {
            assert(events_view(eb).len() == eb.len());
            assert(events_view(eb)[0] == eb[0]@);
            assert(ev0.skip(k)[0] == ev0[k]);
        }
        let ev = events.remove(0);
        proof {
            assert(ev0[k] == ev@);
            assert forall|i: int| 0 <= i < events@.len() implies events_view(events@)[i] == ev0.skip(k + 1)[i] by {
                assert(events@[i] == eb[i + 1]);
                assert(events_view(eb)[i + 1] == ev0.skip(k)[i + 1]);
            }
            assert(events_view(events@) =~= ev0.skip(k + 1));
            assert(ev0.take(k + 1).drop_last() =~= ev0.take(k));
            assert(ev0.take(k + 1).last() == ev@);
        }
        let ghost before = events_view(passed@);
        match ev {
            CpuEvent::Print(v) => {
                if !printer.print_print(pid, v) {
                    passed.push(CpuEvent::Print(v));
                    assert(events_view(passed@) =~= before.push(CpuEventView::Print(v)));
                }
            },
            other => {
                passed.push(other);
                assert(events_view(passed@) =~= before.push(other@));
            },
        }
        proof {
            k = k + 1;
        }
    }
    proof {
        assert(ev0.take(k) =~= ev0);
    }
    passed
}

/// How a quantum ended.
pub enum StepOutcome {
    /// The idle process ran out its quantum.
    Idle,
    /// The running process `pid_out` ran out its quantum, went to the back of
    /// the queue with its registers saved, and `pid_in`, now at the front,
    /// runs next; `pc_in` and `pc_out` are their saved program counters.
    Switched { pid_in: u16, pid_out: u16, pc_in: i32, pc_out: i32 },
    /// The running process exited: it left the queue and the PCB list
    /// (`disposed` says whether its control block was found), and its spool
    /// was closed and handed back.
    Exited { pid: u16, disposed: bool, spool: Option<Vec<i32>> },
}

/// What a `StepOutcome` holds, with the spool as a sequence.
pub enum StepOutcomeView {
    Idle,
    Switched { pid_in: u16, pid_out: u16, pc_in: i32, pc_out: i32 },
    Exited { pid: u16, disposed: bool, spool: Option<Seq<i32>> },
}

impl View for StepOutcome {
    type V = StepOutcomeView;

    open spec fn view(&self) -> StepOutcomeView {
        match self {
            StepOutcome::Idle => StepOutcomeView::Idle,
            StepOutcome::Switched { pid_in, pid_out, pc_in, pc_out } => StepOutcomeView::Switched {
                pid_in: *pid_in,
                pid_out: *pid_out,
                pc_in: *pc_in,
                pc_out: *pc_out,
            },
            StepOutcome::Exited { pid, disposed, spool } => StepOutcomeView::Exited {
                pid: *pid,
                disposed: *disposed,
                spool: match spool {
                    Some(v) => Some(v@),
                    None => None,
                },
            },
        }
    }
}

/// Why a quantum could not be completed.
#[derive(Clone, Copy, PartialEq, Eq, Structural, Debug)]
pub enum SchedulerFault {
    /// The running program faulted.
    Cpu(CpuFault),
    /// The idle program exited, and there is no process to account it to.
    IdleExited,
}

/// What one quantum did: the process that ran (`None` for the idle
/// process), the events it produced that its spool did not take, in order,
/// and how the quantum ended.
pub struct StepReport {
    pub pid: Option<u16>,
    pub events: Vec<CpuEvent>,
    pub outcome: Result<StepOutcome, SchedulerFault>,
}

/// The state after one quantum, and how it ended.
pub struct StepView {
    pub result: Result<StepOutcomeView, SchedulerFault>,
    pub sched: SchedView,
    pub regs: RegisterFile,
    pub mem: Seq<i32>,
    pub events: Seq<CpuEventView>,
}

/// One round of the round-robin scheduler. The process at the head of the
/// ready queue (the idle process when the queue is empty) has its saved
/// registers loaded and runs for at most `tq` cycles; its prints go to its
/// spool. When the quantum expires it goes to the back of the queue with its
/// registers saved, and the registers of the new head are loaded. When it
/// exits it leaves the queue and the PCB list and its spool is closed. The
/// idle process's registers are never saved.
pub open spec fn spec_execute_step(s: SchedView, mem: Seq<i32>, tq: nat) -> StepView {
    let q = s.queue;
    let cur = if q.len() == 0 { 0 } else { pcb_pos(s.pcbs, q[0]) };
    let pid = s.pcbs[cur].pid;
    let run = spec_run(s.pcbs[cur].reg_state, mem, tq);
    let routed = spec_route(s.spools, pid, run.events);
    let s1 = SchedView { spools: routed.0, ..s };
    match run.outcome {
        Err(f) => StepView {
            result: Err(SchedulerFault::Cpu(f)),
            sched: s1,
            regs: run.regs,
            mem: run.mem,
            events: routed.1,
        },
        Ok(st) => if q.len() == 0 {
            StepView {
                result: if st == 1 { Err(SchedulerFault::IdleExited) } else { Ok(StepOutcomeView::Idle) },
                sched: s1,
                regs: run.regs,
                mem: run.mem,
                events: routed.1,
            }
        } else if st == 1 {
            StepView {
                result: Ok(StepOutcomeView::Exited { pid, disposed: true, spool: spool_of(routed.0, pid) }),
                sched: SchedView {
                    pcbs: s.pcbs.remove(cur),
                    queue: q.skip(1),
                    pid_count: s.pid_count,
                    spools: spec_end_spool(routed.0, pid),
                },
                regs: run.regs,
                mem: run.mem,
                events: routed.1,
            }
        } else {
            let q2 = q.skip(1).push(pid);
            let pin = q2[0];
            let in_regs = s.pcbs[pcb_pos(s.pcbs, pin)].reg_state;
            StepView {
                result: Ok(StepOutcomeView::Switched {
                    pid_in: pin,
                    pid_out: pid,
                    pc_in: in_regs.pc.reg_val,
                    pc_out: run.regs.pc.reg_val,
                }),
                sched: SchedView {
                    pcbs: s.pcbs.update(cur, PCB { reg_state: run.regs, ..s.pcbs[cur] }),
                    queue: q2,
                    ..s1
                },
                regs: in_regs,
                mem: run.mem,
                events: routed.1,
            }
        },
    }
}

/// Rotating the head of the queue to its back, and saving the registers of
/// a process, keep the invariant.
proof fn lemma_rotate(s: SchedView, cur: int, r: RegisterFile)
    requires
        sched_wf(s),
        s.queue.len() > 0,
        cur == pcb_pos(s.pcbs, s.queue[0]),
    ensures
        1 <= cur < s.pcbs.len(),
        sched_wf(SchedView {
            pcbs: s.pcbs.update(cur, PCB { reg_state: r, ..s.pcbs[cur] }),
            queue: s.queue.skip(1).push(s.queue[0]),
            ..s
        }),
{
    let p = s.queue[0];
    assert(is_live(s.pcbs, s.queue[0]));
    let i0 = choose|i: int| 1 <= i < s.pcbs.len() && (#[trigger] s.pcbs[i]).pid == p;
    lemma_pcb_pos(s.pcbs, p, i0);
    let q = s.queue;
    let n = SchedView {
        pcbs: s.pcbs.update(cur, PCB { reg_state: r, ..s.pcbs[cur] }),
        queue: q.skip(1).push(p),
        ..s
    };
    assert forall|i: int| 0 <= i < n.pcbs.len() implies (#[trigger] n.pcbs[i]).pid == s.pcbs[i].pid by {}
    assert(n.pcbs[0].pid == 0);
    assert forall|i: int, j: int| 0 <= i < j < n.pcbs.len() implies (#[trigger] n.pcbs[i]).pid != (#[trigger] n.pcbs[j]).pid by {
        assert(n.pcbs[i].pid == s.pcbs[i].pid);
        assert(n.pcbs[j].pid == s.pcbs[j].pid);
    }
    assert forall|i: int| 0 <= i < n.pcbs.len() implies (#[trigger] n.pcbs[i]).pid < n.pid_count by {
        assert(n.pcbs[i].pid == s.pcbs[i].pid);
    }
    assert forall|k: int| 0 <= k < n.queue.len() implies #[trigger] n.queue[k] == if k + 1 < q.len() { q[k + 1] } else { q[0] } by {}
    assert forall|i: int, j: int| 0 <= i < j < n.queue.len() implies #[trigger] n.queue[i] != #[trigger] n.queue[j] by {
        if j + 1 < q.len() {
            assert(n.queue[i] == q[i + 1]);
            assert(n.queue[j] == q[j + 1]);
        } else {
            assert(n.queue[i] == q[i + 1]);
            assert(n.queue[j] == q[0]);
        }
    }
    assert forall|k: int| 0 <= k < n.queue.len() implies is_live(n.pcbs, #[trigger] n.queue[k]) by {
        let x = if k + 1 < q.len() { k + 1 } else { 0 };
        assert(n.queue[k] == q[x]);
        assert(is_live(s.pcbs, q[x]));
        let i = choose|i: int| 1 <= i < s.pcbs.len() && (#[trigger] s.pcbs[i]).pid == q[x];
        assert(n.pcbs[i].pid == s.pcbs[i].pid);
    }
    assert forall|i: int| 1 <= i < n.pcbs.len() implies n.queue.contains(#[trigger] n.pcbs[i].pid) by {
        assert(n.pcbs[i].pid == s.pcbs[i].pid);
        assert(s.queue.contains(s.pcbs[i].pid));
        let k = choose|k: int| 0 <= k < q.len() && q[k] == s.pcbs[i].pid;
        if k == 0 {
            assert(n.queue[q.len() - 1] == q[0]);
        } else {
            assert(n.queue[k - 1] == q[k]);
        }
    }
}

/// Runs one round of the round-robin scheduler (see `spec_execute_step`):
/// the process at the head of the ready queue, or the idle process, runs
/// for at most `time_quantum` cycles, and then goes to the back of the
/// queue or, when it exited, leaves.
pub fn process_execute_step(sched: &mut Scheduler, regs: &mut RegisterFile, mem: &mut Memory, time_quantum: u16) -> (rep: StepReport)
    requires
        old(sched).wf(),
        old(mem).wf(),
    ensures
        final(sched).wf(),
        final(mem).wf(),
        final(mem).size == old(mem).size,
        ({
            let sv = spec_execute_step(old(sched)@, old(mem).arr@, time_quantum as nat);
            &&& final(sched)@ == sv.sched
            &&& *final(regs) == sv.regs
            &&& final(mem).arr@ == sv.mem
            &&& events_view(rep.events@) == sv.events
            &&& match rep.outcome {
                Ok(o) => sv.result == Ok::<StepOutcomeView, SchedulerFault>(o@),
                Err(f) => sv.result == Err::<StepOutcomeView, SchedulerFault>(f),
            }
            &&& rep.pid == if old(sched)@.queue.len() == 0 {
                None::<u16>
            } else {
                Some(old(sched)@.queue[0])
            }
        }),
{
    let ghost s0 = sched@;
    let curr = sched.readyq.pop_front();
    let cur: usize = match curr {
        None => 0,
        Some(p) => match find_pcb(&sched.pcblist, p, 0) {
            Some(i) => i,
            None => {
                proof {
                    assert(is_live(s0.pcbs, s0.queue[0]));
                }
                0
            },
        },
    };
    proof {
        if s0.queue.len() > 0 {
            lemma_pcb_pos(s0.pcbs, s0.queue[0], cur as int);
        }
    }
    *regs = sched.pcblist[cur].reg_state;
    let pid = sched.pcblist[cur].pid;
    let (status, events) = cpu_operation(regs, mem, time_quantum);
    let passed = route_events(&mut sched.printer, pid, events);
    proof {
        lemma_route_distinct(s0.spools, pid, events_view(events@));
    }
    match status {
        Err(f) => {
            match curr {
                Some(p) => {
                    sched.readyq.push_front(p);
                    assert(sched@.queue =~= s0.queue);
                },
                None => {},
            }
            StepReport { pid: curr, events: passed, outcome: Err(SchedulerFault::Cpu(f)) }
        },
        Ok(st) => {
            match curr {
                None => {
                    if st == 1 {
                        StepReport { pid: curr, events: passed, outcome: Err(SchedulerFault::IdleExited) }
                    } else {
                        StepReport { pid: curr, events: passed, outcome: Ok(StepOutcome::Idle) }
                    }
                },
                Some(p) => {
                    if st == 1 {
                        let ghost s1 = sched@;
                        let (disposed, spool) = process_exit(sched, p, true);
                        proof {
                            lemma_end_distinct(s1.spools, p);
                            lemma_remove_head(s0, cur as int, sched@.spools);
                            if !disposed {
                                assert(s1.pcbs[cur as int].pid == p);
                            } else {
                                let i = choose|i: int|
                                    1 <= i < s1.pcbs.len() && (#[trigger] s1.pcbs[i]).pid == p && (forall|j: int|
                                        1 <= j < i ==> (#[trigger] s1.pcbs[j]).pid != p) && sched@.pcbs == s1.pcbs.remove(i);
                                lemma_pcb_pos(s0.pcbs, p, i);
                            }
                        }
                        StepReport { pid: curr, events: passed, outcome: Ok(StepOutcome::Exited { pid: p, disposed, spool }) }
                    } else {
                        sched.readyq.push_back(p);
                        let ghost q2 = sched@.queue;
                        let pin = match sched.readyq.pop_front() {
                            Some(x) => x,
                            None => p,
                        };
                        proof {
                            lemma_rotate(s0, cur as int, *regs);
                            assert(q2 =~= s0.queue.skip(1).push(p));
                        }
                        let in_idx = match find_pcb(&sched.pcblist, pin, 0) {
                            Some(i) => i,
                            None => {
                                proof {
                                    assert(is_live(s0.pcbs, q2[0])) by {
                                        if s0.queue.len() > 1 {
                                            assert(q2[0] == s0.queue[1]);
                                        }
                                    }
                                }
                                0
                            },
                        };
                        proof {
                            lemma_pcb_pos(s0.pcbs, pin, in_idx as int);
                        }
                        let in_regs = sched.pcblist[in_idx].reg_state;
                        let saved = process_context_switch(regs, Some(&in_regs));
                        let out_pcb = sched.pcblist.remove(cur);
                        sched.pcblist.insert(cur, PCB { reg_state: saved, pid: out_pcb.pid, prog_fname: out_pcb.prog_fname });
                        sched.readyq.push_front(pin);
                        proof {
                            assert(sched@.queue =~= q2);
                            assert(sched@.pcbs =~= s0.pcbs.update(cur as int, PCB { reg_state: saved, ..s0.pcbs[cur as int] }));
                        }
                        StepReport {
                            pid: curr,
                            events: passed,
                            outcome: Ok(StepOutcome::Switched { pid_in: pin, pid_out: p, pc_in: in_regs.pc.reg_val, pc_out: saved.pc.reg_val }),
                        }
                    }
                },
            }
        },
    }
}

/// Every round of the scheduler keeps its invariant, however the round
/// ends.
pub proof fn lemma_step_keeps_wf(s: SchedView, mem: Seq<i32>, tq: nat)
    requires
        sched_wf(s),
    ensures
        sched_wf(spec_execute_step(s, mem, tq).sched),
{
    let q = s.queue;
    let cur = if q.len() == 0 { 0 } else { pcb_pos(s.pcbs, q[0]) };
    let pid = s.pcbs[cur].pid;
    let run = spec_run(s.pcbs[cur].reg_state, mem, tq);
    let routed = spec_route(s.spools, pid, run.events);
    lemma_route_distinct(s.spools, pid, run.events);
    let s1 = SchedView { spools: routed.0, ..s };
    assert(sched_wf(s1));
    if q.len() > 0 {
        match run.outcome {
            Ok(st) => {
                if st == 1 {
                    lemma_end_distinct(routed.0, pid);
                    lemma_remove_head(s, cur, spec_end_spool(routed.0, pid));
                } else {
                    lemma_rotate(s1, cur, run.regs);
                }
            },
            Err(_) => {},
        }
    }
}

/// A process that runs out its quantum is not lost: it goes to the back of
/// the ready queue with the registers it stopped with saved in its control
/// block, the rest of the queue moves up by one, and no process is created
/// or removed.
pub proof fn lemma_round_robin(s: SchedView, mem: Seq<i32>, tq: nat)
    requires
        sched_wf(s),
        spec_execute_step(s, mem, tq).result matches Ok(StepOutcomeView::Switched { .. }),
    ensures
        ({
            let n = spec_execute_step(s, mem, tq).sched;
            let p = s.queue[0];
            &&& s.queue.len() > 0
            &&& n.queue == s.queue.skip(1).push(p)
            &&& n.pcbs.len() == s.pcbs.len()
            &&& forall|i: int| 0 <= i < s.pcbs.len() ==> (#[trigger] n.pcbs[i]).pid == s.pcbs[i].pid
            &&& n.pcbs[pcb_pos(n.pcbs, p)].reg_state == spec_run(s.pcbs[pcb_pos(s.pcbs, p)].reg_state, mem, tq).regs
        }),
{
    let q = s.queue;
    let cur = pcb_pos(s.pcbs, q[0]);
    let n = spec_execute_step(s, mem, tq).sched;
    lemma_step_keeps_wf(s, mem, tq);
    assert(is_live(s.pcbs, q[0]));
    let i0 = choose|i: int| 1 <= i < s.pcbs.len() && (#[trigger] s.pcbs[i]).pid == q[0];
    lemma_pcb_pos(s.pcbs, q[0], i0);
    assert(n.pcbs[cur].pid == q[0]);
    lemma_pcb_pos(n.pcbs, q[0], cur);
}

/// `k` rounds of the scheduler in a row, each starting from where the last
/// one left off: the state after them, and whether every one of them ended
/// with the running process running out its quantum.
pub open spec fn spec_rounds(s: SchedView, mem: Seq<i32>, tq: nat, k: nat) -> (SchedView, Seq<i32>, bool)
    decreases k,
{
    if k == 0 {
        (s, mem, true)
    } else {
        let sv = spec_execute_step(s, mem, tq);
        let rest = spec_rounds(sv.sched, sv.mem, tq, (k - 1) as nat);
        (rest.0, rest.1, rest.2 && sv.result matches Ok(StepOutcomeView::Switched { .. }))
    }
}

/// Processes take turns in queue order: after `k` rounds in which every
/// running process ran out its quantum, the first `k` processes of the
/// ready queue have moved, in order, to its back. After as many such rounds
/// as there are queued processes, the queue is back as it was: each process
/// has run exactly once.
pub proof fn lemma_rounds_rotate(s: SchedView, mem: Seq<i32>, tq: nat, k: nat)
    requires
        sched_wf(s),
        k <= s.queue.len(),
        spec_rounds(s, mem, tq, k).2,
    ensures
        sched_wf(spec_rounds(s, mem, tq, k).0),
        spec_rounds(s, mem, tq, k).0.queue == s.queue.skip(k as int) + s.queue.take(k as int),
        k == s.queue.len() ==> spec_rounds(s, mem, tq, k).0.queue == s.queue,
    decreases k,
{
    let q = s.queue;
    if k == 0 {
        assert(q.skip(0) + q.take(0) =~= q);
    } else {
        let sv = spec_execute_step(s, mem, tq);
        lemma_step_keeps_wf(s, mem, tq);
        lemma_round_robin(s, mem, tq);
        let q1 = sv.sched.queue;
        assert(q1 == q.skip(1).push(q[0]));
        lemma_rounds_rotate(sv.sched, sv.mem, tq, (k - 1) as nat);
        assert(q1.skip(k - 1) + q1.take(k - 1) =~= q.skip(k as int) + q.take(k as int));
    }
    if k == q.len() {
        assert(q.skip(k as int) + q.take(k as int) =~= q);
    }
}

/// A submitted process gets an id no live process has.
pub proof fn lemma_fresh_pid(s: SchedView)
    requires
        sched_wf(s),
    ensures
        forall|i: int| 0 <= i < s.pcbs.len() ==> (#[trigger] s.pcbs[i]).pid != s.pid_count,
{
}

/// A process that exits leaves the ready queue and the PCB list, every other
/// process keeps its place in both, and its spool comes back with it: when
/// it had one, what it held followed by the values printed in this last
/// quantum.
pub proof fn lemma_exit_removes(s: SchedView, mem: Seq<i32>, tq: nat)
    requires
        sched_wf(s),
        spec_execute_step(s, mem, tq).result matches Ok(StepOutcomeView::Exited { .. }),
    ensures
        ({
            let sv = spec_execute_step(s, mem, tq);
            let p = s.queue[0];
            &&& s.queue.len() > 0
            &&& sv.sched.queue == s.queue.skip(1)
            &&& !sv.sched.queue.contains(p)
            &&& forall|i: int| 0 <= i < sv.sched.pcbs.len() ==> (#[trigger] sv.sched.pcbs[i]).pid != p
            &&& sv.sched.pcbs == s.pcbs.remove(pcb_pos(s.pcbs, p))
            &&& sv.result matches Ok(StepOutcomeView::Exited { pid, spool, .. }) && pid == p
                && (spool_of(s.spools, p) is Some ==> spool == Some(spool_of(s.spools, p)->0
                + print_values(spec_run(s.pcbs[pcb_pos(s.pcbs, p)].reg_state, mem, tq).events)))
        }),
{
    let q = s.queue;
    let p = q[0];
    let cur = pcb_pos(s.pcbs, p);
    assert(is_live(s.pcbs, p));
    let i0 = choose|i: int| 1 <= i < s.pcbs.len() && (#[trigger] s.pcbs[i]).pid == p;
    lemma_pcb_pos(s.pcbs, p, i0);
    let sv = spec_execute_step(s, mem, tq);
    lemma_route(s.spools, p, spec_run(s.pcbs[cur].reg_state, mem, tq).events);
    assert forall|i: int| 0 <= i < sv.sched.pcbs.len() implies (#[trigger] sv.sched.pcbs[i]).pid != p by {
        let a = if i < cur { i } else { i + 1 };
        assert(sv.sched.pcbs[i] == s.pcbs[a]);
    }
    if sv.sched.queue.contains(p) {
        let k = choose|k: int| 0 <= k < sv.sched.queue.len() && sv.sched.queue[k] == p;
        assert(q[k + 1] == p);
    }
}

proof fn lemma_route_others(sp: Seq<(u16, Seq<i32>)>, pid: u16, evs: Seq<CpuEventView>, q: u16)
    requires
        spools_distinct(sp),
        q != pid,
    ensures
        spool_of(spec_route(sp, pid, evs).0, q) == spool_of(sp, q),
    decreases evs.len(),
{
    if evs.len() > 0 {
        lemma_route_others(sp, pid, evs.drop_last(), q);
        lemma_route_distinct(sp, pid, evs.drop_last());
        let r = spec_route(sp, pid, evs.drop_last());
        match evs.last() {
            CpuEventView::Print(v) => {
                lemma_spools_independent(r.0, pid, q, v);
            },
            _ => {},
        }
    }
}

/// A round touches only the spool of the process that ran (the head of the
/// ready queue, or the idle process): the spool of every other process,
/// open or not, is exactly as it was, whether that process ran out its
/// quantum, exited or faulted.
pub proof fn lemma_round_keeps_other_spools(s: SchedView, mem: Seq<i32>, tq: nat, q: u16)
    requires
        sched_wf(s),
        q != (if s.queue.len() == 0 { s.pcbs[0].pid } else { s.queue[0] }),
    ensures
        spool_of(spec_execute_step(s, mem, tq).sched.spools, q) == spool_of(s.spools, q),
{
    let qu = s.queue;
    let cur = if qu.len() == 0 { 0 } else { pcb_pos(s.pcbs, qu[0]) };
    if qu.len() > 0 {
        assert(is_live(s.pcbs, qu[0]));
        let i0 = choose|i: int| 1 <= i < s.pcbs.len() && (#[trigger] s.pcbs[i]).pid == qu[0];
        lemma_pcb_pos(s.pcbs, qu[0], i0);
    }
    let pid = s.pcbs[cur].pid;
    let run = spec_run(s.pcbs[cur].reg_state, mem, tq);
    let routed = spec_route(s.spools, pid, run.events);
    lemma_route_others(s.spools, pid, run.events, q);
    lemma_route_distinct(s.spools, pid, run.events);
    lemma_spools_independent(routed.0, pid, q, 0);
}
} // verus!
