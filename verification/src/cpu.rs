//! The CPU: its register file, the fetch/execute cycle and the run of one
//! time quantum.
//!
//! Instructions are two words, an op code and an operand, at `base + pc`:
//! 0 exit, 1 load constant, 2 load word, 3 add word, 4 multiply by word,
//! 5 store, 6 jump if AC > 0 (to the address held in the operand's word,
//! read without going through MAR and MBR), 7 print AC, 8 sleep,
//! 9 shell command.
//! Addresses in operands are relative to the BASE register.
use vstd::prelude::*;

use crate::memory::{
    address_error, mem_read, mem_write, spec_mem_read, spec_mem_write, MemError, Memory,
};

verus! {

/// One 32-bit register.
#[derive(Clone, Copy, PartialEq, Eq, Structural, Debug)]
pub struct Register {
    pub reg_val: i32,
}

/// The seven registers of the CPU.
#[derive(Clone, Copy, PartialEq, Eq, Structural, Debug)]
pub struct RegisterFile {
    pub pc: Register,
    pub ir0: Register,
    pub ir1: Register,
    pub ac: Register,
    pub mar: Register,
    pub mbr: Register,
    pub base: Register,
}

/// Why the CPU stopped a program.
#[derive(Clone, Copy, PartialEq, Eq, Structural, Debug)]
pub enum CpuFault {
    /// A memory access named no word of memory.
    Memory(MemError),
    /// An address or the accumulator left the range of `i32`.
    Overflow,
    /// IR0 held no known op code.
    InvalidInstruction(i32),
}

/// Something an instruction asks of the world outside the CPU.
pub enum CpuEvent {
    /// Op 7: print the accumulator.
    Print(i32),
    /// Op 8 with a positive operand: sleep that many microseconds.
    Sleep(u64),
    /// Op 8 with an operand that is not positive.
    InvalidSleep(i32),
    /// Op 9, shell code 2: the registers as they stood.
    DumpRegisters(RegisterFile),
    /// Op 9, shell code 3: memory as it stood.
    DumpMemory(Vec<i32>),
    /// Op 9 with any other shell code.
    InvalidShellCommand(i32),
}

/// What a `CpuEvent` holds, with memory as a sequence.
pub enum CpuEventView {
    Print(i32),
    Sleep(u64),
    InvalidSleep(i32),
    DumpRegisters(RegisterFile),
    DumpMemory(Seq<i32>),
    InvalidShellCommand(i32),
}

impl View for CpuEvent {
    type V = CpuEventView;

    open spec fn view(&self) -> CpuEventView {
        match self {
            CpuEvent::Print(v) => CpuEventView::Print(*v),
            CpuEvent::Sleep(t) => CpuEventView::Sleep(*t),
            CpuEvent::InvalidSleep(t) => CpuEventView::InvalidSleep(*t),
            CpuEvent::DumpRegisters(r) => CpuEventView::DumpRegisters(*r),
            CpuEvent::DumpMemory(m) => CpuEventView::DumpMemory(m@),
            CpuEvent::InvalidShellCommand(c) => CpuEventView::InvalidShellCommand(*c),
        }
    }
}

/// The views of a sequence of events.
pub open spec fn events_view(evs: Seq<CpuEvent>) -> Seq<CpuEventView> {
    evs.map_values(|e: CpuEvent| e@)
}

pub open spec fn fits_i32(x: int) -> bool {
    i32::MIN <= x <= i32::MAX
}

pub open spec fn reg(v: int) -> Register {
    Register { reg_val: v as i32 }
}

/// The register file a CPU starts with: every register zero.
pub open spec fn zero_registers() -> RegisterFile {
    RegisterFile {
        pc: reg(0),
        ir0: reg(0),
        ir1: reg(0),
        ac: reg(0),
        mar: reg(0),
        mbr: reg(0),
        base: reg(0),
    }
}

impl Register {
    pub fn new(reg_val: i32) -> (r: Register)
        ensures
            r.reg_val == reg_val,
    {
        Register { reg_val }
    }
}

impl RegisterFile {
    /// All seven registers zero.
    pub fn new() -> (r: RegisterFile)
        ensures
            r == zero_registers(),
    {
        RegisterFile {
            pc: Register::new(0),
            ir0: Register::new(0),
            ir1: Register::new(0),
            ac: Register::new(0),
            mar: Register::new(0),
            mbr: Register::new(0),
            base: Register::new(0),
        }
    }
}

/// The register file of a freshly booted CPU.
pub fn cpu_regs_init() -> (r: RegisterFile)
    ensures
        r == zero_registers(),
{
    RegisterFile::new()
}

/// Reads the word at `base + mem_addr`: the MAR gets the address, the MBR
/// the word.
pub open spec fn spec_mem_address(regs: RegisterFile, mem: Seq<i32>, mem_addr: i32) -> Result<RegisterFile, CpuFault> {
    let a = regs.base.reg_val + mem_addr;
    if !fits_i32(a) {
        Err(CpuFault::Overflow)
    } else {
        match spec_mem_read(RegisterFile { mar: reg(a), ..regs }, mem) {
            Ok(r) => Ok(r),
            Err(e) => Err(CpuFault::Memory(e)),
        }
    }
}

/// Fetch: IR0 and IR1 get the two words at `base + pc`, and PC advances by two.
pub open spec fn spec_fetch(regs: RegisterFile, mem: Seq<i32>) -> Result<RegisterFile, CpuFault> {
    match spec_mem_address(regs, mem, regs.pc.reg_val) {
        Err(f) => Err(f),
        Ok(r1) => {
            let r1 = RegisterFile { ir0: r1.mbr, ..r1 };
            let next = regs.pc.reg_val + 1;
            if !fits_i32(next) {
                Err(CpuFault::Overflow)
            } else {
                match spec_mem_address(r1, mem, next as i32) {
                    Err(f) => Err(f),
                    Ok(r2) => {
                        let pc = r2.pc.reg_val + 2;
                        if !fits_i32(pc) {
                            Err(CpuFault::Overflow)
                        } else {
                            Ok(RegisterFile { ir1: r2.mbr, pc: reg(pc), ..r2 })
                        }
                    },
                }
            }
        },
    }
}

/// What the shell instruction (op 9) with code `cmd` asks for.
pub open spec fn spec_shell_instruction(regs: RegisterFile, mem: Seq<i32>, cmd: i32) -> CpuEventView {
    if cmd == 2 {
        CpuEventView::DumpRegisters(regs)
    } else if cmd == 3 {
        CpuEventView::DumpMemory(mem)
    } else {
        CpuEventView::InvalidShellCommand(cmd)
    }
}

/// Execute the instruction in IR0/IR1: the new registers, the new memory and
/// what, if anything, the instruction asks of the outside.
pub open spec fn spec_execute(regs: RegisterFile, mem: Seq<i32>) -> Result<(RegisterFile, Seq<i32>, Option<CpuEventView>), CpuFault> {
    let op = regs.ir0.reg_val;
    let arg = regs.ir1.reg_val;
    if op == 0 {
        Ok((regs, mem, None))
    } else if op == 1 {
        Ok((RegisterFile { ac: reg(arg as int), ..regs }, mem, None))
    } else if op == 2 || op == 3 || op == 4 {
        match spec_mem_address(regs, mem, arg) {
            Err(f) => Err(f),
            Ok(r) => {
                let v = if op == 2 {
                    r.mbr.reg_val as int
                } else if op == 3 {
                    r.ac.reg_val + r.mbr.reg_val
                } else {
                    r.ac.reg_val * r.mbr.reg_val
                };
                if !fits_i32(v) {
                    Err(CpuFault::Overflow)
                } else {
                    Ok((RegisterFile { ac: reg(v), ..r }, mem, None))
                }
            },
        }
    } else if op == 5 {
        let a = regs.base.reg_val + arg;
        if !fits_i32(a) {
            Err(CpuFault::Overflow)
        } else {
            let r = RegisterFile { mbr: regs.ac, mar: reg(a), ..regs };
            match spec_mem_write(r, mem) {
                Err(e) => Err(CpuFault::Memory(e)),
                Ok(m) => Ok((r, m, None)),
            }
        }
    } else if op == 6 {
        if regs.ac.reg_val > 0 {
            let a = regs.base.reg_val + arg;
            if !fits_i32(a) {
                Err(CpuFault::Overflow)
            } else {
                match address_error(a as i32, mem) {
                    Some(e) => Err(CpuFault::Memory(e)),
                    None => Ok((RegisterFile { pc: reg(mem[a] as int), ..regs }, mem, None)),
                }
            }
        } else {
            Ok((regs, mem, None))
        }
    } else if op == 7 {
        Ok((regs, mem, Some(CpuEventView::Print(regs.ac.reg_val))))
    } else if op == 8 {
        if arg <= 0 {
            Ok((regs, mem, Some(CpuEventView::InvalidSleep(arg))))
        } else {
            Ok((regs, mem, Some(CpuEventView::Sleep(arg as u64))))
        }
    } else if op == 9 {
        Ok((regs, mem, Some(spec_shell_instruction(regs, mem, arg))))
    } else {
        Err(CpuFault::InvalidInstruction(op))
    }
}

/// One instruction cycle: fetch, then execute.
pub open spec fn spec_step(regs: RegisterFile, mem: Seq<i32>) -> Result<(RegisterFile, Seq<i32>, Option<CpuEventView>), CpuFault> {
    match spec_fetch(regs, mem) {
        Err(f) => Err(f),
        Ok(r) => spec_execute(r, mem),
    }
}

/// The state a run ends in, what it asked of the outside on the way, and how
/// it ended: `Ok(1)` the program exited, `Ok(-1)` the quantum expired, `Err`
/// an instruction faulted (registers and memory as they were before it).
pub struct RunView {
    pub regs: RegisterFile,
    pub mem: Seq<i32>,
    pub events: Seq<CpuEventView>,
    pub outcome: Result<i8, CpuFault>,
}

pub open spec fn opt_seq(e: Option<CpuEventView>) -> Seq<CpuEventView> {
    match e {
        Some(x) => seq![x],
        None => Seq::empty(),
    }
}

pub open spec fn prepend_events(evs: Seq<CpuEventView>, run: RunView) -> RunView {
    RunView { events: evs + run.events, ..run }
}

/// A run of at most `budget` cycles. Before each cycle the CPU stops with
/// status 1 when IR0 holds the exit op code (0); when the budget is spent it
/// stops with status -1.
pub open spec fn spec_run(regs: RegisterFile, mem: Seq<i32>, budget: nat) -> RunView
    decreases budget,
{
    if budget == 0 {
        RunView { regs, mem, events: Seq::empty(), outcome: Ok(-1i8) }
    } else if regs.ir0.reg_val == 0 {
        RunView { regs, mem, events: Seq::empty(), outcome: Ok(1i8) }
    } else {
        match spec_step(regs, mem) {
            Err(f) => RunView { regs, mem, events: Seq::empty(), outcome: Err(f) },
            Ok((r, m, e)) => prepend_events(opt_seq(e), spec_run(r, m, (budget - 1) as nat)),
        }
    }
}

/// Reads the word at `base + mem_addr` into the MBR (the MAR holds the
/// address) and returns it. On a fault the registers are left as they were.
pub fn cpu_mem_address(regs: &mut RegisterFile, mem: &Memory, mem_addr: i32) -> (r: Result<i32, CpuFault>)
    requires
        mem.wf(),
    ensures
        match spec_mem_address(*old(regs), mem.arr@, mem_addr) {
            Ok(nr) => r == Ok::<i32, CpuFault>(nr.mbr.reg_val) && *final(regs) == nr,
            Err(f) => r == Err::<i32, CpuFault>(f) && *final(regs) == *old(regs),
        },
{
    let a = match regs.base.reg_val.checked_add(mem_addr) {
        Some(a) => a,
        None => return Err(CpuFault::Overflow),
    };
    let mut r = *regs;
    r.mar.reg_val = a;
    match mem_read(&mut r, mem) {
        Ok(()) => {
            *regs = r;
            Ok(r.mbr.reg_val)
        },
        Err(e) => Err(CpuFault::Memory(e)),
    }
}

/// Fetches the instruction at `base + pc` into IR0/IR1 and advances PC by
/// two. On a fault the registers are left as they were.
pub fn cpu_fetch_instruction(regs: &mut RegisterFile, mem: &Memory) -> (r: Result<(), CpuFault>)
    requires
        mem.wf(),
    ensures
        match spec_fetch(*old(regs), mem.arr@) {
            Ok(nr) => r is Ok && *final(regs) == nr,
            Err(f) => r == Err::<(), CpuFault>(f) && *final(regs) == *old(regs),
        },
{
    let mut r = *regs;
    let pc = r.pc.reg_val;
    r.ir0.reg_val = cpu_mem_address(&mut r, mem, pc)?;
    let next = match pc.checked_add(1) {
        Some(n) => n,
        None => return Err(CpuFault::Overflow),
    };
    r.ir1.reg_val = cpu_mem_address(&mut r, mem, next)?;
    r.pc.reg_val = match r.pc.reg_val.checked_add(2) {
        Some(p) => p,
        None => return Err(CpuFault::Overflow),
    };
    *regs = r;
    Ok(())
}

/// The shell instruction (op 9): code 2 shows the registers, code 3 the
/// memory, any other code is refused.
pub fn shell_instruction(regs: &RegisterFile, mem: &Memory, cmd: i32) -> (e: CpuEvent)
    ensures
        e@ == spec_shell_instruction(*regs, mem.arr@, cmd),
{
    if cmd == 2 {
        CpuEvent::DumpRegisters(*regs)
    } else if cmd == 3 {
        let snapshot = mem.arr.clone();
        assert(snapshot@ =~= mem.arr@);
        CpuEvent::DumpMemory(snapshot)
    } else {
        CpuEvent::InvalidShellCommand(cmd)
    }
}


/// Executes the instruction in IR0/IR1. Returns what it asks of the outside,
/// if anything. On a fault registers and memory are left as they were.
pub fn cpu_execute_instruction(regs: &mut RegisterFile, mem: &mut Memory) -> (r: Result<Option<CpuEvent>, CpuFault>)
    requires
        old(mem).wf(),
    ensures
        final(mem).wf(),
        final(mem).size == old(mem).size,
        match spec_execute(*old(regs), old(mem).arr@) {
            Ok((nr, nm, e)) => {
                &&& r is Ok
                &&& *final(regs) == nr
                &&& final(mem).arr@ == nm
                &&& match r {
                    Ok(Some(ev)) => e == Some(ev@),
                    _ => e is None,
                }
            },
            Err(f) => {
                &&& r == Err::<Option<CpuEvent>, CpuFault>(f)
                &&& *final(regs) == *old(regs)
                &&& final(mem).arr@ == old(mem).arr@
            },
        },
{
    let op = regs.ir0.reg_val;
    let arg = regs.ir1.reg_val;
    if op == 0 {
        Ok(None)
    } else if op == 1 {
        regs.ac.reg_val = arg;
        Ok(None)
    } else if op == 2 || op == 3 || op == 4 {
        let mut r = *regs;
        let word = cpu_mem_address(&mut r, mem, arg)?;
        let v = if op == 2 {
            word
        } else if op == 3 {
            match r.ac.reg_val.checked_add(word) {
                Some(v) => v,
                None => return Err(CpuFault::Overflow),
            }
        } else {
            match r.ac.reg_val.checked_mul(word) {
                Some(v) => v,
                None => return Err(CpuFault::Overflow),
            }
        };
        r.ac.reg_val = v;
        *regs = r;
        Ok(None)
    } else if op == 5 {
        let a = match regs.base.reg_val.checked_add(arg) {
            Some(a) => a,
            None => return Err(CpuFault::Overflow),
        };
        let mut r = *regs;
        r.mbr.reg_val = r.ac.reg_val;
        r.mar.reg_val = a;
        match mem_write(&r, mem) {
            Ok(()) => {
                *regs = r;
                Ok(None)
            },
            Err(e) => Err(CpuFault::Memory(e)),
        }
    } else if op == 6 {
        if regs.ac.reg_val > 0 {
            let a = match regs.base.reg_val.checked_add(arg) {
                Some(a) => a,
                None => return Err(CpuFault::Overflow),
            };
            if a < 0 {
                return Err(CpuFault::Memory(MemError::NegativeAddress(a)));
            }
            if a as usize >= mem.arr.len() {
                return Err(CpuFault::Memory(MemError::OutOfBounds(a)));
            }
            regs.pc.reg_val = mem.arr[a as usize];
        }
        Ok(None)
    } else if op == 7 {
        Ok(Some(CpuEvent::Print(regs.ac.reg_val)))
    } else if op == 8 {
        if arg <= 0 {
            Ok(Some(CpuEvent::InvalidSleep(arg)))
        } else {
            Ok(Some(CpuEvent::Sleep(arg as u64)))
        }
    } else if op == 9 {
        Ok(Some(shell_instruction(regs, mem, arg)))
    } else {
        Err(CpuFault::InvalidInstruction(op))
    }
}

/// Runs the loaded program for at most `time_quantum` instruction cycles.
/// Returns how the run ended, 1 when the program exited and -1 when the
/// quantum expired (or the fault that stopped it), and what the program
/// asked of the outside, in order.
pub fn cpu_operation(regs: &mut RegisterFile, mem: &mut Memory, time_quantum: u16) -> (res: (Result<i8, CpuFault>, Vec<CpuEvent>))
    requires
        old(mem).wf(),
    ensures
        final(mem).wf(),
        final(mem).size == old(mem).size,
        ({
            let run = spec_run(*old(regs), old(mem).arr@, time_quantum as nat);
            &&& *final(regs) == run.regs
            &&& final(mem).arr@ == run.mem
            &&& res.0 == run.outcome
            &&& events_view(res.1@) == run.events
        }),
{
    let ghost r0 = *regs;
    let ghost m0 = mem.arr@;
    let mut events: Vec<CpuEvent> = Vec::new();
    let mut i: u16 = 0;
    while i < time_quantum
        invariant
            i <= time_quantum,
            mem.wf(),
            mem.size == old(mem).size,
            r0 == *old(regs),
            m0 == old(mem).arr@,
            spec_run(r0, m0, time_quantum as nat) == prepend_events(
                events_view(events@),
                spec_run(*regs, mem.arr@, (time_quantum - i) as nat),
            ),
        decreases time_quantum - i,
    {
        if regs.ir0.reg_val == 0 {
            proof {
                assert(events_view(events@) + Seq::<CpuEventView>::empty() =~= events_view(events@));
            }
            return (Ok(1), events);
        }
        let ghost before = events_view(events@);
        let saved = *regs;
        let ghost rb = *regs;
        let ghost mb = mem.arr@;
        match cpu_fetch_instruction(regs, mem) {
            Ok(()) => {},
            Err(f) => {
                proof {
                    assert(before + Seq::<CpuEventView>::empty() =~= before);
                }
                return (Err(f), events);
            },
        }
        match cpu_execute_instruction(regs, mem) {
            Ok(e) => {
                let ghost tail = spec_run(*regs, mem.arr@, (time_quantum - i - 1) as nat);
                match e {
                    Some(ev) => {
                        events.push(ev);
                    },
                    None => {},
                }
                proof {
                    assert(events_view(events@) =~= before + opt_seq(spec_step(rb, mb)->Ok_0.2));
                    assert(before + (opt_seq(spec_step(rb, mb)->Ok_0.2) + tail.events)
                        =~= events_view(events@) + tail.events);
                }
            },
            Err(f) => {
                proof {
                    assert(before + Seq::<CpuEventView>::empty() =~= before);
                }
                *regs = saved;
                return (Err(f), events);
            },
        }
        i = i + 1;
    }
    proof {
        assert(events_view(events@) + Seq::<CpuEventView>::empty() =~= events_view(events@));
    }
    (Ok(-1), events)
}


/// A program that has exited stays exited: a run of a CPU whose IR0 holds
/// the exit op code changes nothing, produces nothing and reports the exit.
pub proof fn lemma_exit_is_final(regs: RegisterFile, mem: Seq<i32>, budget: nat)
    requires
        budget > 0,
        regs.ir0.reg_val == 0,
    ensures
        spec_run(regs, mem, budget) == (RunView { regs, mem, events: Seq::empty(), outcome: Ok(1i8) }),
{
}

/// A run of `budget` cycles asks at most `budget` things of the outside,
/// and ends with status 1, status -1 or a fault.
pub proof fn lemma_run_bounded(regs: RegisterFile, mem: Seq<i32>, budget: nat)
    ensures
        spec_run(regs, mem, budget).events.len() <= budget,
        spec_run(regs, mem, budget).outcome matches Ok(st) ==> st == 1 || st == -1,
    decreases budget,
{
    if budget > 0 && regs.ir0.reg_val != 0 {
        match spec_step(regs, mem) {
            Ok((r, m, e)) => {
                lemma_run_bounded(r, m, (budget - 1) as nat);
            },
            Err(_) => {},
        }
    }
}

/// Preemption is invisible to the program: running `a` cycles and then,
/// when that quantum expired, `b` more from where it stopped gives the same
/// registers, memory, requests and outcome as running `a + b` cycles at once.
pub proof fn lemma_run_split(regs: RegisterFile, mem: Seq<i32>, a: nat, b: nat)
    ensures
        ({
            let first = spec_run(regs, mem, a);
            spec_run(regs, mem, a + b) == if first.outcome == Ok::<i8, CpuFault>(-1i8) {
                prepend_events(first.events, spec_run(first.regs, first.mem, b))
            } else {
                first
            }
        }),
    decreases a,
{
    if a == 0 {
        let r = spec_run(regs, mem, b);
        assert(Seq::<CpuEventView>::empty() + r.events =~= r.events);
    } else if regs.ir0.reg_val != 0 {
        match spec_step(regs, mem) {
            Ok((r, m, e)) => {
                lemma_run_split(r, m, (a - 1) as nat, b);
                assert((a + b - 1) as nat == (a - 1) as nat + b);
                let rest = spec_run(r, m, (a - 1) as nat);
                if rest.outcome == Ok::<i8, CpuFault>(-1i8) {
                    let tail = spec_run(rest.regs, rest.mem, b);
                    assert(opt_seq(e) + (rest.events + tail.events) =~= (opt_seq(e) + rest.events) + tail.events);
                }
            },
            Err(_) => {},
        }
    }
}

/// What each instruction does, in terms of the registers `r` and memory `m`
/// before it, with `a = base + IR1` the operand's address:
/// 0 changes nothing; 1 puts IR1 itself in AC; 2, 3 and 4 read word `a`
/// through MAR/MBR and load it into, add it to or multiply AC by it; 5
/// stores AC at word `a` through MAR/MBR; 6 sets PC to word `a` when AC > 0
/// and changes nothing else; 7, 8 and 9 change nothing and ask the outside
/// to print AC, sleep IR1 microseconds (when positive) or show the registers
/// or memory; any other op code is refused.
pub proof fn lemma_execute_semantics(r: RegisterFile, m: Seq<i32>)
    ensures
        ({
            let op = r.ir0.reg_val;
            let arg = r.ir1.reg_val;
            let a = r.base.reg_val + arg;
            let ok_addr = fits_i32(a) && 0 <= a < m.len();
            &&& op == 0 ==> spec_execute(r, m) == Ok::<_, CpuFault>((r, m, None::<CpuEventView>))
            &&& op == 1 ==> spec_execute(r, m) == Ok::<_, CpuFault>(
                (RegisterFile { ac: r.ir1, ..r }, m, None::<CpuEventView>),
            )
            &&& (op == 2 && ok_addr) ==> spec_execute(r, m) == Ok::<_, CpuFault>(
                (
                    RegisterFile {
                        ac: Register { reg_val: m[a] },
                        mar: Register { reg_val: a as i32 },
                        mbr: Register { reg_val: m[a] },
                        ..r
                    },
                    m,
                    None::<CpuEventView>,
                ),
            )
            &&& (op == 3 && ok_addr && fits_i32(r.ac.reg_val + m[a])) ==> spec_execute(r, m) == Ok::<_, CpuFault>(
                (
                    RegisterFile {
                        ac: Register { reg_val: (r.ac.reg_val + m[a]) as i32 },
                        mar: Register { reg_val: a as i32 },
                        mbr: Register { reg_val: m[a] },
                        ..r
                    },
                    m,
                    None::<CpuEventView>,
                ),
            )
            &&& (op == 3 && ok_addr && !fits_i32(r.ac.reg_val + m[a])) ==> spec_execute(r, m) == Err::<
                (RegisterFile, Seq<i32>, Option<CpuEventView>),
                CpuFault,
            >(CpuFault::Overflow)
            &&& (op == 4 && ok_addr && fits_i32(r.ac.reg_val * m[a])) ==> spec_execute(r, m) == Ok::<_, CpuFault>(
                (
                    RegisterFile {
                        ac: Register { reg_val: (r.ac.reg_val * m[a]) as i32 },
                        mar: Register { reg_val: a as i32 },
                        mbr: Register { reg_val: m[a] },
                        ..r
                    },
                    m,
                    None::<CpuEventView>,
                ),
            )
            &&& (op == 5 && ok_addr) ==> spec_execute(r, m) == Ok::<_, CpuFault>(
                (
                    RegisterFile { mar: Register { reg_val: a as i32 }, mbr: r.ac, ..r },
                    m.update(a, r.ac.reg_val),
                    None::<CpuEventView>,
                ),
            )
            &&& (op == 6 && r.ac.reg_val > 0 && ok_addr) ==> spec_execute(r, m) == Ok::<_, CpuFault>(
                (RegisterFile { pc: Register { reg_val: m[a] }, ..r }, m, None::<CpuEventView>),
            )
            &&& (op == 6 && r.ac.reg_val <= 0) ==> spec_execute(r, m) == Ok::<_, CpuFault>((r, m, None::<CpuEventView>))
            &&& op == 7 ==> spec_execute(r, m) == Ok::<_, CpuFault>(
                (r, m, Some(CpuEventView::Print(r.ac.reg_val))),
            )
            &&& (op == 8 && arg > 0) ==> spec_execute(r, m) == Ok::<_, CpuFault>(
                (r, m, Some(CpuEventView::Sleep(arg as u64))),
            )
            &&& (op == 8 && arg <= 0) ==> spec_execute(r, m) == Ok::<_, CpuFault>(
                (r, m, Some(CpuEventView::InvalidSleep(arg))),
            )
            &&& (op == 9 && arg == 2) ==> spec_execute(r, m) == Ok::<_, CpuFault>(
                (r, m, Some(CpuEventView::DumpRegisters(r))),
            )
            &&& (op == 9 && arg == 3) ==> spec_execute(r, m) == Ok::<_, CpuFault>(
                (r, m, Some(CpuEventView::DumpMemory(m))),
            )
            &&& (op == 9 && arg != 2 && arg != 3) ==> spec_execute(r, m) == Ok::<_, CpuFault>(
                (r, m, Some(CpuEventView::InvalidShellCommand(arg))),
            )
            &&& !(0 <= op <= 9) ==> spec_execute(r, m) == Err::<
                (RegisterFile, Seq<i32>, Option<CpuEventView>),
                CpuFault,
            >(CpuFault::InvalidInstruction(op))
            &&& ((2 <= op <= 5 || (op == 6 && r.ac.reg_val > 0)) && fits_i32(a) && a < 0) ==> spec_execute(r, m)
                == Err::<(RegisterFile, Seq<i32>, Option<CpuEventView>), CpuFault>(
                CpuFault::Memory(MemError::NegativeAddress(a as i32)),
            )
            &&& ((2 <= op <= 5 || (op == 6 && r.ac.reg_val > 0)) && fits_i32(a) && a >= m.len()) ==> spec_execute(r, m)
                == Err::<(RegisterFile, Seq<i32>, Option<CpuEventView>), CpuFault>(
                CpuFault::Memory(MemError::OutOfBounds(a as i32)),
            )
        }),
{
}

/// Fetching reads the op code from word `base + pc` into IR0 and the operand
/// from the next word into IR1 (the last read going through MAR/MBR), and
/// advances PC by two; nothing else changes.
pub proof fn lemma_fetch_semantics(r: RegisterFile, m: Seq<i32>)
    requires
        0 <= r.base.reg_val + r.pc.reg_val,
        r.base.reg_val + r.pc.reg_val + 1 < m.len(),
        r.base.reg_val + r.pc.reg_val + 1 <= i32::MAX,
        r.pc.reg_val + 2 <= i32::MAX,
    ensures
        ({
            let a = r.base.reg_val + r.pc.reg_val;
            spec_fetch(r, m) == Ok::<RegisterFile, CpuFault>(
                RegisterFile {
                    ir0: Register { reg_val: m[a] },
                    ir1: Register { reg_val: m[a + 1] },
                    pc: Register { reg_val: (r.pc.reg_val + 2) as i32 },
                    mar: Register { reg_val: (a + 1) as i32 },
                    mbr: Register { reg_val: m[a + 1] },
                    ..r
                },
            )
        }),
{
}
} // verus!
