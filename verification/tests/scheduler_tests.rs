use simos::cpu::{CpuEvent, CpuFault, RegisterFile};
use simos::memory::Memory;
use simos::scheduler::{
    process_context_switch, process_dispose_pcb, process_execute_step, process_exit, process_init_pcb,
    process_init_pcb_list, process_init_readyq, process_insert_readyq, process_submit, scheduler_init,
    scheduler_terminate, Scheduler, SchedulerFault, StepOutcome, PCB,
};
use simos::shell::{shell_load_prog, LoadError};

const IDLE: &[u8] = b"2 1\n1 1\n6 4\n0\n";

fn booted(mem: &mut Memory) -> Scheduler {
    match scheduler_init(mem, Some(IDLE)) {
        Ok(s) => s,
        Err(_) => panic!("idle program must load"),
    }
}

fn queue(s: &Scheduler) -> Vec<u16> {
    s.readyq.iter().copied().collect()
}

fn pids(s: &Scheduler) -> Vec<u16> {
    s.pcblist.iter().map(|p| p.pid).collect()
}

#[test]
fn init_creates_only_the_idle_process() {
    let mut mem = Memory::new(60);
    let s = booted(&mut mem);
    assert_eq!(pids(&s), vec![0]);
    assert_eq!(s.pid_count, 1);
    assert!(queue(&s).is_empty());
    assert_eq!(s.pcblist[0].prog_fname, b"prog_idle".to_vec());
    assert_eq!(s.pcblist[0].reg_state.ir0.reg_val, -1);
    assert_eq!(&mem.arr[0..5], &[1, 1, 6, 4, 0]);
}

#[test]
fn init_without_idle_text_loads_nothing() {
    let mut mem = Memory::new(4);
    let s = match scheduler_init(&mut mem, None) {
        Ok(s) => s,
        Err(_) => panic!("no text, no load error"),
    };
    assert_eq!(pids(&s), vec![0]);
    assert_eq!(mem.arr, vec![0, 0, 0, 0]);
    let mut mem = Memory::new(4);
    assert!(matches!(scheduler_init(&mut mem, Some(b"9 0")), Err(LoadError::MissingLine(1))));
}

#[test]
fn pcb_basics() {
    let p = PCB::new();
    assert_eq!(p.pid, 0);
    assert_eq!(p.reg_state, RegisterFile::new());
    let mem = Memory::new(180);
    let mut list = process_init_pcb_list(&mem);
    assert!(list.is_empty());
    let mut count: u16 = 5;
    let pid = process_init_pcb(&mut list, &mut count, b"a".to_vec(), 30);
    assert_eq!(pid, 5);
    assert_eq!(count, 6);
    assert_eq!(list[0].reg_state.base.reg_val, 30);
    assert_eq!(list[0].reg_state.ir0.reg_val, -1);
    assert_eq!(list[0].reg_state.ir1.reg_val, -1);
    assert_eq!(list[0].reg_state.pc.reg_val, 0);
    let mut q = process_init_readyq();
    process_insert_readyq(&mut q, 5);
    process_insert_readyq(&mut q, 2);
    assert_eq!(q.iter().copied().collect::<Vec<u16>>(), vec![5, 2]);
}

#[test]
fn dispose_skips_the_idle_slot() {
    let mut list = Vec::new();
    let mut count: u16 = 0;
    process_init_pcb(&mut list, &mut count, b"idle".to_vec(), 0);
    process_init_pcb(&mut list, &mut count, b"a".to_vec(), 10);
    assert!(!process_dispose_pcb(&mut list, 0));
    assert!(!process_dispose_pcb(&mut list, 7));
    assert_eq!(list.len(), 2);
    assert!(process_dispose_pcb(&mut list, 1));
    assert_eq!(list.len(), 1);
}

#[test]
fn context_switch_saves_and_loads() {
    let mut regs = RegisterFile::new();
    regs.ac.reg_val = 3;
    let mut incoming = RegisterFile::new();
    incoming.ac.reg_val = 9;
    let saved = process_context_switch(&mut regs, Some(&incoming));
    assert_eq!(saved.ac.reg_val, 3);
    assert_eq!(regs.ac.reg_val, 9);
    let back = process_context_switch(&mut regs, Some(&saved));
    assert_eq!(back, incoming);
    assert_eq!(regs.ac.reg_val, 3);
    let same = process_context_switch(&mut regs, None);
    assert_eq!(same, regs);
}

#[test]
fn idle_runs_when_queue_is_empty() {
    let mut mem = Memory::new(60);
    let mut s = booted(&mut mem);
    let mut regs = RegisterFile::new();
    let rep = process_execute_step(&mut s, &mut regs, &mut mem, 5);
    assert_eq!(rep.pid, None);
    assert!(matches!(rep.outcome, Ok(StepOutcome::Idle)));
    assert_eq!(s.pcblist[0].reg_state.pc.reg_val, 0);
    assert_eq!(regs.ac.reg_val, 1);
}

#[test]
fn idle_that_exits_is_refused() {
    let mut mem = Memory::new(8);
    let mut s = match scheduler_init(&mut mem, Some(b"1 0\n0 0\n")) {
        Ok(s) => s,
        Err(_) => panic!(),
    };
    let mut regs = RegisterFile::new();
    let rep = process_execute_step(&mut s, &mut regs, &mut mem, 5);
    assert!(matches!(rep.outcome, Err(SchedulerFault::IdleExited)));
}

#[test]
fn round_robin_rotates_saves_and_exits() {
    let mut mem = Memory::new(60);
    let mut s = booted(&mut mem);
    let mut regs = RegisterFile::new();
    // A: load 7, print, exit
    assert_eq!(shell_load_prog(&mut mem, b"3 0\n1 7\n7 0\n0 0\n", 20), Ok(()));
    let a = process_submit(&mut s, b"a".to_vec(), 20);
    // B: loops forever
    assert_eq!(shell_load_prog(&mut mem, IDLE, 40), Ok(()));
    let b = process_submit(&mut s, b"b".to_vec(), 40);
    assert_eq!((a, b), (1, 2));
    assert_eq!(queue(&s), vec![1, 2]);

    let rep = process_execute_step(&mut s, &mut regs, &mut mem, 2);
    assert_eq!(rep.pid, Some(1));
    assert!(rep.events.is_empty());
    match rep.outcome {
        Ok(StepOutcome::Switched { pid_in, pid_out, pc_in, pc_out }) => {
            assert_eq!((pid_in, pid_out, pc_in, pc_out), (2, 1, 0, 4));
        },
        _ => panic!("A should run out its quantum"),
    }
    assert_eq!(queue(&s), vec![2, 1]);
    assert_eq!(s.pcblist[1].reg_state.pc.reg_val, 4);
    assert_eq!(s.pcblist[1].reg_state.ac.reg_val, 7);
    assert_eq!(regs.base.reg_val, 40);
    assert_eq!(s.printer.spools[0].lines, vec![7]);

    let rep = process_execute_step(&mut s, &mut regs, &mut mem, 2);
    assert!(matches!(rep.outcome, Ok(StepOutcome::Switched { pid_in: 1, pid_out: 2, .. })));
    assert_eq!(queue(&s), vec![1, 2]);

    let rep = process_execute_step(&mut s, &mut regs, &mut mem, 2);
    match rep.outcome {
        Ok(StepOutcome::Exited { pid, disposed, spool }) => {
            assert_eq!(pid, 1);
            assert!(disposed);
            assert_eq!(spool, Some(vec![7]));
        },
        _ => panic!("A should exit"),
    }
    assert_eq!(queue(&s), vec![2]);
    assert_eq!(pids(&s), vec![0, 2]);
    assert_eq!(s.printer.spools.len(), 1);

    let rep = process_execute_step(&mut s, &mut regs, &mut mem, 2);
    assert!(matches!(rep.outcome, Ok(StepOutcome::Switched { pid_in: 2, pid_out: 2, .. })));
    assert_eq!(queue(&s), vec![2]);

    let (exited, spools) = scheduler_terminate(&mut s);
    assert_eq!(exited, vec![2]);
    assert_eq!(spools.len(), 1);
    assert_eq!(spools[0].pid, 2);
    assert_eq!(pids(&s), vec![0]);
    assert!(queue(&s).is_empty());
    assert!(s.printer.spools.is_empty());
}

#[test]
fn a_full_cycle_of_quanta_restores_the_queue() {
    let mut mem = Memory::new(100);
    let mut s = booted(&mut mem);
    let mut regs = RegisterFile::new();
    for base in [20u16, 40, 60] {
        assert_eq!(shell_load_prog(&mut mem, IDLE, base as usize), Ok(()));
        process_submit(&mut s, b"loop".to_vec(), base);
    }
    let start = queue(&s);
    let mut ran = Vec::new();
    for k in 1..=3 {
        let rep = process_execute_step(&mut s, &mut regs, &mut mem, 3);
        ran.push(rep.pid.unwrap());
        let q = queue(&s);
        let mut expect = start[k..].to_vec();
        expect.extend_from_slice(&start[..k]);
        assert_eq!(q, expect);
    }
    assert_eq!(ran, start);
    assert_eq!(queue(&s), start);
}

#[test]
fn print_without_spool_is_handed_on() {
    let mut mem = Memory::new(8);
    let mut s = match scheduler_init(&mut mem, Some(b"3 1\n1 5\n7 0\n6 6\n0\n")) {
        Ok(s) => s,
        Err(_) => panic!(),
    };
    let mut regs = RegisterFile::new();
    let rep = process_execute_step(&mut s, &mut regs, &mut mem, 4);
    assert_eq!(rep.events.len(), 1);
    assert!(matches!(rep.events[0], CpuEvent::Print(5)));
}

#[test]
fn a_faulting_process_stays_queued() {
    let mut mem = Memory::new(40);
    let mut s = booted(&mut mem);
    let mut regs = RegisterFile::new();
    assert_eq!(shell_load_prog(&mut mem, b"1 0\n12 0\n", 20), Ok(()));
    process_submit(&mut s, b"bad".to_vec(), 20);
    let rep = process_execute_step(&mut s, &mut regs, &mut mem, 4);
    assert!(matches!(rep.outcome, Err(SchedulerFault::Cpu(CpuFault::InvalidInstruction(12)))));
    assert_eq!(queue(&s), vec![1]);
}

#[test]
fn exit_without_pexit_keeps_spool() {
    let mut mem = Memory::new(40);
    let mut s = booted(&mut mem);
    let pid = process_submit(&mut s, b"x".to_vec(), 20);
    let (found, spool) = process_exit(&mut s, pid, false);
    assert!(found);
    assert_eq!(spool, None);
    assert_eq!(s.printer.spools.len(), 1);
    let (found, spool) = process_exit(&mut s, 9, true);
    assert!(!found);
    assert_eq!(spool, None);
}

#[test]
fn shutdown_keeps_unqueued_control_blocks() {
    let mut mem = Memory::new(40);
    let mut s = booted(&mut mem);
    process_submit(&mut s, b"a".to_vec(), 20);
    process_submit(&mut s, b"b".to_vec(), 30);
    // process 1 is taken off the queue by hand, so only process 2 is queued
    s.readyq.pop_front();
    let (exited, _) = scheduler_terminate(&mut s);
    assert_eq!(exited, vec![2]);
    assert_eq!(pids(&s), vec![0, 1]);
    assert!(queue(&s).is_empty());
}
