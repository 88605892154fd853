use simos::cpu::{
    cpu_execute_instruction, cpu_fetch_instruction, cpu_mem_address, cpu_operation, cpu_regs_init,
    shell_instruction, CpuEvent, CpuFault, Register, RegisterFile,
};
use simos::memory::{MemError, Memory};

fn memory_with(words: &[i32], size: usize) -> Memory {
    let mut m = Memory::new(size);
    for (i, w) in words.iter().enumerate() {
        m.arr[i] = *w;
    }
    m
}

fn regs_at(base: i32) -> RegisterFile {
    let mut r = cpu_regs_init();
    r.base.reg_val = base;
    r.ir0.reg_val = -1;
    r.ir1.reg_val = -1;
    r
}

#[test]
fn registers_start_at_zero() {
    let r = cpu_regs_init();
    assert_eq!(r, RegisterFile::new());
    assert_eq!(r.pc.reg_val, 0);
    assert_eq!(r.ir0.reg_val, 0);
    assert_eq!(r.base.reg_val, 0);
    assert_eq!(Register::new(9).reg_val, 9);
}

#[test]
fn mem_address_reads_relative_to_base() {
    let m = memory_with(&[0, 0, 0, 41, 42], 5);
    let mut r = regs_at(3);
    assert_eq!(cpu_mem_address(&mut r, &m, 1), Ok(42));
    assert_eq!(r.mar.reg_val, 4);
    assert_eq!(r.mbr.reg_val, 42);
}

#[test]
fn mem_address_faults_leave_registers() {
    let m = memory_with(&[1, 2], 2);
    let mut r = regs_at(1);
    let before = r;
    assert_eq!(cpu_mem_address(&mut r, &m, 5), Err(CpuFault::Memory(MemError::OutOfBounds(6))));
    assert_eq!(r, before);
    assert_eq!(cpu_mem_address(&mut r, &m, -2), Err(CpuFault::Memory(MemError::NegativeAddress(-1))));
    let mut big = regs_at(i32::MAX);
    assert_eq!(cpu_mem_address(&mut big, &m, 1), Err(CpuFault::Overflow));
}

#[test]
fn fetch_loads_both_words_and_advances_pc() {
    let m = memory_with(&[0, 0, 3, 17], 4);
    let mut r = regs_at(2);
    assert_eq!(cpu_fetch_instruction(&mut r, &m), Ok(()));
    assert_eq!(r.ir0.reg_val, 3);
    assert_eq!(r.ir1.reg_val, 17);
    assert_eq!(r.pc.reg_val, 2);
    assert_eq!(r.mar.reg_val, 3);
    assert_eq!(r.mbr.reg_val, 17);
}

fn exec(op: i32, arg: i32, regs: &mut RegisterFile, mem: &mut Memory) -> Result<Option<CpuEvent>, CpuFault> {
    regs.ir0.reg_val = op;
    regs.ir1.reg_val = arg;
    cpu_execute_instruction(regs, mem)
}

#[test]
fn execute_each_instruction() {
    let mut m = memory_with(&[0, 0, 6, 7], 4);
    let mut r = regs_at(2);
    assert!(matches!(exec(1, 5, &mut r, &mut m), Ok(None)));
    assert_eq!(r.ac.reg_val, 5);
    assert!(matches!(exec(2, 1, &mut r, &mut m), Ok(None)));
    assert_eq!(r.ac.reg_val, 7);
    assert!(matches!(exec(3, 0, &mut r, &mut m), Ok(None)));
    assert_eq!(r.ac.reg_val, 13);
    assert!(matches!(exec(4, 0, &mut r, &mut m), Ok(None)));
    assert_eq!(r.ac.reg_val, 78);
    assert!(matches!(exec(5, 1, &mut r, &mut m), Ok(None)));
    assert_eq!(m.arr, vec![0, 0, 6, 78]);
    assert_eq!(r.mar.reg_val, 3);
    assert_eq!(r.mbr.reg_val, 78);
    let before = r;
    assert!(matches!(exec(6, 0, &mut r, &mut m), Ok(None)));
    assert_eq!(r.pc.reg_val, 6);
    assert_eq!(r.mar.reg_val, before.mar.reg_val);
    assert_eq!(r.mbr.reg_val, before.mbr.reg_val);
    assert_eq!(r.ac.reg_val, before.ac.reg_val);
    assert!(matches!(exec(0, 0, &mut r, &mut m), Ok(None)));
}

#[test]
fn jump_target_must_be_in_memory() {
    let mut m = memory_with(&[0, 0], 2);
    let mut r = regs_at(0);
    r.ac.reg_val = 1;
    let before = r;
    assert!(matches!(exec(6, 5, &mut r, &mut m), Err(CpuFault::Memory(MemError::OutOfBounds(5)))));
    r.ir0.reg_val = before.ir0.reg_val;
    r.ir1.reg_val = before.ir1.reg_val;
    assert_eq!(r, before);
}

#[test]
fn jump_only_when_ac_positive() {
    let mut m = Memory::new(2);
    let mut r = regs_at(0);
    r.ac.reg_val = 0;
    r.pc.reg_val = 4;
    assert!(matches!(exec(6, 0, &mut r, &mut m), Ok(None)));
    assert_eq!(r.pc.reg_val, 4);
    r.ac.reg_val = -3;
    assert!(matches!(exec(6, 0, &mut r, &mut m), Ok(None)));
    assert_eq!(r.pc.reg_val, 4);
}

#[test]
fn print_sleep_and_shell_become_events() {
    let mut m = memory_with(&[9, 8], 2);
    let mut r = regs_at(0);
    r.ac.reg_val = 12;
    assert!(matches!(exec(7, 0, &mut r, &mut m), Ok(Some(CpuEvent::Print(12)))));
    assert!(matches!(exec(8, 250, &mut r, &mut m), Ok(Some(CpuEvent::Sleep(250)))));
    assert!(matches!(exec(8, 0, &mut r, &mut m), Ok(Some(CpuEvent::InvalidSleep(0)))));
    assert!(matches!(exec(8, -4, &mut r, &mut m), Ok(Some(CpuEvent::InvalidSleep(-4)))));
    match exec(9, 2, &mut r, &mut m) {
        Ok(Some(CpuEvent::DumpRegisters(snap))) => assert_eq!(snap, r),
        _ => panic!("expected a register dump"),
    }
    match exec(9, 3, &mut r, &mut m) {
        Ok(Some(CpuEvent::DumpMemory(words))) => assert_eq!(words, vec![9, 8]),
        _ => panic!("expected a memory dump"),
    }
    assert!(matches!(exec(9, 5, &mut r, &mut m), Ok(Some(CpuEvent::InvalidShellCommand(5)))));
    assert!(matches!(shell_instruction(&r, &m, 4), CpuEvent::InvalidShellCommand(4)));
}

#[test]
fn execute_faults_leave_state() {
    let mut m = memory_with(&[1, 2], 2);
    let mut r = regs_at(0);
    r.ac.reg_val = i32::MAX;
    let before = r;
    assert!(matches!(exec(3, 0, &mut r, &mut m), Err(CpuFault::Overflow)));
    r = before;
    r.ac.reg_val = 1 << 20;
    r.ir0.reg_val = 0;
    m.arr[0] = 1 << 12;
    assert!(matches!(exec(4, 0, &mut r, &mut m), Err(CpuFault::Overflow)));
    assert!(matches!(exec(5, 7, &mut r, &mut m), Err(CpuFault::Memory(MemError::OutOfBounds(7)))));
    assert_eq!(m.arr, vec![1 << 12, 2]);
    assert!(matches!(exec(10, 0, &mut r, &mut m), Err(CpuFault::InvalidInstruction(10))));
    assert!(matches!(exec(-1, 0, &mut r, &mut m), Err(CpuFault::InvalidInstruction(-1))));
}

#[test]
fn run_to_exit() {
    let mut m = memory_with(&[1, 5, 7, 0, 0, 0], 6);
    let mut r = regs_at(0);
    let (status, events) = cpu_operation(&mut r, &mut m, 10);
    assert_eq!(status, Ok(1));
    assert_eq!(events.len(), 1);
    assert!(matches!(events[0], CpuEvent::Print(5)));
    assert_eq!(r.ac.reg_val, 5);
    assert_eq!(r.pc.reg_val, 6);
}

#[test]
fn exit_reported_only_at_the_next_cycle() {
    let mut m = memory_with(&[1, 5, 7, 0, 0, 0], 6);
    let mut r = regs_at(0);
    let (status, events) = cpu_operation(&mut r, &mut m, 3);
    assert_eq!(status, Ok(-1));
    assert_eq!(events.len(), 1);
    let (status, events) = cpu_operation(&mut r, &mut m, 3);
    assert_eq!(status, Ok(1));
    assert!(events.is_empty());
    let (status, _) = cpu_operation(&mut r, &mut m, 0);
    assert_eq!(status, Ok(-1));
}

#[test]
fn quantum_expires_in_a_loop() {
    // 0: load 1; 2: if AC > 0 go to the address in word 4 (0)
    let mut m = memory_with(&[1, 1, 6, 4, 0], 5);
    let mut r = regs_at(0);
    let (status, events) = cpu_operation(&mut r, &mut m, 1000);
    assert_eq!(status, Ok(-1));
    assert!(events.is_empty());
    assert_eq!(r.pc.reg_val, 0);
}

#[test]
fn split_quanta_match_one_long_run() {
    // counts down from 3, storing and printing each value, then exits
    let prog = [1, 3, 5, 20, 7, 0, 2, 20, 3, 21, 5, 20, 6, 22, 0, 0];
    let mut m1 = memory_with(&prog, 24);
    m1.arr[21] = -1;
    m1.arr[22] = 2;
    let mut m2 = memory_with(&prog, 24);
    m2.arr[21] = -1;
    m2.arr[22] = 2;
    let mut r1 = regs_at(0);
    let mut r2 = regs_at(0);
    let (s1, e1) = cpu_operation(&mut r1, &mut m1, 40);
    let mut all = Vec::new();
    let mut status = Ok(-1);
    let mut rounds = 0;
    while status == Ok(-1) && rounds < 40 {
        let (s, e) = cpu_operation(&mut r2, &mut m2, 3);
        status = s;
        for ev in e {
            if let CpuEvent::Print(v) = ev {
                all.push(v);
            }
        }
        rounds += 1;
    }
    let printed: Vec<i32> = e1.iter().filter_map(|e| if let CpuEvent::Print(v) = e { Some(*v) } else { None }).collect();
    assert_eq!(s1, Ok(1));
    assert_eq!(status, Ok(1));
    assert_eq!(printed, vec![3, 2, 1]);
    assert_eq!(all, printed);
    assert_eq!(r1, r2);
    assert_eq!(m1.arr, m2.arr);
}

#[test]
fn run_fault_keeps_state_before_faulting_instruction() {
    let mut m = memory_with(&[1, 5, 42, 0], 4);
    let mut r = regs_at(0);
    let (status, events) = cpu_operation(&mut r, &mut m, 10);
    assert_eq!(status, Err(CpuFault::InvalidInstruction(42)));
    assert!(events.is_empty());
    assert_eq!(r.ac.reg_val, 5);
    assert_eq!(r.pc.reg_val, 2);
    let mut m = memory_with(&[1, 5], 2);
    let mut r = regs_at(0);
    let (status, _) = cpu_operation(&mut r, &mut m, 10);
    assert_eq!(status, Err(CpuFault::Memory(MemError::OutOfBounds(2))));
}
