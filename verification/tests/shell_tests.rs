use simos::memory::Memory;
use simos::scheduler::{scheduler_init, Scheduler};
use simos::shell::{
    parse_shell_command, parse_sleep_time, parse_submit_input, printer_shell_command, shell_command,
    shell_load_prog, shell_process_submit, shell_terminate_system, LoadError, PrinterShellCommand,
    ShellCommand, SubmitError, SubmitInputError,
};

#[test]
fn load_places_instructions_then_data() {
    let mut m = Memory::new(12);
    let prog = b"2 2\n1 5\n3 4\n10\n-20\n";
    assert_eq!(shell_load_prog(&mut m, prog, 3), Ok(()));
    assert_eq!(m.arr, vec![0, 0, 0, 1, 5, 3, 4, 10, -20, 0, 0, 0]);
}

#[test]
fn load_accepts_trailing_whitespace_on_body_lines() {
    let mut m = Memory::new(4);
    assert_eq!(shell_load_prog(&mut m, b"1 1\r\n7 0 extra\r\n9\r\n", 0), Err(LoadError::BadDataCount));
    let mut m = Memory::new(4);
    assert_eq!(shell_load_prog(&mut m, b"1 1\n7 0\n 9\n", 0), Err(LoadError::BadData(2)));
    let mut m = Memory::new(4);
    assert_eq!(shell_load_prog(&mut m, b"1 1\n7 0 extra\r\n9 \r\n", 1), Ok(()));
    assert_eq!(m.arr, vec![0, 7, 0, 9]);
}

#[test]
fn load_errors_leave_memory() {
    let cases: Vec<(&[u8], usize, LoadError)> = vec![
        (b"", 0, LoadError::BadCodeCount),
        (b"x 1\n", 0, LoadError::BadCodeCount),
        (b"1\n1 2\n", 0, LoadError::MissingDataCount),
        (b"1 1\r\n1 2\n3\n", 0, LoadError::BadDataCount),
        (b"1 0\n1 2\n", usize::MAX, LoadError::AddressOverflow),
        (b"0 1\n5\n", usize::MAX, LoadError::AddressOverflow),
        (b"9223372036854775808 0\n", 0, LoadError::AddressOverflow),
        (b"2 0\n1 2", 0, LoadError::MissingLine(2)),
        (b"2 0\n1 2\n", 0, LoadError::BadOpCode(2)),
        (b"1 0\nx 2\n", 0, LoadError::BadOpCode(1)),
        (b"1 0\n70000 2\n", 0, LoadError::BadOpCode(1)),
        (b"1 0\n1\n", 0, LoadError::MissingOperand(1)),
        (b"1 0\n1  2\n", 0, LoadError::BadOperand(1)),
        (b"0 1\nzz\n", 0, LoadError::BadData(1)),
        (b"0 2\n5", 0, LoadError::MissingLine(2)),
        (b"0 2\n5\n", 0, LoadError::BadData(2)),
        (b"1 0\n1 2\n", 3, LoadError::OutOfMemory(4)),
        (b"1 0\n1 2\n", 4, LoadError::OutOfMemory(4)),
        (b"0 1\n5\n", 4, LoadError::OutOfMemory(4)),
    ];
    for (prog, at, err) in cases {
        let mut m = Memory::new(4);
        m.arr[0] = 8;
        assert_eq!(shell_load_prog(&mut m, prog, at), Err(err));
        assert_eq!(m.arr, vec![8, 0, 0, 0]);
    }
}

#[test]
fn empty_program_loads_anywhere() {
    let mut m = Memory::new(2);
    assert_eq!(shell_load_prog(&mut m, b"0 0", 100), Ok(()));
    assert_eq!(m.arr, vec![0, 0]);
}

#[test]
fn shell_command_codes() {
    assert_eq!(shell_command(0), ShellCommand::Terminate);
    assert_eq!(shell_command(1), ShellCommand::SubmitProgram);
    assert_eq!(shell_command(2), ShellCommand::PrintRegisters);
    assert_eq!(shell_command(3), ShellCommand::PrintMemory);
    assert_eq!(shell_command(4), ShellCommand::PrintReadyQueue);
    assert_eq!(shell_command(5), ShellCommand::PrintPcbList);
    assert_eq!(shell_command(6), ShellCommand::PrintSpools);
    assert_eq!(shell_command(7), ShellCommand::UpdateSleepTime);
    assert_eq!(shell_command(8), ShellCommand::Invalid(8));
    assert_eq!(printer_shell_command(0), PrinterShellCommand::Terminate);
    assert_eq!(printer_shell_command(6), PrinterShellCommand::DumpAllSpools);
    assert_eq!(printer_shell_command(1), PrinterShellCommand::Invalid(1));
}

#[test]
fn shell_input_lines() {
    assert_eq!(parse_shell_command(b"3\n"), Some(3));
    assert_eq!(parse_shell_command(b"254\r\n"), Some(254));
    assert_eq!(parse_shell_command(b"255\n"), None);
    assert_eq!(parse_shell_command(b"256\n"), None);
    assert_eq!(parse_shell_command(b" 3\n"), None);
    assert_eq!(parse_shell_command(b"\n"), None);
    assert_eq!(parse_sleep_time(b"500\n"), Some(500));
    assert_eq!(parse_sleep_time(b"18446744073709551615\n"), None);
    assert_eq!(parse_sleep_time(b"soon\n"), None);
}

#[test]
fn submit_input_lines() {
    assert_eq!(parse_submit_input(b"prog1 20\n"), Ok((b"prog1".to_vec(), 20)));
    assert_eq!(parse_submit_input(b"prog1\n"), Err(SubmitInputError::WrongFieldCount));
    assert_eq!(parse_submit_input(b"a b c\n"), Err(SubmitInputError::WrongFieldCount));
    assert_eq!(parse_submit_input(b"a  1\n"), Err(SubmitInputError::WrongFieldCount));
    assert_eq!(parse_submit_input(b"prog1 x\n"), Err(SubmitInputError::InvalidBase));
    assert_eq!(parse_submit_input(b"prog1 -1\n"), Err(SubmitInputError::InvalidBase));
}

fn booted(mem: &mut Memory) -> Scheduler {
    match scheduler_init(mem, Some(b"2 1\n1 1\n6 4\n0\n")) {
        Ok(s) => s,
        Err(_) => panic!("idle program must load"),
    }
}

#[test]
fn submit_loads_then_queues() {
    let mut mem = Memory::new(80);
    let mut s = booted(&mut mem);
    let pid = shell_process_submit(&mut s, &mut mem, b"p 65546\n", Some(b"1 0\n0 0\n"));
    assert_eq!(pid, Err(SubmitError::Load(LoadError::OutOfMemory(65546))));
    assert_eq!(s.readyq.len(), 0);
    let pid = shell_process_submit(&mut s, &mut mem, b"p 40\r\n", Some(b"1 0\n0 0\n"));
    assert_eq!(pid, Ok(1));
    assert_eq!(mem.arr[40], 0);
    assert_eq!(mem.arr[41], 0);
    assert_eq!(s.pcblist[1].reg_state.base.reg_val, 40);
    assert_eq!(s.pcblist[1].prog_fname, b"p".to_vec());
    let pid = shell_process_submit(&mut s, &mut mem, b"q 65546", None);
    assert_eq!(pid, Ok(2));
    assert_eq!(s.pcblist[2].reg_state.base.reg_val, 10);
    assert_eq!(s.readyq.iter().copied().collect::<Vec<u16>>(), vec![1, 2]);
}

#[test]
fn refused_submit_line_changes_nothing() {
    let mut mem = Memory::new(80);
    let mut s = booted(&mut mem);
    let before = mem.arr.clone();
    for line in [&b"prog1\n"[..], b"", b"prog1 10 x\n"] {
        let r = shell_process_submit(&mut s, &mut mem, line, Some(b"1 0\n7 7\n"));
        assert_eq!(r, Err(SubmitError::Input(SubmitInputError::WrongFieldCount)));
    }
    let r = shell_process_submit(&mut s, &mut mem, b"prog1 ten\n", Some(b"1 0\n7 7\n"));
    assert_eq!(r, Err(SubmitError::Input(SubmitInputError::InvalidBase)));
    assert_eq!(mem.arr, before);
    assert_eq!(s.pcblist.len(), 1);
    assert_eq!(s.readyq.len(), 0);
    assert_eq!(s.pid_count, 1);
}

#[test]
fn terminate_raises_flag() {
    let mut flag = false;
    shell_terminate_system(&mut flag);
    assert!(flag);
}
