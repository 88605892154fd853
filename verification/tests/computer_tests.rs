use simos::shell::LoadError;
use simos::computer::{
    boot_system, parse_config_params, validate_cid, CidError, ConfigError, ConfigKey, PrintManagerConfig,
    SysConfig, PRINTER_CID,
};

#[test]
fn defaults() {
    let s = SysConfig::new();
    assert_eq!((s.cid, s.mem_size, s.time_quantum), (1, 256, 1000));
    let p = PrintManagerConfig::new();
    assert_eq!(p.print_time, 0);
    assert!(p.pm_ip.is_empty());
    assert_eq!(p.pm_port, 1040);
    assert_eq!((p.n_comms, p.conn_qsize, p.msg_qsize), (0, 0, 0));
}

#[test]
fn reads_every_setting() {
    let text = b"PM_IP:127.0.0.1\nPM_PORT:9000\nM:512\nTQ:5\nPT:3\nNC:4\nCQS:6\nMQS:7\n";
    let (s, p, unexpected) = match parse_config_params(text) {
        Ok(c) => c,
        Err(e) => panic!("{:?}", e),
    };
    assert_eq!((s.cid, s.mem_size, s.time_quantum), (1, 512, 5));
    assert_eq!(p.pm_ip, b"127.0.0.1".to_vec());
    assert_eq!((p.pm_port, p.print_time, p.n_comms, p.conn_qsize, p.msg_qsize), (9000, 3, 4, 6, 7));
    assert_eq!(unexpected, vec![Vec::<u8>::new()]);
}

#[test]
fn later_lines_win_and_strangers_are_kept() {
    let (s, _, unexpected) = match parse_config_params(b"M:10\nHELLO\nM:20") {
        Ok(c) => c,
        Err(_) => panic!(),
    };
    assert_eq!(s.mem_size, 20);
    assert_eq!(unexpected, vec![b"HELLO".to_vec()]);
}

#[test]
fn whitespace_around_lines_is_ignored() {
    let (s, p, unexpected) = match parse_config_params(b"M:128\r\nPT:5\n") {
        Ok(c) => c,
        Err(_) => panic!(),
    };
    assert_eq!((s.mem_size, s.time_quantum, p.print_time), (128, 1000, 5));
    assert_eq!(unexpected, vec![Vec::<u8>::new()]);
    let (s, _, unexpected) = match parse_config_params(" \tTQ:7 \r\n  odd  ".as_bytes()) {
        Ok(c) => c,
        Err(_) => panic!(),
    };
    assert_eq!(s.time_quantum, 7);
    assert_eq!(unexpected, vec![b"odd".to_vec()]);
}

#[test]
fn config_errors() {
    assert!(matches!(parse_config_params(b"M:12x\r\n"), Err(ConfigError::InvalidValue(ConfigKey::MemSize, 0))));
    assert!(matches!(parse_config_params(b"X\nTQ:70000"), Err(ConfigError::InvalidValue(ConfigKey::TimeQuantum, 1))));
    assert!(matches!(parse_config_params(b"PM_PORT:x"), Err(ConfigError::InvalidValue(ConfigKey::PmPort, 0))));
    assert!(matches!(parse_config_params("xéM:1".as_bytes()), Err(ConfigError::NotCharBoundary(ConfigKey::MemSize, 0))));
    assert!(matches!(parse_config_params(b"ZZPT:1"), Err(ConfigError::InvalidValue(ConfigKey::PrintTime, 0))));
}

#[test]
fn boots_clients_not_the_printer() {
    let mut s = SysConfig::new();
    s.mem_size = 8;
    let p = PrintManagerConfig::new();
    match boot_system(&s, &p, Some(b"2 1\n1 1\n6 4\n0\n")) {
        Some(Ok((regs, mem, sched))) => {
            assert_eq!(regs.pc.reg_val, 0);
            assert_eq!(mem.size, 8);
            assert_eq!(mem.arr, vec![1, 1, 6, 4, 0, 0, 0, 0]);
            assert_eq!(sched.pcblist.len(), 1);
            assert_eq!(sched.pcblist[0].pid, 0);
            assert_eq!(sched.pcblist[0].prog_fname, b"prog_idle".to_vec());
            assert_eq!(sched.pid_count, 1);
            assert!(sched.readyq.is_empty());
        },
        _ => panic!("client must boot"),
    }
    match boot_system(&s, &p, None) {
        Some(Ok((_, mem, _))) => assert_eq!(mem.arr, vec![0; 8]),
        _ => panic!("client must boot"),
    }
    assert!(matches!(boot_system(&s, &p, Some(b"9 0")), Some(Err(LoadError::MissingLine(1)))));
    s.cid = PRINTER_CID;
    assert!(boot_system(&s, &p, Some(b"0 0")).is_none());
}

#[test]
fn computer_ids() {
    assert_eq!(validate_cid(-1, PRINTER_CID), Err(CidError::Negative(-1)));
    assert_eq!(validate_cid(0, PRINTER_CID), Ok((0, true)));
    assert_eq!(validate_cid(2, PRINTER_CID), Ok((2, false)));
    assert_eq!(validate_cid(65535, PRINTER_CID), Ok((65535, false)));
    assert_eq!(validate_cid(65536, PRINTER_CID), Ok((0, true)));
    assert_eq!(validate_cid(70000, PRINTER_CID), Ok((4464, false)));
}
