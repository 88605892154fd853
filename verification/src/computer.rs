//! The computer as a whole: its configuration file, booting, and the
//! computer id that says whether it acts as a client or as the printer.
//!
//! The configuration file `config.sys` holds one setting per line, in any
//! order: `PM_IP:`, `PM_PORT:`, `M:` (memory words), `TQ:` (time quantum),
//! `PT:` (print time), `NC:` (communicators), `CQS:` (connection queue size)
//! and `MQS:` (message queue size), each followed directly by its value.
//! Whitespace around a line is ignored.
use vstd::prelude::*;

use crate::cpu::{cpu_regs_init, zero_registers, RegisterFile};
use crate::memory::{mem_init, Memory};
use crate::scheduler::{idle_name, initial_pcb_regs, scheduler_init, Scheduler};
use crate::shell::{spec_load, LoadError};
use crate::text::{
    contains_bytes, copy_range, is_char_boundary, parse_u16, parse_u32, parsed_unsigned_upto, spec_contains,
    spec_split, spec_trim, split_bytes, trim, vecs_view, decimal, is_digit, lemma_absent_byte,
    lemma_decimal_digits, lemma_parse_decimal, lemma_contains_prefix,
};

verus! {

/// The computer id reserved for the printer.
pub const PRINTER_CID: u16 = 0;

/// The settings of a client computer.
pub struct SysConfig {
    pub cid: u16,
    pub mem_size: u32,
    pub time_quantum: u16,
}

/// The settings of the network printer and its manager.
pub struct PrintManagerConfig {
    pub print_time: u16,
    pub pm_ip: Vec<u8>,
    pub pm_port: u16,
    pub n_comms: u16,
    pub conn_qsize: u16,
    pub msg_qsize: u16,
}

impl SysConfig {
    /// Computer 1, 256 words of memory, a quantum of 1000 cycles.
    pub fn new() -> (c: SysConfig)
        ensures
            c.cid == 1,
            c.mem_size == 256,
            c.time_quantum == 1000,
    {
        SysConfig { cid: 1, mem_size: 256, time_quantum: 1000 }
    }
}

impl PrintManagerConfig {
    /// Port 1040, no address, everything else 0.
    pub fn new() -> (c: PrintManagerConfig)
        ensures
            c.print_time == 0,
            c.pm_ip@ == Seq::<u8>::empty(),
            c.pm_port == 1040,
            c.n_comms == 0,
            c.conn_qsize == 0,
            c.msg_qsize == 0,
    {
        PrintManagerConfig {
            print_time: 0,
            pm_ip: Vec::new(),
            pm_port: 1040,
            n_comms: 0,
            conn_qsize: 0,
            msg_qsize: 0,
        }
    }
}

/// A setting of the configuration file.
#[derive(Clone, Copy, PartialEq, Eq, Structural, Debug)]
pub enum ConfigKey {
    PmIp,
    PmPort,
    MemSize,
    TimeQuantum,
    PrintTime,
    NComms,
    ConnQSize,
    MsgQSize,
}

/// Why a configuration file was refused; the line counts from 0.
#[derive(Clone, Copy, PartialEq, Eq, Structural, Debug)]
pub enum ConfigError {
    /// The value of this setting is not a number of its type.
    InvalidValue(ConfigKey, usize),
    /// The setting's value would start inside a UTF-8 character.
    NotCharBoundary(ConfigKey, usize),
}

/// The settings read so far, and the lines that held none.
pub struct ConfigView {
    pub mem_size: u32,
    pub time_quantum: u16,
    pub print_time: u16,
    pub pm_ip: Seq<u8>,
    pub pm_port: u16,
    pub n_comms: u16,
    pub conn_qsize: u16,
    pub msg_qsize: u16,
    pub unexpected: Seq<Seq<u8>>,
}

/// The settings before any line is read: the defaults.
pub open spec fn default_config() -> ConfigView {
    ConfigView {
        mem_size: 256,
        time_quantum: 1000,
        print_time: 0,
        pm_ip: Seq::empty(),
        pm_port: 1040,
        n_comms: 0,
        conn_qsize: 0,
        msg_qsize: 0,
        unexpected: Seq::empty(),
    }
}

pub open spec fn key_name(k: ConfigKey) -> Seq<u8> {
    match k {
        ConfigKey::PmIp => seq![80u8, 77, 95, 73, 80, 58],
        ConfigKey::PmPort => seq![80u8, 77, 95, 80, 79, 82, 84, 58],
        ConfigKey::MemSize => seq![77u8, 58],
        ConfigKey::TimeQuantum => seq![84u8, 81, 58],
        ConfigKey::PrintTime => seq![80u8, 84, 58],
        ConfigKey::NComms => seq![78u8, 67, 58],
        ConfigKey::ConnQSize => seq![67u8, 81, 83, 58],
        ConfigKey::MsgQSize => seq![77u8, 81, 83, 58],
    }
}

/// The setting a line gives: the first of `PM_IP:`, `PM_PORT:`, `M:`,
/// `TQ:`, `PT:`, `NC:`, `CQS:`, `MQS:` that occurs anywhere in it.
pub open spec fn line_key(line: Seq<u8>) -> Option<ConfigKey> {
    if spec_contains(line, key_name(ConfigKey::PmIp)) {
        Some(ConfigKey::PmIp)
    } else if spec_contains(line, key_name(ConfigKey::PmPort)) {
        Some(ConfigKey::PmPort)
    } else if spec_contains(line, key_name(ConfigKey::MemSize)) {
        Some(ConfigKey::MemSize)
    } else if spec_contains(line, key_name(ConfigKey::TimeQuantum)) {
        Some(ConfigKey::TimeQuantum)
    } else if spec_contains(line, key_name(ConfigKey::PrintTime)) {
        Some(ConfigKey::PrintTime)
    } else if spec_contains(line, key_name(ConfigKey::NComms)) {
        Some(ConfigKey::NComms)
    } else if spec_contains(line, key_name(ConfigKey::ConnQSize)) {
        Some(ConfigKey::ConnQSize)
    } else if spec_contains(line, key_name(ConfigKey::MsgQSize)) {
        Some(ConfigKey::MsgQSize)
    } else {
        None
    }
}

/// Reading line `idx`: a setting's value is what follows the first as many
/// bytes of the line as the setting's name is long.
pub open spec fn spec_config_line(c: ConfigView, line: Seq<u8>, idx: usize) -> Result<ConfigView, ConfigError> {
    match line_key(line) {
        None => Ok(ConfigView { unexpected: c.unexpected.push(line), ..c }),
        Some(k) => {
            let n = key_name(k).len() as int;
            if !is_char_boundary(line, n) {
                Err(ConfigError::NotCharBoundary(k, idx))
            } else {
                let v = line.skip(n);
                match k {
                    ConfigKey::PmIp => Ok(ConfigView { pm_ip: v, ..c }),
                    ConfigKey::MemSize => match parsed_unsigned_upto(v, u32::MAX as nat) {
                        Some(x) => Ok(ConfigView { mem_size: x as u32, ..c }),
                        None => Err(ConfigError::InvalidValue(k, idx)),
                    },
                    _ => match parsed_unsigned_upto(v, u16::MAX as nat) {
                        None => Err(ConfigError::InvalidValue(k, idx)),
                        Some(x) => {
                            let x = x as u16;
                            match k {
                                ConfigKey::PmPort => Ok(ConfigView { pm_port: x, ..c }),
                                ConfigKey::TimeQuantum => Ok(ConfigView { time_quantum: x, ..c }),
                                ConfigKey::PrintTime => Ok(ConfigView { print_time: x, ..c }),
                                ConfigKey::NComms => Ok(ConfigView { n_comms: x, ..c }),
                                ConfigKey::ConnQSize => Ok(ConfigView { conn_qsize: x, ..c }),
                                _ => Ok(ConfigView { msg_qsize: x, ..c }),
                            }
                        },
                    },
                }
            }
        },
    }
}

/// Reading the lines `lines` in order, from the defaults, each without its
/// leading and trailing whitespace; the first line in error stops the
/// reading.
pub open spec fn spec_config_lines(lines: Seq<Seq<u8>>) -> Result<ConfigView, ConfigError>
    decreases lines.len(),
{
    if lines.len() == 0 {
        Ok(default_config())
    } else {
        match spec_config_lines(lines.drop_last()) {
            Err(e) => Err(e),
            Ok(c) => spec_config_line(c, spec_trim(lines.last()), (lines.len() - 1) as usize),
        }
    }
}

/// Reading the configuration text `text`, split at newlines.
pub open spec fn spec_parse_config(text: Seq<u8>) -> Result<ConfigView, ConfigError> {
    spec_config_lines(spec_split(text, 10u8))
}

/// What a pair of configurations holds, with the lines that held no setting.
pub open spec fn config_view(sys: &SysConfig, pm: &PrintManagerConfig, unexpected: Seq<Vec<u8>>) -> ConfigView {
    ConfigView {
        mem_size: sys.mem_size,
        time_quantum: sys.time_quantum,
        print_time: pm.print_time,
        pm_ip: pm.pm_ip@,
        pm_port: pm.pm_port,
        n_comms: pm.n_comms,
        conn_qsize: pm.conn_qsize,
        msg_qsize: pm.msg_qsize,
        unexpected: vecs_view(unexpected),
    }
}

fn key_bytes(k: ConfigKey) -> (r: Vec<u8>)
    ensures
        r@ == key_name(k),
{
    let r = match k {
        ConfigKey::PmIp => vec![80u8, 77, 95, 73, 80, 58],
        ConfigKey::PmPort => vec![80u8, 77, 95, 80, 79, 82, 84, 58],
        ConfigKey::MemSize => vec![77u8, 58],
        ConfigKey::TimeQuantum => vec![84u8, 81, 58],
        ConfigKey::PrintTime => vec![80u8, 84, 58],
        ConfigKey::NComms => vec![78u8, 67, 58],
        ConfigKey::ConnQSize => vec![67u8, 81, 83, 58],
        ConfigKey::MsgQSize => vec![77u8, 81, 83, 58],
    };
    assert(r@ =~= key_name(k));
    r
}

fn find_key(line: &[u8]) -> (r: Option<ConfigKey>)
    ensures
        r == line_key(line@),
{
    if contains_bytes(line, key_bytes(ConfigKey::PmIp).as_slice()) {
        return Some(ConfigKey::PmIp);
    }
    if contains_bytes(line, key_bytes(ConfigKey::PmPort).as_slice()) {
        return Some(ConfigKey::PmPort);
    }
    if contains_bytes(line, key_bytes(ConfigKey::MemSize).as_slice()) {
        return Some(ConfigKey::MemSize);
    }
    if contains_bytes(line, key_bytes(ConfigKey::TimeQuantum).as_slice()) {
        return Some(ConfigKey::TimeQuantum);
    }
    if contains_bytes(line, key_bytes(ConfigKey::PrintTime).as_slice()) {
        return Some(ConfigKey::PrintTime);
    }
    if contains_bytes(line, key_bytes(ConfigKey::NComms).as_slice()) {
        return Some(ConfigKey::NComms);
    }
    if contains_bytes(line, key_bytes(ConfigKey::ConnQSize).as_slice()) {
        return Some(ConfigKey::ConnQSize);
    }
    if contains_bytes(line, key_bytes(ConfigKey::MsgQSize).as_slice()) {
        return Some(ConfigKey::MsgQSize);
    }
    None
}


/// A line made of a name without byte `b` and a decimal numeral holds no `b`
/// when `b` is not a digit.
proof fn lemma_line_lacks(kk: Seq<u8>, n: nat, b: u8)
    requires
        forall|i: int| 0 <= i < kk.len() ==> kk[i] != b,
        !is_digit(b),
    ensures
        forall|i: int| 0 <= i < (kk + decimal(n)).len() ==> (kk + decimal(n))[i] != b,
{
    lemma_decimal_digits(n);
    assert forall|i: int| 0 <= i < (kk + decimal(n)).len() implies (kk + decimal(n))[i] != b by {
        if i >= kk.len() {
            assert((kk + decimal(n))[i] == decimal(n)[i - kk.len()]);
            assert(is_digit(decimal(n)[i - kk.len()]));
        }
    }
}

#[verifier::rlimit(100)]
proof fn lemma_key_of_pm_port(n: nat)
    ensures
        line_key(seq![80u8, 77, 95, 80, 79, 82, 84, 58] + decimal(n)) == Some(ConfigKey::PmPort),
        is_char_boundary(seq![80u8, 77, 95, 80, 79, 82, 84, 58] + decimal(n), 8),
        (seq![80u8, 77, 95, 80, 79, 82, 84, 58] + decimal(n)).skip(8) == decimal(n),
{
    let kk = seq![80u8, 77, 95, 80, 79, 82, 84, 58];
    let line = kk + decimal(n);
    assert(key_name(ConfigKey::PmPort) =~= kk);
    lemma_decimal_digits(n);
    lemma_contains_prefix(kk, decimal(n));
    lemma_line_lacks(kk, n, 73u8);
    lemma_absent_byte(line, key_name(ConfigKey::PmIp), 3);
    assert(line.skip(8) =~= decimal(n));
    assert(line[8] == decimal(n)[0]);
    assert(is_digit(decimal(n)[0]));
}

#[verifier::rlimit(100)]
proof fn lemma_key_of_mem_size(n: nat)
    ensures
        line_key(seq![77u8, 58] + decimal(n)) == Some(ConfigKey::MemSize),
        is_char_boundary(seq![77u8, 58] + decimal(n), 2),
        (seq![77u8, 58] + decimal(n)).skip(2) == decimal(n),
{
    let kk = seq![77u8, 58];
    let line = kk + decimal(n);
    assert(key_name(ConfigKey::MemSize) =~= kk);
    lemma_decimal_digits(n);
    lemma_contains_prefix(kk, decimal(n));
    lemma_line_lacks(kk, n, 80u8);
    lemma_absent_byte(line, key_name(ConfigKey::PmIp), 0);
    lemma_line_lacks(kk, n, 80u8);
    lemma_absent_byte(line, key_name(ConfigKey::PmPort), 0);
    assert(line.skip(2) =~= decimal(n));
    assert(line[2] == decimal(n)[0]);
    assert(is_digit(decimal(n)[0]));
}

#[verifier::rlimit(100)]
proof fn lemma_key_of_time_quantum(n: nat)
    ensures
        line_key(seq![84u8, 81, 58] + decimal(n)) == Some(ConfigKey::TimeQuantum),
        is_char_boundary(seq![84u8, 81, 58] + decimal(n), 3),
        (seq![84u8, 81, 58] + decimal(n)).skip(3) == decimal(n),
{
    let kk = seq![84u8, 81, 58];
    let line = kk + decimal(n);
    assert(key_name(ConfigKey::TimeQuantum) =~= kk);
    lemma_decimal_digits(n);
    lemma_contains_prefix(kk, decimal(n));
    lemma_line_lacks(kk, n, 80u8);
    lemma_absent_byte(line, key_name(ConfigKey::PmIp), 0);
    lemma_line_lacks(kk, n, 80u8);
    lemma_absent_byte(line, key_name(ConfigKey::PmPort), 0);
    lemma_line_lacks(kk, n, 77u8);
    lemma_absent_byte(line, key_name(ConfigKey::MemSize), 0);
    assert(line.skip(3) =~= decimal(n));
    assert(line[3] == decimal(n)[0]);
    assert(is_digit(decimal(n)[0]));
}

#[verifier::rlimit(100)]
proof fn lemma_key_of_print_time(n: nat)
    ensures
        line_key(seq![80u8, 84, 58] + decimal(n)) == Some(ConfigKey::PrintTime),
        is_char_boundary(seq![80u8, 84, 58] + decimal(n), 3),
        (seq![80u8, 84, 58] + decimal(n)).skip(3) == decimal(n),
{
    let kk = seq![80u8, 84, 58];
    let line = kk + decimal(n);
    assert(key_name(ConfigKey::PrintTime) =~= kk);
    lemma_decimal_digits(n);
    lemma_contains_prefix(kk, decimal(n));
    lemma_line_lacks(kk, n, 77u8);
    lemma_absent_byte(line, key_name(ConfigKey::PmIp), 1);
    lemma_line_lacks(kk, n, 77u8);
    lemma_absent_byte(line, key_name(ConfigKey::PmPort), 1);
    lemma_line_lacks(kk, n, 77u8);
    lemma_absent_byte(line, key_name(ConfigKey::MemSize), 0);
    lemma_line_lacks(kk, n, 81u8);
    lemma_absent_byte(line, key_name(ConfigKey::TimeQuantum), 1);
    assert(line.skip(3) =~= decimal(n));
    assert(line[3] == decimal(n)[0]);
    assert(is_digit(decimal(n)[0]));
}

#[verifier::rlimit(100)]
proof fn lemma_key_of_n_comms(n: nat)
    ensures
        line_key(seq![78u8, 67, 58] + decimal(n)) == Some(ConfigKey::NComms),
        is_char_boundary(seq![78u8, 67, 58] + decimal(n), 3),
        (seq![78u8, 67, 58] + decimal(n)).skip(3) == decimal(n),
{
    let kk = seq![78u8, 67, 58];
    let line = kk + decimal(n);
    assert(key_name(ConfigKey::NComms) =~= kk);
    lemma_decimal_digits(n);
    lemma_contains_prefix(kk, decimal(n));
    lemma_line_lacks(kk, n, 80u8);
    lemma_absent_byte(line, key_name(ConfigKey::PmIp), 0);
    lemma_line_lacks(kk, n, 80u8);
    lemma_absent_byte(line, key_name(ConfigKey::PmPort), 0);
    lemma_line_lacks(kk, n, 77u8);
    lemma_absent_byte(line, key_name(ConfigKey::MemSize), 0);
    lemma_line_lacks(kk, n, 84u8);
    lemma_absent_byte(line, key_name(ConfigKey::TimeQuantum), 0);
    lemma_line_lacks(kk, n, 80u8);
    lemma_absent_byte(line, key_name(ConfigKey::PrintTime), 0);
    assert(line.skip(3) =~= decimal(n));
    assert(line[3] == decimal(n)[0]);
    assert(is_digit(decimal(n)[0]));
}

#[verifier::rlimit(100)]
proof fn lemma_key_of_conn_qsize(n: nat)
    ensures
        line_key(seq![67u8, 81, 83, 58] + decimal(n)) == Some(ConfigKey::ConnQSize),
        is_char_boundary(seq![67u8, 81, 83, 58] + decimal(n), 4),
        (seq![67u8, 81, 83, 58] + decimal(n)).skip(4) == decimal(n),
{
    let kk = seq![67u8, 81, 83, 58];
    let line = kk + decimal(n);
    assert(key_name(ConfigKey::ConnQSize) =~= kk);
    lemma_decimal_digits(n);
    lemma_contains_prefix(kk, decimal(n));
    lemma_line_lacks(kk, n, 80u8);
    lemma_absent_byte(line, key_name(ConfigKey::PmIp), 0);
    lemma_line_lacks(kk, n, 80u8);
    lemma_absent_byte(line, key_name(ConfigKey::PmPort), 0);
    lemma_line_lacks(kk, n, 77u8);
    lemma_absent_byte(line, key_name(ConfigKey::MemSize), 0);
    lemma_line_lacks(kk, n, 84u8);
    lemma_absent_byte(line, key_name(ConfigKey::TimeQuantum), 0);
    lemma_line_lacks(kk, n, 80u8);
    lemma_absent_byte(line, key_name(ConfigKey::PrintTime), 0);
    lemma_line_lacks(kk, n, 78u8);
    lemma_absent_byte(line, key_name(ConfigKey::NComms), 0);
    assert(line.skip(4) =~= decimal(n));
    assert(line[4] == decimal(n)[0]);
    assert(is_digit(decimal(n)[0]));
}

proof fn lemma_msg_qsize_lacks_mem_size(n: nat)
    ensures
        !spec_contains(seq![77u8, 81, 83, 58] + decimal(n), key_name(ConfigKey::MemSize)),
{
    let line = seq![77u8, 81, 83, 58] + decimal(n);
    lemma_decimal_digits(n);
    if spec_contains(line, key_name(ConfigKey::MemSize)) {
        reveal(spec_contains);
        let e = key_name(ConfigKey::MemSize);
        let w = choose|w: int| 0 <= w <= line.len() - e.len() && #[trigger] line.subrange(w, w + e.len()) == e;
        assert(line.subrange(w, w + 2)[0] == line[w]);
        assert(line.subrange(w, w + 2)[1] == line[w + 1]);
        if w >= 4 {
            assert(line[w] == decimal(n)[w - 4]);
            assert(is_digit(decimal(n)[w - 4]));
        }
    }
}

#[verifier::rlimit(100)]
proof fn lemma_key_of_msg_qsize(n: nat)
    ensures
        line_key(seq![77u8, 81, 83, 58] + decimal(n)) == Some(ConfigKey::MsgQSize),
        is_char_boundary(seq![77u8, 81, 83, 58] + decimal(n), 4),
        (seq![77u8, 81, 83, 58] + decimal(n)).skip(4) == decimal(n),
{
    let kk = seq![77u8, 81, 83, 58];
    let line = kk + decimal(n);
    assert(key_name(ConfigKey::MsgQSize) =~= kk);
    lemma_decimal_digits(n);
    lemma_contains_prefix(kk, decimal(n));
    lemma_line_lacks(kk, n, 80u8);
    lemma_absent_byte(line, key_name(ConfigKey::PmIp), 0);
    lemma_line_lacks(kk, n, 80u8);
    lemma_absent_byte(line, key_name(ConfigKey::PmPort), 0);
    lemma_msg_qsize_lacks_mem_size(n);
    lemma_line_lacks(kk, n, 84u8);
    lemma_absent_byte(line, key_name(ConfigKey::TimeQuantum), 0);
    lemma_line_lacks(kk, n, 80u8);
    lemma_absent_byte(line, key_name(ConfigKey::PrintTime), 0);
    lemma_line_lacks(kk, n, 78u8);
    lemma_absent_byte(line, key_name(ConfigKey::NComms), 0);
    lemma_line_lacks(kk, n, 67u8);
    lemma_absent_byte(line, key_name(ConfigKey::ConnQSize), 0);
    assert(line.skip(4) =~= decimal(n));
    assert(line[4] == decimal(n)[0]);
    assert(is_digit(decimal(n)[0]));
}

proof fn lemma_pm_ip_line(c: ConfigView, ip: Seq<u8>, i: usize)
    requires
        ip.len() == 0 || !(0x80 <= ip[0] && ip[0] <= 0xBF),
    ensures
        spec_config_line(c, seq![80u8, 77, 95, 73, 80, 58] + ip, i) == Ok::<ConfigView, ConfigError>(ConfigView { pm_ip: ip, ..c }),
{
    let kk = seq![80u8, 77, 95, 73, 80, 58];
    let line = kk + ip;
    assert(key_name(ConfigKey::PmIp) =~= kk);
    lemma_contains_prefix(kk, ip);
    assert(line.skip(6) =~= ip);
    if ip.len() > 0 {
        assert(line[6] == ip[0]);
    }
}

proof fn lemma_pm_port_line(c: ConfigView, n: nat, i: usize)
    ensures
        n <= u16::MAX ==> spec_config_line(c, seq![80u8, 77, 95, 80, 79, 82, 84, 58] + decimal(n), i) == Ok::<ConfigView, ConfigError>(
            ConfigView { pm_port: n as u16, ..c },
        ),
        n > u16::MAX ==> spec_config_line(c, seq![80u8, 77, 95, 80, 79, 82, 84, 58] + decimal(n), i) == Err::<ConfigView, ConfigError>(
            ConfigError::InvalidValue(ConfigKey::PmPort, i),
        ),
{
    lemma_key_of_pm_port(n);
    lemma_parse_decimal(n, 0);
}

proof fn lemma_mem_size_line(c: ConfigView, n: nat, i: usize)
    ensures
        n <= u32::MAX ==> spec_config_line(c, seq![77u8, 58] + decimal(n), i) == Ok::<ConfigView, ConfigError>(
            ConfigView { mem_size: n as u32, ..c },
        ),
        n > u32::MAX ==> spec_config_line(c, seq![77u8, 58] + decimal(n), i) == Err::<ConfigView, ConfigError>(
            ConfigError::InvalidValue(ConfigKey::MemSize, i),
        ),
{
    lemma_key_of_mem_size(n);
    lemma_parse_decimal(n, 0);
}

proof fn lemma_time_quantum_line(c: ConfigView, n: nat, i: usize)
    ensures
        n <= u16::MAX ==> spec_config_line(c, seq![84u8, 81, 58] + decimal(n), i) == Ok::<ConfigView, ConfigError>(
            ConfigView { time_quantum: n as u16, ..c },
        ),
        n > u16::MAX ==> spec_config_line(c, seq![84u8, 81, 58] + decimal(n), i) == Err::<ConfigView, ConfigError>(
            ConfigError::InvalidValue(ConfigKey::TimeQuantum, i),
        ),
{
    lemma_key_of_time_quantum(n);
    lemma_parse_decimal(n, 0);
}

proof fn lemma_print_time_line(c: ConfigView, n: nat, i: usize)
    ensures
        n <= u16::MAX ==> spec_config_line(c, seq![80u8, 84, 58] + decimal(n), i) == Ok::<ConfigView, ConfigError>(
            ConfigView { print_time: n as u16, ..c },
        ),
        n > u16::MAX ==> spec_config_line(c, seq![80u8, 84, 58] + decimal(n), i) == Err::<ConfigView, ConfigError>(
            ConfigError::InvalidValue(ConfigKey::PrintTime, i),
        ),
{
    lemma_key_of_print_time(n);
    lemma_parse_decimal(n, 0);
}

proof fn lemma_n_comms_line(c: ConfigView, n: nat, i: usize)
    ensures
        n <= u16::MAX ==> spec_config_line(c, seq![78u8, 67, 58] + decimal(n), i) == Ok::<ConfigView, ConfigError>(
            ConfigView { n_comms: n as u16, ..c },
        ),
        n > u16::MAX ==> spec_config_line(c, seq![78u8, 67, 58] + decimal(n), i) == Err::<ConfigView, ConfigError>(
            ConfigError::InvalidValue(ConfigKey::NComms, i),
        ),
{
    lemma_key_of_n_comms(n);
    lemma_parse_decimal(n, 0);
}

proof fn lemma_conn_qsize_line(c: ConfigView, n: nat, i: usize)
    ensures
        n <= u16::MAX ==> spec_config_line(c, seq![67u8, 81, 83, 58] + decimal(n), i) == Ok::<ConfigView, ConfigError>(
            ConfigView { conn_qsize: n as u16, ..c },
        ),
        n > u16::MAX ==> spec_config_line(c, seq![67u8, 81, 83, 58] + decimal(n), i) == Err::<ConfigView, ConfigError>(
            ConfigError::InvalidValue(ConfigKey::ConnQSize, i),
        ),
{
    lemma_key_of_conn_qsize(n);
    lemma_parse_decimal(n, 0);
}

proof fn lemma_msg_qsize_line(c: ConfigView, n: nat, i: usize)
    ensures
        n <= u16::MAX ==> spec_config_line(c, seq![77u8, 81, 83, 58] + decimal(n), i) == Ok::<ConfigView, ConfigError>(
            ConfigView { msg_qsize: n as u16, ..c },
        ),
        n > u16::MAX ==> spec_config_line(c, seq![77u8, 81, 83, 58] + decimal(n), i) == Err::<ConfigView, ConfigError>(
            ConfigError::InvalidValue(ConfigKey::MsgQSize, i),
        ),
{
    lemma_key_of_msg_qsize(n);
    lemma_parse_decimal(n, 0);
}

/// What a setting line does: `PM_IP:` followed by any text sets the
/// printer manager's address to that text; each numeric setting's name
/// followed by a number in decimal sets that setting to the number when it
/// fits the setting's type (`u32` for `M:`, `u16` for the others) and is
/// refused otherwise. Every other setting is left as it was.
pub proof fn lemma_config_line_values(c: ConfigView, n: nat, ip: Seq<u8>, i: usize)
    ensures
        (ip.len() == 0 || !(0x80 <= ip[0] && ip[0] <= 0xBF)) ==> spec_config_line(c, seq![80u8, 77, 95, 73, 80, 58] + ip, i)
            == Ok::<ConfigView, ConfigError>(ConfigView { pm_ip: ip, ..c }),
        n <= u16::MAX ==> spec_config_line(c, seq![80u8, 77, 95, 80, 79, 82, 84, 58] + decimal(n), i) == Ok::<ConfigView, ConfigError>(
            ConfigView { pm_port: n as u16, ..c },
        ),
        n > u16::MAX ==> spec_config_line(c, seq![80u8, 77, 95, 80, 79, 82, 84, 58] + decimal(n), i) == Err::<ConfigView, ConfigError>(
            ConfigError::InvalidValue(ConfigKey::PmPort, i),
        ),
        n <= u32::MAX ==> spec_config_line(c, seq![77u8, 58] + decimal(n), i) == Ok::<ConfigView, ConfigError>(
            ConfigView { mem_size: n as u32, ..c },
        ),
        n > u32::MAX ==> spec_config_line(c, seq![77u8, 58] + decimal(n), i) == Err::<ConfigView, ConfigError>(
            ConfigError::InvalidValue(ConfigKey::MemSize, i),
        ),
        n <= u16::MAX ==> spec_config_line(c, seq![84u8, 81, 58] + decimal(n), i) == Ok::<ConfigView, ConfigError>(
            ConfigView { time_quantum: n as u16, ..c },
        ),
        n > u16::MAX ==> spec_config_line(c, seq![84u8, 81, 58] + decimal(n), i) == Err::<ConfigView, ConfigError>(
            ConfigError::InvalidValue(ConfigKey::TimeQuantum, i),
        ),
        n <= u16::MAX ==> spec_config_line(c, seq![80u8, 84, 58] + decimal(n), i) == Ok::<ConfigView, ConfigError>(
            ConfigView { print_time: n as u16, ..c },
        ),
        n > u16::MAX ==> spec_config_line(c, seq![80u8, 84, 58] + decimal(n), i) == Err::<ConfigView, ConfigError>(
            ConfigError::InvalidValue(ConfigKey::PrintTime, i),
        ),
        n <= u16::MAX ==> spec_config_line(c, seq![78u8, 67, 58] + decimal(n), i) == Ok::<ConfigView, ConfigError>(
            ConfigView { n_comms: n as u16, ..c },
        ),
        n > u16::MAX ==> spec_config_line(c, seq![78u8, 67, 58] + decimal(n), i) == Err::<ConfigView, ConfigError>(
            ConfigError::InvalidValue(ConfigKey::NComms, i),
        ),
        n <= u16::MAX ==> spec_config_line(c, seq![67u8, 81, 83, 58] + decimal(n), i) == Ok::<ConfigView, ConfigError>(
            ConfigView { conn_qsize: n as u16, ..c },
        ),
        n > u16::MAX ==> spec_config_line(c, seq![67u8, 81, 83, 58] + decimal(n), i) == Err::<ConfigView, ConfigError>(
            ConfigError::InvalidValue(ConfigKey::ConnQSize, i),
        ),
        n <= u16::MAX ==> spec_config_line(c, seq![77u8, 81, 83, 58] + decimal(n), i) == Ok::<ConfigView, ConfigError>(
            ConfigView { msg_qsize: n as u16, ..c },
        ),
        n > u16::MAX ==> spec_config_line(c, seq![77u8, 81, 83, 58] + decimal(n), i) == Err::<ConfigView, ConfigError>(
            ConfigError::InvalidValue(ConfigKey::MsgQSize, i),
        ),
{
    if ip.len() == 0 || !(0x80 <= ip[0] && ip[0] <= 0xBF) {
        lemma_pm_ip_line(c, ip, i);
    }
    lemma_pm_port_line(c, n, i);
    lemma_mem_size_line(c, n, i);
    lemma_time_quantum_line(c, n, i);
    lemma_print_time_line(c, n, i);
    lemma_n_comms_line(c, n, i);
    lemma_conn_qsize_line(c, n, i);
    lemma_msg_qsize_line(c, n, i);
}

proof fn lemma_config_error_stops(lines: Seq<Seq<u8>>, k: int)
    requires
        0 <= k <= lines.len(),
        spec_config_lines(lines.take(k)) is Err,
    ensures
        spec_config_lines(lines) == spec_config_lines(lines.take(k)),
    decreases lines.len() - k,
{
    if k == lines.len() {
        assert(lines.take(k) =~= lines);
    } else {
        assert(lines.take(k + 1).drop_last() =~= lines.take(k));
        lemma_config_error_stops(lines, k + 1);
    }
}

/// Reads the configuration text: each line, without its leading and
/// trailing whitespace, sets the first setting whose name it contains, from
/// the byte after the name's length on; a line with no setting name is
/// handed back (without its whitespace). The computer id is left at its default.
pub fn parse_config_params(config: &[u8]) -> (r: Result<(SysConfig, PrintManagerConfig, Vec<Vec<u8>>), ConfigError>)
    ensures
        match spec_parse_config(config@) {
            Ok(c) => r matches Ok((sys, pm, un)) && config_view(&sys, &pm, un@) == c && sys.cid == 1,
            Err(e) => r matches Err(e2) && e2 == e,
        },
{
    let lines = split_bytes(config, 10u8);
    let ghost lv = vecs_view(lines@);
    let mut sys = SysConfig::new();
    let mut pm = PrintManagerConfig::new();
    let mut unexpected: Vec<Vec<u8>> = Vec::new();
    let mut i: usize = 0;
    proof {
        assert(lv.take(0) =~= Seq::<Seq<u8>>::empty());
        assert(pm.pm_ip@ =~= Seq::<u8>::empty());
        assert(vecs_view(unexpected@) =~= Seq::<Seq<u8>>::empty());
        assert(config_view(&sys, &pm, unexpected@) == default_config());
    }
    while i < lines.len()
        invariant
            lv == vecs_view(lines@),
            lv == spec_split(config@, 10u8),
            i <= lines@.len(),
            sys.cid == 1,
            spec_config_lines(lv.take(i as int)) == Ok::<ConfigView, ConfigError>(config_view(&sys, &pm, unexpected@)),
        decreases lines@.len() - i,
    {
        let trimmed = trim(lines[i].as_slice());
        let line = trimmed.as_slice();
        let ghost c0 = config_view(&sys, &pm, unexpected@);
        proof {
            assert(lines@[i as int]@ == lv[i as int]);
            assert(line@ == spec_trim(lv[i as int]));
            assert(lv.take(i + 1).drop_last() =~= lv.take(i as int));
            assert(lv.take(i + 1).last() == lv[i as int]);
        }
        match find_key(line) {
            None => {
                let copy = copy_range(line, 0, line.len());
                assert(copy@ =~= line@);
                unexpected.push(copy);
                assert(vecs_view(unexpected@) =~= c0.unexpected.push(line@));
            },
            Some(k) => {
                let name = key_bytes(k);
                let n = name.len();
                proof {
                    reveal(spec_contains);
                    let w = choose|w: int| 0 <= w <= line@.len() - name@.len() && #[trigger] line@.subrange(w, w + name@.len()) == name@;
                }
                if n < line.len() && 0x80 <= line[n] && line[n] <= 0xBF {
                    proof {
                        lemma_config_error_stops(lv, i + 1);
                    }
                    return Err(ConfigError::NotCharBoundary(k, i));
                }
                let v = copy_range(line, n, line.len());
                assert(v@ =~= line@.skip(n as int));
                match k {
                    ConfigKey::PmIp => {
                        pm.pm_ip = v;
                    },
                    ConfigKey::MemSize => {
                        match parse_u32(v.as_slice()) {
                            Some(x) => {
                                sys.mem_size = x;
                            },
                            None => {
                                proof {
                                    lemma_config_error_stops(lv, i + 1);
                                }
                                return Err(ConfigError::InvalidValue(k, i));
                            },
                        }
                    },
                    _ => {
                        let x = match parse_u16(v.as_slice()) {
                            Some(x) => x,
                            None => {
                                proof {
                                    lemma_config_error_stops(lv, i + 1);
                                }
                                return Err(ConfigError::InvalidValue(k, i));
                            },
                        };
                        match k {
                            ConfigKey::PmPort => {
                                pm.pm_port = x;
                            },
                            ConfigKey::TimeQuantum => {
                                sys.time_quantum = x;
                            },
                            ConfigKey::PrintTime => {
                                pm.print_time = x;
                            },
                            ConfigKey::NComms => {
                                pm.n_comms = x;
                            },
                            ConfigKey::ConnQSize => {
                                pm.conn_qsize = x;
                            },
                            _ => {
                                pm.msg_qsize = x;
                            },
                        }
                    },
                }
            },
        }
        assert(spec_config_lines(lv.take(i + 1)) == spec_config_line(c0, spec_trim(lv[i as int]), i));
        i = i + 1;
    }
    proof {
        assert(lv.take(i as int) =~= lv);
    }
    Ok((sys, pm, unexpected))
}

/// Boots the computer. A client (any id but the printer's) gets a CPU with
/// zeroed registers, a zeroed memory of the configured size with the idle
/// program loaded at address 0 (when its text could be read), and a
/// scheduler holding the idle process alone (id 0, next id 1, empty ready
/// queue, no spool). The printer gets none of them.
pub fn boot_system(
    sysconfig: &SysConfig,
    pmconfig: &PrintManagerConfig,
    idle_prog: Option<&[u8]>,
) -> (r: Option<Result<(RegisterFile, Memory, Scheduler), LoadError>>)
    ensures
        sysconfig.cid != PRINTER_CID <==> r is Some,
        r matches Some(res) ==> {
            let zeros = Seq::new(sysconfig.mem_size as nat, |i: int| 0i32);
            &&& match idle_prog {
                Some(p) => match spec_load(p@, zeros, 0) {
                    Ok(m) => res matches Ok((_, mem, _)) && mem.arr@ == m,
                    Err(e) => res matches Err(e2) && e2 == e,
                },
                None => res matches Ok((_, mem, _)) && mem.arr@ == zeros,
            }
            &&& res matches Ok((regs, mem, s)) ==> {
                &&& regs == zero_registers()
                &&& mem.wf()
                &&& mem.size == sysconfig.mem_size
                &&& s.wf()
                &&& s@.pcbs.len() == 1
                &&& s@.pcbs[0].pid == 0
                &&& s@.pcbs[0].reg_state == initial_pcb_regs(0)
                &&& s@.pcbs[0].prog_fname@ == idle_name()
                &&& s@.queue == Seq::<u16>::empty()
                &&& s@.pid_count == 1
                &&& s@.spools == Seq::<(u16, Seq<i32>)>::empty()
            }
        },
{
    if sysconfig.cid != PRINTER_CID {
        let regs = cpu_regs_init();
        let mut mem = mem_init(sysconfig.mem_size as usize);
        match scheduler_init(&mut mem, idle_prog) {
            Ok(sched) => Some(Ok((regs, mem, sched))),
            Err(e) => Some(Err(e)),
        }
    } else {
        None
    }
}

/// Why a computer id was refused.
#[derive(Clone, Copy, PartialEq, Eq, Structural, Debug)]
pub enum CidError {
    /// Computer ids are not negative.
    Negative(i32),
}

/// Checks a computer id read as an `i32`: a negative one is refused;
/// otherwise the id is taken modulo 2^16 (as a cast to `u16` does) and said
/// to be the printer's or not.
pub fn validate_cid(read_cid: i32, printer_cid: u16) -> (r: Result<(u16, bool), CidError>)
    ensures
        read_cid < 0 ==> r == Err::<(u16, bool), CidError>(CidError::Negative(read_cid)),
        read_cid >= 0 ==> r == Ok::<(u16, bool), CidError>(
            ((read_cid % 65536) as u16, (read_cid % 65536) as u16 == printer_cid),
        ),
{
    if read_cid < 0 {
        return Err(CidError::Negative(read_cid));
    }
    let cid: u16 = (read_cid % 65536) as u16;
    Ok((cid, cid == printer_cid))
}

} // verus!
