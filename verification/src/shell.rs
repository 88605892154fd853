//! The shell: the program file format and its loader, and the commands a
//! user or a program can give.
//!
//! A program file has a header line `n_code n_data`, then `n_code` lines
//! `op_code operand`, then `n_data` lines each holding one data word.
//! Loading at address `p` puts instruction `k` at words `p + 2k` (op code)
//! and `p + 2k + 1` (operand), and data word `k` at `p + 2 n_code + k`.
use vstd::prelude::*;

use crate::memory::Memory;
use crate::scheduler::{initial_pcb_regs, process_submit, Scheduler};
use crate::text::{
    lemma_split_nonempty, parse_i32, parse_u16, parse_u64, parse_u8, parse_usize, parsed_unsigned_upto,
    spec_parse_signed, spec_parse_unsigned, decimal, signed_decimal, lemma_decimal_digits,
    lemma_parse_decimal, lemma_split_two, lemma_trim_end_digit_end, all_digits, is_digit,
    spec_split, spec_trim_end, split_bytes, trim_end, vecs_view,
};

verus! {

/// Why a program could not be loaded. Line numbers count from 0, the
/// header being line 0.
#[derive(Clone, Copy, PartialEq, Eq, Structural, Debug)]
pub enum LoadError {
    /// The header's first field is not a count.
    BadCodeCount,
    /// The header has no second field.
    MissingDataCount,
    /// The header's second field is not a count.
    BadDataCount,
    /// The program would end past the largest address.
    AddressOverflow,
    /// The file ends before this line.
    MissingLine(usize),
    /// This instruction line does not start with an op code.
    BadOpCode(usize),
    /// This instruction line has no operand.
    MissingOperand(usize),
    /// This instruction line's operand is not an `i32`.
    BadOperand(usize),
    /// This data line is not an `i32`.
    BadData(usize),
    /// This address lies past the end of memory.
    OutOfMemory(usize),
}

pub open spec fn parsed_i32(s: Seq<u8>) -> Option<i32> {
    match spec_parse_signed(s) {
        Some(v) => if i32::MIN <= v <= i32::MAX { Some(v as i32) } else { None },
        None => None,
    }
}

/// The header: the number of instruction lines and of data lines.
pub open spec fn spec_header(lines: Seq<Seq<u8>>) -> Result<(nat, nat), LoadError> {
    let meta = spec_split(lines[0], 32u8);
    match parsed_unsigned_upto(meta[0], usize::MAX as nat) {
        None => Err(LoadError::BadCodeCount),
        Some(nc) => if meta.len() < 2 {
            Err(LoadError::MissingDataCount)
        } else {
            match parsed_unsigned_upto(meta[1], usize::MAX as nat) {
                None => Err(LoadError::BadDataCount),
                Some(nd) => Ok((nc, nd)),
            }
        },
    }
}

/// Instruction line number `j`: its op code and operand, the two first
/// space-separated fields once trailing whitespace is gone.
pub open spec fn spec_code_line(line: Seq<u8>, j: usize) -> Result<(u16, i32), LoadError> {
    let parts = spec_split(spec_trim_end(line), 32u8);
    match parsed_unsigned_upto(parts[0], u16::MAX as nat) {
        None => Err(LoadError::BadOpCode(j)),
        Some(op) => if parts.len() < 2 {
            Err(LoadError::MissingOperand(j))
        } else {
            match parsed_i32(parts[1]) {
                None => Err(LoadError::BadOperand(j)),
                Some(v) => Ok((op as u16, v)),
            }
        },
    }
}

/// Loading `n` instruction lines, starting with line `j`, at address `addr`.
pub open spec fn spec_load_code(lines: Seq<Seq<u8>>, mem: Seq<i32>, addr: nat, j: nat, n: nat) -> Result<Seq<i32>, LoadError>
    decreases n,
{
    if n == 0 {
        Ok(mem)
    } else if j >= lines.len() {
        Err(LoadError::MissingLine(j as usize))
    } else {
        match spec_code_line(lines[j as int], j as usize) {
            Err(e) => Err(e),
            Ok((op, operand)) => if addr >= mem.len() {
                Err(LoadError::OutOfMemory(addr as usize))
            } else if addr + 1 >= mem.len() {
                Err(LoadError::OutOfMemory((addr + 1) as usize))
            } else {
                spec_load_code(
                    lines,
                    mem.update(addr as int, op as i32).update(addr + 1int, operand),
                    addr + 2,
                    j + 1,
                    (n - 1) as nat,
                )
            },
        }
    }
}

/// Loading `n` data lines, starting with line `j`, at address `addr`.
pub open spec fn spec_load_data(lines: Seq<Seq<u8>>, mem: Seq<i32>, addr: nat, j: nat, n: nat) -> Result<Seq<i32>, LoadError>
    decreases n,
{
    if n == 0 {
        Ok(mem)
    } else if j >= lines.len() {
        Err(LoadError::MissingLine(j as usize))
    } else {
        match parsed_i32(spec_trim_end(lines[j as int])) {
            None => Err(LoadError::BadData(j as usize)),
            Some(v) => if addr >= mem.len() {
                Err(LoadError::OutOfMemory(addr as usize))
            } else {
                spec_load_data(lines, mem.update(addr as int, v), addr + 1, j + 1, (n - 1) as nat)
            },
        }
    }
}

/// Loading the program text `prog` at address `p_addr` into memory `mem`.
pub open spec fn spec_load(prog: Seq<u8>, mem: Seq<i32>, p_addr: nat) -> Result<Seq<i32>, LoadError> {
    let lines = spec_split(prog, 10u8);
    match spec_header(lines) {
        Err(e) => Err(e),
        Ok((nc, nd)) => if p_addr + 2 * nc > usize::MAX {
            Err(LoadError::AddressOverflow)
        } else {
            match spec_load_code(lines, mem, p_addr, 1, nc) {
                Err(e) => Err(e),
                Ok(m) => if p_addr + 2 * nc + nd > usize::MAX {
                    Err(LoadError::AddressOverflow)
                } else {
                    spec_load_data(lines, m, p_addr + 2 * nc, 1 + nc, nd)
                },
            }
        },
    }
}

fn parse_code_line(line: &[u8], j: usize) -> (r: Result<(u16, i32), LoadError>)
    ensures
        r == spec_code_line(line@, j),
{
    let t = trim_end(line);
    let parts = split_bytes(t.as_slice(), 32u8);
    proof {
        lemma_split_nonempty(t@, 32u8);
        assert(parts@[0]@ == vecs_view(parts@)[0]);
    }
    let op = match parse_u16(parts[0].as_slice()) {
        Some(op) => op,
        None => return Err(LoadError::BadOpCode(j)),
    };
    if parts.len() < 2 {
        return Err(LoadError::MissingOperand(j));
    }
    assert(parts@[1]@ == vecs_view(parts@)[1]);
    match parse_i32(parts[1].as_slice()) {
        Some(v) => Ok((op, v)),
        None => Err(LoadError::BadOperand(j)),
    }
}

/// Loads the program text `prog` into memory at address `p_addr`. On an
/// error memory is left as it was.
pub fn shell_load_prog(mem: &mut Memory, prog: &[u8], p_addr: usize) -> (r: Result<(), LoadError>)
    requires
        old(mem).wf(),
    ensures
        final(mem).wf(),
        final(mem).size == old(mem).size,
        match spec_load(prog@, old(mem).arr@, p_addr as nat) {
            Ok(m) => r is Ok && final(mem).arr@ == m,
            Err(e) => r == Err::<(), LoadError>(e) && final(mem).arr@ == old(mem).arr@,
        },
{
    let lines = split_bytes(prog, 10u8);
    let ghost lv = vecs_view(lines@);
    proof {
        lemma_split_nonempty(prog@, 10u8);
        assert(lines@[0]@ == lv[0]);
    }
    let meta = split_bytes(lines[0].as_slice(), 32u8);
    proof {
        lemma_split_nonempty(lines@[0]@, 32u8);
        assert(meta@[0]@ == vecs_view(meta@)[0]);
    }
    let n_code = match parse_usize(meta[0].as_slice()) {
        Some(n) => n,
        None => return Err(LoadError::BadCodeCount),
    };
    if meta.len() < 2 {
        return Err(LoadError::MissingDataCount);
    }
    assert(meta@[1]@ == vecs_view(meta@)[1]);
    let n_data = match parse_usize(meta[1].as_slice()) {
        Some(n) => n,
        None => return Err(LoadError::BadDataCount),
    };
    let code_end = match n_code.checked_mul(2) {
        Some(c) => match p_addr.checked_add(c) {
            Some(e) => e,
            None => return Err(LoadError::AddressOverflow),
        },
        None => return Err(LoadError::AddressOverflow),
    };
    let mut work = mem.arr.clone();
    assert(work@ =~= mem.arr@);
    let ghost m0 = mem.arr@;
    let mut i = p_addr;
    let mut j: usize = 1;
    let mut k: usize = 0;
    while k < n_code
        invariant
            lv == vecs_view(lines@),
            lv == spec_split(prog@, 10u8),
            spec_header(lv) == Ok::<(nat, nat), LoadError>((n_code as nat, n_data as nat)),
            p_addr + 2 * n_code <= usize::MAX,
            mem.wf(),
            mem.size == old(mem).size,
            mem.arr@ == m0,
            m0 == old(mem).arr@,
            k <= n_code,
            code_end == p_addr + 2 * n_code,
            i == p_addr + 2 * k,
            j == 1 + k,
            work@.len() == m0.len(),
            spec_load_code(lv, m0, p_addr as nat, 1, n_code as nat)
                == spec_load_code(lv, work@, i as nat, j as nat, (n_code - k) as nat),
        decreases n_code - k,
    {
        if j >= lines.len() {
            return Err(LoadError::MissingLine(j));
        }
        assert(lines@[j as int]@ == lv[j as int]);
        let (op, operand) = parse_code_line(lines[j].as_slice(), j)?;
        if i >= work.len() {
            return Err(LoadError::OutOfMemory(i));
        }
        if i + 1 >= work.len() {
            return Err(LoadError::OutOfMemory(i + 1));
        }
        work.set(i, op as i32);
        work.set(i + 1, operand);
        i = i + 2;
        j = j + 1;
        k = k + 1;
    }
    let data_end = match code_end.checked_add(n_data) {
        Some(e) => e,
        None => return Err(LoadError::AddressOverflow),
    };
    let ghost m1 = work@;
    let mut d: usize = 0;
    while d < n_data
        invariant
            lv == vecs_view(lines@),
            mem.wf(),
            mem.size == old(mem).size,
            mem.arr@ == old(mem).arr@,
            spec_load(prog@, old(mem).arr@, p_addr as nat)
                == spec_load_data(lv, work@, i as nat, j as nat, (n_data - d) as nat),
            d <= n_data,
            data_end == code_end + n_data,
            i == code_end + d,
            j == 1 + n_code + d,
            work@.len() == m0.len(),
            spec_load_data(lv, m1, code_end as nat, (1 + n_code) as nat, n_data as nat)
                == spec_load_data(lv, work@, i as nat, j as nat, (n_data - d) as nat),
        decreases n_data - d,
    {
        if j >= lines.len() {
            return Err(LoadError::MissingLine(j));
        }
        assert(lines@[j as int]@ == lv[j as int]);
        let t = trim_end(lines[j].as_slice());
        let v = match parse_i32(t.as_slice()) {
            Some(v) => v,
            None => return Err(LoadError::BadData(j)),
        };
        if i >= work.len() {
            return Err(LoadError::OutOfMemory(i));
        }
        work.set(i, v);
        i = i + 1;
        j = j + 1;
        d = d + 1;
    }
    mem.arr = work;
    Ok(())
}


proof fn lemma_load_code(lines: Seq<Seq<u8>>, mem: Seq<i32>, addr: nat, j: nat, n: nat)
    requires
        spec_load_code(lines, mem, addr, j, n) is Ok,
    ensures
        ({
            let m = spec_load_code(lines, mem, addr, j, n)->Ok_0;
            &&& m.len() == mem.len()
            &&& n > 0 ==> addr + 2 * n <= mem.len()
            &&& forall|k: int| 0 <= k < n ==> {
                let line = #[trigger] spec_code_line(lines[j + k], (j + k) as usize);
                &&& line is Ok
                &&& m[addr + 2 * k] == line->Ok_0.0 as i32
                &&& m[addr + 2 * k + 1] == line->Ok_0.1
            }
            &&& forall|a: int| 0 <= a < mem.len() && !(addr <= a < addr + 2 * n) ==> m[a] == mem[a]
        }),
    decreases n,
{
    if n > 0 {
        let (op, operand) = spec_code_line(lines[j as int], j as usize)->Ok_0;
        let mem2 = mem.update(addr as int, op as i32).update(addr + 1int, operand);
        lemma_load_code(lines, mem2, addr + 2, j + 1, (n - 1) as nat);
        let m = spec_load_code(lines, mem, addr, j, n)->Ok_0;
        assert forall|k: int| 0 <= k < n implies {
            let line = #[trigger] spec_code_line(lines[j + k], (j + k) as usize);
            &&& line is Ok
            &&& m[addr + 2 * k] == line->Ok_0.0 as i32
            &&& m[addr + 2 * k + 1] == line->Ok_0.1
        } by {
            if k > 0 {
                let k1 = k - 1;
                assert(spec_code_line(lines[(j + 1) + k1], ((j + 1) + k1) as usize) is Ok);
                assert(j + k == (j + 1) + k1);
            }
        }
    }
}

proof fn lemma_load_data(lines: Seq<Seq<u8>>, mem: Seq<i32>, addr: nat, j: nat, n: nat)
    requires
        spec_load_data(lines, mem, addr, j, n) is Ok,
    ensures
        ({
            let m = spec_load_data(lines, mem, addr, j, n)->Ok_0;
            &&& m.len() == mem.len()
            &&& n > 0 ==> addr + n <= mem.len()
            &&& forall|k: int| 0 <= k < n ==> {
                let v = #[trigger] parsed_i32(spec_trim_end(lines[j + k]));
                &&& v is Some
                &&& m[addr + k] == v->0
            }
            &&& forall|a: int| 0 <= a < mem.len() && !(addr <= a < addr + n) ==> m[a] == mem[a]
        }),
    decreases n,
{
    if n > 0 {
        let v = parsed_i32(spec_trim_end(lines[j as int]))->0;
        let mem2 = mem.update(addr as int, v);
        lemma_load_data(lines, mem2, addr + 1, j + 1, (n - 1) as nat);
        let m = spec_load_data(lines, mem, addr, j, n)->Ok_0;
        assert forall|k: int| 0 <= k < n implies {
            let v = #[trigger] parsed_i32(spec_trim_end(lines[j + k]));
            &&& v is Some
            &&& m[addr + k] == v->0
        } by {
            if k > 0 {
                let k1 = k - 1;
                assert(parsed_i32(spec_trim_end(lines[(j + 1) + k1])) is Some);
                assert(j + k == (j + 1) + k1);
            }
        }
    }
}

/// A program that loads is where the shell said: with `n_code`
/// instructions and `n_data` data words in its header, instruction `k` (from
/// line `k + 1`) is at words `p_addr + 2k` and `p_addr + 2k + 1`, data word
/// `k` (from line `n_code + 1 + k`) at `p_addr + 2 n_code + k`, a program of
/// at least one word fits in memory, and every other word keeps its value.
pub proof fn lemma_load_places_program(prog: Seq<u8>, mem: Seq<i32>, p_addr: nat)
    requires
        spec_load(prog, mem, p_addr) is Ok,
    ensures
        ({
            let lines = spec_split(prog, 10u8);
            let (nc, nd) = spec_header(lines)->Ok_0;
            let m = spec_load(prog, mem, p_addr)->Ok_0;
            &&& spec_header(lines) is Ok
            &&& m.len() == mem.len()
            &&& 2 * nc + nd > 0 ==> p_addr + 2 * nc + nd <= mem.len()
            &&& forall|k: int| 0 <= k < nc ==> {
                let line = #[trigger] spec_code_line(lines[1 + k], (1 + k) as usize);
                &&& line is Ok
                &&& m[p_addr + 2 * k] == line->Ok_0.0 as i32
                &&& m[p_addr + 2 * k + 1] == line->Ok_0.1
            }
            &&& forall|k: int| 0 <= k < nd ==> {
                let v = #[trigger] parsed_i32(spec_trim_end(lines[1 + nc + k]));
                &&& v is Some
                &&& m[p_addr + 2 * nc + k] == v->0
            }
            &&& forall|a: int| 0 <= a < mem.len() && !(p_addr <= a < p_addr + 2 * nc + nd) ==> m[a] == mem[a]
        }),
{
    let lines = spec_split(prog, 10u8);
    let (nc, nd) = spec_header(lines)->Ok_0;
    lemma_load_code(lines, mem, p_addr, 1, nc);
    let m1 = spec_load_code(lines, mem, p_addr, 1, nc)->Ok_0;
    lemma_load_data(lines, m1, p_addr + 2 * nc, 1 + nc, nd);
    let m = spec_load(prog, mem, p_addr)->Ok_0;
    assert forall|k: int| 0 <= k < nc implies {
        let line = #[trigger] spec_code_line(lines[1 + k], (1 + k) as usize);
        &&& line is Ok
        &&& m[p_addr + 2 * k] == line->Ok_0.0 as i32
        &&& m[p_addr + 2 * k + 1] == line->Ok_0.1
    } by {
        assert(spec_code_line(lines[1 + k], (1 + k) as usize) is Ok);
    }
}

/// How an instruction line reads: once trailing whitespace is gone, its
/// first space-separated field is the op code, any `u16` written in decimal
/// (optionally with `+`), and its second field the operand, any `i32`
/// written in decimal with an optional sign, negative ones included; any
/// further fields are ignored. A first field that is not such a `u16`, a
/// missing second field, and a second field that is not such an `i32` are
/// refused, in that order.
pub proof fn lemma_code_line_semantics(line: Seq<u8>, j: usize)
    ensures
        ({
            let parts = spec_split(spec_trim_end(line), 32u8);
            let op = spec_parse_unsigned(parts[0]);
            &&& (op is Some && op->0 <= u16::MAX && parts.len() >= 2 && spec_parse_signed(parts[1]) is Some
                && i32::MIN <= spec_parse_signed(parts[1])->0 <= i32::MAX) ==> spec_code_line(line, j) == Ok::<
                (u16, i32),
                LoadError,
            >((op->0 as u16, spec_parse_signed(parts[1])->0 as i32))
            &&& !(op is Some && op->0 <= u16::MAX) ==> spec_code_line(line, j) == Err::<(u16, i32), LoadError>(
                LoadError::BadOpCode(j),
            )
            &&& (op is Some && op->0 <= u16::MAX && parts.len() < 2) ==> spec_code_line(line, j) == Err::<
                (u16, i32),
                LoadError,
            >(LoadError::MissingOperand(j))
            &&& (op is Some && op->0 <= u16::MAX && parts.len() >= 2 && !(spec_parse_signed(parts[1]) is Some
                && i32::MIN <= spec_parse_signed(parts[1])->0 <= i32::MAX)) ==> spec_code_line(line, j) == Err::<
                (u16, i32),
                LoadError,
            >(LoadError::BadOperand(j))
        }),
{
}

proof fn lemma_signed_decimal_shape(v: int)
    ensures
        signed_decimal(v).len() >= 1,
        is_digit(signed_decimal(v).last()),
        forall|i: int| 0 <= i < signed_decimal(v).len() ==> #[trigger] signed_decimal(v)[i] == 45u8 || is_digit(signed_decimal(v)[i]),
{
    if v < 0 {
        let d = decimal((-v) as nat);
        lemma_decimal_digits((-v) as nat);
        let m = seq![45u8] + d;
        assert(m.last() == d.last());
        assert forall|i: int| 0 <= i < m.len() implies #[trigger] m[i] == 45u8 || is_digit(m[i]) by {
            if i > 0 {
                assert(m[i] == d[i - 1]);
            }
        }
    } else {
        lemma_decimal_digits(v as nat);
    }
}

/// Any instruction, written as its op code and its operand in decimal
/// separated by one space, loads as exactly that op code and that operand,
/// negative operands included.
pub proof fn lemma_code_line_reads(op: u16, v: i32, j: usize)
    ensures
        spec_code_line(decimal(op as nat) + seq![32u8] + signed_decimal(v as int), j) == Ok::<(u16, i32), LoadError>(
            (op, v),
        ),
{
    let a = decimal(op as nat);
    let b = signed_decimal(v as int);
    let line = a + seq![32u8] + b;
    lemma_decimal_digits(op as nat);
    lemma_signed_decimal_shape(v as int);
    lemma_parse_decimal(op as nat, v as int);
    assert(line.last() == b.last());
    lemma_trim_end_digit_end(line);
    assert forall|i: int| 0 <= i < a.len() implies a[i] != 32u8 by {
        assert(is_digit(a[i]));
    }
    assert forall|i: int| 0 <= i < b.len() implies b[i] != 32u8 by {
        assert(b[i] == 45u8 || is_digit(b[i]));
    }
    lemma_split_two(a, b, 32u8);
    assert(is_digit(a[0]));
}

/// Any data word, written in decimal (negative ones with a `-`) on its own
/// line, loads as exactly that value.
pub proof fn lemma_data_line_reads(lines: Seq<Seq<u8>>, mem: Seq<i32>, addr: nat, j: nat, v: i32)
    requires
        j < lines.len(),
        lines[j as int] == signed_decimal(v as int),
        addr < mem.len(),
    ensures
        spec_load_data(lines, mem, addr, j, 1) == Ok::<Seq<i32>, LoadError>(mem.update(addr as int, v)),
{
    lemma_signed_decimal_shape(v as int);
    lemma_trim_end_digit_end(signed_decimal(v as int));
    lemma_parse_decimal(0, v as int);
    lemma_data_line_semantics(lines, mem, addr, j);
}

/// How the header reads: its first two space-separated fields are the
/// numbers of instruction lines and of data lines, each any `usize` written
/// in decimal (optionally with `+`); the line is not trimmed.
pub proof fn lemma_header_semantics(lines: Seq<Seq<u8>>)
    requires
        lines.len() >= 1,
    ensures
        ({
            let meta = spec_split(lines[0], 32u8);
            let nc = spec_parse_unsigned(meta[0]);
            &&& !(nc is Some && nc->0 <= usize::MAX) ==> spec_header(lines) == Err::<(nat, nat), LoadError>(
                LoadError::BadCodeCount,
            )
            &&& (nc is Some && nc->0 <= usize::MAX && meta.len() < 2) ==> spec_header(lines) == Err::<
                (nat, nat),
                LoadError,
            >(LoadError::MissingDataCount)
            &&& (nc is Some && nc->0 <= usize::MAX && meta.len() >= 2) ==> {
                let nd = spec_parse_unsigned(meta[1]);
                &&& (nd is Some && nd->0 <= usize::MAX) ==> spec_header(lines) == Ok::<(nat, nat), LoadError>(
                    (nc->0, nd->0),
                )
                &&& !(nd is Some && nd->0 <= usize::MAX) ==> spec_header(lines) == Err::<(nat, nat), LoadError>(
                    LoadError::BadDataCount,
                )
            }
        }),
{
}

/// How a data line loads: the line without its trailing whitespace must be
/// one `i32` written in decimal with an optional sign, negative ones
/// included, and that value, exactly, goes to its word; other words keep
/// their values.
pub proof fn lemma_data_line_semantics(lines: Seq<Seq<u8>>, mem: Seq<i32>, addr: nat, j: nat)
    requires
        j < lines.len(),
    ensures
        ({
            let v = spec_parse_signed(spec_trim_end(lines[j as int]));
            let good = v is Some && i32::MIN <= v->0 <= i32::MAX;
            &&& (good && addr < mem.len()) ==> spec_load_data(lines, mem, addr, j, 1) == Ok::<Seq<i32>, LoadError>(
                mem.update(addr as int, v->0 as i32),
            )
            &&& (good && addr >= mem.len()) ==> spec_load_data(lines, mem, addr, j, 1) == Err::<Seq<i32>, LoadError>(
                LoadError::OutOfMemory(addr as usize),
            )
            &&& !good ==> spec_load_data(lines, mem, addr, j, 1) == Err::<Seq<i32>, LoadError>(
                LoadError::BadData(j as usize),
            )
        }),
{
    let v = spec_parse_signed(spec_trim_end(lines[j as int]));
    if v is Some && i32::MIN <= v->0 <= i32::MAX && addr < mem.len() {
        assert(spec_load_data(lines, mem.update(addr as int, v->0 as i32), addr + 1, j + 1, 0) == Ok::<Seq<i32>, LoadError>(mem.update(addr as int, v->0 as i32)));
    }
}

/// A command of the computer's shell.
#[derive(Clone, Copy, PartialEq, Eq, Structural, Debug)]
pub enum ShellCommand {
    /// 0: shut the computer down.
    Terminate,
    /// 1: load and run a program.
    SubmitProgram,
    /// 2: print the registers.
    PrintRegisters,
    /// 3: print memory.
    PrintMemory,
    /// 4: print the ready queue.
    PrintReadyQueue,
    /// 5: print the PCB list.
    PrintPcbList,
    /// 6: print the open print spools.
    PrintSpools,
    /// 7: change the pause between scheduler rounds.
    UpdateSleepTime,
    /// Any other code.
    Invalid(u8),
}

/// A command of the printer computer's shell.
#[derive(Clone, Copy, PartialEq, Eq, Structural, Debug)]
pub enum PrinterShellCommand {
    /// 0: shut the printer down.
    Terminate,
    /// 6: print every computer's spools.
    DumpAllSpools,
    /// Any other code.
    Invalid(u8),
}

pub open spec fn spec_shell_command(cmd: u8) -> ShellCommand {
    if cmd == 0 {
        ShellCommand::Terminate
    } else if cmd == 1 {
        ShellCommand::SubmitProgram
    } else if cmd == 2 {
        ShellCommand::PrintRegisters
    } else if cmd == 3 {
        ShellCommand::PrintMemory
    } else if cmd == 4 {
        ShellCommand::PrintReadyQueue
    } else if cmd == 5 {
        ShellCommand::PrintPcbList
    } else if cmd == 6 {
        ShellCommand::PrintSpools
    } else if cmd == 7 {
        ShellCommand::UpdateSleepTime
    } else {
        ShellCommand::Invalid(cmd)
    }
}

/// The shell command with code `cmd`.
pub fn shell_command(cmd: u8) -> (c: ShellCommand)
    ensures
        c == spec_shell_command(cmd),
{
    match cmd {
        0 => ShellCommand::Terminate,
        1 => ShellCommand::SubmitProgram,
        2 => ShellCommand::PrintRegisters,
        3 => ShellCommand::PrintMemory,
        4 => ShellCommand::PrintReadyQueue,
        5 => ShellCommand::PrintPcbList,
        6 => ShellCommand::PrintSpools,
        7 => ShellCommand::UpdateSleepTime,
        _ => ShellCommand::Invalid(cmd),
    }
}

/// The printer shell's command with code `cmd`.
pub fn printer_shell_command(cmd: u8) -> (c: PrinterShellCommand)
    ensures
        c == if cmd == 0 {
            PrinterShellCommand::Terminate
        } else if cmd == 6 {
            PrinterShellCommand::DumpAllSpools
        } else {
            PrinterShellCommand::Invalid(cmd)
        },
{
    match cmd {
        0 => PrinterShellCommand::Terminate,
        6 => PrinterShellCommand::DumpAllSpools,
        _ => PrinterShellCommand::Invalid(cmd),
    }
}

/// The command code typed on a shell line: the line without its trailing
/// whitespace must be a `u8` other than 255 (which stands for "no command").
pub fn parse_shell_command(line: &[u8]) -> (r: Option<u8>)
    ensures
        r == match parsed_unsigned_upto(spec_trim_end(line@), u8::MAX as nat) {
            Some(v) => if v < u8::MAX { Some(v as u8) } else { None },
            None => None,
        },
{
    let t = trim_end(line);
    match parse_u8(t.as_slice()) {
        Some(v) => if v < u8::MAX { Some(v) } else { None },
        None => None,
    }
}

/// A new pause between scheduler rounds, typed on a shell line: the line
/// without its trailing whitespace must be a `u64` other than `u64::MAX`
/// (which stands for "no change").
pub fn parse_sleep_time(line: &[u8]) -> (r: Option<u64>)
    ensures
        r == match parsed_unsigned_upto(spec_trim_end(line@), u64::MAX as nat) {
            Some(v) => if v < u64::MAX { Some(v as u64) } else { None },
            None => None,
        },
{
    let t = trim_end(line);
    match parse_u64(t.as_slice()) {
        Some(v) => if v < u64::MAX { Some(v) } else { None },
        None => None,
    }
}

/// Why a "program file and base address" line was refused.
#[derive(Clone, Copy, PartialEq, Eq, Structural, Debug)]
pub enum SubmitInputError {
    /// The line does not have exactly two space-separated fields.
    WrongFieldCount,
    /// The second field is not a `usize`.
    InvalidBase,
}

pub open spec fn spec_submit_input(line: Seq<u8>) -> Result<(Seq<u8>, usize), SubmitInputError> {
    let parts = spec_split(spec_trim_end(line), 32u8);
    if parts.len() != 2 {
        Err(SubmitInputError::WrongFieldCount)
    } else {
        match parsed_unsigned_upto(parts[1], usize::MAX as nat) {
            None => Err(SubmitInputError::InvalidBase),
            Some(b) => Ok((parts[0], b as usize)),
        }
    }
}

/// Reads a "program file and base address" line: once trailing whitespace is
/// gone, exactly two fields separated by one space, the second a `usize`.
pub fn parse_submit_input(line: &[u8]) -> (r: Result<(Vec<u8>, usize), SubmitInputError>)
    ensures
        match spec_submit_input(line@) {
            Ok((f, b)) => r matches Ok((rf, rb)) && rf@ == f && rb == b,
            Err(e) => r == Err::<(Vec<u8>, usize), SubmitInputError>(e),
        },
{
    let t = trim_end(line);
    let mut parts = split_bytes(t.as_slice(), 32u8);
    if parts.len() != 2 {
        return Err(SubmitInputError::WrongFieldCount);
    }
    assert(parts@[1]@ == vecs_view(parts@)[1]);
    assert(parts@[0]@ == vecs_view(parts@)[0]);
    let base = match parse_usize(parts[1].as_slice()) {
        Some(b) => b,
        None => return Err(SubmitInputError::InvalidBase),
    };
    let fname = parts.swap_remove(0);
    Ok((fname, base))
}

/// Why a program could not be submitted from the shell.
#[derive(Clone, Copy, PartialEq, Eq, Structural, Debug)]
pub enum SubmitError {
    /// The "program file and base address" line was refused.
    Input(SubmitInputError),
    /// The program text could not be loaded.
    Load(LoadError),
}

/// Submits a program from the shell, given the typed "program file and base
/// address" line and the text of the file it names (`None` when that file
/// could not be read). A refused line changes nothing. Otherwise the text,
/// when there is one, is loaded at the base address; then the program's
/// process is created, loaded at the base address taken modulo 2^16 and
/// named by the line's first field, and queued. Returns the new process id.
/// On a load error nothing changes.
pub fn shell_process_submit(
    sched: &mut Scheduler,
    mem: &mut Memory,
    line: &[u8],
    prog: Option<&[u8]>,
) -> (r: Result<u16, SubmitError>)
    requires
        old(sched).wf(),
        old(sched).pid_count < u16::MAX || spec_submit_input(line@) is Err,
        old(mem).wf(),
    ensures
        final(sched).wf(),
        final(mem).wf(),
        final(mem).size == old(mem).size,
        match spec_submit_input(line@) {
            Err(e) => r == Err::<u16, SubmitError>(SubmitError::Input(e)) && final(sched)@ == old(sched)@
                && final(mem).arr@ == old(mem).arr@,
            Ok((f, base)) => {
                &&& match prog {
                    Some(p) => match spec_load(p@, old(mem).arr@, base as nat) {
                        Ok(m) => r is Ok && final(mem).arr@ == m,
                        Err(e) => r == Err::<u16, SubmitError>(SubmitError::Load(e)) && final(mem).arr@
                            == old(mem).arr@ && final(sched)@ == old(sched)@,
                    },
                    None => r is Ok && final(mem).arr@ == old(mem).arr@,
                }
                &&& r is Ok ==> {
                    &&& r == Ok::<u16, SubmitError>(old(sched)@.pid_count)
                    &&& final(sched)@.pid_count == old(sched)@.pid_count + 1
                    &&& final(sched)@.pcbs.len() == old(sched)@.pcbs.len() + 1
                    &&& final(sched)@.pcbs.drop_last() == old(sched)@.pcbs
                    &&& final(sched)@.pcbs.last().reg_state == initial_pcb_regs((base % 65536) as u16)
                    &&& final(sched)@.pcbs.last().pid == old(sched)@.pid_count
                    &&& final(sched)@.pcbs.last().prog_fname@ == f
                    &&& final(sched)@.queue == old(sched)@.queue.push(old(sched)@.pid_count)
                    &&& final(sched)@.spools == crate::print::spec_init_spool(
                        old(sched)@.spools,
                        old(sched)@.pid_count,
                    )
                }
            },
        },
{
    let (fname, base) = match parse_submit_input(line) {
        Ok(v) => v,
        Err(e) => return Err(SubmitError::Input(e)),
    };
    match prog {
        Some(p) => {
            match shell_load_prog(mem, p, base) {
                Ok(()) => {},
                Err(e) => return Err(SubmitError::Load(e)),
            }
        },
        None => {},
    }
    let b: u16 = (base % 65536) as u16;
    let pid = process_submit(sched, fname, b);
    assert(sched@.pcbs.drop_last() =~= old(sched)@.pcbs);
    Ok(pid)
}

/// The shell's shutdown command: raises the shutdown flag.
pub fn shell_terminate_system(shut_down: &mut bool)
    ensures
        *final(shut_down),
{
    *shut_down = true;
}
} // verus!
