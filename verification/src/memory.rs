//! Word-addressed main memory, accessed through the MAR and MBR registers.
use vstd::prelude::*;

use crate::cpu::{Register, RegisterFile};

verus! {

/// Main memory: `size` words of `i32`, all in `arr`.
pub struct Memory {
    pub size: usize,
    pub arr: Vec<i32>,
}

/// Why a memory access through the MAR was refused.
#[derive(Clone, Copy, PartialEq, Eq, Structural, Debug)]
pub enum MemError {
    /// The MAR held a negative address.
    NegativeAddress(i32),
    /// The MAR held an address at or past the end of memory.
    OutOfBounds(i32),
}

impl Memory {
    /// The recorded size is the number of words held.
    pub open spec fn wf(&self) -> bool {
        self.size == self.arr@.len()
    }

    /// A memory of `mem_size` words, all zero.
    pub fn new(mem_size: usize) -> (m: Memory)
        ensures
            m.wf(),
            m.size == mem_size,
            m.arr@ == Seq::new(mem_size as nat, |i: int| 0i32),
    {
        let arr: Vec<i32> = vec![0; mem_size];
        let m = Memory { size: mem_size, arr };
        assert(m.arr@ =~= Seq::new(mem_size as nat, |i: int| 0i32));
        m
    }
}

/// Whether `addr` names a word of a memory holding `mem` (the check both
/// a read and a write make on the MAR).
pub open spec fn address_error(addr: i32, mem: Seq<i32>) -> Option<MemError> {
    if addr < 0 {
        Some(MemError::NegativeAddress(addr))
    } else if addr >= mem.len() {
        Some(MemError::OutOfBounds(addr))
    } else {
        None
    }
}

/// A read: the MBR receives the word at the address in the MAR.
pub open spec fn spec_mem_read(regs: RegisterFile, mem: Seq<i32>) -> Result<RegisterFile, MemError> {
    match address_error(regs.mar.reg_val, mem) {
        Some(e) => Err(e),
        None => Ok(RegisterFile { mbr: Register { reg_val: mem[regs.mar.reg_val as int] }, ..regs }),
    }
}

/// A write: the word at the address in the MAR receives the MBR.
pub open spec fn spec_mem_write(regs: RegisterFile, mem: Seq<i32>) -> Result<Seq<i32>, MemError> {
    match address_error(regs.mar.reg_val, mem) {
        Some(e) => Err(e),
        None => Ok(mem.update(regs.mar.reg_val as int, regs.mbr.reg_val)),
    }
}

/// A memory of `mem_size` zeroed words.
pub fn mem_init(mem_size: usize) -> (m: Memory)
    ensures
        m.wf(),
        m.size == mem_size,
        m.arr@ == Seq::new(mem_size as nat, |i: int| 0i32),
{
    Memory::new(mem_size)
}

/// Loads the word at the MAR into the MBR; refuses a MAR that names no word,
/// and then leaves the registers as they were.
pub fn mem_read(regs: &mut RegisterFile, mem: &Memory) -> (r: Result<(), MemError>)
    requires
        mem.wf(),
    ensures
        match spec_mem_read(*old(regs), mem.arr@) {
            Ok(nr) => r is Ok && *final(regs) == nr,
            Err(e) => r == Err::<(), MemError>(e) && *final(regs) == *old(regs),
        },
{
    let addr = regs.mar.reg_val;
    if addr < 0 {
        return Err(MemError::NegativeAddress(addr));
    }
    if addr as usize >= mem.arr.len() {
        return Err(MemError::OutOfBounds(addr));
    }
    regs.mbr.reg_val = mem.arr[addr as usize];
    Ok(())
}

/// Stores the MBR at the word named by the MAR; refuses a MAR that names no
/// word, and then leaves memory as it was.
pub fn mem_write(regs: &RegisterFile, mem: &mut Memory) -> (r: Result<(), MemError>)
    requires
        old(mem).wf(),
    ensures
        final(mem).wf(),
        final(mem).size == old(mem).size,
        match spec_mem_write(*regs, old(mem).arr@) {
            Ok(nm) => r is Ok && final(mem).arr@ == nm,
            Err(e) => r == Err::<(), MemError>(e) && final(mem).arr@ == old(mem).arr@,
        },
{
    let addr = regs.mar.reg_val;
    if addr < 0 {
        return Err(MemError::NegativeAddress(addr));
    }
    if addr as usize >= mem.arr.len() {
        return Err(MemError::OutOfBounds(addr));
    }
    mem.arr.set(addr as usize, regs.mbr.reg_val);
    Ok(())
}

/// A read at the address just written gives back the written word, and every
/// other word keeps its value; a write is refused exactly where a read is.
pub proof fn lemma_read_after_write(regs: RegisterFile, mem: Seq<i32>, other: int)
    ensures
        spec_mem_write(regs, mem) is Ok <==> spec_mem_read(regs, mem) is Ok,
        spec_mem_write(regs, mem) is Ok ==> {
            let m2 = spec_mem_write(regs, mem)->Ok_0;
            &&& spec_mem_read(regs, m2) == Ok::<RegisterFile, MemError>(regs)
            &&& m2.len() == mem.len()
            &&& (0 <= other < mem.len() && other != regs.mar.reg_val ==> m2[other] == mem[other])
        },
{
}

} // verus!
