use simos::cpu::RegisterFile;
use simos::memory::{mem_init, mem_read, mem_write, MemError, Memory};

#[test]
fn mem_init_zeroes_every_word() {
    let m = mem_init(5);
    assert_eq!(m.size, 5);
    assert_eq!(m.arr, vec![0, 0, 0, 0, 0]);
}

#[test]
fn read_after_write_gives_back_the_word() {
    let mut m = Memory::new(4);
    let mut regs = RegisterFile::new();
    regs.mar.reg_val = 2;
    regs.mbr.reg_val = 77;
    assert_eq!(mem_write(&regs, &mut m), Ok(()));
    assert_eq!(m.arr, vec![0, 0, 77, 0]);
    regs.mbr.reg_val = 0;
    assert_eq!(mem_read(&mut regs, &m), Ok(()));
    assert_eq!(regs.mbr.reg_val, 77);
}
