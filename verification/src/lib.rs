//! A simulated computer: a small accumulator CPU, its word memory, a
//! round-robin scheduler with a print spooler, the shell's command language
//! and program file format, and the configuration file.

pub mod computer;
pub mod cpu;
pub mod memory;
pub mod print;
pub mod scheduler;
pub mod shell;
pub mod text;
