# simos

A simulated computer with a small accumulator CPU, word-addressed memory, a
round-robin scheduler with per-process print spools, and a shell.

- `src/` is the library, proved with Verus:
  - `cpu.rs`: registers, fetch/execute, the run of one time quantum (`spec_run`);
  - `memory.rs`: memory reads and writes through MAR/MBR;
  - `scheduler.rs`: PCBs, the ready queue and one scheduling round (`spec_execute_step`);
  - `print.rs`: the print spooler;
  - `shell.rs`: shell commands and the program file loader;
  - `computer.rs`: `config.sys`, booting and computer ids;
  - `text.rs`: whitespace trimming, splitting and integer parsing on bytes.
- `app/main.rs` is the program: it reads files and standard input, prints,
  sleeps, and runs the shell and the scheduler side by side.
- `tests/` exercises the library on concrete values.
