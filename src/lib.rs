//! A single-core SV32 (32-bit RISC-V) teaching kernel, modelled as plain data:
//! a bump allocator over an arena of physical pages, two-level page tables
//! built inside that arena, a cooperative round-robin scheduler, and the
//! decoding of traps and system calls into the actions the platform layer
//! performs.
pub mod addr;
pub mod console;
pub mod error;
pub mod pages;
pub mod proc;
pub mod riscv;
pub mod trap;
pub mod user;
