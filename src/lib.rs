//! Tools for relocating a 68k ROM image: a decoder for the ROM's
//! delta-encoded trap table, and a byte-patching engine that rewrites
//! absolute address references under strict precondition checks.

pub mod patch;
pub mod trap_names;
pub mod traps;
