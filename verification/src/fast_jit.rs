//! Direct assembler back end: the folded program becomes x86-64 machine code, byte by byte.

pub mod code_gen;
pub mod program;

pub use program::Program;
