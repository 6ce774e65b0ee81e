//! Code generation for the direct assembler back end.

pub mod x86_64;
