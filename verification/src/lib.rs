//! A Brainfuck toolchain: a front end that lexes and folds source text into a compact
//! instruction sequence, a reference interpreter, and two native back ends.

pub mod crane_jit;
pub mod error;
pub mod fast_jit;
pub mod interpreter;
pub mod loops;
pub mod parser;
pub mod shims;
