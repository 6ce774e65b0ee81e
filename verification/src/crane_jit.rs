//! Retargetable back end: the folded program is lowered to a compiler's intermediate
//! representation and compiled for the host.

pub mod clif;
pub mod program;

pub use program::Program;
