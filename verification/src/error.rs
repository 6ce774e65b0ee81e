//! Why a source text could not be compiled.

use vstd::prelude::*;
use crate::loops::{unclosed_loop_error, unclosed_loop_text};

verus! {

/// An error of compilation.
#[derive(Debug, Clone, PartialEq, Eq)]
pub enum CompileError {
    /// A `LoopEnd` has no partner, or a loop is left open at the end.
    UnmatchedBracket,
    /// The code generator failed; the text is its own account of the failure.
    Backend(String),
}

#[verifier::external_type_specification]
#[verifier::external_body]
pub struct ExIoError(std::io::Error);

/// `ToString::to_string` of an error of the operating system.
#[verifier::external_body]
pub(crate) fn describe_io_error(error: std::io::Error) -> (account: String) {
    error.to_string()
}

impl CompileError {
    /// The text to show to the user: "Unclosing loop found." for unbalanced brackets, and
    /// the code generator's account otherwise.
    pub fn message(&self) -> (text: String)
        ensures
            text@ == match *self {
                CompileError::UnmatchedBracket => unclosed_loop_text(),
                CompileError::Backend(account) => account@,
            },
    {
        match self {
            CompileError::UnmatchedBracket => unclosed_loop_error(),
            CompileError::Backend(account) => account.clone(),
        }
    }
}

} // verus!
