//! The host side of generated code: two byte-at-a-time routines that the generated code
//! calls by address, and the rules they follow.
//!
//! The routines themselves touch standard input and output and live with the host. What they
//! decide is stated here: which byte, if any, goes out, and what a read stores.

use vstd::prelude::*;

verus! {

/// Addresses of the two host routines, as generated code calls them.
#[derive(Debug, Copy, Clone, PartialEq, Eq, Structural)]
pub struct Shims {
    /// Takes the byte to write in the first argument register; returns an error handle, zero
    /// for success.
    pub write_byte: u64,
    /// Takes the address of the cell to fill in the first argument register; returns an
    /// error handle, zero for success.
    pub read_byte: u64,
}

/// What one attempt to read a byte from standard input gave.
#[derive(Debug, Copy, Clone, PartialEq, Eq, Structural)]
pub enum ReadEvent {
    /// A byte arrived.
    Byte(u8),
    /// The input is at its end.
    EndOfInput,
    /// The read failed for another reason.
    Failed,
}

/// What the read routine does after one attempt.
#[derive(Debug, Copy, Clone, PartialEq, Eq, Structural)]
pub enum ReadAction {
    /// Store the byte in the cell and report success.
    Store(u8),
    /// Drop the byte and read again.
    Retry,
    /// Hand the failure to the caller as an error handle.
    Fail,
}

/// The carriage return that a Windows console puts before each line feed.
pub const CARRIAGE_RETURN: u8 = 0x0D;

/// The byte that the write routine sends to standard output for `value`, if any.
pub open spec fn sent(value: u8, windows: bool) -> Option<u8> {
    if windows && value >= 128 {
        None
    } else {
        Some(value)
    }
}

/// What the read routine does with the outcome of one read.
pub open spec fn reaction(event: ReadEvent, windows: bool) -> ReadAction {
    match event {
        ReadEvent::Failed => ReadAction::Fail,
        ReadEvent::EndOfInput => ReadAction::Store(0),
        ReadEvent::Byte(byte) => if windows && byte == CARRIAGE_RETURN {
            ReadAction::Retry
        } else {
            ReadAction::Store(byte)
        },
    }
}

/// Off Windows every byte is written as it is, and a read either stores exactly the byte
/// that arrived, zero at the end of the input, or fails; it never asks for another read.
pub proof fn lemma_plain_host(value: u8, event: ReadEvent)
    ensures
        sent(value, false) == Some(value),
        reaction(event, false) == match event {
            ReadEvent::Byte(byte) => ReadAction::Store(byte),
            ReadEvent::EndOfInput => ReadAction::Store(0),
            ReadEvent::Failed => ReadAction::Fail,
        },
{
}

/// The end of the input stores zero, on every host.
pub proof fn lemma_end_of_input_stores_zero(windows: bool)
    ensures
        reaction(ReadEvent::EndOfInput, windows) == ReadAction::Store(0),
{
}

/// On Windows a byte of 128 or more is not written, and a smaller one is written as it is.
pub proof fn lemma_windows_drops_high_bytes(value: u8)
    ensures
        value >= 128 ==> sent(value, true) is None,
        value < 128 ==> sent(value, true) == Some(value),
{
}

/// The byte that the write routine sends to standard output for `value`, if any. On Windows
/// a byte of 128 or more is dropped without error, since the console would refuse it.
pub fn write_byte(value: u8, windows: bool) -> (byte: Option<u8>)
    ensures
        byte == sent(value, windows),
{
    if windows && value >= 128 {
        None
    } else {
        Some(value)
    }
}

/// What the read routine does with the outcome of one read. The end of the input stores
/// zero. On Windows a carriage return is dropped and the read repeated.
pub fn read_byte(event: ReadEvent, windows: bool) -> (action: ReadAction)
    ensures
        action == reaction(event, windows),
{
    match event {
        ReadEvent::Failed => ReadAction::Fail,
        ReadEvent::EndOfInput => ReadAction::Store(0),
        ReadEvent::Byte(byte) => {
            if windows && byte == CARRIAGE_RETURN {
                ReadAction::Retry
            } else {
                ReadAction::Store(byte)
            }
        },
    }
}

} // verus!
