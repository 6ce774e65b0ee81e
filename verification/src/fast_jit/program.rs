//! A program compiled by the direct assembler back end.

use vstd::prelude::*;
use dynasmrt::mmap::{ExecutableBuffer, MutableBuffer};
use crate::fast_jit::code_gen::x86_64::{code_size, emit, jumps_fit, machine_code};
use crate::error::{describe_io_error, CompileError};
use crate::loops::balanced;
use crate::parser::{parse, parse_spec};
use crate::shims::Shims;

verus! {

#[verifier::external_type_specification]
#[verifier::external_body]
pub struct ExMutableBuffer(MutableBuffer);

#[verifier::external_type_specification]
#[verifier::external_body]
pub struct ExExecutableBuffer(ExecutableBuffer);

/// Number of bytes of memory behind a writable buffer.
pub uninterp spec fn capacity(buffer: MutableBuffer) -> nat;

/// The bytes of a writable buffer that count as written.
pub uninterp spec fn written(buffer: MutableBuffer) -> Seq<u8>;

/// The bytes of an executable buffer.
pub uninterp spec fn loaded(buffer: ExecutableBuffer) -> Seq<u8>;

/// `MutableBuffer::new`: writable memory of the given size, none of it written yet, or the
/// error of the operating system.
#[verifier::external_body]
fn buffer_new(size: usize) -> (result: Result<MutableBuffer, std::io::Error>)
    ensures
        result matches Ok(buffer) ==> capacity(buffer) == size && written(buffer).len() == 0,
{
    MutableBuffer::new(size)
}

/// `MutableBuffer::set_len`: declares how many bytes count as written. More than the
/// memory holds makes later calls panic.
#[verifier::external_body]
fn buffer_set_len(buffer: &mut MutableBuffer, length: usize)
    requires
        length <= capacity(*old(buffer)),
    ensures
        written(*final(buffer)).len() == length,
        capacity(*final(buffer)) == capacity(*old(buffer)),
{
    buffer.set_len(length)
}

/// `copy_from_slice` on the written part of the buffer: overwrites it with bytes of the
/// same number.
#[verifier::external_body]
fn buffer_fill(buffer: &mut MutableBuffer, bytes: &Vec<u8>)
    requires
        written(*old(buffer)).len() == bytes@.len(),
        bytes@.len() <= capacity(*old(buffer)),
    ensures
        written(*final(buffer)) == bytes@,
        capacity(*final(buffer)) == capacity(*old(buffer)),
{
    buffer.copy_from_slice(bytes)
}

/// `MutableBuffer::make_exec`: the same memory, executable and no longer writable, or the
/// error of the operating system.
#[verifier::external_body]
fn buffer_make_exec(buffer: MutableBuffer) -> (result: Result<ExecutableBuffer, std::io::Error>)
    ensures
        result matches Ok(image) ==> loaded(image) == written(buffer),
{
    buffer.make_exec()
}

/// The machine code of one source text.
pub struct Program {
    bytes: Vec<u8>,
}

impl View for Program {
    type V = Seq<u8>;

    closed spec fn view(&self) -> Seq<u8> {
        self.bytes@
    }
}

impl Program {
    /// Compiles a source text to a function that takes the tape base and returns an error
    /// handle, zero for success, calling the host routines at the addresses in `shims`.
    ///
    /// Fails with `UnmatchedBracket` exactly when the brackets are not balanced. A balanced
    /// text compiles exactly when every jump of its code fits into 32 bits, which every
    /// jump of a function short enough does.
    pub fn new(source: &str, shims: Shims) -> (result: Result<Program, CompileError>)
        ensures
            !balanced(parse_spec(source@)) <==> result == Err::<Program, CompileError>(
                CompileError::UnmatchedBracket,
            ),
            result is Ok <==> balanced(parse_spec(source@)) && jumps_fit(parse_spec(source@)),
            balanced(parse_spec(source@)) && code_size(parse_spec(source@)) <= i32::MAX
                ==> result is Ok,
            result matches Ok(program) ==> program@ == machine_code(parse_spec(source@), shims),
            result matches Err(error) ==> error is UnmatchedBracket || error is Backend,
    {
        let code = match parse(source) {
            Ok(code) => code,
            Err(account) => {
                return Err(CompileError::Backend(account));
            },
        };
        match emit(&code, shims) {
            Ok(bytes) => Ok(Program { bytes }),
            Err(error) => Err(error),
        }
    }

    /// Puts the machine code into memory that is executable and not writable. The memory is
    /// writable only while the code is copied into it. Fails with the account of the
    /// operating system where that refuses the memory.
    pub fn load(&self) -> (result: Result<ExecutableBuffer, String>)
        ensures
            result matches Ok(image) ==> loaded(image) == self@,
    {
        let length = self.bytes.len();
        let mut buffer = match buffer_new(length) {
            Ok(buffer) => buffer,
            Err(error) => {
                return Err(describe_io_error(error));
            },
        };
        buffer_set_len(&mut buffer, length);
        buffer_fill(&mut buffer, &self.bytes);
        match buffer_make_exec(buffer) {
            Ok(image) => Ok(image),
            Err(error) => Err(describe_io_error(error)),
        }
    }

    /// The machine code.
    pub fn bytes(&self) -> (bytes: &Vec<u8>)
        ensures
            bytes@ == self@,
    {
        &self.bytes
    }
}

} // verus!
