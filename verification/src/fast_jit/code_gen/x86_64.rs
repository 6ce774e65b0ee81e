//! x86-64 code generation on top of a label-resolving byte assembler.
//!
//! The generated function takes the tape base in `rdi` and returns an error handle in `rax`,
//! zero for success. It keeps the tape base in `r12` and the data pointer in `r13`. Loop
//! jumps and the jumps to the exit are emitted with an empty 32-bit displacement and resolved
//! by the assembler when the code is finalized.

use vstd::prelude::*;
use dynasmrt::x64::X64Relocation;
use dynasmrt::{DynamicLabel, DynasmError, DynasmLabelApi, VecAssembler};
use crate::error::CompileError;
use crate::loops::{balanced, close_of, depth, depth_change, matching, never_negative, open_of,
    still_open, lemma_matching_open_unique, lemma_matching_close_unique};
use crate::parser::Node;
use crate::shims::Shims;

verus! {

/// A `dynasmrt::VecAssembler` for x86-64: a growing byte buffer with numbered labels and
/// a list of jump fields still to be filled in.
#[verifier::external_body]
pub struct Assembler {
    inner: VecAssembler<X64Relocation>,
}

#[verifier::external_type_specification]
#[verifier::external_body]
pub struct ExDynasmError(DynasmError);

#[verifier::external_type_specification]
#[verifier::external_body]
pub struct ExDynamicLabel(DynamicLabel);

/// A jump field still to be filled in: the offset just past the field, and the number of the
/// label it refers to.
pub struct Reference {
    pub location: int,
    pub label: int,
}

/// The bytes assembled so far.
pub uninterp spec fn assembled(a: Assembler) -> Seq<u8>;

/// The label table: entry `i` is the offset at which label `i` was bound, if it was.
pub uninterp spec fn bound_labels(a: Assembler) -> Seq<Option<int>>;

/// The jump fields recorded so far, oldest first.
pub uninterp spec fn references(a: Assembler) -> Seq<Reference>;

/// Whether a label was bound twice, or bound without having been created.
pub uninterp spec fn poisoned(a: Assembler) -> bool;

/// The number of a label.
pub uninterp spec fn label_number(label: DynamicLabel) -> int;

/// The four bytes of a 32-bit two's complement number, lowest first.
pub open spec fn le32(value: int) -> Seq<u8> {
    seq![
        (value % 256) as u8,
        (value / 0x100 % 256) as u8,
        (value / 0x1_0000 % 256) as u8,
        (value / 0x100_0000 % 256) as u8,
    ]
}

/// The eight bytes of a 64-bit number, lowest first.
pub open spec fn le64(value: int) -> Seq<u8> {
    le32(value % 0x1_0000_0000) + le32(value / 0x1_0000_0000)
}

/// Whether a displacement can be held in a signed 32-bit field.
pub open spec fn fits_rel32(displacement: int) -> bool {
    -0x8000_0000 <= displacement < 0x8000_0000
}

/// `code` with the four bytes before `location` replaced by the displacement from `location`
/// to `target`.
pub open spec fn patched(code: Seq<u8>, location: int, target: int) -> Seq<u8> {
    code.subrange(0, location - 4) + le32(target - location) + code.subrange(
        location,
        code.len() as int,
    )
}

/// Whether every recorded jump field lies within the first `len` bytes.
pub open spec fn fields_in_buffer(refs: Seq<Reference>, len: int) -> bool {
    forall|k: int| 0 <= k < refs.len() ==> 4 <= (#[trigger] refs[k]).location <= len
}

/// Whether every recorded jump field can be filled in: its label is bound, and the
/// displacement fits.
pub open spec fn resolvable(refs: Seq<Reference>, labels: Seq<Option<int>>) -> bool {
    forall|k: int|
        0 <= k < refs.len() ==> {
            let r = #[trigger] refs[k];
            &&& 0 <= r.label < labels.len()
            &&& labels[r.label] is Some
            &&& fits_rel32(labels[r.label]->0 - r.location)
        }
}

/// `code` with the recorded jump fields filled in, oldest first.
pub open spec fn resolved(code: Seq<u8>, refs: Seq<Reference>, labels: Seq<Option<int>>) -> Seq<u8>
    decreases refs.len(),
{
    if refs.len() == 0 {
        code
    } else {
        patched(
            resolved(code, refs.drop_last(), labels),
            refs.last().location,
            labels[refs.last().label]->0,
        )
    }
}

/// `VecAssembler::new`: an assembler with no bytes, no labels and no jump fields.
#[verifier::external_body]
fn assembler_new(base: usize) -> (a: Assembler)
    ensures
        assembled(a).len() == 0,
        bound_labels(a).len() == 0,
        references(a).len() == 0,
        !poisoned(a),
{
    Assembler { inner: VecAssembler::new(base) }
}

/// `Extend::extend` of the assembler: appends the bytes to the buffer and touches nothing
/// else.
#[verifier::external_body]
fn assembler_extend(a: &mut Assembler, bytes: &Vec<u8>)
    ensures
        assembled(*final(a)) == assembled(*old(a)) + bytes@,
        bound_labels(*final(a)) == bound_labels(*old(a)),
        references(*final(a)) == references(*old(a)),
        poisoned(*final(a)) == poisoned(*old(a)),
{
    a.inner.extend(bytes)
}

/// `VecAssembler::new_dynamic_label`: adds an unbound entry to the label table and returns
/// the label whose number is that entry's index.
#[verifier::external_body]
fn assembler_new_label(a: &mut Assembler) -> (label: DynamicLabel)
    ensures
        label_number(label) == bound_labels(*old(a)).len(),
        bound_labels(*final(a)) == bound_labels(*old(a)).push(None),
        assembled(*final(a)) == assembled(*old(a)),
        references(*final(a)) == references(*old(a)),
        poisoned(*final(a)) == poisoned(*old(a)),
{
    a.inner.new_dynamic_label()
}

/// `DynasmLabelApi::dynamic_label`: binds the label to the current end of the buffer. Where
/// the label is unknown or already bound, the table stays and the assembler is poisoned.
#[verifier::external_body]
fn assembler_bind(a: &mut Assembler, label: DynamicLabel)
    ensures
        assembled(*final(a)) == assembled(*old(a)),
        references(*final(a)) == references(*old(a)),
        ({
            let labels = bound_labels(*old(a));
            let number = label_number(label);
            if 0 <= number < labels.len() && labels[number] is None {
                &&& bound_labels(*final(a)) == labels.update(
                    number,
                    Some(assembled(*old(a)).len() as int),
                )
                &&& poisoned(*final(a)) == poisoned(*old(a))
            } else {
                &&& bound_labels(*final(a)) == labels
                &&& poisoned(*final(a))
            }
        }),
{
    a.inner.dynamic_label(label)
}

/// The relocation code of a 32-bit field relative to the end of its instruction.
pub const RELATIVE_DWORD: u8 = 2;

/// `DynasmLabelApi::dynamic_reloc`, for a 32-bit relative field that ends at the current end
/// of the buffer: records the field and the label it refers to.
#[verifier::external_body]
fn assembler_refer(
    a: &mut Assembler,
    label: DynamicLabel,
    target_offset: isize,
    field_offset: u8,
    ref_offset: u8,
    kind: u8,
)
    requires
        target_offset == 0,
        field_offset == 4,
        ref_offset == 0,
        kind == RELATIVE_DWORD,
    ensures
        references(*final(a)) == references(*old(a)).push(
            Reference { location: assembled(*old(a)).len() as int, label: label_number(label) },
        ),
        assembled(*final(a)) == assembled(*old(a)),
        bound_labels(*final(a)) == bound_labels(*old(a)),
        poisoned(*final(a)) == poisoned(*old(a)),
{
    a.inner.dynamic_reloc(label, target_offset, field_offset, ref_offset, kind)
}

/// `VecAssembler::finalize`: fills in the recorded jump fields, oldest first, and hands out
/// the buffer. It fails where the assembler is poisoned, a label is unbound or a
/// displacement does not fit.
#[verifier::external_body]
fn assembler_finalize(a: Assembler) -> (result: Result<Vec<u8>, DynasmError>)
    requires
        fields_in_buffer(references(a), assembled(a).len() as int),
    ensures
        result is Ok == (!poisoned(a) && resolvable(references(a), bound_labels(a))),
        result matches Ok(bytes) ==> bytes@ == resolved(
            assembled(a),
            references(a),
            bound_labels(a),
        ),
{
    a.inner.finalize()
}

/// `ToString::to_string` of the assembler's error.
#[verifier::external_body]
fn describe(error: DynasmError) -> (message: String) {
    error.to_string()
}

/// Saves the callee-saved registers, loads the tape base and clears the data pointer:
/// `push rbp; mov rbp, rsp; push r12; push r13; mov r12, rdi; xor r13, r13`.
pub open spec fn prologue() -> Seq<u8> {
    seq![0x55, 0x48, 0x89, 0xE5, 0x41, 0x54, 0x41, 0x55, 0x49, 0x89, 0xFC, 0x4D, 0x31, 0xED]
}

/// Clears the return value on the way that falls through: `xor rax, rax`.
pub open spec fn clear_result() -> Seq<u8> {
    seq![0x48, 0x31, 0xC0]
}

/// Restores the registers and returns: `pop r13; pop r12; pop rbp; ret`.
pub open spec fn restore_and_return() -> Seq<u8> {
    seq![0x41, 0x5D, 0x41, 0x5C, 0x5D, 0xC3]
}

/// The end of the function: the fall-through path clears the return value, and the exit
/// label stands right behind that.
pub open spec fn epilogue() -> Seq<u8> {
    clear_result() + restore_and_return()
}

/// Whether the code of an instruction ends in a jump with a 32-bit displacement.
pub open spec fn has_jump(node: Node) -> bool {
    node is Write || node is Read || node is LoopBegin || node is LoopEnd
}

/// The code of one instruction up to the displacement of its jump, if it has one.
///
/// | instruction | code |
/// |---|---|
/// | `Increment(n)` | `add byte [r12 + r13], n` |
/// | `Decrement(n)` | `sub byte [r12 + r13], n` |
/// | `Next(n)` | `add r13, n` with the low 32 bits of `n`, sign-extended by the processor |
/// | `Prev(n)` | `sub r13, n` likewise |
/// | `Write` | `mov rax, write_byte; movzx edi, byte [r12 + r13]; call rax; cmp rax, 0; jne` exit |
/// | `Read` | `mov rax, read_byte; lea rdi, [r12 + r13]; call rax; cmp rax, 0; jne` exit |
/// | `LoopBegin` | `cmp byte [r12 + r13], 0; je` behind the partner |
/// | `LoopEnd` | `cmp byte [r12 + r13], 0; jne` behind the partner |
#[verifier::opaque]
pub open spec fn stem(node: Node, shims: Shims) -> Seq<u8> {
    match node {
        Node::Increment(n) => seq![0x43, 0x80, 0x04, 0x2C, n],
        Node::Decrement(n) => seq![0x43, 0x80, 0x2C, 0x2C, n],
        Node::Next(n) => seq![0x49u8, 0x81, 0xC5] + le32(n as int % 0x1_0000_0000),
        Node::Prev(n) => seq![0x49u8, 0x81, 0xED] + le32(n as int % 0x1_0000_0000),
        Node::Write => seq![0x48u8, 0xB8] + le64(shims.write_byte as int) + seq![
            0x43u8,
            0x0F,
            0xB6,
            0x3C,
            0x2C,
            0xFF,
            0xD0,
            0x48,
            0x83,
            0xF8,
            0x00,
            0x0F,
            0x85,
        ],
        Node::Read => seq![0x48u8, 0xB8] + le64(shims.read_byte as int) + seq![
            0x4Bu8,
            0x8D,
            0x3C,
            0x2C,
            0xFF,
            0xD0,
            0x48,
            0x83,
            0xF8,
            0x00,
            0x0F,
            0x85,
        ],
        Node::LoopBegin => seq![0x43, 0x80, 0x3C, 0x2C, 0x00, 0x0F, 0x84],
        Node::LoopEnd => seq![0x43, 0x80, 0x3C, 0x2C, 0x00, 0x0F, 0x85],
    }
}

/// The code of one instruction, its jump displaced by `displacement`.
pub open spec fn encoded(node: Node, shims: Shims, displacement: int) -> Seq<u8> {
    if has_jump(node) {
        stem(node, shims) + le32(displacement)
    } else {
        stem(node, shims)
    }
}

/// Number of bytes in the code of one instruction.
pub open spec fn size(node: Node) -> int {
    match node {
        Node::Increment(_) => 5,
        Node::Decrement(_) => 5,
        Node::Next(_) => 7,
        Node::Prev(_) => 7,
        Node::Write => 27,
        Node::Read => 26,
        Node::LoopBegin => 11,
        Node::LoopEnd => 11,
    }
}

/// Offset in the generated function of the code of instruction `k`; for `k` the length of
/// the program, the offset of the epilogue.
pub open spec fn offset(code: Seq<Node>, k: int) -> int
    decreases k,
{
    if k <= 0 {
        14
    } else {
        offset(code, k - 1) + size(code[k - 1])
    }
}

/// Offset of the exit, where the failing host calls jump to.
pub open spec fn exit_offset(code: Seq<Node>) -> int {
    offset(code, code.len() as int) + 3
}

/// Number of bytes of the generated function.
pub open spec fn code_size(code: Seq<Node>) -> int {
    offset(code, code.len() as int) + 9
}

/// The displacement of the jump of instruction `i`, from the end of its code to its target:
/// for a loop instruction the end of the partner's code, for a host call the exit.
pub open spec fn displacement(code: Seq<Node>, i: int) -> int {
    match code[i] {
        Node::LoopBegin => offset(code, close_of(code, i) + 1) - offset(code, i + 1),
        Node::LoopEnd => offset(code, open_of(code, i) + 1) - offset(code, i + 1),
        _ => exit_offset(code) - offset(code, i + 1),
    }
}

/// The code of instructions `from` up to `to`, where the jumps of the first `filled`
/// instructions of the program are displaced to their targets and the others are left empty.
pub open spec fn span(code: Seq<Node>, shims: Shims, filled: int, from: int, to: int) -> Seq<u8>
    decreases to - from,
{
    if to <= from {
        Seq::empty()
    } else {
        span(code, shims, filled, from, to - 1) + encoded(
            code[to - 1],
            shims,
            if to - 1 < filled {
                displacement(code, to - 1)
            } else {
                0
            },
        )
    }
}

/// The generated function: prologue, the code of each instruction in order with its jump
/// displaced to its target, and epilogue.
pub open spec fn machine_code(code: Seq<Node>, shims: Shims) -> Seq<u8> {
    prologue() + span(code, shims, code.len() as int, 0, code.len() as int) + epilogue()
}

/// Appends the four bytes of `value`, lowest first.
fn put_le32(out: &mut Vec<u8>, value: u32)
    ensures
        final(out)@ == old(out)@ + le32(value as int),
{
    let b0 = (value & 0xff) as u8;
    let b1 = ((value >> 8) & 0xff) as u8;
    let b2 = ((value >> 16) & 0xff) as u8;
    let b3 = ((value >> 24) & 0xff) as u8;
    assert(value & 0xff == value % 256 && (value >> 8) & 0xff == value / 0x100 % 256 && (value
        >> 16) & 0xff == value / 0x1_0000 % 256 && (value >> 24) & 0xff == value / 0x100_0000
        % 256) by (bit_vector);
    out.push(b0);
    out.push(b1);
    out.push(b2);
    out.push(b3);
    assert(out@ =~= old(out)@ + le32(value as int));
}

/// Appends the eight bytes of `value`, lowest first.
fn put_le64(out: &mut Vec<u8>, value: u64)
    ensures
        final(out)@ == old(out)@ + le64(value as int),
{
    let low = (value & 0xffff_ffff) as u32;
    let high = (value >> 32) as u32;
    assert(value & 0xffff_ffff == value % 0x1_0000_0000 && value >> 32 == value / 0x1_0000_0000)
        by (bit_vector);
    put_le32(out, low);
    put_le32(out, high);
    assert(out@ =~= old(out)@ + le64(value as int));
}

/// The code of one instruction, with an empty displacement where it ends in a jump.
fn encode(node: Node, shims: Shims) -> (bytes: Vec<u8>)
    ensures
        bytes@ == encoded(node, shims, 0),
        bytes@.len() == size(node),
{
    let mut bytes: Vec<u8> = Vec::new();
    proof {
        reveal(stem);
    }
    match node {
        Node::Increment(n) => {
            bytes.push(0x43);
            bytes.push(0x80);
            bytes.push(0x04);
            bytes.push(0x2C);
            bytes.push(n);
        },
        Node::Decrement(n) => {
            bytes.push(0x43);
            bytes.push(0x80);
            bytes.push(0x2C);
            bytes.push(0x2C);
            bytes.push(n);
        },
        Node::Next(n) => {
            bytes.push(0x49);
            bytes.push(0x81);
            bytes.push(0xC5);
            put_le32(&mut bytes, low_half(n));
        },
        Node::Prev(n) => {
            bytes.push(0x49);
            bytes.push(0x81);
            bytes.push(0xED);
            put_le32(&mut bytes, low_half(n));
        },
        Node::Write => {
            bytes.push(0x48);
            bytes.push(0xB8);
            put_le64(&mut bytes, shims.write_byte);
            bytes.push(0x43);
            bytes.push(0x0F);
            bytes.push(0xB6);
            bytes.push(0x3C);
            bytes.push(0x2C);
            put_call_and_test(&mut bytes);
            put_le32(&mut bytes, 0);
        },
        Node::Read => {
            bytes.push(0x48);
            bytes.push(0xB8);
            put_le64(&mut bytes, shims.read_byte);
            bytes.push(0x4B);
            bytes.push(0x8D);
            bytes.push(0x3C);
            bytes.push(0x2C);
            put_call_and_test(&mut bytes);
            put_le32(&mut bytes, 0);
        },
        Node::LoopBegin => {
            put_test_cell(&mut bytes);
            bytes.push(0x0F);
            bytes.push(0x84);
            put_le32(&mut bytes, 0);
        },
        Node::LoopEnd => {
            put_test_cell(&mut bytes);
            bytes.push(0x0F);
            bytes.push(0x85);
            put_le32(&mut bytes, 0);
        },
    }
    assert(bytes@ =~= encoded(node, shims, 0));
    bytes
}

/// The low 32 bits of a pointer distance.
fn low_half(n: usize) -> (low: u32)
    ensures
        low == n as int % 0x1_0000_0000,
{
    let wide = n as u64;
    assert(wide & 0xffff_ffff == wide % 0x1_0000_0000) by (bit_vector);
    (wide & 0xffff_ffff) as u32
}

/// Appends `call rax; cmp rax, 0; jne`, the jump without its displacement.
fn put_call_and_test(out: &mut Vec<u8>)
    ensures
        final(out)@ == old(out)@ + seq![0xFFu8, 0xD0, 0x48, 0x83, 0xF8, 0x00, 0x0F, 0x85],
{
    out.push(0xFF);
    out.push(0xD0);
    out.push(0x48);
    out.push(0x83);
    out.push(0xF8);
    out.push(0x00);
    out.push(0x0F);
    out.push(0x85);
    assert(out@ =~= old(out)@ + seq![0xFFu8, 0xD0, 0x48, 0x83, 0xF8, 0x00, 0x0F, 0x85]);
}

/// Appends `cmp byte [r12 + r13], 0`.
fn put_test_cell(out: &mut Vec<u8>)
    ensures
        final(out)@ == old(out)@ + seq![0x43u8, 0x80, 0x3C, 0x2C, 0x00],
{
    out.push(0x43);
    out.push(0x80);
    out.push(0x3C);
    out.push(0x2C);
    out.push(0x00);
    assert(out@ =~= old(out)@ + seq![0x43u8, 0x80, 0x3C, 0x2C, 0x00]);
}

/// Number of `LoopBegin` among the first `k` instructions.
pub open spec fn opens_before(code: Seq<Node>, k: int) -> int
    decreases k,
{
    if k <= 0 {
        0
    } else {
        opens_before(code, k - 1) + if code[k - 1] is LoopBegin {
            1int
        } else {
            0int
        }
    }
}

/// Number of the label at the start of the body of the loop opened at `open`. Label 0 is the
/// exit; each loop has two labels of its own.
pub open spec fn body_label(code: Seq<Node>, open: int) -> int {
    1 + 2 * opens_before(code, open)
}

/// Number of the label behind the loop opened at `open`.
pub open spec fn after_label(code: Seq<Node>, open: int) -> int {
    2 + 2 * opens_before(code, open)
}

/// The label that the jump of instruction `i` refers to.
pub open spec fn target_label(code: Seq<Node>, i: int) -> int {
    match code[i] {
        Node::LoopBegin => after_label(code, i),
        Node::LoopEnd => body_label(code, open_of(code, i)),
        _ => 0,
    }
}

/// The jump fields of the first `k` instructions, in order.
pub open spec fn jump_fields(code: Seq<Node>, k: int) -> Seq<Reference>
    decreases k,
{
    if k <= 0 {
        Seq::empty()
    } else if has_jump(code[k - 1]) {
        jump_fields(code, k - 1).push(field_of(code, k - 1))
    } else {
        jump_fields(code, k - 1)
    }
}

/// The state of an assembler, as mathematics.
pub struct Listing {
    /// The bytes assembled so far.
    pub code: Seq<u8>,
    /// The label table.
    pub labels: Seq<Option<int>>,
    /// The jump fields recorded so far.
    pub fields: Seq<Reference>,
    /// Whether a label was bound twice, or bound without having been created.
    pub poisoned: bool,
}

/// The state of an assembler.
pub open spec fn listing(a: Assembler) -> Listing {
    Listing {
        code: assembled(a),
        labels: bound_labels(a),
        fields: references(a),
        poisoned: poisoned(a),
    }
}

/// What the label table holds for the loops opened among the first `done` instructions: the
/// body label of each is bound behind its `LoopBegin`; the label behind the loop is bound
/// behind the partner once that is emitted, and unbound while the loop is open.
pub open spec fn loop_labels(
    code: Seq<Node>,
    done: int,
    opens: Seq<int>,
    labels: Seq<Option<int>>,
) -> bool {
    forall|p: int|
        0 <= p < done && #[trigger] code[p] is LoopBegin ==> {
            &&& labels[body_label(code, p)] == Some(offset(code, p + 1))
            &&& if opens.contains(p) {
                labels[after_label(code, p)] is None
            } else {
                exists|q: int|
                    p < q < done && #[trigger] matching(code, p, q) && labels[after_label(code, p)]
                        == Some(offset(code, q + 1))
            }
        }
}

/// The state of the emission after the first `done` instructions, with the loops at `opens`
/// still open, innermost last.
pub open spec fn emitting(
    code: Seq<Node>,
    shims: Shims,
    done: int,
    opens: Seq<int>,
    state: Listing,
) -> bool {
    &&& 0 <= done <= code.len()
    &&& never_negative(code, done)
    &&& depth(code, done) == opens.len()
    &&& forall|k: int| 0 <= k < opens.len() ==> still_open(code, done, #[trigger] opens[k], k)
    &&& state.code == prologue() + span(code, shims, 0, 0, done)
    &&& state.fields == jump_fields(code, done)
    &&& !state.poisoned
    &&& state.labels.len() == 1 + 2 * opens_before(code, done)
    &&& state.labels[0] is None
    &&& loop_labels(code, done, opens, state.labels)
}

/// The labels of the loops still open, innermost last, are those on the stack.
pub open spec fn labels_on_stack(
    code: Seq<Node>,
    opens: Seq<int>,
    stack: Seq<(DynamicLabel, DynamicLabel)>,
) -> bool {
    &&& stack.len() == opens.len()
    &&& forall|k: int|
        0 <= k < stack.len() ==> label_number((#[trigger] stack[k]).0) == body_label(
            code,
            opens[k],
        ) && label_number(stack[k].1) == after_label(code, opens[k])
}

/// The code of an instruction has the length that `size` gives.
pub proof fn lemma_encoded_len(node: Node, shims: Shims, displacement: int)
    ensures
        encoded(node, shims, displacement).len() == size(node),
{
    reveal(stem);
}

/// The code of instructions `from` up to `to` is as long as their offsets are apart.
pub proof fn lemma_span_len(code: Seq<Node>, shims: Shims, filled: int, from: int, to: int)
    requires
        0 <= from <= to,
    ensures
        span(code, shims, filled, from, to).len() == offset(code, to) - offset(code, from),
    decreases to - from,
{
    if from < to {
        lemma_span_len(code, shims, filled, from, to - 1);
        lemma_encoded_len(
            code[to - 1],
            shims,
            if to - 1 < filled {
                displacement(code, to - 1)
            } else {
                0
            },
        );
    }
}

/// Offsets grow with the index, and start behind the prologue.
pub proof fn lemma_offset_monotonic(code: Seq<Node>, j: int, k: int)
    requires
        0 <= j <= k,
    ensures
        14 <= offset(code, j) <= offset(code, k),
        j < k ==> offset(code, j) + 5 <= offset(code, k),
    decreases k - j,
{
    if j < k {
        lemma_offset_monotonic(code, j, k - 1);
    } else {
        lemma_offset_start(code, j);
    }
}

/// No offset lies in the prologue.
pub proof fn lemma_offset_start(code: Seq<Node>, k: int)
    ensures
        14 <= offset(code, k),
    decreases k,
{
    if k > 0 {
        lemma_offset_start(code, k - 1);
    }
}

/// Emitting an instruction without a jump keeps the state of the emission.
proof fn lemma_emit_plain(
    code: Seq<Node>,
    shims: Shims,
    i: int,
    opens: Seq<int>,
    s: Listing,
    t: Listing,
)
    requires
        emitting(code, shims, i, opens, s),
        i < code.len(),
        !has_jump(code[i]),
        t == (Listing { code: s.code + encoded(code[i], shims, 0), ..s }),
    ensures
        emitting(code, shims, i + 1, opens, t),
{
    assert(depth(code, i + 1) == depth(code, i) + depth_change(code[i]));
    assert(t.code =~= prologue() + span(code, shims, 0, 0, i + 1));
    assert forall|k: int| 0 <= k < opens.len() implies still_open(
        code,
        i + 1,
        #[trigger] opens[k],
        k,
    ) by {
        assert(still_open(code, i, opens[k], k));
    }
}

/// Emitting a host call records one jump to the exit.
proof fn lemma_emit_call(
    code: Seq<Node>,
    shims: Shims,
    i: int,
    opens: Seq<int>,
    s: Listing,
    t: Listing,
)
    requires
        emitting(code, shims, i, opens, s),
        i < code.len(),
        code[i] is Write || code[i] is Read,
        t == (Listing {
            code: s.code + encoded(code[i], shims, 0),
            fields: s.fields.push(
                Reference { location: (s.code + encoded(code[i], shims, 0)).len() as int, label: 0 },
            ),
            ..s
        }),
    ensures
        emitting(code, shims, i + 1, opens, t),
{
    assert(depth(code, i + 1) == depth(code, i) + depth_change(code[i]));
    assert(t.code =~= prologue() + span(code, shims, 0, 0, i + 1));
    lemma_span_len(code, shims, 0, 0, i + 1);
    assert forall|k: int| 0 <= k < opens.len() implies still_open(
        code,
        i + 1,
        #[trigger] opens[k],
        k,
    ) by {
        assert(still_open(code, i, opens[k], k));
    }
}

/// The jump field of instruction `i`: it ends where the code of the instruction ends and
/// refers to the label of the instruction's target.
pub open spec fn field_of(code: Seq<Node>, i: int) -> Reference {
    Reference { location: offset(code, i + 1), label: target_label(code, i) }
}

/// Whether `field` is the jump field of one of the first `k` instructions.
pub open spec fn belongs(code: Seq<Node>, k: int, field: Reference) -> bool {
    exists|i: int| 0 <= i < k && has_jump(code[i]) && field == #[trigger] field_of(code, i)
}

/// Every jump field of the first `k` instructions belongs to one of them.
pub proof fn lemma_fields_in_function(code: Seq<Node>, k: int)
    requires
        0 <= k <= code.len(),
    ensures
        forall|j: int|
            0 <= j < jump_fields(code, k).len() ==> belongs(
                code,
                k,
                #[trigger] jump_fields(code, k)[j],
            ),
        fields_in_buffer(jump_fields(code, k), offset(code, k)),
    decreases k,
{
    if k > 0 {
        lemma_fields_in_function(code, k - 1);
        let fields = jump_fields(code, k);
        let earlier = jump_fields(code, k - 1);
        assert forall|j: int| 0 <= j < fields.len() implies belongs(code, k, #[trigger] fields[j]) by {
            if j < earlier.len() {
                assert(belongs(code, k - 1, earlier[j]));
                let i = choose|i: int|
                    0 <= i < k - 1 && has_jump(code[i]) && earlier[j] == #[trigger] field_of(
                        code,
                        i,
                    );
                assert(0 <= i < k && fields[j] == field_of(code, i));
            } else {
                assert(fields[j] == field_of(code, k - 1));
            }
        }
        assert forall|j: int| 0 <= j < fields.len() implies 4 <= (#[trigger] fields[j]).location
            <= offset(code, k) by {
            assert(belongs(code, k, fields[j]));
            let i = choose|i: int|
                0 <= i < k && has_jump(code[i]) && fields[j] == #[trigger] field_of(code, i);
            lemma_offset_monotonic(code, i + 1, k);
        }
    }
}

/// The loops still open stand at different instructions.
proof fn lemma_opens_distinct(code: Seq<Node>, done: int, opens: Seq<int>, j: int, k: int)
    requires
        0 <= j < opens.len(),
        0 <= k < opens.len(),
        still_open(code, done, opens[j], j),
        still_open(code, done, opens[k], k),
        opens[j] == opens[k],
    ensures
        j == k,
{
}

/// Two different `LoopBegin` have different labels.
proof fn lemma_labels_distinct(code: Seq<Node>, p: int, q: int)
    requires
        0 <= p,
        0 <= q,
        p != q,
        code[p] is LoopBegin,
        code[q] is LoopBegin,
    ensures
        opens_before(code, p) != opens_before(code, q),
        0 <= opens_before(code, p),
        0 <= opens_before(code, q),
{
    if p < q {
        lemma_opens_before_monotonic(code, p, q);
    } else {
        lemma_opens_before_monotonic(code, q, p);
    }
    lemma_opens_before_nonnegative(code, p);
    lemma_opens_before_nonnegative(code, q);
}

/// Emitting a `LoopBegin` creates the two labels of its loop, records the jump behind the
/// loop, and binds the body label.
proof fn lemma_emit_loop_begin(
    code: Seq<Node>,
    shims: Shims,
    i: int,
    opens: Seq<int>,
    s: Listing,
    t: Listing,
)
    requires
        emitting(code, shims, i, opens, s),
        i < code.len(),
        code[i] is LoopBegin,
        t.code == s.code + encoded(code[i], shims, 0),
        t.fields == s.fields.push(
            Reference { location: t.code.len() as int, label: s.labels.len() as int + 1 },
        ),
        t.labels == s.labels.push(None).push(None).update(
            s.labels.len() as int,
            Some(t.code.len() as int),
        ),
        !t.poisoned,
    ensures
        emitting(code, shims, i + 1, opens.push(i), t),
{
    let opens2 = opens.push(i);
    assert(depth(code, i + 1) == depth(code, i) + depth_change(code[i]));
    assert(t.code =~= prologue() + span(code, shims, 0, 0, i + 1));
    lemma_span_len(code, shims, 0, 0, i + 1);
    lemma_opens_before_nonnegative(code, i);
    assert forall|k: int| 0 <= k < opens2.len() implies still_open(
        code,
        i + 1,
        #[trigger] opens2[k],
        k,
    ) by {
        if k < opens.len() {
            assert(still_open(code, i, opens[k], k));
        }
    }
    assert forall|p: int| 0 <= p < i + 1 && #[trigger] code[p] is LoopBegin implies {
        &&& t.labels[body_label(code, p)] == Some(offset(code, p + 1))
        &&& if opens2.contains(p) {
            t.labels[after_label(code, p)] is None
        } else {
            exists|q: int|
                p < q < i + 1 && #[trigger] matching(code, p, q) && t.labels[after_label(code, p)]
                    == Some(offset(code, q + 1))
        }
    } by {
        if p < i {
            lemma_labels_distinct(code, p, i);
            lemma_opens_before_monotonic(code, p, i);
            if opens.contains(p) {
                let k = choose|k: int| 0 <= k < opens.len() && opens[k] == p;
                assert(opens2[k] == p);
            } else {
                if opens2.contains(p) {
                    let k = choose|k: int| 0 <= k < opens2.len() && opens2[k] == p;
                    assert(opens[k] == p);
                }
                let q = choose|q: int|
                    p < q < i && #[trigger] matching(code, p, q) && s.labels[after_label(code, p)]
                        == Some(offset(code, q + 1));
                assert(p < q < i + 1 && matching(code, p, q));
            }
        } else {
            assert(opens2[opens.len() as int] == i);
        }
    }
}

/// Emitting a `LoopEnd` records the jump back into the body of the innermost open loop and
/// binds the label behind that loop.
proof fn lemma_emit_loop_end(
    code: Seq<Node>,
    shims: Shims,
    i: int,
    opens: Seq<int>,
    s: Listing,
    t: Listing,
)
    requires
        emitting(code, shims, i, opens, s),
        i < code.len(),
        code[i] is LoopEnd,
        opens.len() > 0,
        t.code == s.code + encoded(code[i], shims, 0),
        t.fields == s.fields.push(
            Reference { location: t.code.len() as int, label: body_label(code, opens.last()) },
        ),
        t.labels == s.labels.update(after_label(code, opens.last()), Some(t.code.len() as int)),
        !t.poisoned,
    ensures
        emitting(code, shims, i + 1, opens.drop_last(), t),
        matching(code, opens.last(), i),
{
    let opens2 = opens.drop_last();
    let top = opens.last();
    assert(depth(code, i + 1) == depth(code, i) + depth_change(code[i]));
    assert(still_open(code, i, opens[opens.len() - 1], opens.len() - 1));
    assert(matching(code, top, i));
    assert(open_of(code, i) == top) by {
        lemma_matching_open_unique(code, open_of(code, i), top, i);
    }
    assert(t.code =~= prologue() + span(code, shims, 0, 0, i + 1));
    lemma_span_len(code, shims, 0, 0, i + 1);
    lemma_opens_before_monotonic(code, top, i);
    assert forall|k: int| 0 <= k < opens2.len() implies still_open(
        code,
        i + 1,
        #[trigger] opens2[k],
        k,
    ) by {
        assert(still_open(code, i, opens[k], k));
    }
    assert forall|p: int| 0 <= p < i + 1 && #[trigger] code[p] is LoopBegin implies {
        &&& t.labels[body_label(code, p)] == Some(offset(code, p + 1))
        &&& if opens2.contains(p) {
            t.labels[after_label(code, p)] is None
        } else {
            exists|q: int|
                p < q < i + 1 && #[trigger] matching(code, p, q) && t.labels[after_label(code, p)]
                    == Some(offset(code, q + 1))
        }
    } by {
        lemma_opens_before_nonnegative(code, p);
        lemma_opens_before_monotonic(code, p, i);
        if p == top {
            if opens2.contains(p) {
                let k = choose|k: int| 0 <= k < opens2.len() && opens2[k] == p;
                assert(still_open(code, i, opens[k], k));
                lemma_opens_distinct(code, i, opens, k, opens.len() - 1);
            }
            assert(p < i < i + 1 && matching(code, p, i));
        } else {
            lemma_labels_distinct(code, p, top);
            if opens.contains(p) {
                let k = choose|k: int| 0 <= k < opens.len() && opens[k] == p;
                assert(opens2[k] == p);
            } else {
                if opens2.contains(p) {
                    let k = choose|k: int| 0 <= k < opens2.len() && opens2[k] == p;
                    assert(opens[k] == p);
                }
                let q = choose|q: int|
                    p < q < i && #[trigger] matching(code, p, q) && s.labels[after_label(code, p)]
                        == Some(offset(code, q + 1));
                assert(p < q < i + 1 && matching(code, p, q));
            }
        }
    }
}

/// The count of `LoopBegin` grows with the prefix.
pub proof fn lemma_opens_before_monotonic(code: Seq<Node>, j: int, k: int)
    requires
        j <= k,
    ensures
        opens_before(code, j) <= opens_before(code, k),
        0 <= opens_before(code, j),
        j < k && 0 <= j && code[j] is LoopBegin ==> opens_before(code, j) < opens_before(code, k),
    decreases k - j,
{
    if j < k {
        lemma_opens_before_monotonic(code, j, k - 1);
    } else {
        lemma_opens_before_nonnegative(code, j);
    }
}

/// The count of `LoopBegin` is never negative.
pub proof fn lemma_opens_before_nonnegative(code: Seq<Node>, k: int)
    ensures
        0 <= opens_before(code, k),
    decreases k,
{
    if k > 0 {
        lemma_opens_before_nonnegative(code, k - 1);
    }
}

/// A stretch of code is the code of its first part followed by that of its second part.
pub proof fn lemma_span_split(
    code: Seq<Node>,
    shims: Shims,
    filled: int,
    from: int,
    mid: int,
    to: int,
)
    requires
        from <= mid <= to,
    ensures
        span(code, shims, filled, from, to) == span(code, shims, filled, from, mid) + span(
            code,
            shims,
            filled,
            mid,
            to,
        ),
    decreases to - mid,
{
    if mid < to {
        lemma_span_split(code, shims, filled, from, mid, to - 1);
        assert(span(code, shims, filled, from, to) =~= span(code, shims, filled, from, mid) + span(
            code,
            shims,
            filled,
            mid,
            to,
        ));
    } else {
        assert(span(code, shims, filled, from, to) =~= span(code, shims, filled, from, mid) + span(
            code,
            shims,
            filled,
            mid,
            to,
        ));
    }
}

/// A stretch of code whose jumps are all filled in, or all left empty, does not depend on
/// how many jumps elsewhere are filled in.
pub proof fn lemma_span_filled(
    code: Seq<Node>,
    shims: Shims,
    filled1: int,
    filled2: int,
    from: int,
    to: int,
)
    requires
        (filled1 <= from && filled2 <= from) || (filled1 >= to && filled2 >= to),
    ensures
        span(code, shims, filled1, from, to) == span(code, shims, filled2, from, to),
    decreases to - from,
{
    if from < to {
        lemma_span_filled(code, shims, filled1, filled2, from, to - 1);
    }
}

/// What a complete label table holds: the exit label is bound at the exit, and both labels
/// of every loop are bound.
pub open spec fn labels_complete(code: Seq<Node>, labels: Seq<Option<int>>) -> bool {
    &&& labels.len() == 1 + 2 * opens_before(code, code.len() as int)
    &&& labels[0] == Some(exit_offset(code))
    &&& loop_labels(code, code.len() as int, Seq::empty(), labels)
}

/// With a complete label table, the label of every jump is bound at the jump's target.
pub proof fn lemma_target_bound(code: Seq<Node>, labels: Seq<Option<int>>, i: int)
    requires
        balanced(code),
        labels_complete(code, labels),
        0 <= i < code.len(),
        has_jump(code[i]),
    ensures
        0 <= target_label(code, i) < labels.len(),
        labels[target_label(code, i)] == Some(offset(code, i + 1) + displacement(code, i)),
        0 <= offset(code, i + 1) <= code_size(code),
        0 <= offset(code, i + 1) + displacement(code, i) <= code_size(code),
{
    let len = code.len() as int;
    lemma_offset_monotonic(code, i + 1, len);
    match code[i] {
        Node::LoopBegin => {
            assert(!Seq::<int>::empty().contains(i));
            let q = choose|q: int|
                i < q < len && #[trigger] matching(code, i, q) && labels[after_label(code, i)]
                    == Some(offset(code, q + 1));
            lemma_matching_close_unique(code, i, q, close_of(code, i));
            lemma_opens_before_monotonic(code, i, len);
            lemma_offset_monotonic(code, q + 1, len);
        },
        Node::LoopEnd => {
            let p = crate::loops::lemma_loop_end_has_match(code, i);
            let o = open_of(code, i);
            assert(matching(code, o, i));
            lemma_opens_before_monotonic(code, o, len);
            lemma_offset_monotonic(code, o + 1, len);
        },
        _ => {},
    }
}

/// Every jump of the function can be held in a signed 32-bit field.
pub open spec fn jumps_fit(code: Seq<Node>) -> bool {
    forall|i: int|
        0 <= i < code.len() && has_jump(code[i]) ==> fits_rel32(#[trigger] displacement(code, i))
}

/// Every jump of the first `k` instructions has its field among the jump fields.
pub proof fn lemma_jumps_have_fields(code: Seq<Node>, k: int)
    requires
        0 <= k <= code.len(),
    ensures
        forall|i: int|
            0 <= i < k && has_jump(code[i]) ==> jump_fields(code, k).contains(
                #[trigger] field_of(code, i),
            ),
    decreases k,
{
    if k > 0 {
        lemma_jumps_have_fields(code, k - 1);
        let fields = jump_fields(code, k);
        let earlier = jump_fields(code, k - 1);
        assert forall|i: int| 0 <= i < k && has_jump(code[i]) implies fields.contains(
            #[trigger] field_of(code, i),
        ) by {
            if i < k - 1 {
                assert(earlier.contains(field_of(code, i)));
                let j = choose|j: int| 0 <= j < earlier.len() && earlier[j] == field_of(code, i);
                assert(fields[j] == field_of(code, i));
            } else {
                assert(fields[fields.len() - 1] == field_of(code, i));
            }
        }
    }
}

/// With a complete label table, the jump fields can be filled in exactly when every jump
/// fits.
pub proof fn lemma_resolvable_exactly(code: Seq<Node>, labels: Seq<Option<int>>)
    requires
        balanced(code),
        labels_complete(code, labels),
    ensures
        resolvable(jump_fields(code, code.len() as int), labels) <==> jumps_fit(code),
{
    let len = code.len() as int;
    let fields = jump_fields(code, len);
    lemma_fields_in_function(code, len);
    lemma_jumps_have_fields(code, len);
    if jumps_fit(code) {
        assert forall|k: int| 0 <= k < fields.len() implies {
            let r = #[trigger] fields[k];
            &&& 0 <= r.label < labels.len()
            &&& labels[r.label] is Some
            &&& fits_rel32(labels[r.label]->0 - r.location)
        } by {
            assert(belongs(code, len, fields[k]));
            let i = choose|i: int|
                0 <= i < len && has_jump(code[i]) && fields[k] == #[trigger] field_of(code, i);
            lemma_target_bound(code, labels, i);
            assert(fits_rel32(displacement(code, i)));
        }
    }
    if resolvable(fields, labels) {
        assert forall|i: int| 0 <= i < len && has_jump(code[i]) implies fits_rel32(
            #[trigger] displacement(code, i),
        ) by {
            assert(fields.contains(field_of(code, i)));
            let j = choose|j: int| 0 <= j < fields.len() && fields[j] == field_of(code, i);
            lemma_target_bound(code, labels, i);
            assert(fits_rel32(labels[fields[j].label]->0 - fields[j].location));
        }
    }
}

/// In a balanced program every jump stays within the function, so that in a function short
/// enough for 32-bit jumps every jump fits.
pub proof fn lemma_short_code_fits(code: Seq<Node>)
    requires
        balanced(code),
        code_size(code) <= i32::MAX,
    ensures
        jumps_fit(code),
{
    let len = code.len() as int;
    assert forall|i: int| 0 <= i < len && has_jump(code[i]) implies fits_rel32(
        #[trigger] displacement(code, i),
    ) by {
        lemma_offset_monotonic(code, i + 1, len);
        lemma_offset_monotonic(code, 0, i + 1);
        match code[i] {
            Node::LoopBegin => {
                let q = crate::loops::lemma_loop_begin_has_match(code, i);
                let c = close_of(code, i);
                assert(matching(code, i, c));
                lemma_offset_monotonic(code, c + 1, len);
                lemma_offset_monotonic(code, 0, c + 1);
            },
            Node::LoopEnd => {
                let p = crate::loops::lemma_loop_end_has_match(code, i);
                let o = open_of(code, i);
                assert(matching(code, o, i));
                lemma_offset_monotonic(code, o + 1, len);
                lemma_offset_monotonic(code, 0, o + 1);
            },
            _ => {},
        }
    }
}

/// Filling in the displacement at the end of an instruction changes those four bytes only.
proof fn lemma_patch_one(head: Seq<u8>, stem: Seq<u8>, rest: Seq<u8>, location: int, target: int)
    requires
        location == head.len() + stem.len() + 4,
    ensures
        patched(head + (stem + le32(0)) + rest, location, target) == head + (stem + le32(
            target - location,
        )) + rest,
{
    let before = head + (stem + le32(0)) + rest;
    let after = head + (stem + le32(target - location)) + rest;
    assert(before.subrange(0, location - 4) =~= head + stem);
    assert(before.subrange(location, before.len() as int) =~= rest);
    assert(patched(before, location, target) =~= after);
}

/// The function with the jumps of the first `filled` instructions filled in, cut around
/// instruction `at`.
proof fn lemma_cut_around(code: Seq<Node>, shims: Shims, filled: int, at: int)
    requires
        0 <= at < code.len(),
    ensures
        prologue() + span(code, shims, filled, 0, code.len() as int) + epilogue() == (prologue()
            + span(code, shims, filled, 0, at)) + encoded(
            code[at],
            shims,
            if at < filled {
                displacement(code, at)
            } else {
                0
            },
        ) + (span(code, shims, filled, at + 1, code.len() as int) + epilogue()),
{
    let len = code.len() as int;
    lemma_span_split(code, shims, filled, 0, at, len);
    lemma_span_split(code, shims, filled, at, at + 1, len);
    let one = encoded(
        code[at],
        shims,
        if at < filled {
            displacement(code, at)
        } else {
            0
        },
    );
    assert(span(code, shims, filled, at, at + 1) =~= one) by {
        assert(span(code, shims, filled, at, at) =~= Seq::<u8>::empty());
    }
    assert(prologue() + span(code, shims, filled, 0, len) + epilogue() =~= (prologue() + span(
        code,
        shims,
        filled,
        0,
        at,
    )) + one + (span(code, shims, filled, at + 1, len) + epilogue()));
}

/// Filling in the jump of instruction `m - 1` takes the function with the jumps of the first
/// `m - 1` instructions filled in to the one with the jumps of the first `m` filled in.
proof fn lemma_fill_one(code: Seq<Node>, shims: Shims, m: int, target: int)
    requires
        0 < m <= code.len(),
        has_jump(code[m - 1]),
        target == offset(code, m) + displacement(code, m - 1),
    ensures
        patched(
            prologue() + span(code, shims, m - 1, 0, code.len() as int) + epilogue(),
            offset(code, m),
            target,
        ) == prologue() + span(code, shims, m, 0, code.len() as int) + epilogue(),
{
    let len = code.len() as int;
    let node = code[m - 1];
    let head = prologue() + span(code, shims, m - 1, 0, m - 1);
    let rest = span(code, shims, m - 1, m, len) + epilogue();
    lemma_cut_around(code, shims, m - 1, m - 1);
    lemma_cut_around(code, shims, m, m - 1);
    lemma_span_filled(code, shims, m - 1, m, 0, m - 1);
    lemma_span_filled(code, shims, m - 1, m, m, len);
    lemma_span_len(code, shims, m - 1, 0, m - 1);
    lemma_encoded_len(node, shims, 0);
    lemma_patch_one(head, stem(node, shims), rest, offset(code, m), target);
}

/// An instruction without a jump has the same code whether or not its jump counts as
/// filled in.
proof fn lemma_fill_none(code: Seq<Node>, shims: Shims, m: int)
    requires
        0 < m <= code.len(),
        !has_jump(code[m - 1]),
    ensures
        prologue() + span(code, shims, m - 1, 0, code.len() as int) + epilogue() == prologue()
            + span(code, shims, m, 0, code.len() as int) + epilogue(),
{
    let len = code.len() as int;
    lemma_cut_around(code, shims, m - 1, m - 1);
    lemma_cut_around(code, shims, m, m - 1);
    lemma_span_filled(code, shims, m - 1, m, 0, m - 1);
    lemma_span_filled(code, shims, m - 1, m, m, len);
}

/// Filling in the jump fields of the first `m` instructions turns the code with all jumps
/// empty into the code with the jumps of those instructions displaced to their targets.
pub proof fn lemma_resolved_prefix(
    code: Seq<Node>,
    shims: Shims,
    labels: Seq<Option<int>>,
    m: int,
)
    requires
        balanced(code),
        labels_complete(code, labels),
        0 <= m <= code.len(),
    ensures
        resolved(
            prologue() + span(code, shims, 0, 0, code.len() as int) + epilogue(),
            jump_fields(code, m),
            labels,
        ) == prologue() + span(code, shims, m, 0, code.len() as int) + epilogue(),
    decreases m,
{
    let len = code.len() as int;
    let raw = prologue() + span(code, shims, 0, 0, len) + epilogue();
    if m > 0 {
        lemma_resolved_prefix(code, shims, labels, m - 1);
        let earlier = jump_fields(code, m - 1);
        if has_jump(code[m - 1]) {
            let field = field_of(code, m - 1);
            assert(jump_fields(code, m) == earlier.push(field));
            assert(earlier.push(field).drop_last() =~= earlier);
            assert(earlier.push(field).last() == field);
            assert(resolved(raw, earlier.push(field), labels) == patched(
                resolved(raw, earlier, labels),
                field.location,
                labels[field.label]->0,
            ));
            lemma_target_bound(code, labels, m - 1);
            lemma_fill_one(code, shims, m, labels[field.label]->0);
        } else {
            assert(jump_fields(code, m) == earlier);
            lemma_fill_none(code, shims, m);
        }
    }
}

/// The state of the emission after the epilogue: the code is complete but for the jump
/// fields, and the label table is complete.
proof fn lemma_emit_epilogue(code: Seq<Node>, shims: Shims, s: Listing, t: Listing)
    requires
        emitting(code, shims, code.len() as int, Seq::empty(), s),
        t.code == s.code + clear_result() + restore_and_return(),
        t.labels == s.labels.update(0, Some(s.code.len() as int + 3)),
        t.fields == s.fields,
    ensures
        balanced(code),
        t.code == prologue() + span(code, shims, 0, 0, code.len() as int) + epilogue(),
        t.fields == jump_fields(code, code.len() as int),
        fields_in_buffer(t.fields, t.code.len() as int),
        labels_complete(code, t.labels),
{
    let len = code.len() as int;
    assert(t.code =~= prologue() + span(code, shims, 0, 0, len) + epilogue());
    lemma_span_len(code, shims, 0, 0, len);
    lemma_fields_in_function(code, len);
    lemma_opens_before_nonnegative(code, len);
    assert forall|p: int| 0 <= p < len && #[trigger] code[p] is LoopBegin implies {
        &&& t.labels[body_label(code, p)] == Some(offset(code, p + 1))
        &&& exists|q: int|
            p < q < len && #[trigger] matching(code, p, q) && t.labels[after_label(code, p)]
                == Some(offset(code, q + 1))
    } by {
        lemma_opens_before_nonnegative(code, p);
        lemma_opens_before_monotonic(code, p, len);
        assert(!Seq::<int>::empty().contains(p));
        let q = choose|q: int|
            p < q < len && #[trigger] matching(code, p, q) && s.labels[after_label(code, p)]
                == Some(offset(code, q + 1));
        assert(p < q < len && matching(code, p, q));
    }
}

/// Generates the machine code of an instruction sequence.
///
/// Fails with `UnmatchedBracket` exactly when the brackets are not balanced. On a balanced
/// sequence the result is the generated function; the assembler refuses it exactly where a
/// jump does not fit into 32 bits, which takes a function too long for them.
pub fn emit(code: &Vec<Node>, shims: Shims) -> (result: Result<Vec<u8>, CompileError>)
    ensures
        !balanced(code@) <==> result == Err::<Vec<u8>, CompileError>(
            CompileError::UnmatchedBracket,
        ),
        result is Ok <==> balanced(code@) && jumps_fit(code@),
        balanced(code@) && code_size(code@) <= i32::MAX ==> result is Ok,
        result matches Ok(bytes) ==> bytes@ == machine_code(code@, shims),
        result matches Err(error) ==> error is UnmatchedBracket || error is Backend,
{
    let mut a = assembler_new(0);
    let exit = assembler_new_label(&mut a);
    let mut loop_labels: Vec<(DynamicLabel, DynamicLabel)> = Vec::new();
    let ghost mut opens: Seq<int> = Seq::empty();
    let mut head: Vec<u8> = Vec::new();
    put_prologue(&mut head);
    assembler_extend(&mut a, &head);
    let n = code.len();
    let mut i: usize = 0;
    proof {
        assert(bound_labels(a) =~= seq![None]);
        assert(assembled(a) =~= prologue() + span(code@, shims, 0, 0, 0));
        assert(references(a) =~= jump_fields(code@, 0));
    }
    while i < n
        invariant
            n == code.len(),
            label_number(exit) == 0,
            emitting(code@, shims, i as int, opens, listing(a)),
            labels_on_stack(code@, opens, loop_labels@),
        decreases n - i,
    {
        let node = code[i];
        let ghost s = listing(a);
        let ghost old_opens = opens;
        let bytes = encode(node, shims);
        match node {
            Node::LoopBegin => {
                let start_label = assembler_new_label(&mut a);
                let end_label = assembler_new_label(&mut a);
                assembler_extend(&mut a, &bytes);
                assembler_refer(&mut a, end_label, 0, 4, 0, RELATIVE_DWORD);
                assembler_bind(&mut a, start_label);
                loop_labels.push((start_label, end_label));
                proof {
                    lemma_emit_loop_begin(code@, shims, i as int, opens, s, listing(a));
                    opens = opens.push(i as int);
                }
            },
            Node::LoopEnd => {
                let (start_label, end_label) = match loop_labels.pop() {
                    Some(x) => x,
                    None => {
                        assert(depth(code@, i + 1) == depth(code@, i as int) + depth_change(
                            code@[i as int],
                        ));
                        return Err(CompileError::UnmatchedBracket);
                    },
                };
                assembler_extend(&mut a, &bytes);
                assembler_refer(&mut a, start_label, 0, 4, 0, RELATIVE_DWORD);
                proof {
                    let top = opens.last();
                    assert(still_open(code@, i as int, opens[opens.len() - 1], opens.len() - 1));
                    lemma_opens_before_monotonic(code@, top, i as int);
                    assert(opens.contains(top));
                }
                assembler_bind(&mut a, end_label);
                proof {
                    lemma_emit_loop_end(code@, shims, i as int, opens, s, listing(a));
                    opens = opens.drop_last();
                }
            },
            Node::Write => {
                assembler_extend(&mut a, &bytes);
                assembler_refer(&mut a, exit, 0, 4, 0, RELATIVE_DWORD);
                proof {
                    lemma_emit_call(code@, shims, i as int, opens, s, listing(a));
                }
            },
            Node::Read => {
                assembler_extend(&mut a, &bytes);
                assembler_refer(&mut a, exit, 0, 4, 0, RELATIVE_DWORD);
                proof {
                    lemma_emit_call(code@, shims, i as int, opens, s, listing(a));
                }
            },
            _ => {
                assembler_extend(&mut a, &bytes);
                proof {
                    lemma_emit_plain(code@, shims, i as int, opens, s, listing(a));
                }
            },
        }
        i += 1;
    }
    if loop_labels.len() > 0 {
        return Err(CompileError::UnmatchedBracket);
    }
    let ghost done = listing(a);
    let mut tail: Vec<u8> = Vec::new();
    put_clear_result(&mut tail);
    assembler_extend(&mut a, &tail);
    assembler_bind(&mut a, exit);
    let mut rest: Vec<u8> = Vec::new();
    put_restore_and_return(&mut rest);
    assembler_extend(&mut a, &rest);
    proof {
        assert(opens =~= Seq::empty());
        lemma_opens_before_nonnegative(code@, n as int);
        assert(assembled(a) =~= done.code + clear_result() + restore_and_return());
        lemma_emit_epilogue(code@, shims, done, listing(a));
        lemma_resolved_prefix(code@, shims, bound_labels(a), n as int);
        lemma_resolvable_exactly(code@, bound_labels(a));
        if code_size(code@) <= i32::MAX {
            lemma_short_code_fits(code@);
        }
    }
    match assembler_finalize(a) {
        Ok(bytes) => Ok(bytes),
        Err(error) => Err(CompileError::Backend(describe(error))),
    }
}

/// Appends the prologue.
fn put_prologue(out: &mut Vec<u8>)
    requires
        old(out)@.len() == 0,
    ensures
        final(out)@ == prologue(),
{
    out.push(0x55);
    out.push(0x48);
    out.push(0x89);
    out.push(0xE5);
    out.push(0x41);
    out.push(0x54);
    out.push(0x41);
    out.push(0x55);
    out.push(0x49);
    out.push(0x89);
    out.push(0xFC);
    out.push(0x4D);
    out.push(0x31);
    out.push(0xED);
    assert(out@ =~= prologue());
}

/// Appends `xor rax, rax`.
fn put_clear_result(out: &mut Vec<u8>)
    requires
        old(out)@.len() == 0,
    ensures
        final(out)@ == clear_result(),
{
    out.push(0x48);
    out.push(0x31);
    out.push(0xC0);
    assert(out@ =~= clear_result());
}

/// Appends `pop r13; pop r12; pop rbp; ret`.
fn put_restore_and_return(out: &mut Vec<u8>)
    requires
        old(out)@.len() == 0,
    ensures
        final(out)@ == restore_and_return(),
{
    out.push(0x41);
    out.push(0x5D);
    out.push(0x41);
    out.push(0x5C);
    out.push(0x5D);
    out.push(0xC3);
    assert(out@ =~= restore_and_return());
}

} // verus!
