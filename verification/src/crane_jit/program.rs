//! A program compiled by the retargetable back end.

use vstd::prelude::*;
use cranelift::codegen::ir::{Block, Function, MemFlags, SigRef, Type, Value};
use cranelift::frontend::{FunctionBuilder, Variable};
use memmap2::{Mmap, MmapMut};
use crate::crane_jit::clif::{
    accepted, append_block_param, bits, block_count, block_number, builder_finalize,
    builder_new, byte_type, can_insert, compile, context_for, context_new, create_block,
    cursor, declare_var, def_var, describe_codegen_error, describe_set_error,
    describe_verifier_errors, filled, flags_new, function_new, has_block, has_signature,
    has_value, host_description, host_finish, import_signature, ins_brif, ins_call_indirect,
    ins_iadd, ins_iadd_imm, ins_iconst, ins_load, ins_return, ins_store, inserted,
    integer_variables, is_integer, keeps, object_code, outcome, parameters_of, plain_access,
    pointer_of, pointer_type, position, result_count, returns_of, seal_block, sealed,
    settings_builder, settings_of, settings_set, signature_new, signature_of,
    signature_returns, signature_takes, switch_to_block, system_v, use_var, variable_type,
    verify, Host, Inserted,
};
use crate::error::{describe_io_error, CompileError};
use crate::loops::{
    balanced, depth, depth_change, is_balanced, lemma_loop_end_has_match,
    lemma_matching_open_unique, matching, open_of, still_open,
};
use crate::parser::{parse, parse_spec, Node};
use crate::shims::Shims;

verus! {

/// What the lowering of every instruction needs.
pub struct Fixtures {
    /// The type of pointers and of the data pointer.
    pub pointer_type: Type,
    /// The type of a cell.
    pub cell_type: Type,
    /// The flags of every access to the tape.
    pub access: MemFlags,
    /// The variable that holds the data pointer.
    pub pointer: Variable,
    /// The tape base, the parameter of the function.
    pub tape: Value,
    /// The constant zero, the return value of a run without error.
    pub zero: Value,
    /// Signature and address of the write routine.
    pub write_signature: SigRef,
    pub write_address: Value,
    /// Signature and address of the read routine.
    pub read_signature: SigRef,
    pub read_address: Value,
    /// The block that returns the error handle it is given.
    pub exit: Block,
    /// The parameter of the exit block: the error handle.
    pub handle: Value,
}

impl Fixtures {
    /// The values, signatures and the exit block belong to the function; the data pointer is
    /// declared, and every variable is of an integer type; a call of a host routine returns
    /// one value.
    pub open spec fn known_to(self, b: FunctionBuilder<'static>) -> bool {
        &&& integer_variables(b)
        &&& variable_type(b, self.pointer) is Some
        &&& result_count(b, self.write_signature) == 1
        &&& result_count(b, self.read_signature) == 1
        &&& has_value(b, self.handle)
        &&& has_value(b, self.tape)
        &&& has_value(b, self.zero)
        &&& has_value(b, self.write_address)
        &&& has_value(b, self.read_address)
        &&& has_signature(b, self.write_signature)
        &&& has_signature(b, self.read_signature)
        &&& has_block(b, self.exit)
    }
}

/// The two blocks of an open loop, by number: the body, and the block behind the loop.
pub struct Frame {
    pub body: nat,
    pub after: nat,
}

/// The frames of the open loops, outermost first, were created one after the other, each
/// body right before its own after-block.
pub open spec fn frames_ordered(frames: Seq<Frame>, blocks: nat) -> bool {
    &&& forall|k: int|
        0 <= k < frames.len() ==> (#[trigger] frames[k]).after == frames[k].body + 1
            && frames[k].after < blocks
    &&& forall|j: int, k: int|
        0 <= j < k < frames.len() ==> (#[trigger] frames[j]).after < (#[trigger] frames[k]).body
}

/// Whether a block is the after-block of an open loop.
pub open spec fn is_after(frames: Seq<Frame>, n: nat) -> bool {
    exists|k: int| 0 <= k < frames.len() && (#[trigger] frames[k]).after == n
}

/// Whether a block is the body of an open loop.
pub open spec fn is_body(frames: Seq<Frame>, n: nat) -> bool {
    exists|k: int| 0 <= k < frames.len() && (#[trigger] frames[k]).body == n
}

/// The state of the builder between two instructions of the source: an instruction can be
/// inserted; the exit block and the after-blocks of the open loops are waiting, without
/// terminator; these and the bodies of the open loops are not sealed; every other block is
/// sealed and, but for the current one, terminated.
pub open spec fn between(b: FunctionBuilder<'static>, frames: Seq<Frame>, exit: nat) -> bool {
    let current = position(b)->0;
    &&& position(b) is Some
    &&& exit < current < block_count(b)
    &&& frames_ordered(frames, block_count(b))
    &&& frames.len() > 0 ==> exit < frames[0].body && (current == frames.last().body
        || frames.last().after < current)
    &&& forall|n: nat|
        n < block_count(b) ==> (#[trigger] filled(b).contains(n) <==> !(n == current || n == exit
            || is_after(frames, n)))
    &&& forall|n: nat|
        n < block_count(b) ==> (#[trigger] sealed(b).contains(n) <==> !(n == exit || is_after(
            frames,
            n,
        ) || is_body(frames, n)))
}

/// The blocks on the stack are those of the frames.
pub open spec fn stack_matches(stack: Seq<(Block, Block)>, frames: Seq<Frame>) -> bool {
    &&& stack.len() == frames.len()
    &&& forall|k: int|
        0 <= k < stack.len() ==> block_number((#[trigger] stack[k]).0) == frames[k].body
            && block_number(stack[k].1) == frames[k].after
}

#[verifier::external_type_specification]
#[verifier::external_body]
pub struct ExMmapMut(MmapMut);

#[verifier::external_type_specification]
#[verifier::external_body]
pub struct ExMmap(Mmap);

/// The bytes of a writable mapping.
pub uninterp spec fn mapped(mapping: MmapMut) -> Seq<u8>;

/// The bytes of a read-only or executable mapping.
pub uninterp spec fn loaded(mapping: Mmap) -> Seq<u8>;

/// `MmapMut::map_anon`: writable memory of the given length, or the error of the operating
/// system.
#[verifier::external_body]
fn map_anonymous(length: usize) -> (result: Result<MmapMut, std::io::Error>)
    ensures
        result matches Ok(mapping) ==> mapped(mapping).len() == length,
{
    MmapMut::map_anon(length)
}

/// `copy_from_slice` on the mapping: overwrites it with bytes of the same number.
#[verifier::external_body]
fn mapping_fill(mapping: &mut MmapMut, bytes: &Vec<u8>)
    requires
        mapped(*old(mapping)).len() == bytes@.len(),
    ensures
        mapped(*final(mapping)) == bytes@,
{
    mapping.copy_from_slice(bytes)
}

/// `MmapMut::make_exec`: the same memory, executable and no longer writable, or the error
/// of the operating system.
#[verifier::external_body]
fn mapping_make_exec(mapping: MmapMut) -> (result: Result<Mmap, std::io::Error>)
    ensures
        result matches Ok(image) ==> loaded(image) == mapped(mapping),
{
    mapping.make_exec()
}

/// What the code generator was given for one program.
pub struct Given {
    /// The host that the code was generated for.
    pub host: Host,
    /// The builder of the function, as it was when the function was complete.
    pub builder: FunctionBuilder<'static>,
    /// The values, blocks and signatures that the steps speak of.
    pub fixtures: Fixtures,
}

impl Given {
    /// The function that was compiled.
    pub open spec fn function(self) -> Function {
        outcome(self.builder)
    }

    /// Everything that was put into the function, in order.
    pub open spec fn steps(self) -> Seq<Inserted> {
        inserted(self.builder)
    }

    /// The pointer type of the host.
    pub open spec fn pointer(self) -> Type {
        pointer_of(self.host)
    }

    /// The settings of the code generator that were given a value by name.
    pub open spec fn settings(self) -> Map<Seq<char>, Seq<char>> {
        settings_of(self.host)
    }
}

/// The machine code of one source text for the host.
pub struct Program {
    bytes: Vec<u8>,
    given: Ghost<Given>,
}

impl View for Program {
    type V = Seq<u8>;

    closed spec fn view(&self) -> Seq<u8> {
        self.bytes@
    }
}

/// Wraps the code generator's account of a failure.
fn backend(account: String) -> (error: CompileError)
    ensures
        error == CompileError::Backend(account),
{
    CompileError::Backend(account)
}

/// A pointer distance as the signed number with the same 64 bits.
pub open spec fn as_signed(n: usize) -> int {
    if n <= i64::MAX {
        n as int
    } else {
        n - 0x1_0000_0000_0000_0000
    }
}

/// The signed number with the same 64 bits as a pointer distance.
fn signed(n: usize) -> (result: i64)
    ensures
        result == as_signed(n),
{
    let wide = n as u64;
    if wide <= 0x7FFF_FFFF_FFFF_FFFF {
        wide as i64
    } else {
        let low = wide - 0x8000_0000_0000_0000;
        (low as i64) + i64::MIN
    }
}

/// The negative of a signed 64-bit number, modulo 2 to the 64.
pub open spec fn as_negated(x: i64) -> int {
    if x == i64::MIN {
        i64::MIN as int
    } else {
        -x
    }
}

/// The negative of a signed 64-bit number, modulo 2 to the 64.
fn negated(x: i64) -> (result: i64)
    ensures
        result == as_negated(x),
{
    if x == i64::MIN {
        i64::MIN
    } else {
        -x
    }
}

/// The value that a step gives: the value of the variable, the result of the instruction,
/// the first value that a call returns.
pub open spec fn result_of(step: Inserted) -> Value {
    match step {
        Inserted::UseVar { result, .. } => result,
        Inserted::Const { result, .. } => result,
        Inserted::Add { result, .. } => result,
        Inserted::AddImm { result, .. } => result,
        Inserted::Load { result, .. } => result,
        Inserted::Call { results, .. } => results[0],
        _ => arbitrary(),
    }
}

/// The block that a step creates.
pub open spec fn block_of(step: Inserted) -> nat {
    match step {
        Inserted::Block { block } => block,
        _ => 0,
    }
}

/// `after` is `before` with `n` more steps.
pub open spec fn continues(before: Seq<Inserted>, after: Seq<Inserted>, n: int) -> bool {
    after.len() == before.len() + n && after.subrange(0, before.len() as int) == before
}

/// The steps from `at` compute the address of the current cell: the data pointer is read and
/// added to the tape base.
pub open spec fn address_steps(s: Seq<Inserted>, at: int, fixtures: Fixtures) -> bool {
    &&& s[at] == (Inserted::UseVar { variable: fixtures.pointer, result: result_of(s[at]) })
    &&& s[at + 1] == (Inserted::Add {
        x: fixtures.tape,
        y: result_of(s[at]),
        result: result_of(s[at + 1]),
    })
}

/// The steps from `at` load the current cell: its address is computed and eight bits are
/// loaded from there.
pub open spec fn load_steps(s: Seq<Inserted>, at: int, fixtures: Fixtures) -> bool {
    &&& address_steps(s, at, fixtures)
    &&& s[at + 2] == (Inserted::Load {
        ty: fixtures.cell_type,
        flags: fixtures.access,
        address: result_of(s[at + 1]),
        offset: 0,
        result: result_of(s[at + 2]),
    })
}

/// The five steps from `at` add `addend` to the current cell: the cell is loaded, the
/// constant is added to it, and the sum is stored at the cell's address.
pub open spec fn add_steps(s: Seq<Inserted>, at: int, fixtures: Fixtures, addend: i64) -> bool {
    &&& load_steps(s, at, fixtures)
    &&& s[at + 3] == (Inserted::AddImm {
        x: result_of(s[at + 2]),
        addend,
        result: result_of(s[at + 3]),
    })
    &&& s[at + 4] == (Inserted::Store {
        flags: fixtures.access,
        value: result_of(s[at + 3]),
        address: result_of(s[at + 1]),
        offset: 0,
    })
}

/// The three steps from `at` move the data pointer by `distance`: it is read, the constant
/// is added, and the sum becomes its new value.
pub open spec fn move_steps(s: Seq<Inserted>, at: int, fixtures: Fixtures, distance: i64) -> bool {
    &&& s[at] == (Inserted::UseVar { variable: fixtures.pointer, result: result_of(s[at]) })
    &&& s[at + 1] == (Inserted::AddImm {
        x: result_of(s[at]),
        addend: distance,
        result: result_of(s[at + 1]),
    })
    &&& s[at + 2] == (Inserted::DefVar { variable: fixtures.pointer, value: result_of(s[at + 1]) })
}

/// The four steps from `at` act on the error handle of a host call: a block is created;
/// where the handle is not zero the code branches to the exit block with the handle, else to
/// the new block; the new block is sealed and made current.
pub open spec fn leave_steps(s: Seq<Inserted>, at: int, fixtures: Fixtures, handle: Value) -> bool {
    &&& s[at] == (Inserted::Block { block: block_of(s[at]) })
    &&& s[at + 1] == (Inserted::Branch {
        condition: handle,
        then_block: block_number(fixtures.exit),
        then_arguments: seq![handle],
        else_block: block_of(s[at]),
        else_arguments: Seq::empty(),
    })
    &&& s[at + 2] == (Inserted::Seal { block: block_of(s[at]) })
    &&& s[at + 3] == (Inserted::Switch { block: block_of(s[at]) })
}

/// The steps from `at` call a host routine: for a write, eight steps that load the cell and
/// call the write routine with its value; for a read, seven steps that compute the cell's
/// address and call the read routine with it; each followed by the steps that act on the
/// error handle.
pub open spec fn call_steps(s: Seq<Inserted>, at: int, fixtures: Fixtures, write: bool) -> bool {
    if write {
        &&& load_steps(s, at, fixtures)
        &&& s[at + 3] == (Inserted::Call {
            signature: fixtures.write_signature,
            callee: fixtures.write_address,
            arguments: seq![result_of(s[at + 2])],
            results: seq![result_of(s[at + 3])],
        })
        &&& leave_steps(s, at + 4, fixtures, result_of(s[at + 3]))
    } else {
        &&& address_steps(s, at, fixtures)
        &&& s[at + 2] == (Inserted::Call {
            signature: fixtures.read_signature,
            callee: fixtures.read_address,
            arguments: seq![result_of(s[at + 1])],
            results: seq![result_of(s[at + 2])],
        })
        &&& leave_steps(s, at + 3, fixtures, result_of(s[at + 2]))
    }
}

/// The seven steps from `at` open a loop: the body and the block behind the loop are
/// created, the cell is loaded, the code branches into the body where the cell is not zero
/// and behind the loop where it is, and the body is made current.
pub open spec fn loop_begin_steps(s: Seq<Inserted>, at: int, fixtures: Fixtures) -> bool {
    &&& s[at] == (Inserted::Block { block: block_of(s[at]) })
    &&& s[at + 1] == (Inserted::Block { block: block_of(s[at + 1]) })
    &&& load_steps(s, at + 2, fixtures)
    &&& s[at + 5] == (Inserted::Branch {
        condition: result_of(s[at + 4]),
        then_block: block_of(s[at]),
        then_arguments: Seq::empty(),
        else_block: block_of(s[at + 1]),
        else_arguments: Seq::empty(),
    })
    &&& s[at + 6] == (Inserted::Switch { block: block_of(s[at]) })
}

/// The seven steps from `at` close the loop with the blocks `body` and `after`: the cell is
/// loaded, the code branches back into the body where the cell is not zero and behind the
/// loop where it is, both blocks are sealed, and the block behind the loop is made current.
pub open spec fn loop_end_steps(
    s: Seq<Inserted>,
    at: int,
    fixtures: Fixtures,
    body: nat,
    after: nat,
) -> bool {
    &&& load_steps(s, at, fixtures)
    &&& s[at + 3] == (Inserted::Branch {
        condition: result_of(s[at + 2]),
        then_block: body,
        then_arguments: Seq::empty(),
        else_block: after,
        else_arguments: Seq::empty(),
    })
    &&& s[at + 4] == (Inserted::Seal { block: body })
    &&& s[at + 5] == (Inserted::Seal { block: after })
    &&& s[at + 6] == (Inserted::Switch { block: after })
}

/// Number of steps that the lowering of one instruction takes.
pub open spec fn step_count(node: Node) -> int {
    match node {
        Node::Increment(_) => 5,
        Node::Decrement(_) => 5,
        Node::Next(_) => 3,
        Node::Prev(_) => 3,
        Node::Write => 8,
        Node::Read => 7,
        Node::LoopBegin => 7,
        Node::LoopEnd => 7,
    }
}

/// Number of steps that the lowering of the first `k` instructions takes.
pub open spec fn steps_before(code: Seq<Node>, k: int) -> int
    decreases k,
{
    if k <= 0 {
        0
    } else {
        steps_before(code, k - 1) + step_count(code[k - 1])
    }
}

/// The steps of `s` that belong to instruction `i` are its lowering, where the lowering of
/// the program starts at step `base`:
///
/// | instruction | steps |
/// |---|---|
/// | `Increment(n)` | add `n` to the cell |
/// | `Decrement(n)` | add `-n` to the cell |
/// | `Next(n)` | move the data pointer by `n`, taken as a signed 64-bit number |
/// | `Prev(n)` | move the data pointer by the negative of that |
/// | `Write`, `Read` | call the host routine |
/// | `LoopBegin` | open a loop |
/// | `LoopEnd` | close the loop with the blocks that its partner created |
pub open spec fn lowered_at(
    code: Seq<Node>,
    fixtures: Fixtures,
    i: int,
    s: Seq<Inserted>,
    base: int,
) -> bool {
    let at = base + steps_before(code, i);
    match code[i] {
        Node::Increment(n) => add_steps(s, at, fixtures, n as i64),
        Node::Decrement(n) => add_steps(s, at, fixtures, (-(n as int)) as i64),
        Node::Next(n) => move_steps(s, at, fixtures, as_signed(n) as i64),
        Node::Prev(n) => move_steps(s, at, fixtures, as_negated(as_signed(n) as i64) as i64),
        Node::Write => call_steps(s, at, fixtures, true),
        Node::Read => call_steps(s, at, fixtures, false),
        Node::LoopBegin => loop_begin_steps(s, at, fixtures),
        Node::LoopEnd => {
            let partner = base + steps_before(code, open_of(code, i));
            loop_end_steps(s, at, fixtures, block_of(s[partner]), block_of(s[partner + 1]))
        },
    }
}

/// The steps of `s` from `base` on are the lowering of the instructions, one after the
/// other.
pub open spec fn lowered(code: Seq<Node>, fixtures: Fixtures, s: Seq<Inserted>, base: int) -> bool {
    forall|i: int| 0 <= i < code.len() ==> #[trigger] lowered_at(code, fixtures, i, s, base)
}

/// Inserts the computation of the address of the current cell.
fn cell_address(b: &mut FunctionBuilder<'_>, fixtures: &Fixtures) -> (address: Value)
    requires
        can_insert(*old(b)),
        fixtures.known_to(*old(b)),
    ensures
        cursor(*final(b)) == cursor(*old(b)),
        keeps(*old(b), *final(b)),
        has_value(*final(b), address),
        continues(inserted(*old(b)), inserted(*final(b)), 2),
        address_steps(inserted(*final(b)), inserted(*old(b)).len() as int, *fixtures),
        address == result_of(inserted(*final(b))[inserted(*old(b)).len() as int + 1]),
{
    let pointer_value = use_var(b, fixtures.pointer).unwrap();
    let address = ins_iadd(b, fixtures.tape, pointer_value);
    assert(inserted(*b).subrange(0, inserted(*old(b)).len() as int) =~= inserted(*old(b)));
    address
}

/// Inserts the load of the current cell; gives its address and its value.
fn load_cell(b: &mut FunctionBuilder<'_>, fixtures: &Fixtures) -> (pair: (Value, Value))
    requires
        can_insert(*old(b)),
        fixtures.known_to(*old(b)),
    ensures
        cursor(*final(b)) == cursor(*old(b)),
        keeps(*old(b), *final(b)),
        has_value(*final(b), pair.0),
        has_value(*final(b), pair.1),
        continues(inserted(*old(b)), inserted(*final(b)), 3),
        load_steps(inserted(*final(b)), inserted(*old(b)).len() as int, *fixtures),
        pair.0 == result_of(inserted(*final(b))[inserted(*old(b)).len() as int + 1]),
        pair.1 == result_of(inserted(*final(b))[inserted(*old(b)).len() as int + 2]),
{
    let address = cell_address(b, fixtures);
    let ghost middle = inserted(*b);
    let cell = ins_load(b, fixtures.cell_type, fixtures.access, address, 0);
    proof {
        lemma_pushed(inserted(*old(b)), middle, inserted(*b).last(), 2);
    }
    (address, cell)
}

/// Steps added to steps added are steps added, and those that were there stay where they
/// are.
proof fn lemma_continues(
    first: Seq<Inserted>,
    second: Seq<Inserted>,
    third: Seq<Inserted>,
    m: int,
    n: int,
)
    requires
        0 <= m,
        0 <= n,
        continues(first, second, m),
        continues(second, third, n),
    ensures
        continues(first, third, m + n),
        forall|k: int| 0 <= k < second.len() ==> third[k] == second[k],
{
    assert forall|k: int| 0 <= k < second.len() implies third[k] == second[k] by {
        assert(third.subrange(0, second.len() as int)[k] == third[k]);
    }
    assert forall|k: int| 0 <= k < first.len() implies third[k] == first[k] by {
        assert(second.subrange(0, first.len() as int)[k] == second[k]);
    }
    assert(third.subrange(0, first.len() as int) =~= first);
}

/// One more step after steps added.
proof fn lemma_pushed(first: Seq<Inserted>, second: Seq<Inserted>, step: Inserted, m: int)
    requires
        0 <= m,
        continues(first, second, m),
    ensures
        continues(first, second.push(step), m + 1),
        continues(second, second.push(step), 1),
        forall|k: int| 0 <= k < second.len() ==> second.push(step)[k] == second[k],
        second.push(step)[second.len() as int] == step,
{
    assert(second.push(step).subrange(0, second.len() as int) =~= second);
    lemma_continues(first, second, second.push(step), m, 1);
}

/// Lowers `Increment` and `Decrement`: load the cell, add the signed count, store it back.
fn lower_add(b: &mut FunctionBuilder<'_>, fixtures: &Fixtures, addend: i64)
    requires
        can_insert(*old(b)),
        fixtures.known_to(*old(b)),
    ensures
        cursor(*final(b)) == cursor(*old(b)),
        keeps(*old(b), *final(b)),
        continues(inserted(*old(b)), inserted(*final(b)), 5),
        add_steps(inserted(*final(b)), inserted(*old(b)).len() as int, *fixtures, addend),
{
    let (address, cell) = load_cell(b, fixtures);
    let ghost loaded = inserted(*b);
    let sum = ins_iadd_imm(b, cell, addend);
    let ghost summed = inserted(*b);
    ins_store(b, fixtures.access, sum, address, 0);
    proof {
        lemma_pushed(inserted(*old(b)), loaded, summed.last(), 3);
        lemma_pushed(inserted(*old(b)), summed, inserted(*b).last(), 4);
    }
}

/// Lowers `Next` and `Prev`: add the signed distance to the data pointer.
fn lower_move(b: &mut FunctionBuilder<'_>, fixtures: &Fixtures, distance: i64)
    requires
        can_insert(*old(b)),
        fixtures.known_to(*old(b)),
    ensures
        cursor(*final(b)) == cursor(*old(b)),
        keeps(*old(b), *final(b)),
        continues(inserted(*old(b)), inserted(*final(b)), 3),
        move_steps(inserted(*final(b)), inserted(*old(b)).len() as int, *fixtures, distance),
{
    let pointer_value = use_var(b, fixtures.pointer).unwrap();
    let ghost used = inserted(*b);
    let moved = ins_iadd_imm(b, pointer_value, distance);
    let ghost added = inserted(*b);
    def_var(b, fixtures.pointer, moved).unwrap();
    proof {
        assert(inserted(*old(b)).subrange(0, inserted(*old(b)).len() as int) =~= inserted(
            *old(b),
        ));
        lemma_pushed(inserted(*old(b)), inserted(*old(b)), used.last(), 0);
        lemma_pushed(inserted(*old(b)), used, added.last(), 1);
        lemma_pushed(inserted(*old(b)), added, inserted(*b).last(), 2);
    }
}

/// Lowers `Write` and `Read`: call the host routine, with the cell's value or its address;
/// where the routine returns an error handle, leave through the exit block with it, else go
/// on in a fresh block.
fn lower_call(
    b: &mut FunctionBuilder<'_>,
    fixtures: &Fixtures,
    write: bool,
    Ghost(frames): Ghost<Seq<Frame>>,
)
    requires
        between(*old(b), frames, block_number(fixtures.exit)),
        fixtures.known_to(*old(b)),
    ensures
        between(*final(b), frames, block_number(fixtures.exit)),
        keeps(*old(b), *final(b)),
        block_count(*old(b)) <= block_count(*final(b)),
        continues(
            inserted(*old(b)),
            inserted(*final(b)),
            if write {
                8
            } else {
                7
            },
        ),
        call_steps(inserted(*final(b)), inserted(*old(b)).len() as int, *fixtures, write),
{
    let ghost start = inserted(*b);
    let mut arguments: Vec<Value> = Vec::new();
    let results = if write {
        let (address, cell) = load_cell(b, fixtures);
        arguments.push(cell);
        let ghost loaded = inserted(*b);
        let results = ins_call_indirect(
            b,
            fixtures.write_signature,
            fixtures.write_address,
            &arguments,
        );
        proof {
            assert(arguments@ =~= seq![cell]);
            lemma_pushed(start, loaded, inserted(*b).last(), 3);
        }
        results
    } else {
        let address = cell_address(b, fixtures);
        arguments.push(address);
        let ghost addressed = inserted(*b);
        let results = ins_call_indirect(
            b,
            fixtures.read_signature,
            fixtures.read_address,
            &arguments,
        );
        proof {
            assert(arguments@ =~= seq![address]);
            lemma_pushed(start, addressed, inserted(*b).last(), 2);
        }
        results
    };
    let handle = results[0];
    let ghost called = inserted(*b);
    let ghost argued = if write {
        3int
    } else {
        2int
    };
    proof {
        assert(results@ =~= seq![handle]);
    }
    let after = create_block(b);
    let ghost created = inserted(*b);
    let mut handles: Vec<Value> = Vec::new();
    handles.push(handle);
    let nothing: Vec<Value> = Vec::new();
    ins_brif(b, handle, fixtures.exit, &handles, after, &nothing);
    let ghost branched = inserted(*b);
    seal_block(b, after);
    let ghost sealed_log = inserted(*b);
    switch_to_block(b, after);
    proof {
        assert(handles@ =~= seq![handle]);
        assert(nothing@ =~= Seq::<Value>::empty());
        lemma_pushed(start, called, created.last(), argued + 1);
        lemma_pushed(start, created, branched.last(), argued + 2);
        lemma_pushed(start, branched, sealed_log.last(), argued + 3);
        lemma_pushed(start, sealed_log, inserted(*b).last(), argued + 4);
    }
}

/// Lowers `LoopBegin`: create the body and the block behind the loop, branch into the body
/// where the cell is not zero and behind the loop where it is, and go on in the body.
fn lower_loop_begin(
    b: &mut FunctionBuilder<'_>,
    fixtures: &Fixtures,
    Ghost(frames): Ghost<Seq<Frame>>,
) -> (pair: (Block, Block))
    requires
        between(*old(b), frames, block_number(fixtures.exit)),
        fixtures.known_to(*old(b)),
    ensures
        between(
            *final(b),
            frames.push(Frame { body: block_number(pair.0), after: block_number(pair.1) }),
            block_number(fixtures.exit),
        ),
        keeps(*old(b), *final(b)),
        block_count(*old(b)) <= block_count(*final(b)),
        continues(inserted(*old(b)), inserted(*final(b)), 7),
        loop_begin_steps(inserted(*final(b)), inserted(*old(b)).len() as int, *fixtures),
        block_of(inserted(*final(b))[inserted(*old(b)).len() as int]) == block_number(pair.0),
        block_of(inserted(*final(b))[inserted(*old(b)).len() as int + 1]) == block_number(pair.1),
{
    let ghost start = inserted(*b);
    let body = create_block(b);
    let ghost first = inserted(*b);
    let after = create_block(b);
    let ghost second = inserted(*b);
    let (address, cell) = load_cell(b, fixtures);
    let ghost loaded = inserted(*b);
    let nothing: Vec<Value> = Vec::new();
    ins_brif(b, cell, body, &nothing, after, &nothing);
    let ghost branched = inserted(*b);
    switch_to_block(b, body);
    proof {
        assert(nothing@ =~= Seq::<Value>::empty());
        assert(start.subrange(0, start.len() as int) =~= start);
        lemma_pushed(start, start, first.last(), 0);
        lemma_pushed(start, first, second.last(), 1);
        lemma_continues(start, second, loaded, 2, 3);
        lemma_pushed(start, loaded, branched.last(), 5);
        lemma_pushed(start, branched, inserted(*b).last(), 6);
    }
    proof {
        let opened = frames.push(Frame { body: block_number(body), after: block_number(after) });
        assert(opened[frames.len() as int].body == block_number(body));
        assert(opened[frames.len() as int].after == block_number(after));
        assert forall|n: nat| is_after(frames, n) implies is_after(opened, n) by {
            let k = choose|k: int| 0 <= k < frames.len() && (#[trigger] frames[k]).after == n;
            assert(opened[k].after == n);
        }
        assert forall|n: nat| is_body(frames, n) implies is_body(opened, n) by {
            let k = choose|k: int| 0 <= k < frames.len() && (#[trigger] frames[k]).body == n;
            assert(opened[k].body == n);
        }
        assert forall|n: nat| is_after(opened, n) implies is_after(frames, n) || n == block_number(
            after,
        ) by {
            let k = choose|k: int| 0 <= k < opened.len() && (#[trigger] opened[k]).after == n;
            if k < frames.len() {
                assert(frames[k].after == n);
            }
        }
        assert forall|n: nat| is_body(opened, n) implies is_body(frames, n) || n == block_number(
            body,
        ) by {
            let k = choose|k: int| 0 <= k < opened.len() && (#[trigger] opened[k]).body == n;
            if k < frames.len() {
                assert(frames[k].body == n);
            }
        }
    }
    (body, after)
}

/// Lowers `LoopEnd`: branch back into the body where the cell is not zero and behind the
/// loop where it is, seal both, and go on behind the loop.
fn lower_loop_end(
    b: &mut FunctionBuilder<'_>,
    fixtures: &Fixtures,
    body: Block,
    after: Block,
    Ghost(frames): Ghost<Seq<Frame>>,
)
    requires
        between(*old(b), frames, block_number(fixtures.exit)),
        fixtures.known_to(*old(b)),
        frames.len() > 0,
        block_number(body) == frames.last().body,
        block_number(after) == frames.last().after,
    ensures
        between(*final(b), frames.drop_last(), block_number(fixtures.exit)),
        keeps(*old(b), *final(b)),
        block_count(*old(b)) <= block_count(*final(b)),
        continues(inserted(*old(b)), inserted(*final(b)), 7),
        loop_end_steps(
            inserted(*final(b)),
            inserted(*old(b)).len() as int,
            *fixtures,
            block_number(body),
            block_number(after),
        ),
{
    let ghost start = inserted(*b);
    let ghost closed = frames.drop_last();
    proof {
        let top = frames.len() - 1;
        assert(frames[top].body == block_number(body));
        assert(frames[top].after == block_number(after));
        assert(is_body(frames, block_number(body)));
        assert(is_after(frames, block_number(after)));
        assert forall|n: nat| is_after(closed, n) implies is_after(frames, n) && n != block_number(
            after,
        ) && n != block_number(body) by {
            let k = choose|k: int| 0 <= k < closed.len() && (#[trigger] closed[k]).after == n;
            assert(frames[k].after == n);
        }
        assert forall|n: nat| is_body(closed, n) implies is_body(frames, n) && n != block_number(
            after,
        ) && n != block_number(body) by {
            let k = choose|k: int| 0 <= k < closed.len() && (#[trigger] closed[k]).body == n;
            assert(frames[k].body == n);
        }
        assert forall|n: nat| is_after(frames, n) implies is_after(closed, n) || n == block_number(
            after,
        ) by {
            let k = choose|k: int| 0 <= k < frames.len() && (#[trigger] frames[k]).after == n;
            if k < closed.len() {
                assert(closed[k].after == n);
            }
        }
        assert forall|n: nat| is_body(frames, n) implies is_body(closed, n) || n == block_number(
            body,
        ) by {
            let k = choose|k: int| 0 <= k < frames.len() && (#[trigger] frames[k]).body == n;
            if k < closed.len() {
                assert(closed[k].body == n);
            }
        }
        assert(!is_after(frames, position(*b)->0)) by {
            if is_after(frames, position(*b)->0) {
                let k = choose|k: int|
                    0 <= k < frames.len() && (#[trigger] frames[k]).after == position(*b)->0;
                assert(frames[k].after <= frames[top].after);
            }
        }
    }
    let (address, cell) = load_cell(b, fixtures);
    let ghost loaded = inserted(*b);
    let nothing: Vec<Value> = Vec::new();
    ins_brif(b, cell, body, &nothing, after, &nothing);
    let ghost branched = inserted(*b);
    seal_block(b, body);
    let ghost sealed_one = inserted(*b);
    seal_block(b, after);
    let ghost sealed_two = inserted(*b);
    switch_to_block(b, after);
    proof {
        assert(nothing@ =~= Seq::<Value>::empty());
        lemma_pushed(start, loaded, branched.last(), 3);
        lemma_pushed(start, branched, sealed_one.last(), 4);
        lemma_pushed(start, sealed_one, sealed_two.last(), 5);
        lemma_pushed(start, sealed_two, inserted(*b).last(), 6);
    }
    proof {
        if closed.len() > 0 {
            assert(closed.last() == frames[closed.len() - 1]);
            assert(closed[0] == frames[0]);
        }
    }
}

/// The steps of `s` from `at` are the lowering of `node`, where a `LoopEnd` closes the loop
/// with the blocks `body` and `after`.
pub open spec fn node_steps(
    node: Node,
    fixtures: Fixtures,
    s: Seq<Inserted>,
    at: int,
    body: nat,
    after: nat,
) -> bool {
    match node {
        Node::Increment(n) => add_steps(s, at, fixtures, n as i64),
        Node::Decrement(n) => add_steps(s, at, fixtures, (-(n as int)) as i64),
        Node::Next(n) => move_steps(s, at, fixtures, as_signed(n) as i64),
        Node::Prev(n) => move_steps(s, at, fixtures, as_negated(as_signed(n) as i64) as i64),
        Node::Write => call_steps(s, at, fixtures, true),
        Node::Read => call_steps(s, at, fixtures, false),
        Node::LoopBegin => loop_begin_steps(s, at, fixtures),
        Node::LoopEnd => loop_end_steps(s, at, fixtures, body, after),
    }
}

/// The state of the lowering after the first `done` instructions: the steps so far are their
/// lowering, and the frames of the loops still open, at `opens`, hold the blocks that were
/// created where each was opened.
pub open spec fn lowering(
    code: Seq<Node>,
    fixtures: Fixtures,
    done: int,
    opens: Seq<int>,
    frames: Seq<Frame>,
    s: Seq<Inserted>,
    base: int,
) -> bool {
    &&& 0 <= base
    &&& 0 <= done <= code.len()
    &&& s.len() == base + steps_before(code, done)
    &&& forall|j: int| 0 <= j < done ==> #[trigger] lowered_at(code, fixtures, j, s, base)
    &&& opens.len() == frames.len()
    &&& depth(code, done) == opens.len()
    &&& forall|k: int| 0 <= k < opens.len() ==> still_open(code, done, #[trigger] opens[k], k)
    &&& forall|k: int|
        0 <= k < frames.len() ==> (#[trigger] frames[k]).body == block_of(
            s[base + steps_before(code, opens[k])],
        ) && frames[k].after == block_of(s[base + steps_before(code, opens[k]) + 1])
}

/// The count of steps grows with the instructions, by at least three for each.
pub proof fn lemma_steps_before_monotonic(code: Seq<Node>, j: int, k: int)
    requires
        0 <= j <= k,
    ensures
        0 <= steps_before(code, j) <= steps_before(code, k),
        j < k ==> steps_before(code, j) + 3 <= steps_before(code, k),
    decreases k,
{
    if k > 0 {
        if j < k {
            lemma_steps_before_monotonic(code, j, k - 1);
        } else {
            lemma_steps_before_monotonic(code, j - 1, k - 1);
        }
    }
}

/// More steps behind the lowering of an instruction leave it the lowering of that
/// instruction.
proof fn lemma_lowered_stays(
    code: Seq<Node>,
    fixtures: Fixtures,
    j: int,
    s1: Seq<Inserted>,
    s2: Seq<Inserted>,
    base: int,
)
    requires
        balanced(code),
        0 <= j < code.len(),
        0 <= base,
        lowered_at(code, fixtures, j, s1, base),
        base + steps_before(code, j + 1) <= s1.len() <= s2.len(),
        forall|k: int| 0 <= k < s1.len() ==> s2[k] == s1[k],
    ensures
        lowered_at(code, fixtures, j, s2, base),
{
    lemma_steps_before_monotonic(code, 0, j);
    assert(steps_before(code, j + 1) == steps_before(code, j) + step_count(code[j]));
    if code[j] is LoopEnd {
        let witness = lemma_loop_end_has_match(code, j);
        let partner = open_of(code, j);
        assert(matching(code, partner, j));
        lemma_steps_before_monotonic(code, partner, j);
        lemma_steps_before_monotonic(code, 0, partner);
    }
}

/// The lowering of one more instruction takes the state of the lowering one instruction
/// further.
proof fn lemma_lowering_next(
    code: Seq<Node>,
    fixtures: Fixtures,
    i: int,
    opens: Seq<int>,
    frames: Seq<Frame>,
    s1: Seq<Inserted>,
    s2: Seq<Inserted>,
    base: int,
    opens2: Seq<int>,
    frames2: Seq<Frame>,
)
    requires
        balanced(code),
        0 <= i < code.len(),
        lowering(code, fixtures, i, opens, frames, s1, base),
        continues(s1, s2, step_count(code[i])),
        code[i] is LoopEnd ==> frames.len() > 0,
        node_steps(
            code[i],
            fixtures,
            s2,
            s1.len() as int,
            if frames.len() > 0 {
                frames.last().body
            } else {
                0
            },
            if frames.len() > 0 {
                frames.last().after
            } else {
                0
            },
        ),
        match code[i] {
            Node::LoopBegin => opens2 == opens.push(i) && frames2 == frames.push(
                Frame {
                    body: block_of(s2[s1.len() as int]),
                    after: block_of(s2[s1.len() as int + 1]),
                },
            ),
            Node::LoopEnd => opens2 == opens.drop_last() && frames2 == frames.drop_last(),
            _ => opens2 == opens && frames2 == frames,
        },
    ensures
        lowering(code, fixtures, i + 1, opens2, frames2, s2, base),
{
    let at = s1.len() as int;
    lemma_steps_before_monotonic(code, 0, i);
    assert(steps_before(code, i + 1) == steps_before(code, i) + step_count(code[i]));
    assert(depth(code, i + 1) == depth(code, i) + depth_change(code[i]));
    assert(depth(code, i + 1) >= 0);
    assert forall|k: int| 0 <= k < s1.len() implies s2[k] == s1[k] by {
        assert(s2.subrange(0, s1.len() as int)[k] == s2[k]);
    }
    assert forall|j: int| 0 <= j < i + 1 implies #[trigger] lowered_at(
        code,
        fixtures,
        j,
        s2,
        base,
    ) by {
        if j < i {
            lemma_steps_before_monotonic(code, j + 1, i);
            lemma_lowered_stays(code, fixtures, j, s1, s2, base);
        } else if code[i] is LoopEnd {
            let top = opens.len() - 1;
            assert(still_open(code, i, opens[top], top));
            assert(matching(code, opens[top], i));
            lemma_matching_open_unique(code, open_of(code, i), opens[top], i);
            lemma_steps_before_monotonic(code, opens[top], i);
            lemma_steps_before_monotonic(code, 0, opens[top]);
            assert(frames[top].body == block_of(s1[base + steps_before(code, opens[top])]));
        }
    }
    assert forall|k: int| 0 <= k < opens2.len() implies still_open(
        code,
        i + 1,
        #[trigger] opens2[k],
        k,
    ) by {
        if k < opens.len() {
            assert(still_open(code, i, opens[k], k));
        }
    }
    assert forall|k: int| 0 <= k < frames2.len() implies (#[trigger] frames2[k]).body == block_of(
        s2[base + steps_before(code, opens2[k])],
    ) && frames2[k].after == block_of(s2[base + steps_before(code, opens2[k]) + 1]) by {
        if k < opens.len() {
            assert(still_open(code, i, opens[k], k));
            lemma_steps_before_monotonic(code, opens[k], i);
            lemma_steps_before_monotonic(code, 0, opens[k]);
            assert(frames[k].body == block_of(s1[base + steps_before(code, opens[k])]));
        }
    }
}

/// Lowers the instructions in order, into a builder that stands in the entry block.
fn lower(b: &mut FunctionBuilder<'_>, fixtures: &Fixtures, code: &Vec<Node>)
    requires
        balanced(code@),
        between(*old(b), Seq::empty(), block_number(fixtures.exit)),
        fixtures.known_to(*old(b)),
    ensures
        between(*final(b), Seq::empty(), block_number(fixtures.exit)),
        keeps(*old(b), *final(b)),
        continues(inserted(*old(b)), inserted(*final(b)), steps_before(code@, code@.len() as int)),
        lowered(code@, *fixtures, inserted(*final(b)), inserted(*old(b)).len() as int),
{
    let mut loop_stack: Vec<(Block, Block)> = Vec::new();
    let ghost mut frames: Seq<Frame> = Seq::empty();
    let ghost mut opens: Seq<int> = Seq::empty();
    let ghost start = *b;
    let ghost base = inserted(*b).len() as int;
    let n = code.len();
    let mut i: usize = 0;
    proof {
        assert(inserted(*b).subrange(0, base) =~= inserted(*b));
    }
    while i < n
        invariant
            n == code.len(),
            i <= n,
            balanced(code@),
            depth(code@, i as int) == frames.len(),
            between(*b, frames, block_number(fixtures.exit)),
            stack_matches(loop_stack@, frames),
            fixtures.known_to(*b),
            start == *old(b),
            base == inserted(start).len(),
            keeps(start, *b),
            continues(inserted(start), inserted(*b), steps_before(code@, i as int)),
            lowering(code@, *fixtures, i as int, opens, frames, inserted(*b), base),
        decreases n - i,
    {
        proof {
            assert(depth(code@, i + 1) == depth(code@, i as int) + depth_change(code@[i as int]));
            assert(depth(code@, i + 1) >= 0);
            lemma_steps_before_monotonic(code@, 0, i as int);
        }
        let ghost before = *b;
        let ghost frames_before = frames;
        let ghost opens_before = opens;
        match code[i] {
            Node::Increment(count) => lower_add(b, fixtures, count as i64),
            Node::Decrement(count) => lower_add(b, fixtures, -(count as i64)),
            Node::Next(distance) => lower_move(b, fixtures, signed(distance)),
            Node::Prev(distance) => lower_move(b, fixtures, negated(signed(distance))),
            Node::Write => lower_call(b, fixtures, true, Ghost(frames)),
            Node::Read => lower_call(b, fixtures, false, Ghost(frames)),
            Node::LoopBegin => {
                let pair = lower_loop_begin(b, fixtures, Ghost(frames));
                loop_stack.push(pair);
                proof {
                    frames = frames.push(
                        Frame { body: block_number(pair.0), after: block_number(pair.1) },
                    );
                    opens = opens.push(i as int);
                }
            },
            Node::LoopEnd => {
                let ghost top = frames.len() - 1;
                let (body, after) = loop_stack.pop().unwrap();
                assert(block_number(body) == frames[top].body);
                lower_loop_end(b, fixtures, body, after, Ghost(frames));
                proof {
                    frames = frames.drop_last();
                    opens = opens.drop_last();
                }
            },
        }
        proof {
            lemma_lowering_next(
                code@,
                *fixtures,
                i as int,
                opens_before,
                frames_before,
                inserted(before),
                inserted(*b),
                base,
                opens,
                frames,
            );
            lemma_continues(
                inserted(start),
                inserted(before),
                inserted(*b),
                steps_before(code@, i as int),
                step_count(code@[i as int]),
            );
        }
        i += 1;
    }
    proof {
        assert(frames =~= Seq::empty());
    }
}

/// An address as the signed number with the same 64 bits.
pub open spec fn as_signed_address(address: u64) -> int {
    if address <= i64::MAX {
        address as int
    } else {
        address - 0x1_0000_0000_0000_0000
    }
}

/// A 64-bit address as the signed number with the same bits.
fn signed_address(address: u64) -> (result: i64)
    ensures
        result == as_signed_address(address),
{
    if address <= 0x7FFF_FFFF_FFFF_FFFF {
        address as i64
    } else {
        ((address - 0x8000_0000_0000_0000) as i64) + i64::MIN
    }
}

/// The thirteen steps from `at` set the function up: the exit block with the error handle
/// as its parameter; the entry block with the tape base as its parameter, sealed and made
/// current; the data pointer, declared and set to zero; and for each host routine its
/// signature, from the cell's value or a pointer to an error handle, and its address as a
/// constant.
pub open spec fn opened(
    s: Seq<Inserted>,
    at: int,
    pointer: Type,
    shims: Shims,
    fixtures: Fixtures,
) -> bool {
    let exit = block_number(fixtures.exit);
    let entry = block_of(s[at + 2]);
    &&& fixtures.pointer_type == pointer
    &&& is_integer(fixtures.cell_type)
    &&& bits(fixtures.cell_type) == 8
    &&& s[at] == (Inserted::Block { block: exit })
    &&& s[at + 1] == (Inserted::Param { block: exit, ty: pointer, result: fixtures.handle })
    &&& s[at + 2] == (Inserted::Block { block: entry })
    &&& s[at + 3] == (Inserted::Param { block: entry, ty: pointer, result: fixtures.tape })
    &&& s[at + 4] == (Inserted::Seal { block: entry })
    &&& s[at + 5] == (Inserted::Switch { block: entry })
    &&& s[at + 6] == (Inserted::Declare { ty: pointer, variable: fixtures.pointer })
    &&& s[at + 7] == (Inserted::Const { ty: pointer, constant: 0, result: fixtures.zero })
    &&& s[at + 8] == (Inserted::DefVar { variable: fixtures.pointer, value: fixtures.zero })
    &&& s[at + 9] == (Inserted::Import {
        parameters: seq![fixtures.cell_type],
        returns: seq![pointer],
        reference: fixtures.write_signature,
    })
    &&& s[at + 10] == (Inserted::Const {
        ty: pointer,
        constant: as_signed_address(shims.write_byte) as i64,
        result: fixtures.write_address,
    })
    &&& s[at + 11] == (Inserted::Import {
        parameters: seq![pointer],
        returns: seq![pointer],
        reference: fixtures.read_signature,
    })
    &&& s[at + 12] == (Inserted::Const {
        ty: pointer,
        constant: as_signed_address(shims.read_byte) as i64,
        result: fixtures.read_address,
    })
}

/// The four steps from `at` end the function: the path that falls through returns zero; the
/// exit block is made current and sealed, and returns the error handle it was given.
pub open spec fn closed(s: Seq<Inserted>, at: int, fixtures: Fixtures) -> bool {
    &&& s[at] == (Inserted::Return { values: seq![fixtures.zero] })
    &&& s[at + 1] == (Inserted::Switch { block: block_number(fixtures.exit) })
    &&& s[at + 2] == (Inserted::Seal { block: block_number(fixtures.exit) })
    &&& s[at + 3] == (Inserted::Return { values: seq![fixtures.handle] })
}

/// Number of steps that a whole program takes.
pub open spec fn total_steps(code: Seq<Node>) -> int {
    13 + steps_before(code, code.len() as int) + 4
}

/// The steps of `s` from `base` on build the function of a program: the set-up, the lowering
/// of each instruction in order, and the end.
pub open spec fn built(
    code: Seq<Node>,
    shims: Shims,
    pointer: Type,
    fixtures: Fixtures,
    s: Seq<Inserted>,
    base: int,
) -> bool {
    &&& s.len() == base + total_steps(code)
    &&& opened(s, base, pointer, shims, fixtures)
    &&& lowered(code, fixtures, s, base + 13)
    &&& closed(s, base + 13 + steps_before(code, code.len() as int), fixtures)
}

/// The settings under which code is generated: optimized for speed.
pub open spec fn speed_settings() -> Map<Seq<char>, Seq<char>> {
    Map::<Seq<char>, Seq<char>>::empty().insert("opt_level"@, "speed"@)
}

/// One parameter and one result, both pointers of the host: the tape base, and the error
/// handle.
pub open spec fn takes_tape_returns_handle(function: Function, pointer: Type) -> bool {
    &&& parameters_of(signature_of(function)) == seq![pointer]
    &&& returns_of(signature_of(function)) == seq![pointer]
}

/// What the code generator is given for a program: a host under the settings for speed; a
/// function from the tape base to an error handle, both of the host's pointer type, which
/// is an integer type; the steps that build the function, from the first; and the function
/// keeps the rules of the intermediate representation.
pub open spec fn described(code: Seq<Node>, shims: Shims, given: Given) -> bool {
    &&& given.settings() == speed_settings()
    &&& is_integer(given.pointer())
    &&& takes_tape_returns_handle(given.function(), given.pointer())
    &&& built(code, shims, given.pointer(), given.fixtures, given.steps(), 0)
    &&& accepted(given.function(), given.host)
}

/// Imports the signature of a host routine that takes one argument of the given type and
/// returns an error handle.
fn import_shim(b: &mut FunctionBuilder<'_>, argument: Type, handle: Type) -> (reference: SigRef)
    ensures
        cursor(*final(b)) == cursor(*old(b)),
        keeps(*old(b), *final(b)),
        has_signature(*final(b), reference),
        result_count(*final(b), reference) == 1,
        inserted(*final(b)) == inserted(*old(b)).push(
            (Inserted::Import {
                parameters: seq![argument],
                returns: seq![handle],
                reference,
            }),
        ),
{
    let mut signature = signature_new(system_v());
    signature_takes(&mut signature, argument);
    signature_returns(&mut signature, handle);
    proof {
        assert(Seq::<Type>::empty().push(argument) =~= seq![argument]);
        assert(Seq::<Type>::empty().push(handle) =~= seq![handle]);
    }
    import_signature(b, signature)
}

/// Sets up the function: the exit block with the error handle as its parameter, the entry
/// block with the tape base as its parameter, the data pointer at zero, and the host
/// routines.
fn open_function(b: &mut FunctionBuilder<'_>, pointer: Type, shims: Shims) -> (fixtures: Fixtures)
    requires
        position(*old(b)) is None,
        block_count(*old(b)) == 0,
        integer_variables(*old(b)),
        is_integer(pointer),
    ensures
        outcome(*final(b)) == outcome(*old(b)),
        between(*final(b), Seq::empty(), block_number(fixtures.exit)),
        fixtures.known_to(*final(b)),
        continues(inserted(*old(b)), inserted(*final(b)), 13),
        opened(inserted(*final(b)), inserted(*old(b)).len() as int, pointer, shims, fixtures),
{
    let ghost start = inserted(*b);
    let exit = create_block(b);
    let ghost s1 = inserted(*b);
    let handle = append_block_param(b, exit, pointer);
    let ghost s2 = inserted(*b);
    let entry = create_block(b);
    let ghost s3 = inserted(*b);
    let tape = append_block_param(b, entry, pointer);
    let ghost s4 = inserted(*b);
    seal_block(b, entry);
    let ghost s5 = inserted(*b);
    switch_to_block(b, entry);
    let ghost s6 = inserted(*b);
    let data_pointer = declare_var(b, pointer);
    let ghost s7 = inserted(*b);
    let zero = ins_iconst(b, pointer, 0);
    let ghost s8 = inserted(*b);
    def_var(b, data_pointer, zero).unwrap();
    let ghost s9 = inserted(*b);
    let cell_type = byte_type();
    let write_signature = import_shim(b, cell_type, pointer);
    let ghost s10 = inserted(*b);
    let write_address = ins_iconst(b, pointer, signed_address(shims.write_byte));
    let ghost s11 = inserted(*b);
    let read_signature = import_shim(b, pointer, pointer);
    let ghost s12 = inserted(*b);
    let read_address = ins_iconst(b, pointer, signed_address(shims.read_byte));
    let fixtures = Fixtures {
        pointer_type: pointer,
        cell_type,
        access: plain_access(),
        pointer: data_pointer,
        tape,
        zero,
        write_signature,
        write_address,
        read_signature,
        read_address,
        exit,
        handle,
    };
    proof {
        assert forall|n: nat| !is_after(Seq::<Frame>::empty(), n) by {}
        assert forall|n: nat| !is_body(Seq::<Frame>::empty(), n) by {}
        assert(start.subrange(0, start.len() as int) =~= start);
        lemma_pushed(start, start, s1.last(), 0);
        lemma_pushed(start, s1, s2.last(), 1);
        lemma_pushed(start, s2, s3.last(), 2);
        lemma_pushed(start, s3, s4.last(), 3);
        lemma_pushed(start, s4, s5.last(), 4);
        lemma_pushed(start, s5, s6.last(), 5);
        lemma_pushed(start, s6, s7.last(), 6);
        lemma_pushed(start, s7, s8.last(), 7);
        lemma_pushed(start, s8, s9.last(), 8);
        lemma_pushed(start, s9, s10.last(), 9);
        lemma_pushed(start, s10, s11.last(), 10);
        lemma_pushed(start, s11, s12.last(), 11);
        lemma_pushed(start, s12, inserted(*b).last(), 12);
    }
    fixtures
}

/// Ends the function: the fall-through path returns zero, and the exit block returns the
/// error handle it was given.
fn close_function(b: &mut FunctionBuilder<'_>, fixtures: &Fixtures)
    requires
        between(*old(b), Seq::empty(), block_number(fixtures.exit)),
        fixtures.known_to(*old(b)),
    ensures
        outcome(*final(b)) == outcome(*old(b)),
        forall|n: nat|
            n < block_count(*final(b)) ==> filled(*final(b)).contains(n) && sealed(
                *final(b),
            ).contains(n),
        continues(inserted(*old(b)), inserted(*final(b)), 4),
        closed(inserted(*final(b)), inserted(*old(b)).len() as int, *fixtures),
{
    proof {
        assert forall|n: nat| !is_after(Seq::<Frame>::empty(), n) by {}
        assert forall|n: nat| !is_body(Seq::<Frame>::empty(), n) by {}
    }
    let ghost start = inserted(*b);
    let mut success: Vec<Value> = Vec::new();
    success.push(fixtures.zero);
    ins_return(b, &success);
    let ghost s1 = inserted(*b);
    switch_to_block(b, fixtures.exit);
    let ghost s2 = inserted(*b);
    seal_block(b, fixtures.exit);
    let ghost s3 = inserted(*b);
    let mut failure: Vec<Value> = Vec::new();
    failure.push(fixtures.handle);
    ins_return(b, &failure);
    proof {
        assert(success@ =~= seq![fixtures.zero]);
        assert(failure@ =~= seq![fixtures.handle]);
        assert(start.subrange(0, start.len() as int) =~= start);
        lemma_pushed(start, start, s1.last(), 0);
        lemma_pushed(start, s1, s2.last(), 1);
        lemma_pushed(start, s2, s3.last(), 2);
        lemma_pushed(start, s3, inserted(*b).last(), 3);
    }
}

/// More steps behind the lowering of a program leave it the lowering of that program.
proof fn lemma_lowered_all_stay(
    code: Seq<Node>,
    fixtures: Fixtures,
    s1: Seq<Inserted>,
    s2: Seq<Inserted>,
    base: int,
)
    requires
        balanced(code),
        0 <= base,
        lowered(code, fixtures, s1, base),
        base + steps_before(code, code.len() as int) <= s1.len() <= s2.len(),
        forall|k: int| 0 <= k < s1.len() ==> s2[k] == s1[k],
    ensures
        lowered(code, fixtures, s2, base),
{
    assert forall|i: int| 0 <= i < code.len() implies #[trigger] lowered_at(
        code,
        fixtures,
        i,
        s2,
        base,
    ) by {
        lemma_steps_before_monotonic(code, i + 1, code.len() as int);
        lemma_lowered_stays(code, fixtures, i, s1, s2, base);
    }
}

/// Builds the function of a balanced program in a fresh builder, with pointers of the given
/// integer type: the set-up, the lowering of each instruction, and the end. Afterwards every
/// block is sealed and terminated, and the builder has been given exactly the steps that
/// `built` describes, for the function that it was writing into before.
pub fn build(b: &mut FunctionBuilder<'_>, pointer: Type, code: &Vec<Node>, shims: Shims) -> (fixtures:
    Fixtures)
    requires
        balanced(code@),
        position(*old(b)) is None,
        block_count(*old(b)) == 0,
        integer_variables(*old(b)),
        is_integer(pointer),
    ensures
        outcome(*final(b)) == outcome(*old(b)),
        forall|n: nat|
            n < block_count(*final(b)) ==> filled(*final(b)).contains(n) && sealed(
                *final(b),
            ).contains(n),
        continues(inserted(*old(b)), inserted(*final(b)), total_steps(code@)),
        built(code@, shims, pointer, fixtures, inserted(*final(b)), inserted(*old(b)).len() as int),
{
    let ghost start = inserted(*b);
    let fixtures = open_function(b, pointer, shims);
    let ghost set_up = inserted(*b);
    lower(b, &fixtures, code);
    let ghost body = inserted(*b);
    close_function(b, &fixtures);
    proof {
        let count = steps_before(code@, code@.len() as int);
        lemma_steps_before_monotonic(code@, 0, code@.len() as int);
        lemma_continues(start, set_up, body, 13, count);
        lemma_continues(start, body, inserted(*b), 13 + count, 4);
        lemma_continues(set_up, body, inserted(*b), count, 4);
        lemma_lowered_all_stay(code@, fixtures, body, inserted(*b), start.len() as int + 13);
    }
    fixtures
}

/// The host's instruction set, with the code generator set to optimize for speed.
fn host() -> (result: Result<Host, CompileError>)
    ensures
        result matches Ok(host) ==> settings_of(host) == speed_settings(),
        result matches Err(error) ==> error is Backend,
{
    let mut settings = settings_builder();
    match settings_set(&mut settings, "opt_level", "speed") {
        Ok(()) => {},
        Err(error) => {
            return Err(backend(describe_set_error(error)));
        },
    }
    let flags = flags_new(settings);
    let description = match host_description() {
        Ok(description) => description,
        Err(account) => {
            return Err(backend(account));
        },
    };
    match host_finish(&description, flags) {
        Ok(host) => Ok(host),
        Err(error) => Err(backend(describe_codegen_error(error))),
    }
}

/// Compiles a balanced instruction sequence for the host. The only failures are those of
/// the code generator: it does not support the host, it refuses the function, or it cannot
/// compile it. The program that comes back holds the machine code that the code generator
/// made of the function that `described` lays down.
fn generate(code: &Vec<Node>, shims: Shims) -> (result: Result<Program, CompileError>)
    requires
        balanced(code@),
    ensures
        result matches Ok(program) ==> described(code@, shims, program.given()),
        result matches Ok(program) ==> program@ == object_code(
            program.given().function(),
            program.given().host,
        ),
        result matches Err(error) ==> error is Backend,
{
    let host = match host() {
        Ok(host) => host,
        Err(error) => {
            return Err(error);
        },
    };
    let pointer = pointer_type(&host);
    let mut signature = signature_new(system_v());
    signature_takes(&mut signature, pointer);
    signature_returns(&mut signature, pointer);
    proof {
        assert(Seq::<Type>::empty().push(pointer) =~= seq![pointer]);
    }
    let mut function = function_new(0, 0, signature);
    let mut context = context_new();
    let mut b = builder_new(&mut function, &mut context);
    let fixtures = build(&mut b, pointer, code, shims);
    let ghost given = Given { host, builder: b, fixtures };
    builder_finalize(b);
    match verify(&function, &host) {
        Ok(()) => {},
        Err(errors) => {
            return Err(backend(describe_verifier_errors(errors)));
        },
    }
    let mut compilation = context_for(function);
    match compile(&mut compilation, &host) {
        Ok(bytes) => Ok(Program { bytes, given: Ghost(given) }),
        Err(error) => Err(backend(describe_codegen_error(error))),
    }
}

impl Program {
    /// What the code generator was given when it compiled this program.
    pub closed spec fn given(&self) -> Given {
        self.given@
    }

    /// Compiles a source text for the host, to a function that takes the tape base and
    /// returns an error handle, zero for success, calling the host routines at the
    /// addresses in `shims`.
    ///
    /// Fails with `UnmatchedBracket` exactly when the brackets are not balanced; this is
    /// found before the code generator is asked for anything. On a balanced text the only
    /// failures are those of the code generator. A program that comes back holds the
    /// machine code that the code generator made, for the host, of the function that
    /// `described` lays down.
    pub fn new(source: &str, shims: Shims) -> (result: Result<Program, CompileError>)
        ensures
            !balanced(parse_spec(source@)) <==> result == Err::<Program, CompileError>(
                CompileError::UnmatchedBracket,
            ),
            result matches Ok(program) ==> described(parse_spec(source@), shims, program.given()),
            result matches Ok(program) ==> program@ == object_code(
                program.given().function(),
                program.given().host,
            ),
            result matches Err(error) ==> error is UnmatchedBracket || error is Backend,
    {
        let code = match parse(source) {
            Ok(code) => code,
            Err(account) => {
                return Err(backend(account));
            },
        };
        if !is_balanced(&code) {
            return Err(CompileError::UnmatchedBracket);
        }
        generate(&code, shims)
    }

    /// Puts the machine code into memory that is executable and not writable. The memory is
    /// writable only while the code is copied into it. Fails with the account of the
    /// operating system where that refuses the memory.
    pub fn load(&self) -> (result: Result<Mmap, String>)
        ensures
            result matches Ok(image) ==> loaded(image) == self@,
    {
        let mut mapping = match map_anonymous(self.bytes.len()) {
            Ok(mapping) => mapping,
            Err(error) => {
                return Err(describe_io_error(error));
            },
        };
        mapping_fill(&mut mapping, &self.bytes);
        match mapping_make_exec(mapping) {
            Ok(image) => Ok(image),
            Err(error) => Err(describe_io_error(error)),
        }
    }

    /// The machine code.
    pub fn bytes(&self) -> (bytes: &Vec<u8>)
        ensures
            bytes@ == self@,
    {
        &self.bytes
    }
}

} // verus!
