//! The code generator, as the lowering uses it.
//!
//! The function builder of the code generator checks how it is used and panics on misuse:
//! instructions may only go into a block that is current and has no terminator yet, a block
//! is sealed once, a branch may only target a block that is not sealed, and at the end every
//! block must be sealed and terminated. The contracts below state those rules over a small
//! model of the builder's state, so that a caller that verifies never trips them.
//!
//! The contracts also keep a record of what the builder was given, step by step, so that a
//! caller can state which instructions it has put into the function, in which order and on
//! which values. And they say when the two calls that can fail, the use and the definition
//! of a variable, succeed: over the type that a variable was declared with and the type of
//! a value. Variables are of integer types only: for a variable that is used before it is
//! defined the builder makes a zero of its type, which not every type has.
//!
//! The machine code that comes out is not described here, only named: it is what the code
//! generator makes of the finished function for the host.

use vstd::prelude::*;
use cranelift::codegen::ir::immediates::Imm64;
use cranelift::codegen::ir::types::I8;
use cranelift::codegen::ir::{
    AbiParam, Block, BlockArg, Function, InstBuilder, MemFlags, SigRef, Signature, Type,
    UserFuncName, Value,
};
use cranelift::codegen::isa::{CallConv, OwnedTargetIsa};
use cranelift::codegen::settings::{Builder, Configurable, Flags, SetError};
use cranelift::codegen::verifier::VerifierErrors;
use cranelift::codegen::{CodegenError, Context};
use cranelift::codegen::control::ControlPlane;
use cranelift::frontend::{FunctionBuilder, FunctionBuilderContext, Variable};

verus! {

#[verifier::external_type_specification]
#[verifier::external_body]
pub struct ExFunction(Function);

#[verifier::external_type_specification]
#[verifier::external_body]
pub struct ExFunctionBuilderContext(FunctionBuilderContext);

#[verifier::external_type_specification]
#[verifier::external_body]
pub struct ExFunctionBuilder<'a>(FunctionBuilder<'a>);

#[verifier::external_type_specification]
#[verifier::external_body]
pub struct ExBlock(Block);

#[verifier::external_type_specification]
#[verifier::external_body]
pub struct ExValue(Value);

#[verifier::external_type_specification]
#[verifier::external_body]
pub struct ExVariable(Variable);

#[verifier::external_type_specification]
#[verifier::external_body]
pub struct ExSigRef(SigRef);

#[verifier::external_type_specification]
#[verifier::external_body]
pub struct ExSignature(Signature);

#[verifier::external_type_specification]
#[verifier::external_body]
pub struct ExType(Type);

#[verifier::external_type_specification]
#[verifier::external_body]
pub struct ExMemFlags(MemFlags);

#[verifier::external_type_specification]
#[verifier::external_body]
pub struct ExCallConv(CallConv);

#[verifier::external_type_specification]
#[verifier::external_body]
pub struct ExSettingsBuilder(Builder);

#[verifier::external_type_specification]
#[verifier::external_body]
pub struct ExFlags(Flags);

#[verifier::external_type_specification]
#[verifier::external_body]
pub struct ExContext(Context);

#[verifier::external_type_specification]
#[verifier::external_body]
pub struct ExSetError(SetError);

#[verifier::external_type_specification]
#[verifier::external_body]
pub struct ExCodegenError(CodegenError);

#[verifier::external_type_specification]
#[verifier::external_body]
pub struct ExVerifierErrors(VerifierErrors);

/// A configurable description of the host's instruction set: `cranelift::codegen::isa::Builder`.
#[verifier::external_body]
pub struct HostDescription {
    inner: cranelift::codegen::isa::Builder,
}

/// The host's instruction set: `cranelift::codegen::isa::OwnedTargetIsa`.
#[verifier::external_body]
pub struct Host {
    inner: OwnedTargetIsa,
}

/// The block that new instructions go into, by number, if one was chosen.
pub uninterp spec fn position(b: FunctionBuilder<'static>) -> Option<nat>;

/// The numbers of the blocks that end in a terminator.
pub uninterp spec fn filled(b: FunctionBuilder<'static>) -> Set<nat>;

/// The numbers of the blocks that were sealed.
pub uninterp spec fn sealed(b: FunctionBuilder<'static>) -> Set<nat>;

/// The numbers of the blocks that nothing has touched since they were created: no
/// instruction, no branch to them.
pub uninterp spec fn untouched(b: FunctionBuilder<'static>) -> Set<nat>;

/// Number of blocks of the function; they are numbered from zero in the order of creation.
pub uninterp spec fn block_count(b: FunctionBuilder<'static>) -> nat;

/// Number of values of the function; they are numbered from zero in the order of creation.
pub uninterp spec fn value_count(b: FunctionBuilder<'static>) -> nat;

/// Number of signatures imported into the function; they are numbered from zero.
pub uninterp spec fn signature_count(b: FunctionBuilder<'static>) -> nat;

/// Whether a function has no block, value or instruction yet.
pub uninterp spec fn is_blank(function: Function) -> bool;

/// Whether a builder context holds nothing of an earlier function.
pub uninterp spec fn is_clear(context: FunctionBuilderContext) -> bool;

/// The number of a block.
pub uninterp spec fn block_number(block: Block) -> nat;

/// The number of a value.
pub uninterp spec fn value_number(value: Value) -> nat;

/// The number of a signature reference.
pub uninterp spec fn signature_number(signature: SigRef) -> nat;

/// The type that a variable was declared with, if it was declared.
pub uninterp spec fn variable_type(b: FunctionBuilder<'static>, variable: Variable) -> Option<Type>;

/// The type of a value of the function.
pub uninterp spec fn value_type(b: FunctionBuilder<'static>, value: Value) -> Type;

/// Number of values that a call through an imported signature returns.
pub uninterp spec fn result_count(b: FunctionBuilder<'static>, signature: SigRef) -> nat;

/// The types of the parameters of a signature, in order.
pub uninterp spec fn parameters_of(signature: Signature) -> Seq<Type>;

/// The types of the results of a signature, in order.
pub uninterp spec fn returns_of(signature: Signature) -> Seq<Type>;

/// Whether a type is one of the scalar integer types.
pub uninterp spec fn is_integer(ty: Type) -> bool;

/// Number of bits of a value of a type.
pub uninterp spec fn bits(ty: Type) -> nat;

/// The integer type as wide as a pointer of the host.
pub uninterp spec fn pointer_of(host: Host) -> Type;

/// The signature of a function: what it takes and what it returns.
pub uninterp spec fn signature_of(function: Function) -> Signature;

/// The function that a builder writes into, as it stands when the builder is done with it.
pub uninterp spec fn outcome(b: FunctionBuilder<'static>) -> Function;

/// Whether a function keeps the rules of the intermediate representation on a host.
pub uninterp spec fn accepted(function: Function, host: Host) -> bool;

/// The function that a compilation context owns.
pub uninterp spec fn held(context: Context) -> Function;

/// The machine code that the code generator makes of a function for a host, where it makes
/// any.
pub uninterp spec fn object_code(function: Function, host: Host) -> Seq<u8>;

/// No setting.
pub open spec fn no_settings() -> Map<Seq<char>, Seq<char>> {
    Map::empty()
}

/// The settings that were given a value by name, with that value.
pub uninterp spec fn chosen(settings: Builder) -> Map<Seq<char>, Seq<char>>;

/// The settings that were given a value by name before they were frozen.
pub uninterp spec fn frozen(flags: Flags) -> Map<Seq<char>, Seq<char>>;

/// The settings that the host's instruction set was made with.
pub uninterp spec fn settings_of(host: Host) -> Map<Seq<char>, Seq<char>>;

/// One thing put into the function through the builder: a block created, given a
/// parameter, sealed or made current, a variable declared, used or defined, a signature
/// imported, or an instruction inserted into the current block. Blocks stand by their
/// numbers.
pub enum Inserted {
    /// A block was created.
    Block { block: nat },
    /// A block was given one more parameter.
    Param { block: nat, ty: Type, result: Value },
    /// A variable was declared.
    Declare { ty: Type, variable: Variable },
    /// A signature was imported.
    Import { parameters: Seq<Type>, returns: Seq<Type>, reference: SigRef },
    /// A block was sealed.
    Seal { block: nat },
    /// A block was made current.
    Switch { block: nat },
    /// The value of a variable at this point was asked for.
    UseVar { variable: Variable, result: Value },
    /// A variable was given a new value from this point on.
    DefVar { variable: Variable, value: Value },
    /// `iconst`
    Const { ty: Type, constant: i64, result: Value },
    /// `iadd`
    Add { x: Value, y: Value, result: Value },
    /// `iadd_imm`
    AddImm { x: Value, addend: i64, result: Value },
    /// `load`
    Load { ty: Type, flags: MemFlags, address: Value, offset: i32, result: Value },
    /// `store`
    Store { flags: MemFlags, value: Value, address: Value, offset: i32 },
    /// `call_indirect`, with the values that the call returns
    Call { signature: SigRef, callee: Value, arguments: Seq<Value>, results: Seq<Value> },
    /// `brif`
    Branch {
        condition: Value,
        then_block: nat,
        then_arguments: Seq<Value>,
        else_block: nat,
        else_arguments: Seq<Value>,
    },
    /// `return`
    Return { values: Seq<Value> },
}

/// What was put into the function through the builder so far, in order.
pub uninterp spec fn inserted(b: FunctionBuilder<'static>) -> Seq<Inserted>;

/// The part of the builder's state that decides which calls are allowed.
pub struct Cursor {
    pub position: Option<nat>,
    pub filled: Set<nat>,
    pub sealed: Set<nat>,
    pub blocks: nat,
}

/// The cursor of a builder.
pub open spec fn cursor(b: FunctionBuilder<'static>) -> Cursor {
    Cursor { position: position(b), filled: filled(b), sealed: sealed(b), blocks: block_count(b) }
}

/// An instruction can be inserted: a block is current and has no terminator yet.
pub open spec fn can_insert(b: FunctionBuilder<'static>) -> bool {
    position(b) is Some && !filled(b).contains(position(b)->0)
}

/// The block belongs to the function.
pub open spec fn has_block(b: FunctionBuilder<'static>, block: Block) -> bool {
    block_number(block) < block_count(b)
}

/// The value belongs to the function.
pub open spec fn has_value(b: FunctionBuilder<'static>, value: Value) -> bool {
    value_number(value) < value_count(b)
}

/// All the values belong to the function.
pub open spec fn has_values(b: FunctionBuilder<'static>, values: Seq<Value>) -> bool {
    forall|i: int| 0 <= i < values.len() ==> has_value(b, #[trigger] values[i])
}

/// The signature was imported into the function.
pub open spec fn has_signature(b: FunctionBuilder<'static>, signature: SigRef) -> bool {
    signature_number(signature) < signature_count(b)
}

/// Every declared variable is of an integer type.
pub open spec fn integer_variables(b: FunctionBuilder<'static>) -> bool {
    forall|w: Variable| (#[trigger] variable_type(b, w)) matches Some(ty) ==> is_integer(ty)
}

/// Values and signatures of `before` are still there in `after`, with their types and
/// result counts, and the builder still writes into the same function.
pub open spec fn keeps_values(
    before: FunctionBuilder<'static>,
    after: FunctionBuilder<'static>,
) -> bool {
    &&& outcome(after) == outcome(before)
    &&& value_count(before) <= value_count(after)
    &&& signature_count(before) <= signature_count(after)
    &&& forall|v: Value|
        has_value(before, v) ==> #[trigger] value_type(after, v) == value_type(before, v)
    &&& forall|g: SigRef|
        has_signature(before, g) ==> #[trigger] result_count(after, g) == result_count(before, g)
}

/// Values and signatures of `before` are still there in `after`, and the variables are
/// declared as they were.
pub open spec fn keeps(before: FunctionBuilder<'static>, after: FunctionBuilder<'static>) -> bool {
    &&& keeps_values(before, after)
    &&& forall|w: Variable| #[trigger] variable_type(after, w) == variable_type(before, w)
}

/// `settings::builder`: the default settings, none given a value by name.
#[verifier::external_body]
pub(crate) fn settings_builder() -> (settings: Builder)
    ensures
        chosen(settings) == no_settings(),
{
    cranelift::codegen::settings::builder()
}

/// `Configurable::set` of the settings: gives one setting a value by name, or refuses the
/// name or the value.
#[verifier::external_body]
pub(crate) fn settings_set(settings: &mut Builder, name: &str, value: &str) -> (result: Result<
    (),
    SetError,
>)
    ensures
        result is Ok ==> chosen(*final(settings)) == chosen(*old(settings)).insert(name@, value@),
{
    settings.set(name, value)
}

/// `settings::Flags::new`: the settings, frozen.
#[verifier::external_body]
pub(crate) fn flags_new(settings: Builder) -> (flags: Flags)
    ensures
        frozen(flags) == chosen(settings),
{
    Flags::new(settings)
}

/// `cranelift_native::builder`: a description of the host's instruction set, or the reason
/// why the code generator does not support the host.
#[verifier::external_body]
pub(crate) fn host_description() -> (result: Result<HostDescription, String>) {
    match cranelift_native::builder() {
        Ok(inner) => Ok(HostDescription { inner }),
        Err(reason) => Err(reason.to_string()),
    }
}

/// `isa::Builder::finish`: the host's instruction set under the given settings, or the
/// reason why the two do not go together.
#[verifier::external_body]
pub(crate) fn host_finish(description: &HostDescription, flags: Flags) -> (result: Result<
    Host,
    CodegenError,
>)
    ensures
        result matches Ok(host) ==> settings_of(host) == frozen(flags),
{
    match description.inner.finish(flags) {
        Ok(inner) => Ok(Host { inner }),
        Err(error) => Err(error),
    }
}

/// `TargetIsa::pointer_type`: the integer type as wide as a pointer of the host.
#[verifier::external_body]
pub(crate) fn pointer_type(host: &Host) -> (ty: Type)
    ensures
        ty == pointer_of(*host),
        is_integer(ty),
{
    host.inner.pointer_type()
}

/// `types::I8`: the integer type of eight bits, the type of a tape cell.
#[verifier::external_body]
pub(crate) fn byte_type() -> (ty: Type)
    ensures
        is_integer(ty),
        bits(ty) == 8,
{
    I8
}

/// `CallConv::SystemV`: the calling convention of the generated function and of the host
/// routines.
#[verifier::external_body]
pub(crate) fn system_v() -> (convention: CallConv) {
    CallConv::SystemV
}

/// `MemFlags::new`: no promise about a memory access.
#[verifier::external_body]
pub(crate) fn plain_access() -> (flags: MemFlags) {
    MemFlags::new()
}

/// `Signature::new`: a signature without parameters and results.
#[verifier::external_body]
pub(crate) fn signature_new(convention: CallConv) -> (signature: Signature)
    ensures
        parameters_of(signature) == Seq::<Type>::empty(),
        returns_of(signature) == Seq::<Type>::empty(),
{
    Signature::new(convention)
}

/// `AbiParam::new`, pushed onto the parameters of the signature.
#[verifier::external_body]
pub(crate) fn signature_takes(signature: &mut Signature, ty: Type)
    ensures
        parameters_of(*final(signature)) == parameters_of(*old(signature)).push(ty),
        returns_of(*final(signature)) == returns_of(*old(signature)),
{
    signature.params.push(AbiParam::new(ty))
}

/// `AbiParam::new`, pushed onto the results of the signature.
#[verifier::external_body]
pub(crate) fn signature_returns(signature: &mut Signature, ty: Type)
    ensures
        returns_of(*final(signature)) == returns_of(*old(signature)).push(ty),
        parameters_of(*final(signature)) == parameters_of(*old(signature)),
{
    signature.returns.push(AbiParam::new(ty))
}

/// `Function::with_name_signature`, with a name made by `UserFuncName::user`: an empty
/// function with the given signature.
#[verifier::external_body]
pub(crate) fn function_new(namespace: u32, index: u32, signature: Signature) -> (function: Function)
    ensures
        is_blank(function),
        signature_of(function) == signature,
{
    Function::with_name_signature(UserFuncName::user(namespace, index), signature)
}

/// `FunctionBuilderContext::new`: a context that holds nothing.
#[verifier::external_body]
pub(crate) fn context_new() -> (context: FunctionBuilderContext)
    ensures
        is_clear(context),
{
    FunctionBuilderContext::new()
}

/// `FunctionBuilder::new`: a builder for the function, with no current block. On a blank
/// function and a clear context it has no blocks and no variables. The builder panics on a
/// context that still holds something. The function is lent to the builder: what the builder
/// has written into it by the time it is done is what the function then holds, under the
/// signature that it had.
#[verifier::external_body]
pub(crate) fn builder_new<'a>(function: &'a mut Function, context: &'a mut FunctionBuilderContext) -> (b:
    FunctionBuilder<'a>)
    requires
        is_clear(*old(context)),
        is_blank(*old(function)),
    ensures
        position(b) is None,
        block_count(b) == 0,
        inserted(b) == Seq::<Inserted>::empty(),
        forall|w: Variable| (#[trigger] variable_type(b, w)) is None,
        outcome(b) == *final(function),
        signature_of(outcome(b)) == signature_of(*old(function)),
{
    FunctionBuilder::new(function, context)
}

/// `FunctionBuilder::create_block`: a new block, numbered after those there are. It is
/// untouched, not sealed and without terminator, and not the current block.
#[verifier::external_body]
pub(crate) fn create_block(b: &mut FunctionBuilder<'_>) -> (block: Block)
    ensures
        block_number(block) == block_count(*old(b)),
        block_count(*final(b)) == block_count(*old(b)) + 1,
        position(*final(b)) == position(*old(b)),
        filled(*final(b)) == filled(*old(b)),
        sealed(*final(b)) == sealed(*old(b)),
        untouched(*final(b)).contains(block_number(block)),
        !filled(*final(b)).contains(block_number(block)),
        !sealed(*final(b)).contains(block_number(block)),
        keeps(*old(b), *final(b)),
        inserted(*final(b)) == inserted(*old(b)).push(
            (Inserted::Block { block: block_number(block) }),
        ),
{
    b.create_block()
}

/// `FunctionBuilder::append_block_param`: gives the block one more parameter and returns
/// its value. The builder panics unless the block has no instruction yet.
#[verifier::external_body]
pub(crate) fn append_block_param(b: &mut FunctionBuilder<'_>, block: Block, ty: Type) -> (value: Value)
    requires
        has_block(*old(b), block),
        untouched(*old(b)).contains(block_number(block)),
    ensures
        cursor(*final(b)) == cursor(*old(b)),
        keeps(*old(b), *final(b)),
        has_value(*final(b), value),
        inserted(*final(b)) == inserted(*old(b)).push(
            (Inserted::Param { block: block_number(block), ty, result: value }),
        ),
{
    b.append_block_param(block, ty)
}

/// `FunctionBuilder::seal_block`: declares that every branch to the block has been
/// inserted. The builder panics on a block that is sealed already. Sealing settles the
/// variables that were used in the block; for one without a definition the builder makes a
/// zero of the variable's type, and panics where the type has none.
#[verifier::external_body]
pub(crate) fn seal_block(b: &mut FunctionBuilder<'_>, block: Block)
    requires
        has_block(*old(b), block),
        !sealed(*old(b)).contains(block_number(block)),
        integer_variables(*old(b)),
    ensures
        sealed(*final(b)) == sealed(*old(b)).insert(block_number(block)),
        position(*final(b)) == position(*old(b)),
        filled(*final(b)) == filled(*old(b)),
        block_count(*final(b)) == block_count(*old(b)),
        keeps(*old(b), *final(b)),
        inserted(*final(b)) == inserted(*old(b)).push(
            (Inserted::Seal { block: block_number(block) }),
        ),
{
    b.seal_block(block)
}

/// `FunctionBuilder::switch_to_block`: makes the block current. The builder panics where the
/// block left behind has instructions but no terminator, or the new block has a terminator.
#[verifier::external_body]
pub(crate) fn switch_to_block(b: &mut FunctionBuilder<'_>, block: Block)
    requires
        has_block(*old(b), block),
        position(*old(b)) is None || filled(*old(b)).contains(position(*old(b))->0),
        !filled(*old(b)).contains(block_number(block)),
    ensures
        position(*final(b)) == Some(block_number(block)),
        filled(*final(b)) == filled(*old(b)),
        sealed(*final(b)) == sealed(*old(b)),
        block_count(*final(b)) == block_count(*old(b)),
        keeps(*old(b), *final(b)),
        inserted(*final(b)) == inserted(*old(b)).push(
            (Inserted::Switch { block: block_number(block) }),
        ),
{
    b.switch_to_block(block)
}

/// `FunctionBuilder::declare_var`: a new variable of the given type; the other variables
/// stay as they are. Only integer types are admitted here, because the builder cannot
/// use a variable of every type.
#[verifier::external_body]
pub(crate) fn declare_var(b: &mut FunctionBuilder<'_>, ty: Type) -> (variable: Variable)
    requires
        is_integer(ty),
    ensures
        cursor(*final(b)) == cursor(*old(b)),
        keeps_values(*old(b), *final(b)),
        variable_type(*old(b), variable) is None,
        variable_type(*final(b), variable) == Some(ty),
        forall|w: Variable|
            w != variable ==> #[trigger] variable_type(*final(b), w) == variable_type(*old(b), w),
        inserted(*final(b)) == inserted(*old(b)).push((Inserted::Declare { ty, variable })),
{
    b.declare_var(ty)
}

/// `FunctionBuilder::try_use_var`: the value of the variable at this point, which has the
/// type of the variable; an error exactly where the variable was not declared. For a
/// variable without a definition the builder makes a zero of the variable's type, and panics
/// where the type has none.
#[verifier::external_body]
pub(crate) fn use_var(b: &mut FunctionBuilder<'_>, variable: Variable) -> (result: Result<
    Value,
    String,
>)
    requires
        can_insert(*old(b)),
        integer_variables(*old(b)),
    ensures
        cursor(*final(b)) == cursor(*old(b)),
        keeps(*old(b), *final(b)),
        result is Ok <==> variable_type(*old(b), variable) is Some,
        result matches Ok(value) ==> has_value(*final(b), value),
        result matches Ok(value) ==> value_type(*final(b), value) == variable_type(
            *old(b),
            variable,
        )->0,
        result matches Ok(value) ==> inserted(*final(b)) == inserted(*old(b)).push(
            (Inserted::UseVar { variable, result: value }),
        ),
{
    b.try_use_var(variable).map_err(|error| error.to_string())
}

/// `FunctionBuilder::try_def_var`: gives the variable a new value from this point on; an
/// error exactly where the variable was not declared or the value has another type.
#[verifier::external_body]
pub(crate) fn def_var(b: &mut FunctionBuilder<'_>, variable: Variable, value: Value) -> (result: Result<
    (),
    String,
>)
    requires
        position(*old(b)) is Some,
        has_value(*old(b), value),
    ensures
        result is Ok <==> variable_type(*old(b), variable) == Some(value_type(*old(b), value)),
        cursor(*final(b)) == cursor(*old(b)),
        keeps(*old(b), *final(b)),
        result is Ok ==> inserted(*final(b)) == inserted(*old(b)).push(
            (Inserted::DefVar { variable, value }),
        ),
{
    b.try_def_var(variable, value).map_err(|error| error.to_string())
}

/// `FunctionBuilder::import_signature`: makes a signature usable in indirect calls; a call
/// through it returns one value for each result of the signature.
#[verifier::external_body]
pub(crate) fn import_signature(b: &mut FunctionBuilder<'_>, signature: Signature) -> (reference: SigRef)
    ensures
        cursor(*final(b)) == cursor(*old(b)),
        keeps(*old(b), *final(b)),
        signature_number(reference) < signature_count(*final(b)),
        result_count(*final(b), reference) == returns_of(signature).len(),
        inserted(*final(b)) == inserted(*old(b)).push(
            (Inserted::Import {
                parameters: parameters_of(signature),
                returns: returns_of(signature),
                reference,
            }),
        ),
{
    b.import_signature(signature)
}

/// `InstBuilder::iconst` at the cursor: an integer constant of an integer type.
#[verifier::external_body]
pub(crate) fn ins_iconst(b: &mut FunctionBuilder<'_>, ty: Type, value: i64) -> (result: Value)
    requires
        can_insert(*old(b)),
        is_integer(ty),
    ensures
        cursor(*final(b)) == cursor(*old(b)),
        keeps(*old(b), *final(b)),
        value_number(result) < value_count(*final(b)),
        value_type(*final(b), result) == ty,
        inserted(*final(b)) == inserted(*old(b)).push(
            (Inserted::Const { ty, constant: value, result }),
        ),
{
    b.ins().iconst(ty, Imm64::new(value))
}

/// `InstBuilder::iadd` at the cursor: the sum of two values.
#[verifier::external_body]
pub(crate) fn ins_iadd(b: &mut FunctionBuilder<'_>, x: Value, y: Value) -> (result: Value)
    requires
        can_insert(*old(b)),
        has_value(*old(b), x),
        has_value(*old(b), y),
    ensures
        cursor(*final(b)) == cursor(*old(b)),
        keeps(*old(b), *final(b)),
        has_value(*final(b), result),
        inserted(*final(b)) == inserted(*old(b)).push(
            (Inserted::Add { x, y, result }),
        ),
{
    b.ins().iadd(x, y)
}

/// `InstBuilder::iadd_imm` at the cursor: a value plus a constant, which is cut to the width
/// of the value; the sum has the type of the value.
#[verifier::external_body]
pub(crate) fn ins_iadd_imm(b: &mut FunctionBuilder<'_>, x: Value, addend: i64) -> (result: Value)
    requires
        can_insert(*old(b)),
        has_value(*old(b), x),
    ensures
        cursor(*final(b)) == cursor(*old(b)),
        keeps(*old(b), *final(b)),
        has_value(*final(b), result),
        value_type(*final(b), result) == value_type(*old(b), x),
        inserted(*final(b)) == inserted(*old(b)).push(
            (Inserted::AddImm { x, addend, result }),
        ),
{
    b.ins().iadd_imm(x, Imm64::new(addend))
}

/// `InstBuilder::load` at the cursor: the value of the given type at an address.
#[verifier::external_body]
pub(crate) fn ins_load(
    b: &mut FunctionBuilder<'_>,
    ty: Type,
    flags: MemFlags,
    address: Value,
    offset: i32,
) -> (result: Value)
    requires
        can_insert(*old(b)),
        has_value(*old(b), address),
    ensures
        cursor(*final(b)) == cursor(*old(b)),
        keeps(*old(b), *final(b)),
        has_value(*final(b), result),
        inserted(*final(b)) == inserted(*old(b)).push(
            (Inserted::Load { ty, flags, address, offset, result }),
        ),
{
    b.ins().load(ty, flags, address, offset)
}

/// `InstBuilder::store` at the cursor: writes a value to an address.
#[verifier::external_body]
pub(crate) fn ins_store(
    b: &mut FunctionBuilder<'_>,
    flags: MemFlags,
    value: Value,
    address: Value,
    offset: i32,
)
    requires
        can_insert(*old(b)),
        has_value(*old(b), value),
        has_value(*old(b), address),
    ensures
        cursor(*final(b)) == cursor(*old(b)),
        keeps(*old(b), *final(b)),
        inserted(*final(b)) == inserted(*old(b)).push(
            (Inserted::Store { flags, value, address, offset }),
        ),
{
    b.ins().store(flags, value, address, offset);
}

/// `InstBuilder::call_indirect` at the cursor, and `FunctionBuilder::inst_results` of the
/// call: calls the function at an address and gives the values it returns.
#[verifier::external_body]
pub(crate) fn ins_call_indirect(
    b: &mut FunctionBuilder<'_>,
    signature: SigRef,
    callee: Value,
    arguments: &Vec<Value>,
) -> (results: Vec<Value>)
    requires
        can_insert(*old(b)),
        has_signature(*old(b), signature),
        has_value(*old(b), callee),
        has_values(*old(b), arguments@),
    ensures
        cursor(*final(b)) == cursor(*old(b)),
        keeps(*old(b), *final(b)),
        has_values(*final(b), results@),
        results@.len() == result_count(*old(b), signature),
        inserted(*final(b)) == inserted(*old(b)).push(
            (Inserted::Call { signature, callee, arguments: arguments@, results: results@ }),
        ),
{
    let call = b.ins().call_indirect(signature, callee, arguments);
    b.inst_results(call).to_vec()
}

/// `InstBuilder::brif` at the cursor: branches to one block where the condition is not zero
/// and to the other where it is, passing each its arguments. It terminates the current
/// block. The builder panics where a target is sealed.
#[verifier::external_body]
pub(crate) fn ins_brif(
    b: &mut FunctionBuilder<'_>,
    condition: Value,
    then_block: Block,
    then_arguments: &Vec<Value>,
    else_block: Block,
    else_arguments: &Vec<Value>,
)
    requires
        can_insert(*old(b)),
        has_value(*old(b), condition),
        has_values(*old(b), then_arguments@),
        has_values(*old(b), else_arguments@),
        has_block(*old(b), then_block),
        has_block(*old(b), else_block),
        !sealed(*old(b)).contains(block_number(then_block)),
        !sealed(*old(b)).contains(block_number(else_block)),
    ensures
        filled(*final(b)) == filled(*old(b)).insert(position(*old(b))->0),
        position(*final(b)) == position(*old(b)),
        sealed(*final(b)) == sealed(*old(b)),
        block_count(*final(b)) == block_count(*old(b)),
        keeps(*old(b), *final(b)),
        inserted(*final(b)) == inserted(*old(b)).push(
            (Inserted::Branch {
                condition,
                then_block: block_number(then_block),
                then_arguments: then_arguments@,
                else_block: block_number(else_block),
                else_arguments: else_arguments@,
            }),
        ),
{
    let then_arguments: Vec<BlockArg> = then_arguments.iter().map(|v| BlockArg::Value(*v)).collect();
    let else_arguments: Vec<BlockArg> = else_arguments.iter().map(|v| BlockArg::Value(*v)).collect();
    b.ins().brif(condition, then_block, &then_arguments, else_block, &else_arguments);
}

/// `InstBuilder::return_` at the cursor: returns the values. It terminates the current
/// block.
#[verifier::external_body]
pub(crate) fn ins_return(b: &mut FunctionBuilder<'_>, values: &Vec<Value>)
    requires
        can_insert(*old(b)),
        has_values(*old(b), values@),
    ensures
        filled(*final(b)) == filled(*old(b)).insert(position(*old(b))->0),
        position(*final(b)) == position(*old(b)),
        sealed(*final(b)) == sealed(*old(b)),
        block_count(*final(b)) == block_count(*old(b)),
        keeps(*old(b), *final(b)),
        inserted(*final(b)) == inserted(*old(b)).push(
            (Inserted::Return { values: values@ }),
        ),
{
    b.ins().return_(values);
}

/// `FunctionBuilder::finalize`: ends the construction. The builder panics where a block
/// with instructions is not sealed or has no terminator.
#[verifier::external_body]
pub(crate) fn builder_finalize(b: FunctionBuilder<'_>)
    requires
        forall|n: nat| n < block_count(b) ==> filled(b).contains(n) && sealed(b).contains(n),
{
    b.finalize()
}

/// `verify_function`: checks the function against the rules of the intermediate
/// representation, as they hold on the host.
#[verifier::external_body]
pub(crate) fn verify(function: &Function, host: &Host) -> (result: Result<(), VerifierErrors>)
    ensures
        result is Ok <==> accepted(*function, *host),
{
    cranelift::codegen::verify_function(function, &*host.inner)
}

/// `Context::for_function`: a compilation context that owns the function.
#[verifier::external_body]
pub(crate) fn context_for(function: Function) -> (context: Context)
    ensures
        held(context) == function,
{
    Context::for_function(function)
}

/// `Context::compile` with a default `ControlPlane`, and `CompiledCode::code_buffer` of the
/// outcome: the machine code of the function that the context owns, for the host. The code
/// depends on the function and the host alone. Only a function that keeps the rules of the
/// intermediate representation is handed over.
#[verifier::external_body]
pub(crate) fn compile(context: &mut Context, host: &Host) -> (result: Result<Vec<u8>, CodegenError>)
    requires
        accepted(held(*old(context)), *host),
    ensures
        result matches Ok(bytes) ==> bytes@ == object_code(held(*old(context)), *host),
{
    match context.compile(&*host.inner, &mut ControlPlane::default()) {
        Ok(compiled) => Ok(compiled.code_buffer().to_vec()),
        Err(error) => Err(error.inner),
    }
}

/// `ToString::to_string` of a refused setting.
#[verifier::external_body]
pub(crate) fn describe_set_error(error: SetError) -> (message: String) {
    error.to_string()
}

/// `ToString::to_string` of a failure of the code generator.
#[verifier::external_body]
pub(crate) fn describe_codegen_error(error: CodegenError) -> (message: String) {
    error.to_string()
}

/// `ToString::to_string` of the findings of the verifier of the intermediate representation.
#[verifier::external_body]
pub(crate) fn describe_verifier_errors(errors: VerifierErrors) -> (message: String) {
    errors.to_string()
}

} // verus!
