//! Emission: handing a module of the target form to the LLVM builder.
//!
//! Every value is an `i64`. A function that returns several values returns
//! a struct of them, which the caller takes apart right after the call. A
//! comparison yields an `i1`, which is widened; a branch tests its
//! condition against zero.
//!
//! LLVM is reached through `inkwell`. Its types are opaque here, and what
//! its functions do is taken on trust: each is called through a function
//! of this file that does nothing else. Of what such a function hands
//! back, this is taken for granted: that it is what the outside function
//! handed back for these arguments while the builder stood where it stood,
//! which a name without a definition records; when it hands something
//! back at all, as the outside function's text shows; and that types are
//! kept as LLVM's rules have it: a function has the type that it was added
//! with, a parameter the type of its place, a call the type that its
//! callee returns, and a field that is taken out the type of its place.
//! What the instructions compute is LLVM's matter and is claimed nowhere.
//!
//! What is proved is which modules are refused before anything is
//! emitted, that any other module is emitted without a lookup that fails
//! and without LLVM handing back less than it was asked for, so that
//! emission fails only where LLVM finds a function malformed, and that
//! what [`emit`] hands back was built as the module calls for: each
//! function declared under its name with its signature, each block built
//! while the builder stood at its end, each instruction built by the
//! builder's function for it on the LLVM values of its operands, each
//! call made to the function that was emitted for the callee, each block
//! ended as the module says, and each function with blocks found well
//! formed by LLVM.

use vstd::prelude::*;
use crate::ast::Type;
use crate::ir::{
    BinOp, Block, BlockView, Function, FunctionView, Inst, InstView, TargetModule, TermView,
    Terminator, Value,
};
use crate::validate::{
    block_ok, function_ok, inst_ok, is_narrow, narrow, result_count, term_ok, validate, value_ok,
    values_ok, well_formed,
};

verus! {

/// The type `inkwell::context::Context`, opaque here.
#[verifier::external_type_specification]
#[verifier::external_body]
pub struct ExContext(inkwell::context::Context);

/// The type `inkwell::module::Module`, opaque here.
#[verifier::external_type_specification]
#[verifier::external_body]
pub struct ExModule<'ctx>(inkwell::module::Module<'ctx>);

/// The type `inkwell::builder::Builder`, opaque here.
#[verifier::external_type_specification]
#[verifier::external_body]
pub struct ExBuilder<'ctx>(inkwell::builder::Builder<'ctx>);

/// The type `inkwell::basic_block::BasicBlock`, opaque here.
#[verifier::external_type_specification]
#[verifier::external_body]
pub struct ExBasicBlock<'ctx>(inkwell::basic_block::BasicBlock<'ctx>);

/// The type `inkwell::values::FunctionValue`, opaque here.
#[verifier::external_type_specification]
#[verifier::external_body]
pub struct ExFunctionValue<'ctx>(inkwell::values::FunctionValue<'ctx>);

/// The type `inkwell::values::IntValue`, opaque here.
#[verifier::external_type_specification]
#[verifier::external_body]
pub struct ExIntValue<'ctx>(inkwell::values::IntValue<'ctx>);

/// The type `inkwell::values::StructValue`, opaque here.
#[verifier::external_type_specification]
#[verifier::external_body]
pub struct ExStructValue<'ctx>(inkwell::values::StructValue<'ctx>);

/// The type `inkwell::values::BasicValueEnum`, opaque here.
#[verifier::external_type_specification]
#[verifier::external_body]
pub struct ExBasicValueEnum<'ctx>(inkwell::values::BasicValueEnum<'ctx>);

/// The type `inkwell::values::BasicMetadataValueEnum`, opaque here.
#[verifier::external_type_specification]
#[verifier::external_body]
pub struct ExBasicMetadataValueEnum<'ctx>(inkwell::values::BasicMetadataValueEnum<'ctx>);

/// The type `inkwell::values::AggregateValueEnum`, opaque here.
#[verifier::external_type_specification]
#[verifier::external_body]
pub struct ExAggregateValueEnum<'ctx>(inkwell::values::AggregateValueEnum<'ctx>);

/// The type `inkwell::values::CallSiteValue`, opaque here.
#[verifier::external_type_specification]
#[verifier::external_body]
pub struct ExCallSiteValue<'ctx>(inkwell::values::CallSiteValue<'ctx>);

/// An instruction that returns nothing: the end of a block.
#[verifier::external_type_specification]
#[verifier::external_body]
pub struct ExInstructionValue<'ctx>(inkwell::values::InstructionValue<'ctx>);

/// The type `inkwell::types::VoidType`, opaque here.
#[verifier::external_type_specification]
#[verifier::external_body]
pub struct ExVoidType<'ctx>(inkwell::types::VoidType<'ctx>);

/// The type `inkwell::types::IntType`, opaque here.
#[verifier::external_type_specification]
#[verifier::external_body]
pub struct ExIntType<'ctx>(inkwell::types::IntType<'ctx>);

/// The type `inkwell::types::StructType`, opaque here.
#[verifier::external_type_specification]
#[verifier::external_body]
pub struct ExStructType<'ctx>(inkwell::types::StructType<'ctx>);

/// The type `inkwell::types::FunctionType`, opaque here.
#[verifier::external_type_specification]
#[verifier::external_body]
pub struct ExFunctionType<'ctx>(inkwell::types::FunctionType<'ctx>);

/// The type `inkwell::types::BasicTypeEnum`, opaque here.
#[verifier::external_type_specification]
#[verifier::external_body]
pub struct ExBasicTypeEnum<'ctx>(inkwell::types::BasicTypeEnum<'ctx>);

/// The type `inkwell::types::BasicMetadataTypeEnum`, opaque here.
#[verifier::external_type_specification]
#[verifier::external_body]
pub struct ExBasicMetadataTypeEnum<'ctx>(inkwell::types::BasicMetadataTypeEnum<'ctx>);

/// Whether `made` is what `Builder::build_int_add` handed back for the left
/// operand `lhs` and the right operand `rhs`: the sum of the two,
/// as LLVM builds it.
/// The builder stood at the end of the block `at` when it was asked.
pub uninterp spec fn built_add(
    at: Option<inkwell::basic_block::BasicBlock<'static>>,
    lhs: inkwell::values::IntValue<'static>,
    rhs: inkwell::values::IntValue<'static>,
    made: inkwell::values::IntValue<'static>,
) -> bool;

/// Whether `made` is what `Builder::build_int_sub` handed back for the left
/// operand `lhs` and the right operand `rhs`: the difference of the two,
/// as LLVM builds it.
/// The builder stood at the end of the block `at` when it was asked.
pub uninterp spec fn built_sub(
    at: Option<inkwell::basic_block::BasicBlock<'static>>,
    lhs: inkwell::values::IntValue<'static>,
    rhs: inkwell::values::IntValue<'static>,
    made: inkwell::values::IntValue<'static>,
) -> bool;

/// Whether `made` is what `Builder::build_int_mul` handed back for the left
/// operand `lhs` and the right operand `rhs`: the product of the two,
/// as LLVM builds it.
/// The builder stood at the end of the block `at` when it was asked.
pub uninterp spec fn built_mul(
    at: Option<inkwell::basic_block::BasicBlock<'static>>,
    lhs: inkwell::values::IntValue<'static>,
    rhs: inkwell::values::IntValue<'static>,
    made: inkwell::values::IntValue<'static>,
) -> bool;

/// Whether `made` is what `Builder::build_int_unsigned_div` handed back for the left
/// operand `lhs` and the right operand `rhs`: the unsigned quotient of the two,
/// as LLVM builds it.
/// The builder stood at the end of the block `at` when it was asked.
pub uninterp spec fn built_unsigned_div(
    at: Option<inkwell::basic_block::BasicBlock<'static>>,
    lhs: inkwell::values::IntValue<'static>,
    rhs: inkwell::values::IntValue<'static>,
    made: inkwell::values::IntValue<'static>,
) -> bool;

/// Whether `made` is what `Builder::build_int_unsigned_rem` handed back for the left
/// operand `lhs` and the right operand `rhs`: the unsigned remainder of the two,
/// as LLVM builds it.
/// The builder stood at the end of the block `at` when it was asked.
pub uninterp spec fn built_unsigned_rem(
    at: Option<inkwell::basic_block::BasicBlock<'static>>,
    lhs: inkwell::values::IntValue<'static>,
    rhs: inkwell::values::IntValue<'static>,
    made: inkwell::values::IntValue<'static>,
) -> bool;

/// Whether `made` is what `Builder::build_int_signed_div` handed back for the left
/// operand `lhs` and the right operand `rhs`: the signed quotient of the two,
/// as LLVM builds it.
/// The builder stood at the end of the block `at` when it was asked.
pub uninterp spec fn built_signed_div(
    at: Option<inkwell::basic_block::BasicBlock<'static>>,
    lhs: inkwell::values::IntValue<'static>,
    rhs: inkwell::values::IntValue<'static>,
    made: inkwell::values::IntValue<'static>,
) -> bool;

/// Whether `made` is what `Builder::build_int_signed_rem` handed back for the left
/// operand `lhs` and the right operand `rhs`: the signed remainder of the two,
/// as LLVM builds it.
/// The builder stood at the end of the block `at` when it was asked.
pub uninterp spec fn built_signed_rem(
    at: Option<inkwell::basic_block::BasicBlock<'static>>,
    lhs: inkwell::values::IntValue<'static>,
    rhs: inkwell::values::IntValue<'static>,
    made: inkwell::values::IntValue<'static>,
) -> bool;

/// Whether `made` is what `Builder::build_int_compare` handed back for the
/// left operand `lhs` and the right operand `rhs`, asked whether they are
/// equal (`equal`) or whether they differ (not `equal`).
/// The builder stood at the end of the block `at` when it was asked.
pub uninterp spec fn built_compare(
    at: Option<inkwell::basic_block::BasicBlock<'static>>,
    equal: bool,
    lhs: inkwell::values::IntValue<'static>,
    rhs: inkwell::values::IntValue<'static>,
    made: inkwell::values::IntValue<'static>,
) -> bool;

/// Whether `made` is what `Builder::build_int_z_extend` handed back for
/// `value` and the type `ty`: the value widened to the type, with zeros in
/// front.
/// The builder stood at the end of the block `at` when it was asked.
pub uninterp spec fn built_z_extend(
    at: Option<inkwell::basic_block::BasicBlock<'static>>,
    value: inkwell::values::IntValue<'static>,
    ty: inkwell::types::IntType<'static>,
    made: inkwell::values::IntValue<'static>,
) -> bool;

/// Whether `made` is the function that `Module::add_function` added to the
/// module and handed back for that name and type.
pub uninterp spec fn added_function(
    module: inkwell::module::Module<'static>,
    name: Seq<char>,
    ty: inkwell::types::FunctionType<'static>,
    made: inkwell::values::FunctionValue<'static>,
) -> bool;

/// Whether `made` is the constant that `IntType::const_int` handed back for
/// that type and value, without sign extension.
pub uninterp spec fn const_of(
    ty: inkwell::types::IntType<'static>,
    value: u64,
    made: inkwell::values::IntValue<'static>,
) -> bool;

/// Whether `made` is what `FunctionValue::get_nth_param` handed back for
/// the parameter at that position of the function.
pub uninterp spec fn param_of(
    function: inkwell::values::FunctionValue<'static>,
    index: nat,
    made: inkwell::values::BasicValueEnum<'static>,
) -> bool;

/// The integer that a value holds, where it is the variant of
/// `BasicValueEnum` that holds an integer.
pub uninterp spec fn int_in(value: inkwell::values::BasicValueEnum<'static>) -> Option<
    inkwell::values::IntValue<'static>,
>;

/// The struct that a value holds, where it is the variant of
/// `BasicValueEnum` that holds a struct.
pub uninterp spec fn struct_in(value: inkwell::values::BasicValueEnum<'static>) -> Option<
    inkwell::values::StructValue<'static>,
>;

/// The variant of `BasicMetadataValueEnum` that holds the integer: the
/// integer as an argument of a call.
pub uninterp spec fn argument_of(
    value: inkwell::values::IntValue<'static>,
) -> inkwell::values::BasicMetadataValueEnum<'static>;

/// The variant of `BasicMetadataTypeEnum` that holds the integer type: the
/// type as that of a parameter.
pub uninterp spec fn param_type_of(
    ty: inkwell::types::IntType<'static>,
) -> inkwell::types::BasicMetadataTypeEnum<'static>;

/// The variant of `BasicTypeEnum` that holds the integer type: the type as
/// that of a field.
pub uninterp spec fn field_type_of(
    ty: inkwell::types::IntType<'static>,
) -> inkwell::types::BasicTypeEnum<'static>;

/// Whether `made` is the struct value without contents that
/// `StructType::get_undef` handed back for that type.
pub uninterp spec fn undef_of(
    ty: inkwell::types::StructType<'static>,
    made: inkwell::values::AggregateValueEnum<'static>,
) -> bool;

/// Whether `made` is what `Builder::build_insert_value` handed back for
/// that aggregate, that value and that position: the aggregate with the
/// value in the field at the position, as LLVM builds it.
/// The builder stood at the end of the block `at` when it was asked.
pub uninterp spec fn built_insert(
    at: Option<inkwell::basic_block::BasicBlock<'static>>,
    aggregate: inkwell::values::AggregateValueEnum<'static>,
    value: inkwell::values::IntValue<'static>,
    index: nat,
    made: inkwell::values::AggregateValueEnum<'static>,
) -> bool;

/// Whether `made` is what `Builder::build_extract_value` handed back for
/// that struct and that position: the field at the position, as LLVM
/// builds it.
/// The builder stood at the end of the block `at` when it was asked.
pub uninterp spec fn built_extract(
    at: Option<inkwell::basic_block::BasicBlock<'static>>,
    aggregate: inkwell::values::StructValue<'static>,
    index: nat,
    made: inkwell::values::BasicValueEnum<'static>,
) -> bool;

/// Whether `made` is what `Builder::build_call` handed back for that
/// function and those arguments, in that order.
/// The builder stood at the end of the block `at` when it was asked.
pub uninterp spec fn built_call(
    at: Option<inkwell::basic_block::BasicBlock<'static>>,
    function: inkwell::values::FunctionValue<'static>,
    args: Seq<inkwell::values::BasicMetadataValueEnum<'static>>,
    made: inkwell::values::CallSiteValue<'static>,
) -> bool;

/// Whether `made` is what `CallSiteValue::try_as_basic_value` holds on its
/// left for that call: the value that the call returns.
pub uninterp spec fn returned_by(
    site: inkwell::values::CallSiteValue<'static>,
    made: inkwell::values::BasicValueEnum<'static>,
) -> bool;

/// Whether `made` is what `Builder::build_return` handed back when it was
/// given no value.
/// The builder stood at the end of the block `at` when it was asked.
pub uninterp spec fn built_return_void(
    at: Option<inkwell::basic_block::BasicBlock<'static>>,
    made: inkwell::values::InstructionValue<'static>,
) -> bool;

/// Whether `made` is what `Builder::build_return` handed back for that
/// integer.
/// The builder stood at the end of the block `at` when it was asked.
pub uninterp spec fn built_return_int(
    at: Option<inkwell::basic_block::BasicBlock<'static>>,
    value: inkwell::values::IntValue<'static>,
    made: inkwell::values::InstructionValue<'static>,
) -> bool;

/// Whether `made` is what `Builder::build_return` handed back for that
/// aggregate.
/// The builder stood at the end of the block `at` when it was asked.
pub uninterp spec fn built_return_aggregate(
    at: Option<inkwell::basic_block::BasicBlock<'static>>,
    value: inkwell::values::AggregateValueEnum<'static>,
    made: inkwell::values::InstructionValue<'static>,
) -> bool;

/// Whether `made` is what `Builder::build_unconditional_branch` handed back
/// for that block.
/// The builder stood at the end of the block `at` when it was asked.
pub uninterp spec fn built_jump(
    at: Option<inkwell::basic_block::BasicBlock<'static>>,
    target: inkwell::basic_block::BasicBlock<'static>,
    made: inkwell::values::InstructionValue<'static>,
) -> bool;

/// Whether `made` is what `Builder::build_conditional_branch` handed back
/// for that condition, the block to go to where it holds and the block to
/// go to where it does not.
/// The builder stood at the end of the block `at` when it was asked.
pub uninterp spec fn built_branch(
    at: Option<inkwell::basic_block::BasicBlock<'static>>,
    condition: inkwell::values::IntValue<'static>,
    then_block: inkwell::basic_block::BasicBlock<'static>,
    else_block: inkwell::basic_block::BasicBlock<'static>,
    made: inkwell::values::InstructionValue<'static>,
) -> bool;

/// The block at whose end the builder stands: what
/// `Builder::get_insert_block` returns.
pub uninterp spec fn insert_block(builder: inkwell::builder::Builder<'static>) -> Option<
    inkwell::basic_block::BasicBlock<'static>,
>;

/// Whether `valid` is what `FunctionValue::verify` answered for the
/// function: whether LLVM found it well formed, as it stood when LLVM was
/// asked.
pub uninterp spec fn found_valid(
    function: inkwell::values::FunctionValue<'static>,
    valid: bool,
) -> bool;

/// Whether `made` is the block that `Context::append_basic_block` appended
/// to that function under that name.
pub uninterp spec fn appended_to(
    function: inkwell::values::FunctionValue<'static>,
    name: Seq<char>,
    made: inkwell::basic_block::BasicBlock<'static>,
) -> bool;

/// How many bits an integer type has: what `IntType::get_bit_width`
/// returns.
pub uninterp spec fn int_width(ty: inkwell::types::IntType<'static>) -> nat;

/// How many parameters a function type has: what
/// `FunctionType::count_param_types` returns.
pub uninterp spec fn fn_type_arity(ty: inkwell::types::FunctionType<'static>) -> nat;

/// The parameter types of a function type, in order: what
/// `FunctionType::get_param_types` returns.
pub uninterp spec fn fn_type_params(ty: inkwell::types::FunctionType<'static>) -> Seq<
    inkwell::types::BasicTypeEnum<'static>,
>;

/// What a function of a function type returns: what
/// `FunctionType::get_return_type` returns, which is nothing for a
/// function that returns nothing.
pub uninterp spec fn fn_type_return(ty: inkwell::types::FunctionType<'static>) -> Option<
    inkwell::types::BasicTypeEnum<'static>,
>;

/// How many fields a struct type has: what `StructType::count_fields`
/// returns.
pub uninterp spec fn struct_fields(ty: inkwell::types::StructType<'static>) -> nat;

/// The field types of a struct type, in order: what
/// `StructType::get_field_types` returns.
pub uninterp spec fn struct_field_types(ty: inkwell::types::StructType<'static>) -> Seq<
    inkwell::types::BasicTypeEnum<'static>,
>;

/// The variant of `BasicTypeEnum` that holds the struct type.
pub uninterp spec fn struct_as_type(
    ty: inkwell::types::StructType<'static>,
) -> inkwell::types::BasicTypeEnum<'static>;

/// The type of a function: what `FunctionValue::get_type` returns.
pub uninterp spec fn declared_type(
    function: inkwell::values::FunctionValue<'static>,
) -> inkwell::types::FunctionType<'static>;

/// How many parameters a function has: what `FunctionValue::count_params`
/// returns.
pub uninterp spec fn param_count(function: inkwell::values::FunctionValue<'static>) -> nat;

/// The type of a value: what `BasicValueEnum::get_type` returns.
pub uninterp spec fn value_type(
    value: inkwell::values::BasicValueEnum<'static>,
) -> inkwell::types::BasicTypeEnum<'static>;

/// The type of a struct value: what `StructValue::get_type` returns.
pub uninterp spec fn struct_value_type(
    value: inkwell::values::StructValue<'static>,
) -> inkwell::types::StructType<'static>;

/// The function that a call calls: what
/// `CallSiteValue::get_called_fn_value` returns.
pub uninterp spec fn called(
    site: inkwell::values::CallSiteValue<'static>,
) -> inkwell::values::FunctionValue<'static>;

/// The type of an aggregate that is a struct: what `StructValue::get_type`
/// returns for the struct in the variant of `AggregateValueEnum` that
/// holds one.
pub uninterp spec fn aggregate_type(
    value: inkwell::values::AggregateValueEnum<'static>,
) -> inkwell::types::StructType<'static>;

/// The type of an integer: what `IntValue::get_type` returns.
pub uninterp spec fn int_value_type(
    value: inkwell::values::IntValue<'static>,
) -> inkwell::types::IntType<'static>;

/// How many bits an integer has.
pub open spec fn width_of<'ctx>(value: inkwell::values::IntValue<'ctx>) -> nat {
    int_width(int_value_type(value))
}

/// Whether an argument is an integer of 64 bits.
pub open spec fn is_int_argument<'ctx>(
    argument: inkwell::values::BasicMetadataValueEnum<'ctx>,
) -> bool {
    exists|of: inkwell::values::IntValue<'ctx>|
        argument == #[trigger] argument_of(of) && width_of(of) == 64
}

/// Whether the arguments are what a function takes whose parameters are
/// integers of 64 bits: as many as it has parameters, each such an
/// integer.
pub open spec fn accepts<'ctx>(
    function: inkwell::values::FunctionValue<'ctx>,
    args: Seq<inkwell::values::BasicMetadataValueEnum<'ctx>>,
) -> bool {
    &&& takes_integers(declared_type(function))
    &&& args.len() == fn_type_arity(declared_type(function))
    &&& forall|k: int| 0 <= k < args.len() ==> is_int_argument(#[trigger] args[k])
}

/// Whether a type is an integer type.
pub open spec fn is_int_type<'ctx>(ty: inkwell::types::BasicTypeEnum<'ctx>) -> bool {
    exists|of: inkwell::types::IntType<'ctx>| ty == #[trigger] field_type_of(of)
}

/// Whether a type is a struct type.
pub open spec fn is_struct_type<'ctx>(ty: inkwell::types::BasicTypeEnum<'ctx>) -> bool {
    exists|of: inkwell::types::StructType<'ctx>| ty == #[trigger] struct_as_type(of)
}

/// Whether what a function returns is nothing, an integer or a struct.
pub open spec fn plain_return<'ctx>(returned: Option<inkwell::types::BasicTypeEnum<'ctx>>) -> bool {
    returned matches Some(ty) ==> is_int_type(ty) || is_struct_type(ty)
}

/// Whether a parameter type is an integer type of 64 bits.
pub open spec fn is_int_param<'ctx>(ty: inkwell::types::BasicMetadataTypeEnum<'ctx>) -> bool {
    exists|of: inkwell::types::IntType<'ctx>| int_width(of) == 64 && ty == #[trigger] param_type_of(of)
}

/// Whether a type is an integer type of 64 bits.
pub open spec fn is_int_field<'ctx>(ty: inkwell::types::BasicTypeEnum<'ctx>) -> bool {
    exists|of: inkwell::types::IntType<'ctx>| int_width(of) == 64 && ty == #[trigger] field_type_of(of)
}

/// Whether every parameter of a function type is an integer of 64 bits.
pub open spec fn takes_integers<'ctx>(ty: inkwell::types::FunctionType<'ctx>) -> bool {
    &&& fn_type_params(ty).len() == fn_type_arity(ty)
    &&& forall|k: int|
        0 <= k < fn_type_params(ty).len() ==> is_int_field(#[trigger] fn_type_params(ty)[k])
}

/// Whether a struct type has so many fields, each an integer of 64 bits.
pub open spec fn is_int_struct<'ctx>(ty: inkwell::types::StructType<'ctx>, fields: nat) -> bool {
    &&& struct_fields(ty) == fields
    &&& struct_field_types(ty).len() == fields
    &&& forall|k: int| 0 <= k < fields ==> is_int_field(#[trigger] struct_field_types(ty)[k])
}

/// Whether a function that returns `returned` returns so many integers of
/// 64 bits: nothing for none, the integer for one, and for several a
/// struct with a field for each.
pub open spec fn returns_integers<'ctx>(
    returned: Option<inkwell::types::BasicTypeEnum<'ctx>>,
    results: nat,
) -> bool {
    if results == 0 {
        returned is None
    } else if results == 1 {
        returned matches Some(ty) && is_int_field(ty)
    } else {
        exists|of: inkwell::types::StructType<'ctx>|
            returned == Some(#[trigger] struct_as_type(of)) && is_int_struct(of, results)
    }
}

/// Whether a function type is that of a function of so many parameters
/// and results, each an integer of 64 bits.
pub open spec fn is_signature<'ctx>(
    ty: inkwell::types::FunctionType<'ctx>,
    params: nat,
    results: nat,
) -> bool {
    &&& fn_type_arity(ty) == params
    &&& fn_type_params(ty).len() == params
    &&& takes_integers(ty)
    &&& returns_integers(fn_type_return(ty), results)
}

/// `Context::void_type`: the type of a function that returns nothing.
#[verifier::external_body]
fn void_type<'ctx>(context: &'ctx inkwell::context::Context) -> inkwell::types::VoidType<'ctx> {
    context.void_type()
}

/// `Context::i64_type`: the integer type of 64 bits.
#[verifier::external_body]
fn i64_type<'ctx>(context: &'ctx inkwell::context::Context) -> (made: inkwell::types::IntType<'ctx>)
    ensures
        int_width(made) == 64,
{
    context.i64_type()
}

/// `Context::struct_type`: an unpacked struct type of those fields. It has
/// the fields that are handed over, in order, which the outside function
/// counts in 32 bits.
#[verifier::external_body]
fn struct_type<'ctx>(
    context: &'ctx inkwell::context::Context,
    fields: &Vec<inkwell::types::BasicTypeEnum<'ctx>>,
) -> (made: inkwell::types::StructType<'ctx>)
    requires
        fields@.len() <= 0xffff_ffff,
    ensures
        struct_fields(made) == fields@.len(),
        struct_field_types(made) == fields@,
{
    context.struct_type(fields.as_slice(), false)
}

/// `VoidType::fn_type`: the type of a function of those parameters that
/// returns nothing. It has as many parameters as are handed over, which
/// the outside function counts in 32 bits, and where one that is handed
/// over is an integer type of 64 bits, so is the parameter at its place.
#[verifier::external_body]
fn void_fn_type<'ctx>(
    result: inkwell::types::VoidType<'ctx>,
    params: &Vec<inkwell::types::BasicMetadataTypeEnum<'ctx>>,
) -> (made: inkwell::types::FunctionType<'ctx>)
    requires
        params@.len() <= 0xffff_ffff,
    ensures
        fn_type_arity(made) == params@.len(),
        fn_type_params(made).len() == params@.len(),
        forall|k: int|
            0 <= k < params@.len() && is_int_param(params@[k]) ==> is_int_field(
                #[trigger] fn_type_params(made)[k],
            ),
        fn_type_return(made) is None,
{
    result.fn_type(params.as_slice(), false)
}

/// `IntType::fn_type`: the type of a function of those parameters that
/// returns an integer of this type. It has as many parameters as are
/// handed over, which the outside function counts in 32 bits, and where
/// one that is handed over is an integer type of 64 bits, so is the
/// parameter at its place.
#[verifier::external_body]
fn int_fn_type<'ctx>(
    result: inkwell::types::IntType<'ctx>,
    params: &Vec<inkwell::types::BasicMetadataTypeEnum<'ctx>>,
) -> (made: inkwell::types::FunctionType<'ctx>)
    requires
        params@.len() <= 0xffff_ffff,
    ensures
        fn_type_arity(made) == params@.len(),
        fn_type_params(made).len() == params@.len(),
        forall|k: int|
            0 <= k < params@.len() && is_int_param(params@[k]) ==> is_int_field(
                #[trigger] fn_type_params(made)[k],
            ),
        fn_type_return(made) == Some(field_type_of(result)),
{
    result.fn_type(params.as_slice(), false)
}

/// `StructType::fn_type`: the type of a function of those parameters that
/// returns a struct of this type. It has as many parameters as are handed
/// over, which the outside function counts in 32 bits, and where one that
/// is handed over is an integer type of 64 bits, so is the parameter at
/// its place.
#[verifier::external_body]
fn struct_fn_type<'ctx>(
    result: inkwell::types::StructType<'ctx>,
    params: &Vec<inkwell::types::BasicMetadataTypeEnum<'ctx>>,
) -> (made: inkwell::types::FunctionType<'ctx>)
    requires
        params@.len() <= 0xffff_ffff,
    ensures
        fn_type_arity(made) == params@.len(),
        fn_type_params(made).len() == params@.len(),
        forall|k: int|
            0 <= k < params@.len() && is_int_param(params@[k]) ==> is_int_field(
                #[trigger] fn_type_params(made)[k],
            ),
        fn_type_return(made) == Some(struct_as_type(result)),
{
    result.fn_type(params.as_slice(), false)
}

/// The conversion of an integer type into a parameter type: the variant
/// of `BasicMetadataTypeEnum` that holds it.
#[verifier::external_body]
fn int_param_type<'ctx>(ty: inkwell::types::IntType<'ctx>) -> (made:
    inkwell::types::BasicMetadataTypeEnum<'ctx>)
    ensures
        made == param_type_of(ty),
{
    inkwell::types::BasicMetadataTypeEnum::IntType(ty)
}

/// The conversion of an integer type into a field type: the variant of
/// `BasicTypeEnum` that holds it.
#[verifier::external_body]
fn int_field_type<'ctx>(ty: inkwell::types::IntType<'ctx>) -> (made: inkwell::types::BasicTypeEnum<
    'ctx,
>)
    ensures
        made == field_type_of(ty),
{
    inkwell::types::BasicTypeEnum::IntType(ty)
}

/// `StructType::get_undef`: a struct value whose fields are yet to be set.
/// What is handed back is what LLVM made for this type, and is of this
/// type.
#[verifier::external_body]
fn get_undef<'ctx>(ty: inkwell::types::StructType<'ctx>) -> (made:
    inkwell::values::AggregateValueEnum<'ctx>)
    ensures
        undef_of(ty, made),
        aggregate_type(made) == ty,
{
    inkwell::values::AggregateValueEnum::StructValue(ty.get_undef())
}

/// `IntType::const_int`: the constant of that value, not sign-extended.
/// What is handed back is what LLVM made for this type and value, and is
/// of this type.
#[verifier::external_body]
fn const_int<'ctx>(ty: inkwell::types::IntType<'ctx>, value: u64) -> (made: inkwell::values::IntValue<
    'ctx,
>)
    ensures
        const_of(ty, value, made),
        int_value_type(made) == ty,
{
    ty.const_int(value, false)
}

/// `Module::add_function`: a new function of that name and type, with
/// default linkage. What is handed back is the function that the module
/// received for this name and type: it has that type, and as many
/// parameters as the type.
#[verifier::external_body]
fn add_function<'ctx>(
    module: &inkwell::module::Module<'ctx>,
    name: &String,
    ty: inkwell::types::FunctionType<'ctx>,
) -> (made: inkwell::values::FunctionValue<'ctx>)
    ensures
        added_function(*module, name@, ty, made),
        declared_type(made) == ty,
        param_count(made) == fn_type_arity(ty),
{
    module.add_function(name.as_str(), ty, None)
}

/// `FunctionValue::get_nth_param`: the parameter at that position, which
/// is there where the position is below the number of the function's
/// parameters. The position is below `u32::MAX`, which the outside
/// function adds one to, and the function is one whose parameters are all
/// integers of 64 bits: the outside function does not return for a
/// parameter that is not of a basic type. What is handed back is then
/// such an integer.
#[verifier::external_body]
fn get_nth_param<'ctx>(function: inkwell::values::FunctionValue<'ctx>, index: u32) -> (found: Option<
    inkwell::values::BasicValueEnum<'ctx>,
>)
    requires
        index < u32::MAX,
        takes_integers(declared_type(function)),
    ensures
        found is Some <==> index < param_count(function),
        found matches Some(made) ==> param_of(function, index as nat, made) && is_int_field(
            value_type(made),
        ),
{
    function.get_nth_param(index)
}

/// `FunctionValue::verify`: whether LLVM finds the function well formed,
/// as it stands when it is asked. Nothing is printed.
#[verifier::external_body]
fn verify<'ctx>(function: inkwell::values::FunctionValue<'ctx>) -> (valid: bool)
    ensures
        found_valid(function, valid),
{
    function.verify(false)
}

/// `Context::append_basic_block`: a new block at the end of the function.
/// What is handed back is the block that the function received under this
/// name.
#[verifier::external_body]
fn append_basic_block<'ctx>(
    context: &'ctx inkwell::context::Context,
    function: inkwell::values::FunctionValue<'ctx>,
    name: &str,
) -> (made: inkwell::basic_block::BasicBlock<'ctx>)
    ensures
        appended_to(function, name@, made),
{
    context.append_basic_block(function, name)
}

/// `Builder::position_at_end`: the builder stands at the end of that
/// block from now on, and what it builds goes there. The outside function
/// takes the builder by a shared reference and changes it all the same;
/// here it is taken by a unique one, so that the change shows.
#[verifier::external_body]
fn position_at_end<'ctx>(
    builder: &mut inkwell::builder::Builder<'ctx>,
    block: inkwell::basic_block::BasicBlock<'ctx>,
)
    ensures
        insert_block(*final(builder)) == Some(block),
{
    builder.position_at_end(block)
}

/// `Builder::build_int_add`: the sum of `lhs` and `rhs`, in that order. What
/// is handed back is what LLVM built for these operands.
#[verifier::external_body]
fn build_int_add<'ctx>(
    builder: &inkwell::builder::Builder<'ctx>,
    lhs: inkwell::values::IntValue<'ctx>,
    rhs: inkwell::values::IntValue<'ctx>,
) -> (made: inkwell::values::IntValue<'ctx>)
    requires
        width_of(lhs) == width_of(rhs),
    ensures
        built_add(insert_block(*builder), lhs, rhs, made),
        width_of(made) == width_of(lhs),
{
    builder.build_int_add(lhs, rhs, "tmpadd")
}

/// `Builder::build_int_sub`: the difference of `lhs` and `rhs`, in that order. What
/// is handed back is what LLVM built for these operands.
#[verifier::external_body]
fn build_int_sub<'ctx>(
    builder: &inkwell::builder::Builder<'ctx>,
    lhs: inkwell::values::IntValue<'ctx>,
    rhs: inkwell::values::IntValue<'ctx>,
) -> (made: inkwell::values::IntValue<'ctx>)
    requires
        width_of(lhs) == width_of(rhs),
    ensures
        built_sub(insert_block(*builder), lhs, rhs, made),
        width_of(made) == width_of(lhs),
{
    builder.build_int_sub(lhs, rhs, "tmpsub")
}

/// `Builder::build_int_mul`: the product of `lhs` and `rhs`, in that order. What
/// is handed back is what LLVM built for these operands.
#[verifier::external_body]
fn build_int_mul<'ctx>(
    builder: &inkwell::builder::Builder<'ctx>,
    lhs: inkwell::values::IntValue<'ctx>,
    rhs: inkwell::values::IntValue<'ctx>,
) -> (made: inkwell::values::IntValue<'ctx>)
    requires
        width_of(lhs) == width_of(rhs),
    ensures
        built_mul(insert_block(*builder), lhs, rhs, made),
        width_of(made) == width_of(lhs),
{
    builder.build_int_mul(lhs, rhs, "tmpmul")
}

/// `Builder::build_int_unsigned_div`: the unsigned quotient of `lhs` and `rhs`, in that order. What
/// is handed back is what LLVM built for these operands.
#[verifier::external_body]
fn build_int_unsigned_div<'ctx>(
    builder: &inkwell::builder::Builder<'ctx>,
    lhs: inkwell::values::IntValue<'ctx>,
    rhs: inkwell::values::IntValue<'ctx>,
) -> (made: inkwell::values::IntValue<'ctx>)
    requires
        width_of(lhs) == width_of(rhs),
    ensures
        built_unsigned_div(insert_block(*builder), lhs, rhs, made),
        width_of(made) == width_of(lhs),
{
    builder.build_int_unsigned_div(lhs, rhs, "tmpdiv")
}

/// `Builder::build_int_unsigned_rem`: the unsigned remainder of `lhs` and `rhs`, in that order. What
/// is handed back is what LLVM built for these operands.
#[verifier::external_body]
fn build_int_unsigned_rem<'ctx>(
    builder: &inkwell::builder::Builder<'ctx>,
    lhs: inkwell::values::IntValue<'ctx>,
    rhs: inkwell::values::IntValue<'ctx>,
) -> (made: inkwell::values::IntValue<'ctx>)
    requires
        width_of(lhs) == width_of(rhs),
    ensures
        built_unsigned_rem(insert_block(*builder), lhs, rhs, made),
        width_of(made) == width_of(lhs),
{
    builder.build_int_unsigned_rem(lhs, rhs, "tmpmod")
}

/// `Builder::build_int_signed_div`: the signed quotient of `lhs` and `rhs`, in that order. What
/// is handed back is what LLVM built for these operands.
#[verifier::external_body]
fn build_int_signed_div<'ctx>(
    builder: &inkwell::builder::Builder<'ctx>,
    lhs: inkwell::values::IntValue<'ctx>,
    rhs: inkwell::values::IntValue<'ctx>,
) -> (made: inkwell::values::IntValue<'ctx>)
    requires
        width_of(lhs) == width_of(rhs),
    ensures
        built_signed_div(insert_block(*builder), lhs, rhs, made),
        width_of(made) == width_of(lhs),
{
    builder.build_int_signed_div(lhs, rhs, "tmpidiv")
}

/// `Builder::build_int_signed_rem`: the signed remainder of `lhs` and `rhs`, in that order. What
/// is handed back is what LLVM built for these operands.
#[verifier::external_body]
fn build_int_signed_rem<'ctx>(
    builder: &inkwell::builder::Builder<'ctx>,
    lhs: inkwell::values::IntValue<'ctx>,
    rhs: inkwell::values::IntValue<'ctx>,
) -> (made: inkwell::values::IntValue<'ctx>)
    requires
        width_of(lhs) == width_of(rhs),
    ensures
        built_signed_rem(insert_block(*builder), lhs, rhs, made),
        width_of(made) == width_of(lhs),
{
    builder.build_int_signed_rem(lhs, rhs, "tmpimod")
}

/// `Builder::build_int_compare` with the predicate `EQ`: an `i1` that
/// tells whether the operands are equal.
#[verifier::external_body]
fn build_int_equal<'ctx>(
    builder: &inkwell::builder::Builder<'ctx>,
    lhs: inkwell::values::IntValue<'ctx>,
    rhs: inkwell::values::IntValue<'ctx>,
) -> (made: inkwell::values::IntValue<'ctx>)
    requires
        width_of(lhs) == width_of(rhs),
    ensures
        built_compare(insert_block(*builder), true, lhs, rhs, made),
        width_of(made) == 1,
{
    builder.build_int_compare(inkwell::IntPredicate::EQ, lhs, rhs, "tmpeq")
}

/// `Builder::build_int_compare` with the predicate `NE`: an `i1` that
/// tells whether the operands differ.
#[verifier::external_body]
fn build_int_differ<'ctx>(
    builder: &inkwell::builder::Builder<'ctx>,
    lhs: inkwell::values::IntValue<'ctx>,
    rhs: inkwell::values::IntValue<'ctx>,
) -> (made: inkwell::values::IntValue<'ctx>)
    requires
        width_of(lhs) == width_of(rhs),
    ensures
        built_compare(insert_block(*builder), false, lhs, rhs, made),
        width_of(made) == 1,
{
    builder.build_int_compare(inkwell::IntPredicate::NE, lhs, rhs, "tmpne")
}

/// `Builder::build_int_z_extend`: the value widened to that type, with
/// zeros in front. The type has more bits than the value, and what is
/// handed back is of that type.
#[verifier::external_body]
fn build_int_z_extend<'ctx>(
    builder: &inkwell::builder::Builder<'ctx>,
    value: inkwell::values::IntValue<'ctx>,
    ty: inkwell::types::IntType<'ctx>,
) -> (made: inkwell::values::IntValue<'ctx>)
    requires
        width_of(value) < int_width(ty),
    ensures
        built_z_extend(insert_block(*builder), value, ty, made),
        int_value_type(made) == ty,
{
    builder.build_int_z_extend(value, ty, "tmpext")
}

/// The conversion of an integer value into an argument of a call: the
/// variant of `BasicMetadataValueEnum` that holds it.
#[verifier::external_body]
fn int_argument<'ctx>(value: inkwell::values::IntValue<'ctx>) -> (made:
    inkwell::values::BasicMetadataValueEnum<'ctx>)
    ensures
        made == argument_of(value),
{
    inkwell::values::BasicMetadataValueEnum::IntValue(value)
}

/// `Builder::build_call`: a call of that function on those arguments,
/// which are what the function takes. What is handed back is what LLVM
/// built for this function and these arguments: a call of this function.
#[verifier::external_body]
fn build_call<'ctx>(
    builder: &inkwell::builder::Builder<'ctx>,
    function: inkwell::values::FunctionValue<'ctx>,
    args: &Vec<inkwell::values::BasicMetadataValueEnum<'ctx>>,
) -> (made: inkwell::values::CallSiteValue<'ctx>)
    requires
        accepts(function, args@),
    ensures
        built_call(insert_block(*builder), function, args@, made),
        called(made) == function,
{
    builder.build_call(function, args.as_slice(), "")
}

/// `CallSiteValue::try_as_basic_value`, then `Either::left`: what the call
/// returns, which is there for every call but that of a function that
/// returns nothing, and has the type that the function returns. The call
/// is of a function that returns nothing, an integer or a struct: the
/// outside function does not return for a call that returns a value that
/// is not of a basic type.
#[verifier::external_body]
fn call_result<'ctx>(site: inkwell::values::CallSiteValue<'ctx>) -> (found: Option<
    inkwell::values::BasicValueEnum<'ctx>,
>)
    requires
        plain_return(fn_type_return(declared_type(called(site)))),
    ensures
        found is Some <==> fn_type_return(declared_type(called(site))) is Some,
        found matches Some(made) ==> returned_by(site, made) && fn_type_return(
            declared_type(called(site)),
        ) == Some(value_type(made)),
{
    site.try_as_basic_value().left()
}

/// The integer in a value, where it is one, as it is where its type is an
/// integer type, which is then the type of the integer.
#[verifier::external_body]
fn as_int_value<'ctx>(value: inkwell::values::BasicValueEnum<'ctx>) -> (found: Option<
    inkwell::values::IntValue<'ctx>,
>)
    ensures
        found == int_in(value),
        forall|of: inkwell::types::IntType<'ctx>|
            value_type(value) == #[trigger] field_type_of(of) ==> found is Some && int_value_type(
                found.unwrap(),
            ) == of,
{
    match value {
        inkwell::values::BasicValueEnum::IntValue(v) => Some(v),
        inkwell::values::BasicValueEnum::ArrayValue(_) => None,
        inkwell::values::BasicValueEnum::FloatValue(_) => None,
        inkwell::values::BasicValueEnum::PointerValue(_) => None,
        inkwell::values::BasicValueEnum::StructValue(_) => None,
        inkwell::values::BasicValueEnum::VectorValue(_) => None,
    }
}

/// The struct in a value, where it is one, as it is where its type is a
/// struct type, which is then the type of the struct.
#[verifier::external_body]
fn as_struct_value<'ctx>(value: inkwell::values::BasicValueEnum<'ctx>) -> (found: Option<
    inkwell::values::StructValue<'ctx>,
>)
    ensures
        found == struct_in(value),
        forall|of: inkwell::types::StructType<'ctx>|
            value_type(value) == #[trigger] struct_as_type(of) ==> found is Some
                && struct_value_type(found.unwrap()) == of,
{
    match value {
        inkwell::values::BasicValueEnum::StructValue(v) => Some(v),
        inkwell::values::BasicValueEnum::ArrayValue(_) => None,
        inkwell::values::BasicValueEnum::FloatValue(_) => None,
        inkwell::values::BasicValueEnum::IntValue(_) => None,
        inkwell::values::BasicValueEnum::PointerValue(_) => None,
        inkwell::values::BasicValueEnum::VectorValue(_) => None,
    }
}

/// `Builder::build_extract_value`: the field at that position, which is
/// there where the position is below the number of fields of the struct's
/// type, and has the type of the field at that position.
#[verifier::external_body]
fn build_extract_value<'ctx>(
    builder: &inkwell::builder::Builder<'ctx>,
    aggregate: inkwell::values::StructValue<'ctx>,
    index: u32,
) -> (found: Option<inkwell::values::BasicValueEnum<'ctx>>)
    ensures
        found is Some <==> index < struct_fields(struct_value_type(aggregate)),
        found matches Some(made) ==> built_extract(
            insert_block(*builder),
            aggregate,
            index as nat,
            made,
        ) && (index < struct_field_types(struct_value_type(aggregate)).len() ==> value_type(made)
            == struct_field_types(struct_value_type(aggregate))[index as int]),
{
    builder.build_extract_value(aggregate, index, "")
}

/// `Builder::build_insert_value`: the aggregate with the field at that
/// position set, which is there where the position is below the number of
/// the aggregate's fields, and is of the aggregate's type. The aggregate
/// is a struct whose fields are integers of 64 bits, and so is the value.
#[verifier::external_body]
fn build_insert_value<'ctx>(
    builder: &inkwell::builder::Builder<'ctx>,
    aggregate: inkwell::values::AggregateValueEnum<'ctx>,
    value: inkwell::values::IntValue<'ctx>,
    index: u32,
) -> (found: Option<inkwell::values::AggregateValueEnum<'ctx>>)
    requires
        is_int_struct(aggregate_type(aggregate), struct_fields(aggregate_type(aggregate))),
        width_of(value) == 64,
    ensures
        found is Some <==> index < struct_fields(aggregate_type(aggregate)),
        found matches Some(made) ==> built_insert(
            insert_block(*builder),
            aggregate,
            value,
            index as nat,
            made,
        ) && aggregate_type(made) == aggregate_type(aggregate),
{
    builder.build_insert_value(aggregate, value, index, "")
}

/// `Builder::build_return` without a value. What is handed back is the
/// return that LLVM built.
#[verifier::external_body]
fn build_return_void<'ctx>(builder: &inkwell::builder::Builder<'ctx>) -> (made:
    inkwell::values::InstructionValue<'ctx>)
    ensures
        built_return_void(insert_block(*builder), made),
{
    builder.build_return(None)
}

/// `Builder::build_return` with an integer. What is handed back is the
/// return that LLVM built for this value.
#[verifier::external_body]
fn build_return_int<'ctx>(
    builder: &inkwell::builder::Builder<'ctx>,
    value: inkwell::values::IntValue<'ctx>,
) -> (made: inkwell::values::InstructionValue<'ctx>)
    ensures
        built_return_int(insert_block(*builder), value, made),
{
    builder.build_return(Some(&value))
}

/// `Builder::build_return` with an aggregate. What is handed back is the
/// return that LLVM built for this value.
#[verifier::external_body]
fn build_return_aggregate<'ctx>(
    builder: &inkwell::builder::Builder<'ctx>,
    value: inkwell::values::AggregateValueEnum<'ctx>,
) -> (made: inkwell::values::InstructionValue<'ctx>)
    ensures
        built_return_aggregate(insert_block(*builder), value, made),
{
    builder.build_return(Some(&value))
}

/// `Builder::build_unconditional_branch`. What is handed back is the jump
/// that LLVM built to this block.
#[verifier::external_body]
fn build_unconditional_branch<'ctx>(
    builder: &inkwell::builder::Builder<'ctx>,
    target: inkwell::basic_block::BasicBlock<'ctx>,
) -> (made: inkwell::values::InstructionValue<'ctx>)
    ensures
        built_jump(insert_block(*builder), target, made),
{
    builder.build_unconditional_branch(target)
}

/// `Builder::build_conditional_branch`. The condition is one bit. What is
/// handed back is the branch that LLVM built on this condition to these
/// blocks.
#[verifier::external_body]
fn build_conditional_branch<'ctx>(
    builder: &inkwell::builder::Builder<'ctx>,
    condition: inkwell::values::IntValue<'ctx>,
    then_block: inkwell::basic_block::BasicBlock<'ctx>,
    else_block: inkwell::basic_block::BasicBlock<'ctx>,
) -> (made: inkwell::values::InstructionValue<'ctx>)
    requires
        width_of(condition) == 1,
    ensures
        built_branch(insert_block(*builder), condition, then_block, else_block, made),
{
    builder.build_conditional_branch(condition, then_block, else_block)
}

/// Why a module could not be emitted.
#[derive(Debug, Clone, Copy, PartialEq, Eq, Structural)]
pub enum EmitError {
    /// The module is not well formed. Nothing was emitted.
    IllFormed,
    /// A function has more parameters or results than fit in 32 bits.
    /// Nothing was emitted.
    TooLarge,
    /// While this function was emitted, LLVM did not hand back what the
    /// module's types call for. [`emit`] does not fail so: the failure is
    /// there for a library that does not keep to its own typing rules, in
    /// place of a panic.
    Unexpected { function: usize },
    /// LLVM found this function malformed.
    Rejected { function: usize },
}

/// The parameter types that stand for a list of types: an integer type of
/// 64 bits for each.
fn convert_types<'ctx>(context: &'ctx inkwell::context::Context, types: &Vec<Type>) -> (converted:
    Vec<inkwell::types::BasicMetadataTypeEnum<'ctx>>)
    ensures
        converted@.len() == types@.len(),
        forall|k: int| 0 <= k < converted@.len() ==> is_int_param(#[trigger] converted@[k]),
{
    let mut converted: Vec<inkwell::types::BasicMetadataTypeEnum<'ctx>> = Vec::new();
    let mut i: usize = 0;
    while i < types.len()
        invariant
            i <= types@.len(),
            converted@.len() == i,
            forall|k: int| 0 <= k < converted@.len() ==> is_int_param(#[trigger] converted@[k]),
        decreases types@.len() - i,
    {
        match types[i] {
            Type::Int => converted.push(int_param_type(i64_type(context))),
        }
        i += 1;
    }
    converted
}

/// The field types that stand for a list of types: an integer type of 64
/// bits for each.
fn convert_fields<'ctx>(context: &'ctx inkwell::context::Context, types: &Vec<Type>) -> (converted:
    Vec<inkwell::types::BasicTypeEnum<'ctx>>)
    ensures
        converted@.len() == types@.len(),
        forall|k: int| 0 <= k < converted@.len() ==> is_int_field(#[trigger] converted@[k]),
{
    let mut converted: Vec<inkwell::types::BasicTypeEnum<'ctx>> = Vec::new();
    let mut i: usize = 0;
    while i < types.len()
        invariant
            i <= types@.len(),
            converted@.len() == i,
            forall|k: int| 0 <= k < converted@.len() ==> is_int_field(#[trigger] converted@[k]),
        decreases types@.len() - i,
    {
        match types[i] {
            Type::Int => converted.push(int_field_type(i64_type(context))),
        }
        i += 1;
    }
    converted
}

/// The type of a function of those inputs that returns one value: it has
/// an integer of 64 bits as parameter for each input and returns one.
fn type_to_fn_type<'ctx>(
    context: &'ctx inkwell::context::Context,
    in_types: &Vec<Type>,
    out_type: &Type,
) -> (made: inkwell::types::FunctionType<'ctx>)
    requires
        in_types@.len() <= 0xffff_ffff,
    ensures
        is_signature(made, in_types@.len(), 1),
{
    match out_type {
        Type::Int => int_fn_type(i64_type(context), &convert_types(context, in_types)),
    }
}

/// The type of a function of those inputs and outputs: it has an integer
/// of 64 bits as parameter for each input, and it returns nothing where
/// there is no output, such an integer where there is one, and a struct
/// with such a field for each where there are several.
fn types_to_fn_type<'ctx>(
    context: &'ctx inkwell::context::Context,
    in_types: &Vec<Type>,
    out_types: &Vec<Type>,
) -> (made: inkwell::types::FunctionType<'ctx>)
    requires
        in_types@.len() <= 0xffff_ffff,
        out_types@.len() <= 0xffff_ffff,
    ensures
        is_signature(made, in_types@.len(), out_types@.len()),
{
    if out_types.len() == 0 {
        void_fn_type(void_type(context), &convert_types(context, in_types))
    } else if out_types.len() == 1 {
        type_to_fn_type(context, in_types, &out_types[0])
    } else {
        let fields = convert_fields(context, out_types);
        struct_fn_type(struct_type(context, &fields), &convert_types(context, in_types))
    }
}

/// Whether `made` is what LLVM built for a two-operand instruction on the
/// left operand `lhs` and the right operand `rhs`: for each operation what
/// the builder's function for it handed back, and for a comparison what
/// the builder handed back for the comparison for equality, widened to 64
/// bits.
pub open spec fn built_as(
    at: Option<inkwell::basic_block::BasicBlock<'static>>,
    op: BinOp,
    lhs: inkwell::values::IntValue<'static>,
    rhs: inkwell::values::IntValue<'static>,
    made: inkwell::values::IntValue<'static>,
) -> bool {
    match op {
        BinOp::Add => built_add(at, lhs, rhs, made),
        BinOp::Sub => built_sub(at, lhs, rhs, made),
        BinOp::Mul => built_mul(at, lhs, rhs, made),
        BinOp::UDiv => built_unsigned_div(at, lhs, rhs, made),
        BinOp::URem => built_unsigned_rem(at, lhs, rhs, made),
        BinOp::SDiv => built_signed_div(at, lhs, rhs, made),
        BinOp::SRem => built_signed_rem(at, lhs, rhs, made),
        BinOp::Eq => exists|
            bit: inkwell::values::IntValue<'static>,
            ty: inkwell::types::IntType<'static>,
        |
            #![trigger built_z_extend(at, bit, ty, made)]
            built_compare(at, true, lhs, rhs, bit) && int_width(ty) == 64 && built_z_extend(
                at,
                bit,
                ty,
                made,
            ),
    }
}

/// The LLVM value that was handed out for a result of an instruction: it
/// is in `rows` for an instruction of the block that is being emitted and
/// in `done` for one of a block that was emitted before.
pub open spec fn result_value<'ctx>(
    done: Seq<Vec<Vec<inkwell::values::IntValue<'ctx>>>>,
    rows: Seq<Vec<inkwell::values::IntValue<'ctx>>>,
    block: int,
    inst: int,
    slot: int,
) -> inkwell::values::IntValue<'ctx> {
    if block < done.len() {
        done[block]@[inst]@[slot]
    } else {
        rows[inst]@[slot]
    }
}

/// Whether `made` is the LLVM value of an operand in a function: for a
/// constant, a constant of 64 bits of its value; for a parameter, the
/// integer that LLVM handed back for the function's parameter at its
/// position; for a result, the value that was handed out for it.
pub open spec fn operand_built<'ctx>(
    function: inkwell::values::FunctionValue<'ctx>,
    done: Seq<Vec<Vec<inkwell::values::IntValue<'ctx>>>>,
    rows: Seq<Vec<inkwell::values::IntValue<'ctx>>>,
    value: Value,
    made: inkwell::values::IntValue<'ctx>,
) -> bool {
    match value {
        Value::Const(n) => exists|ty: inkwell::types::IntType<'ctx>|
            int_width(ty) == 64 && #[trigger] const_of(ty, n, made),
        Value::Param(k) => exists|param: inkwell::values::BasicValueEnum<'ctx>| #[trigger]
            param_of(function, k as nat, param) && int_in(param) == Some(made),
        Value::Reg { block, inst, slot } => made == result_value(
            done,
            rows,
            block as int,
            inst as int,
            slot as int,
        ),
    }
}

/// Whether `made` holds the LLVM values of the operands, in order.
pub open spec fn operands_built<'ctx>(
    function: inkwell::values::FunctionValue<'ctx>,
    done: Seq<Vec<Vec<inkwell::values::IntValue<'ctx>>>>,
    rows: Seq<Vec<inkwell::values::IntValue<'ctx>>>,
    values: Seq<Value>,
    made: Seq<inkwell::values::IntValue<'ctx>>,
) -> bool {
    made.len() == values.len() && forall|k: int|
        0 <= k < values.len() ==> operand_built(function, done, rows, values[k], #[trigger] made[k])
}

/// Whether `made` is what LLVM built for a two-operand instruction: what
/// [`built_as`] says, on the LLVM values of the two operands.
pub open spec fn binary_built<'ctx>(
    at: Option<inkwell::basic_block::BasicBlock<'ctx>>,
    function: inkwell::values::FunctionValue<'ctx>,
    done: Seq<Vec<Vec<inkwell::values::IntValue<'ctx>>>>,
    rows: Seq<Vec<inkwell::values::IntValue<'ctx>>>,
    op: BinOp,
    lhs: Value,
    rhs: Value,
    made: inkwell::values::IntValue<'ctx>,
) -> bool {
    exists|x: inkwell::values::IntValue<'ctx>, y: inkwell::values::IntValue<'ctx>|
        operand_built(function, done, rows, lhs, x) && operand_built(function, done, rows, rhs, y)
            && #[trigger] built_as(at, op, x, y, made)
}

/// The integers as arguments of a call, in order.
pub open spec fn arguments_of<'ctx>(operands: Seq<inkwell::values::IntValue<'ctx>>) -> Seq<
    inkwell::values::BasicMetadataValueEnum<'ctx>,
> {
    Seq::new(operands.len(), |k: int| argument_of(operands[k]))
}

/// Whether `made` is the integer that LLVM built as the field at position
/// `k` of a struct.
pub open spec fn field_built<'ctx>(
    at: Option<inkwell::basic_block::BasicBlock<'ctx>>,
    whole: inkwell::values::StructValue<'ctx>,
    k: nat,
    made: inkwell::values::IntValue<'ctx>,
) -> bool {
    exists|field: inkwell::values::BasicValueEnum<'ctx>| #[trigger]
        built_extract(at, whole, k, field) && int_in(field) == Some(made)
}

/// Whether `results` are the results of a call, taken apart: none for a
/// call without results, the integer that the call returns for one, and
/// for several the fields of the struct that the call returns, in order.
pub open spec fn unpacked<'ctx>(
    at: Option<inkwell::basic_block::BasicBlock<'ctx>>,
    site: inkwell::values::CallSiteValue<'ctx>,
    results: Seq<inkwell::values::IntValue<'ctx>>,
) -> bool {
    if results.len() == 0 {
        true
    } else if results.len() == 1 {
        exists|returned: inkwell::values::BasicValueEnum<'ctx>| #[trigger]
            returned_by(site, returned) && int_in(returned) == Some(results[0])
    } else {
        exists|returned: inkwell::values::BasicValueEnum<'ctx>| #[trigger]
            returned_by(site, returned) && struct_in(returned) is Some && forall|k: int|
                0 <= k < results.len() ==> field_built(
                    at,
                    struct_in(returned).unwrap(),
                    k as nat,
                    #[trigger] results[k],
                )
    }
}

/// Whether `results` are the results of a call that LLVM built: a call of
/// `callee` on the LLVM values of the arguments, in order, with what it
/// returns taken apart.
pub open spec fn call_built<'ctx>(
    at: Option<inkwell::basic_block::BasicBlock<'ctx>>,
    callee: inkwell::values::FunctionValue<'ctx>,
    function: inkwell::values::FunctionValue<'ctx>,
    done: Seq<Vec<Vec<inkwell::values::IntValue<'ctx>>>>,
    rows: Seq<Vec<inkwell::values::IntValue<'ctx>>>,
    args: Seq<Value>,
    results: Seq<inkwell::values::IntValue<'ctx>>,
) -> bool {
    exists|
        operands: Seq<inkwell::values::IntValue<'ctx>>,
        site: inkwell::values::CallSiteValue<'ctx>,
    |
        operands_built(function, done, rows, args, operands) && #[trigger] built_call(
            at,
            callee,
            arguments_of(operands),
            site,
        ) && unpacked(at, site, results)
}

/// Whether `results` are what LLVM built for an instruction: one value for
/// a two-operand instruction, and the results of the call for a call of
/// one of the functions `callees`.
pub open spec fn inst_built<'ctx>(
    at: Option<inkwell::basic_block::BasicBlock<'ctx>>,
    callees: Seq<inkwell::values::FunctionValue<'ctx>>,
    function: inkwell::values::FunctionValue<'ctx>,
    done: Seq<Vec<Vec<inkwell::values::IntValue<'ctx>>>>,
    rows: Seq<Vec<inkwell::values::IntValue<'ctx>>>,
    inst: InstView,
    results: Seq<inkwell::values::IntValue<'ctx>>,
) -> bool {
    match inst {
        InstView::Binary { op, lhs, rhs } => results.len() == 1 && binary_built(
            at,
            function,
            done,
            rows,
            op,
            lhs,
            rhs,
            results[0],
        ),
        InstView::Call { callee, args } => call_built(
            at,
            callees[callee],
            function,
            done,
            rows,
            args,
            results,
        ),
    }
}

/// Whether `made` is a struct that holds the first `upto` of the values
/// in its first fields: a struct without contents, of a type of as many
/// fields as there are values, into which LLVM put them one by one, each
/// at its position.
pub open spec fn packed<'ctx>(
    at: Option<inkwell::basic_block::BasicBlock<'ctx>>,
    values: Seq<inkwell::values::IntValue<'ctx>>,
    upto: nat,
    made: inkwell::values::AggregateValueEnum<'ctx>,
) -> bool
    decreases upto,
{
    if upto == 0 {
        exists|ty: inkwell::types::StructType<'ctx>|
            struct_fields(ty) == values.len() && #[trigger] undef_of(ty, made)
    } else {
        exists|before: inkwell::values::AggregateValueEnum<'ctx>|
            packed(at, values, (upto - 1) as nat, before) && #[trigger] built_insert(
                at,
                before,
                values[upto - 1],
                (upto - 1) as nat,
                made,
            )
    }
}

/// Whether `end` is the return that LLVM built for the values: of nothing
/// for none, of the value for one, and for several of a struct that holds
/// them in order.
pub open spec fn return_built<'ctx>(
    at: Option<inkwell::basic_block::BasicBlock<'ctx>>,
    values: Seq<inkwell::values::IntValue<'ctx>>,
    end: inkwell::values::InstructionValue<'ctx>,
) -> bool {
    if values.len() == 0 {
        built_return_void(at, end)
    } else if values.len() == 1 {
        built_return_int(at, values[0], end)
    } else {
        exists|whole: inkwell::values::AggregateValueEnum<'ctx>|
            packed(at, values, values.len(), whole) && #[trigger] built_return_aggregate(at, whole, end)
    }
}

/// Whether `end` is what LLVM built for the end of a block: a return of
/// the LLVM values of the operands; a jump to the block that is named; or
/// a branch to the two blocks that are named, on whether the LLVM value of
/// the condition differs from a zero of 64 bits.
pub open spec fn end_built<'ctx>(
    at: Option<inkwell::basic_block::BasicBlock<'ctx>>,
    function: inkwell::values::FunctionValue<'ctx>,
    blocks: Seq<inkwell::basic_block::BasicBlock<'ctx>>,
    done: Seq<Vec<Vec<inkwell::values::IntValue<'ctx>>>>,
    rows: Seq<Vec<inkwell::values::IntValue<'ctx>>>,
    term: TermView,
    end: inkwell::values::InstructionValue<'ctx>,
) -> bool {
    match term {
        TermView::Open => false,
        TermView::Return(values) => exists|operands: Seq<inkwell::values::IntValue<'ctx>>|
            operands_built(function, done, rows, values, operands) && #[trigger] return_built(
                at,
                operands,
                end,
            ),
        TermView::Jump(target) => built_jump(at, blocks[target], end),
        TermView::Branch { cond, then_block, else_block } => exists|
            value: inkwell::values::IntValue<'ctx>,
            zero: inkwell::values::IntValue<'ctx>,
            ty: inkwell::types::IntType<'ctx>,
            bit: inkwell::values::IntValue<'ctx>,
        |
            #![trigger built_compare(at, false, value, zero, bit), const_of(ty, 0, zero)]
            operand_built(function, done, rows, cond, value) && int_width(ty) == 64 && const_of(
                ty,
                0,
                zero,
            ) && built_compare(at, false, value, zero, bit) && built_branch(
                at,
                bit,
                blocks[then_block],
                blocks[else_block],
                end,
            ),
    }
}

/// Whether `rows` and `end` are what LLVM built for a block while the
/// builder stood at the end of `at`: for each instruction its results,
/// each an integer of 64 bits, built on the results of the instructions
/// before it, and the end of the block.
pub open spec fn block_built<'ctx>(
    callees: Seq<inkwell::values::FunctionValue<'ctx>>,
    function: inkwell::values::FunctionValue<'ctx>,
    blocks: Seq<inkwell::basic_block::BasicBlock<'ctx>>,
    at: inkwell::basic_block::BasicBlock<'ctx>,
    done: Seq<Vec<Vec<inkwell::values::IntValue<'ctx>>>>,
    block: BlockView,
    rows: Seq<Vec<inkwell::values::IntValue<'ctx>>>,
    end: inkwell::values::InstructionValue<'ctx>,
) -> bool {
    &&& rows.len() == block.insts.len()
    &&& forall|i: int|
        0 <= i < block.insts.len() ==> inst_built(
            Some(at),
            callees,
            function,
            done,
            rows.take(i),
            block.insts[i],
            (#[trigger] rows[i])@,
        )
    &&& forall|i: int, k: int|
        0 <= i < rows.len() && 0 <= k < rows[i]@.len() ==> width_of(#[trigger] rows[i]@[k]) == 64
    &&& end_built(Some(at), function, blocks, done, rows, block.term, end)
}

/// What is needed to emit the instructions of one function.
struct Frame<'a, 'ctx> {
    context: &'ctx inkwell::context::Context,
    /// The functions emitted so far, by index.
    functions: &'a Vec<inkwell::values::FunctionValue<'ctx>>,
    /// The function that is being emitted, and its index.
    function: inkwell::values::FunctionValue<'ctx>,
    index: usize,
    /// Its blocks, by index.
    blocks: Vec<inkwell::basic_block::BasicBlock<'ctx>>,
    /// The results of the instructions of the blocks emitted so far.
    done: Vec<Vec<Vec<inkwell::values::IntValue<'ctx>>>>,
    /// The ends of the blocks emitted so far.
    ends: Vec<inkwell::values::InstructionValue<'ctx>>,
}

/// The rows hold the results of the first instructions of the block, as
/// many for each as it has results, each an integer of 64 bits.
spec fn rows_fit<'ctx>(
    program: Seq<FunctionView>,
    f: int,
    block: int,
    rows: Seq<Vec<inkwell::values::IntValue<'ctx>>>,
) -> bool {
    &&& rows.len() <= program[f].blocks[block].insts.len()
    &&& forall|i: int|
        0 <= i < rows.len() ==> (#[trigger] rows[i])@.len() == result_count(
            program,
            program[f].blocks[block].insts[i],
        )
    &&& forall|i: int, k: int|
        0 <= i < rows.len() && 0 <= k < rows[i]@.len() ==> width_of(#[trigger] rows[i]@[k]) == 64
}

impl<'a, 'ctx> Frame<'a, 'ctx> {
    /// The frame belongs to a function of the program, of which some
    /// blocks have been emitted.
    spec fn fits(&self, program: Seq<FunctionView>) -> bool {
        &&& self.index < program.len()
        &&& self.functions@.len() == self.index
        &&& typed(self.function, program[self.index as int])
        &&& forall|k: int| 0 <= k < self.index ==> typed(#[trigger] self.functions@[k], program[k])
        &&& self.blocks@.len() == program[self.index as int].blocks.len()
        &&& self.done@.len() <= program[self.index as int].blocks.len()
        &&& forall|b: int|
            0 <= b < self.done@.len() ==> (#[trigger] self.done@[b])@.len()
                == program[self.index as int].blocks[b].insts.len() && rows_fit(
                program,
                self.index as int,
                b,
                self.done@[b]@,
            )
    }

    /// A failure that LLVM decided while this function is emitted.
    fn unexpected(&self) -> (error: EmitError)
        ensures
            error == (EmitError::Unexpected { function: self.index }),
    {
        EmitError::Unexpected { function: self.index }
    }

    /// What LLVM handed back, where it handed something back, and the
    /// failure that it decided, where it handed back nothing.
    fn expect<T>(&self, found: Option<T>) -> (settled: Result<T, EmitError>)
        ensures
            settled == (match found {
                Some(v) => Ok::<T, EmitError>(v),
                None => Err::<T, EmitError>(EmitError::Unexpected { function: self.index }),
            }),
    {
        match found {
            Some(v) => Ok(v),
            None => Err(self.unexpected()),
        }
    }

    /// The LLVM value of an operand: for a result, the value that LLVM
    /// handed out when the instruction was built, which is in `rows` for an
    /// instruction of the block that is being emitted and in the table of
    /// the blocks that are done for any other; for a constant, the constant
    /// that LLVM makes of it; for a parameter, what LLVM hands back for it,
    /// where that is an integer.
    fn operand(
        &self,
        program: &TargetModule,
        value: Value,
        rows: &Vec<Vec<inkwell::values::IntValue<'ctx>>>,
    ) -> (found: Result<inkwell::values::IntValue<'ctx>, EmitError>)
        requires
            self.fits(program@),
            self.done@.len() < program@[self.index as int].blocks.len(),
            rows_fit(program@, self.index as int, self.done@.len() as int, rows@),
            program@[self.index as int].params.len() <= 0xffff_ffff,
            value_ok(
                program@,
                program@[self.index as int],
                self.done@.len() as int,
                rows@.len() as int,
                value,
            ),
        ensures
            found matches Ok(made) && operand_built(self.function, self.done@, rows@, value, made)
                && width_of(made) == 64,
    {
        match value {
            Value::Const(n) => Ok(const_int(i64_type(self.context), n)),
            Value::Param(i) => {
                let param = self.expect(get_nth_param(self.function, i as u32))?;
                self.expect(as_int_value(param))
            },
            Value::Reg { block, inst, slot } => {
                if block < self.done.len() {
                    assert(rows_fit(program@, self.index as int, block as int, self.done@[block as int]@));
                    assert(self.done@[block as int]@[inst as int]@.len() == result_count(
                        program@,
                        program@[self.index as int].blocks[block as int].insts[inst as int],
                    ));
                    Ok(self.done[block][inst][slot])
                } else {
                    assert(rows@[inst as int]@.len() == result_count(
                        program@,
                        program@[self.index as int].blocks[block as int].insts[inst as int],
                    ));
                    Ok(rows[inst][slot])
                }
            },
        }
    }

    /// The LLVM values of operands, in order. It fails only where LLVM hands
    /// back no integer for a parameter.
    fn operands(
        &self,
        program: &TargetModule,
        values: &Vec<Value>,
        rows: &Vec<Vec<inkwell::values::IntValue<'ctx>>>,
    ) -> (found: Result<Vec<inkwell::values::IntValue<'ctx>>, EmitError>)
        requires
            self.fits(program@),
            self.done@.len() < program@[self.index as int].blocks.len(),
            rows_fit(program@, self.index as int, self.done@.len() as int, rows@),
            program@[self.index as int].params.len() <= 0xffff_ffff,
            values_ok(
                program@,
                program@[self.index as int],
                self.done@.len() as int,
                rows@.len() as int,
                values@,
            ),
        ensures
            found matches Ok(made) && operands_built(
                self.function,
                self.done@,
                rows@,
                values@,
                made@,
            ) && forall|k: int| 0 <= k < made@.len() ==> width_of(#[trigger] made@[k]) == 64,
    {
        let mut made: Vec<inkwell::values::IntValue<'ctx>> = Vec::new();
        let mut i: usize = 0;
        while i < values.len()
            invariant
                i <= values@.len(),
                self.fits(program@),
                self.done@.len() < program@[self.index as int].blocks.len(),
                rows_fit(program@, self.index as int, self.done@.len() as int, rows@),
                program@[self.index as int].params.len() <= 0xffff_ffff,
                values_ok(
                    program@,
                    program@[self.index as int],
                    self.done@.len() as int,
                    rows@.len() as int,
                    values@,
                ),
                operands_built(self.function, self.done@, rows@, values@.take(i as int), made@),
                forall|k: int| 0 <= k < made@.len() ==> width_of(#[trigger] made@[k]) == 64,
            decreases values@.len() - i,
        {
            let v = self.operand(program, values[i], rows)?;
            made.push(v);
            assert(values@.take(i + 1)[i as int] == values@[i as int]);
            i += 1;
        }
        assert(values@.take(i as int) =~= values@);
        Ok(made)
    }

    /// Emits a two-operand instruction: for each operation the one that
    /// LLVM has for it, on the left operand and the right operand in that
    /// order; for a comparison, LLVM's comparison for equality, widened to
    /// 64 bits.
    fn emit_binary(
        &self, builder: &inkwell::builder::Builder<'ctx>,
        op: BinOp,
        lhs: inkwell::values::IntValue<'ctx>,
        rhs: inkwell::values::IntValue<'ctx>,
    ) -> (made: inkwell::values::IntValue<'ctx>)
        requires
            width_of(lhs) == 64,
            width_of(rhs) == 64,
        ensures
            built_as(insert_block(*builder), op, lhs, rhs, made),
            width_of(made) == 64,
    {
        match op {
            BinOp::Add => build_int_add(builder, lhs, rhs),
            BinOp::Sub => build_int_sub(builder, lhs, rhs),
            BinOp::Mul => build_int_mul(builder, lhs, rhs),
            BinOp::UDiv => build_int_unsigned_div(builder, lhs, rhs),
            BinOp::URem => build_int_unsigned_rem(builder, lhs, rhs),
            BinOp::SDiv => build_int_signed_div(builder, lhs, rhs),
            BinOp::SRem => build_int_signed_rem(builder, lhs, rhs),
            BinOp::Eq => {
                let bit = build_int_equal(builder, lhs, rhs);
                build_int_z_extend(builder, bit, i64_type(self.context))
            },
        }
    }

    /// Emits a call and takes its results apart: none for a callee without
    /// results, the value returned for one with one result, and the fields
    /// of the struct returned, in order, for one with several.
    fn emit_call(
        &self, builder: &inkwell::builder::Builder<'ctx>,
        program: &TargetModule,
        callee: usize,
        count: usize,
        args: &Vec<Value>,
        rows: &Vec<Vec<inkwell::values::IntValue<'ctx>>>,
    ) -> (results: Result<Vec<inkwell::values::IntValue<'ctx>>, EmitError>)
        requires
            self.fits(program@),
            self.done@.len() < program@[self.index as int].blocks.len(),
            rows_fit(program@, self.index as int, self.done@.len() as int, rows@),
            program@[self.index as int].params.len() <= 0xffff_ffff,
            callee < self.index,
            count <= 0xffff_ffff,
            count == program@[callee as int].results.len(),
            args@.len() == program@[callee as int].params.len(),
            values_ok(
                program@,
                program@[self.index as int],
                self.done@.len() as int,
                rows@.len() as int,
                args@,
            ),
        ensures
            results matches Ok(values) && values@.len() == count && call_built(
                insert_block(*builder),
                self.functions@[callee as int],
                self.function,
                self.done@,
                rows@,
                args@,
                values@,
            ) && forall|k: int| 0 <= k < values@.len() ==> width_of(#[trigger] values@[k]) == 64,
    {
        let operands = self.operands(program, args, rows)?;
        let mut arguments: Vec<inkwell::values::BasicMetadataValueEnum<'ctx>> = Vec::new();
        let mut i: usize = 0;
        while i < operands.len()
            invariant
                i <= operands@.len(),
                arguments@ == arguments_of(operands@.take(i as int)),
                forall|k: int| 0 <= k < operands@.len() ==> width_of(#[trigger] operands@[k]) == 64,
                forall|k: int| 0 <= k < arguments@.len() ==> is_int_argument(#[trigger] arguments@[k]),
            decreases operands@.len() - i,
        {
            arguments.push(int_argument(operands[i]));
            assert(arguments@ =~= arguments_of(operands@.take(i + 1)));
            i += 1;
        }
        assert(operands@.take(i as int) =~= operands@);
        let site = build_call(builder, self.functions[callee], &arguments);
        let mut results: Vec<inkwell::values::IntValue<'ctx>> = Vec::new();
        if count == 0 {
            assert(unpacked(insert_block(*builder), site, results@));
            return Ok(results);
        }
        let returned = self.expect(call_result(site))?;
        if count == 1 {
            let v = self.expect(as_int_value(returned))?;
            results.push(v);
            assert(unpacked(insert_block(*builder), site, results@));
            return Ok(results);
        }
        let whole = self.expect(as_struct_value(returned))?;
        let mut k: usize = 0;
        while k < count
            invariant
                k <= count <= 0xffff_ffff,
                results@.len() == k,
                forall|j: int| 0 <= j < k ==> width_of(#[trigger] results@[j]) == 64,
                is_int_struct(struct_value_type(whole), count as nat),
                forall|j: int| 0 <= j < k ==> field_built(insert_block(*builder), whole, j as nat, #[trigger] results@[j]),
            decreases count - k,
        {
            let field = self.expect(build_extract_value(builder, whole, k as u32))?;
            let v = self.expect(as_int_value(field))?;
            let ghost before = results@;
            results.push(v);
            assert(built_extract(insert_block(*builder), whole, k as nat, field) && int_in(field) == Some(v));
            assert(field_built(insert_block(*builder), whole, k as nat, v));
            assert forall|j: int| 0 <= j < k + 1 implies field_built(
                insert_block(*builder),
                whole,
                j as nat,
                #[trigger] results@[j],
            ) by {
                if j < k {
                    assert(results@[j] == before[j]);
                }
            }
            k += 1;
        }
        assert(unpacked(insert_block(*builder), site, results@));
        Ok(results)
    }

    /// Emits a return: of nothing, of the one value, or of a struct that
    /// holds the values in order. It fails only where LLVM hands back no
    /// integer for a parameter or refuses a field of the struct.
    fn emit_return(
        &self, builder: &inkwell::builder::Builder<'ctx>,
        program: &TargetModule,
        values: &Vec<Value>,
        rows: &Vec<Vec<inkwell::values::IntValue<'ctx>>>,
    ) -> (done: Result<inkwell::values::InstructionValue<'ctx>, EmitError>)
        requires
            self.fits(program@),
            self.done@.len() < program@[self.index as int].blocks.len(),
            rows_fit(program@, self.index as int, self.done@.len() as int, rows@),
            program@[self.index as int].params.len() <= 0xffff_ffff,
            values@.len() <= 0xffff_ffff,
            values_ok(
                program@,
                program@[self.index as int],
                self.done@.len() as int,
                rows@.len() as int,
                values@,
            ),
        ensures
            done matches Ok(end) && end_built(
                insert_block(*builder),
                self.function,
                self.blocks@,
                self.done@,
                rows@,
                TermView::Return(values@),
                end,
            ),
    {
        let operands = self.operands(program, values, rows)?;
        let count = operands.len();
        if count == 0 {
            let end = build_return_void(builder);
            assert(return_built(insert_block(*builder), operands@, end));
            return Ok(end);
        }
        if count == 1 {
            let end = build_return_int(builder, operands[0]);
            assert(return_built(insert_block(*builder), operands@, end));
            return Ok(end);
        }
        let mut fields: Vec<inkwell::types::BasicTypeEnum<'ctx>> = Vec::new();
        let mut i: usize = 0;
        while i < count
            invariant
                i <= count,
                fields@.len() == i,
                forall|k: int| 0 <= k < fields@.len() ==> is_int_field(#[trigger] fields@[k]),
            decreases count - i,
        {
            fields.push(int_field_type(i64_type(self.context)));
            i += 1;
        }
        let ty = struct_type(self.context, &fields);
        let mut whole = get_undef(ty);
        assert(packed(insert_block(*builder), operands@, 0, whole));
        let mut k: usize = 0;
        while k < count
            invariant
                2 <= count,
                k <= count <= 0xffff_ffff,
                count == operands@.len(),
                count == values@.len(),
                aggregate_type(whole) == ty,
                is_int_struct(ty, count as nat),
                forall|j: int| 0 <= j < operands@.len() ==> width_of(#[trigger] operands@[j]) == 64,
                packed(insert_block(*builder), operands@, k as nat, whole),
            decreases count - k,
        {
            let ghost before = whole;
            whole = self.expect(build_insert_value(builder, whole, operands[k], k as u32))?;
            assert(packed(insert_block(*builder), operands@, (k + 1) as nat, whole)) by {
                let upto = (k + 1) as nat;
                assert((upto - 1) as nat == k as nat);
                assert(packed(insert_block(*builder), operands@, (upto - 1) as nat, before));
                assert(built_insert(insert_block(*builder), before, operands@[upto - 1], (upto - 1) as nat, whole));
            }
            k += 1;
        }
        let end = build_return_aggregate(builder, whole);
        assert(return_built(insert_block(*builder), operands@, end));
        Ok(end)
    }

    /// Emits the end of a block: a return, a jump to the block that is
    /// named, or a branch on whether the condition differs from zero. It
    /// fails only where LLVM hands back no integer for a parameter or
    /// refuses a field of a struct that is returned, and for a block that
    /// has no end.
    fn emit_terminator(
        &self, builder: &inkwell::builder::Builder<'ctx>,
        program: &TargetModule,
        term: &Terminator,
        rows: &Vec<Vec<inkwell::values::IntValue<'ctx>>>,
    ) -> (done: Result<inkwell::values::InstructionValue<'ctx>, EmitError>)
        requires
            self.fits(program@),
            self.done@.len() < program@[self.index as int].blocks.len(),
            rows_fit(program@, self.index as int, self.done@.len() as int, rows@),
            rows@.len() == program@[self.index as int].blocks[self.done@.len() as int].insts.len(),
            program@[self.index as int].params.len() <= 0xffff_ffff,
            program@[self.index as int].results.len() <= 0xffff_ffff,
            term@ == program@[self.index as int].blocks[self.done@.len() as int].term,
            term_ok(program@, self.index as int, self.done@.len() as int),
        ensures
            done matches Ok(end) && end_built(
                insert_block(*builder),
                self.function,
                self.blocks@,
                self.done@,
                rows@,
                term@,
                end,
            ),
    {
        match term {
            Terminator::Open => Err(self.unexpected()),
            Terminator::Return(values) => self.emit_return(builder, program, values, rows),
            Terminator::Jump(target) => Ok(
                build_unconditional_branch(builder, self.blocks[*target]),
            ),
            Terminator::Branch { cond, then_block, else_block } => {
                let value = self.operand(program, *cond, rows)?;
                let zero = const_int(i64_type(self.context), 0);
                let bit = build_int_differ(builder, value, zero);
                Ok(
                    build_conditional_branch(
                        builder,
                        bit,
                        self.blocks[*then_block],
                        self.blocks[*else_block],
                    ),
                )
            },
        }
    }

    /// Emits the next block, at whose end the builder stands: its
    /// instructions in order, then its end. Returns the results of its
    /// instructions, and its end.
    fn emit_block(
        &self,
        builder: &inkwell::builder::Builder<'ctx>,
        program: &TargetModule,
        block: &Block,
    ) -> (built: Result<
        (Vec<Vec<inkwell::values::IntValue<'ctx>>>, inkwell::values::InstructionValue<'ctx>),
        EmitError,
    >)
        requires
            self.fits(program@),
            insert_block(*builder) == Some(self.blocks@[self.done@.len() as int]),
            self.done@.len() < program@[self.index as int].blocks.len(),
            block@ == program@[self.index as int].blocks[self.done@.len() as int],
            function_ok(program@, self.index as int),
            narrow(program@),
        ensures
            built matches Ok(pair) && pair.0@.len() == block.insts@.len() && rows_fit(
                program@,
                self.index as int,
                self.done@.len() as int,
                pair.0@,
            ) && block_built(
                self.functions@,
                self.function,
                self.blocks@,
                self.blocks@[self.done@.len() as int],
                self.done@,
                block@,
                pair.0@,
                pair.1,
            ),
    {
        let ghost module = program@;
        let ghost f = self.index as int;
        let ghost b = self.done@.len() as int;
        assert(block_ok(module, f, b));
        let mut rows: Vec<Vec<inkwell::values::IntValue<'ctx>>> = Vec::new();
        let mut i: usize = 0;
        while i < block.insts.len()
            invariant
                module == program@,
                f == self.index,
                b == self.done@.len(),
                self.fits(module),
                b < module[f].blocks.len(),
                block@ == module[f].blocks[b],
                block_ok(module, f, b),
                narrow(module),
                i <= block.insts@.len(),
                rows@.len() == i,
                rows_fit(module, f, b, rows@),
                forall|j: int|
                    0 <= j < i ==> inst_built(
                        insert_block(*builder),
                        self.functions@,
                        self.function,
                        self.done@,
                        rows@.take(j),
                        block@.insts[j],
                        (#[trigger] rows@[j])@,
                    ),
            decreases block.insts@.len() - i,
        {
            assert(inst_ok(module, f, b, i as int));
            assert(block@.insts[i as int] == block.insts@[i as int]@);
            let results = match &block.insts[i] {
                Inst::Binary { op, lhs, rhs } => {
                    let x = self.operand(program, *lhs, &rows)?;
                    let y = self.operand(program, *rhs, &rows)?;
                    let mut results: Vec<inkwell::values::IntValue<'ctx>> = Vec::new();
                    let made = self.emit_binary(builder, *op, x, y);
                    results.push(made);
                    assert(binary_built(insert_block(*builder), self.function, self.done@, rows@, *op, *lhs, *rhs, made));
                    results
                },
                Inst::Call { callee, args } => {
                    assert(module[*callee as int] == program.functions@[*callee as int]@);
                    let count = program.functions[*callee].results.len();
                    self.emit_call(builder, program, *callee, count, args, &rows)?
                },
            };
            assert(results@.len() == result_count(module, module[f].blocks[b].insts[i as int]));
            assert(inst_built(
                insert_block(*builder),
                self.functions@,
                self.function,
                self.done@,
                rows@,
                block@.insts[i as int],
                results@,
            ));
            let ghost before = rows@;
            rows.push(results);
            assert forall|j: int| 0 <= j < i + 1 implies inst_built(
                insert_block(*builder),
                self.functions@,
                self.function,
                self.done@,
                rows@.take(j),
                block@.insts[j],
                (#[trigger] rows@[j])@,
            ) by {
                assert(rows@.take(j) =~= before.take(j));
                if j < i {
                    assert(rows@[j] == before[j]);
                } else {
                    assert(before.take(j) =~= before);
                }
            }
            i += 1;
        }
        let end = self.emit_terminator(builder, program, &block.term, &rows)?;
        Ok((rows, end))
    }
}

/// What a block is for, as far as its name tells.
#[derive(Clone, Copy, PartialEq, Eq, Structural)]
enum Label {
    Entry,
    Then,
    Else,
    Continue,
    Other,
}

/// What each block of a function is for: the first is the entry; a block
/// that a branch goes to is the `then` or the `else` of a conditional; and
/// any other that a jump goes to is where a conditional goes on.
fn block_labels(func: &Function) -> (labels: Vec<Label>)
    ensures
        labels@.len() == func.blocks@.len(),
{
    let count = func.blocks.len();
    let mut labels: Vec<Label> = Vec::new();
    let mut b: usize = 0;
    while b < count
        invariant
            b <= count,
            labels@.len() == b,
        decreases count - b,
    {
        labels.push(
            if b == 0 {
                Label::Entry
            } else {
                Label::Other
            },
        );
        b += 1;
    }
    let mut b: usize = 0;
    while b < count
        invariant
            b <= count,
            count == func.blocks@.len(),
            labels@.len() == count,
        decreases count - b,
    {
        match &func.blocks[b].term {
            Terminator::Branch { then_block, else_block, .. } => {
                if *then_block < count {
                    labels[*then_block] = Label::Then;
                }
                if *else_block < count {
                    labels[*else_block] = Label::Else;
                }
            },
            Terminator::Jump(target) => {
                if *target < count && labels[*target] == Label::Other {
                    labels[*target] = Label::Continue;
                }
            },
            _ => {},
        }
        b += 1;
    }
    labels
}

/// The name of a block of that purpose, as its characters.
spec fn label_text(label: Label) -> Seq<char> {
    match label {
        Label::Entry => "entry"@,
        Label::Then => "then"@,
        Label::Else => "else"@,
        Label::Continue => "ifcont"@,
        Label::Other => "block"@,
    }
}

/// The name that a block of that purpose gets.
fn label_name(label: Label) -> (name: &'static str)
    ensures
        name@ == label_text(label),
{
    match label {
        Label::Entry => "entry",
        Label::Then => "then",
        Label::Else => "else",
        Label::Continue => "ifcont",
        Label::Other => "block",
    }
}

/// What LLVM handed back while the blocks of a function were emitted.
pub struct Body<'ctx> {
    /// The blocks, by index.
    pub blocks: Vec<inkwell::basic_block::BasicBlock<'ctx>>,
    /// The results of the instructions: by block, by instruction, and by
    /// position among the instruction's results.
    pub values: Vec<Vec<Vec<inkwell::values::IntValue<'ctx>>>>,
    /// The ends of the blocks, by index.
    pub ends: Vec<inkwell::values::InstructionValue<'ctx>>,
}

/// What LLVM handed back while a program was emitted.
pub struct Emission<'ctx> {
    /// The functions, by index.
    pub functions: Vec<inkwell::values::FunctionValue<'ctx>>,
    /// What was built in each, by index.
    pub bodies: Vec<Body<'ctx>>,
}

/// Whether the block is one that LLVM appended to the function, under
/// some name.
pub open spec fn block_appended<'ctx>(
    function: inkwell::values::FunctionValue<'ctx>,
    block: inkwell::basic_block::BasicBlock<'ctx>,
) -> bool {
    exists|name: Seq<char>| #[trigger] appended_to(function, name, block)
}

/// Whether the first `upto` blocks of a function are what LLVM built for
/// those of `func`: each block was appended to the function, and holds
/// what [`block_built`] says, built on the results of the blocks before
/// it.
pub open spec fn blocks_built<'ctx>(
    callees: Seq<inkwell::values::FunctionValue<'ctx>>,
    function: inkwell::values::FunctionValue<'ctx>,
    func: FunctionView,
    blocks: Seq<inkwell::basic_block::BasicBlock<'ctx>>,
    values: Seq<Vec<Vec<inkwell::values::IntValue<'ctx>>>>,
    ends: Seq<inkwell::values::InstructionValue<'ctx>>,
    upto: int,
) -> bool {
    &&& blocks.len() == func.blocks.len()
    &&& forall|b: int| 0 <= b < blocks.len() ==> block_appended(function, #[trigger] blocks[b])
    &&& forall|b: int|
        0 <= b < upto ==> block_built(
            callees,
            function,
            blocks,
            blocks[b],
            values.take(b),
            func.blocks[b],
            (#[trigger] values[b])@,
            ends[b],
        )
}

/// Whether `body` is what LLVM built for the blocks of `func`: as many
/// blocks, each with the results of its instructions and its end.
pub open spec fn body_built<'ctx>(
    callees: Seq<inkwell::values::FunctionValue<'ctx>>,
    function: inkwell::values::FunctionValue<'ctx>,
    func: FunctionView,
    body: Body<'ctx>,
) -> bool {
    &&& body.values@.len() == func.blocks.len()
    &&& body.ends@.len() == func.blocks.len()
    &&& blocks_built(
        callees,
        function,
        func,
        body.blocks@,
        body.values@,
        body.ends@,
        func.blocks.len() as int,
    )
}

/// Whether `made` is the declaration of the function in the LLVM module:
/// the function that the module received under the function's name, with
/// an integer of 64 bits as parameter for each of the function's
/// parameters and with what [`returns_integers`] says, for the number of
/// its results, as what it returns.
pub open spec fn declared<'ctx>(
    module: inkwell::module::Module<'ctx>,
    func: FunctionView,
    made: inkwell::values::FunctionValue<'ctx>,
) -> bool {
    &&& added_function(module, func.name, declared_type(made), made)
    &&& typed(made, func)
}

/// Whether a function has the signature of `func`: as many parameters, and
/// a type with an integer of 64 bits for each parameter and each result.
pub open spec fn typed<'ctx>(made: inkwell::values::FunctionValue<'ctx>, func: FunctionView) -> bool {
    &&& param_count(made) == func.params.len()
    &&& is_signature(declared_type(made), func.params.len(), func.results.len())
}

/// Whether function `f` of the program was emitted and then found
/// malformed by LLVM: a function was declared for it and its blocks were
/// built as the program calls for, on functions that were declared for
/// those before it, and LLVM answered that it is not well formed.
pub open spec fn rejected<'ctx>(
    module: inkwell::module::Module<'ctx>,
    program: Seq<FunctionView>,
    f: int,
) -> bool {
    exists|
        callees: Seq<inkwell::values::FunctionValue<'ctx>>,
        function: inkwell::values::FunctionValue<'ctx>,
        body: Body<'ctx>,
    |
        callees.len() == f && (forall|k: int|
            0 <= k < f ==> declared(module, program[k], #[trigger] callees[k])) && declared(
            module,
            program[f],
            function,
        ) && #[trigger] body_built(callees, function, program[f], body) && found_valid(
            function,
            false,
        )
}

/// The function, where LLVM found it well formed, and the failure, where
/// it did not.
fn checked<'ctx>(index: usize, function: inkwell::values::FunctionValue<'ctx>, valid: bool) -> (emitted:
    Result<inkwell::values::FunctionValue<'ctx>, EmitError>)
    ensures
        emitted == (if valid {
            Ok::<inkwell::values::FunctionValue<'ctx>, EmitError>(function)
        } else {
            Err::<inkwell::values::FunctionValue<'ctx>, EmitError>(
                EmitError::Rejected { function: index },
            )
        }),
{
    if valid {
        Ok(function)
    } else {
        Err(EmitError::Rejected { function: index })
    }
}

/// Emits function `index` of the program: declares it, and, where it has
/// blocks, fills them and has LLVM check the result. An external function
/// is declared and nothing more, which does not fail; for any other LLVM
/// has the last word. What is handed back is the declaration and what was
/// built in it.
fn emit_function<'ctx>(
    program: &TargetModule,
    index: usize,
    context: &'ctx inkwell::context::Context,
    module: &inkwell::module::Module<'ctx>,
    builder: &mut inkwell::builder::Builder<'ctx>,
    functions: &Vec<inkwell::values::FunctionValue<'ctx>>,
) -> (emitted: Result<(inkwell::values::FunctionValue<'ctx>, Body<'ctx>), EmitError>)
    requires
        index < program.functions@.len(),
        functions@.len() == index,
        forall|k: int| 0 <= k < index ==> declared(*module, program@[k], #[trigger] functions@[k]),
        well_formed(program@),
        narrow(program@),
    ensures
        emitted matches Err(e) ==> e == (EmitError::Rejected { function: index })
            && !program@[index as int].is_external() && rejected(*module, program@, index as int),
        emitted matches Ok(pair) ==> declared(*module, program@[index as int], pair.0) && body_built(
            functions@,
            pair.0,
            program@[index as int],
            pair.1,
        ) && (!program@[index as int].is_external() ==> found_valid(pair.0, true)),
{
    let func = &program.functions[index];
    assert(program@[index as int] == func@);
    assert(function_ok(program@, index as int));
    let ty = types_to_fn_type(context, &func.params, &func.results);
    let function = add_function(module, &func.name, ty);
    assert(added_function(*module, func@.name, ty, function));
    let count = func.blocks.len();
    let labels = block_labels(func);
    let mut blocks: Vec<inkwell::basic_block::BasicBlock<'ctx>> = Vec::new();
    let mut b: usize = 0;
    while b < count
        invariant
            b <= count,
            blocks@.len() == b,
            labels@.len() == count,
            forall|k: int| 0 <= k < b ==> block_appended(function, #[trigger] blocks@[k]),
        decreases count - b,
    {
        let ghost before = blocks@;
        let block = append_basic_block(context, function, label_name(labels[b]));
        blocks.push(block);
        assert forall|k: int| 0 <= k < b + 1 implies block_appended(
            function,
            #[trigger] blocks@[k],
        ) by {
            if k < b {
                assert(blocks@[k] == before[k]);
            } else {
                assert(appended_to(function, label_text(labels@[b as int]), blocks@[k]));
            }
        }
        b += 1;
    }
    let mut frame = Frame {
        context,
        functions,
        function,
        index,
        blocks,
        done: Vec::new(),
        ends: Vec::new(),
    };
    let mut b: usize = 0;
    while b < count
        invariant
            b <= count,
            count == func.blocks@.len(),
            index < program.functions@.len(),
            func == program.functions@[index as int],
            program@[index as int] == func@,
            function_ok(program@, index as int),
            narrow(program@),
            frame.index == index,
            frame.function == function,
            frame.functions@ == functions@,
            frame.done@.len() == b,
            frame.ends@.len() == b,
            frame.fits(program@),
            blocks_built(
                functions@,
                function,
                func@,
                frame.blocks@,
                frame.done@,
                frame.ends@,
                b as int,
            ),
        decreases count - b,
    {
        position_at_end(builder, frame.blocks[b]);
        assert(func@.blocks[b as int] == func.blocks@[b as int]@);
        let (rows, end) = frame.emit_block(builder, program, &func.blocks[b])?;
        let ghost done = frame.done@;
        let ghost ends = frame.ends@;
        frame.done.push(rows);
        frame.ends.push(end);
        assert forall|k: int| 0 <= k < b + 1 implies block_built(
            functions@,
            function,
            frame.blocks@,
            frame.blocks@[k],
            frame.done@.take(k),
            func@.blocks[k],
            (#[trigger] frame.done@[k])@,
            frame.ends@[k],
        ) by {
            assert(frame.done@.take(k) =~= done.take(k));
            if k < b {
                assert(frame.done@[k] == done[k]);
                assert(frame.ends@[k] == ends[k]);
            } else {
                assert(done.take(k) =~= done);
            }
        }
        b += 1;
    }
    let valid = count == 0 || verify(function);
    let body = Body { blocks: frame.blocks, values: frame.done, ends: frame.ends };
    assert(body_built(functions@, function, func@, body));
    match checked(index, function, valid) {
        Ok(function) => Ok((function, body)),
        Err(e) => Err(e),
    }
}

/// Emits a program into an LLVM module: its functions in order, the
/// external ones as declarations.
///
/// A program that is not well formed, or that holds a function with more
/// parameters or results than fit in 32 bits, is refused before anything
/// is emitted. For any other, emission fails only in a function that has
/// blocks, and only where LLVM, asked once the function was built as the
/// program calls for, finds it malformed; a program of external
/// functions alone is emitted without fail.
///
/// Where emission succeeds, what LLVM handed back is returned, and it is
/// what the program calls for: one function for each function of the
/// program and in the program's order, each declared under the function's
/// name with an integer of 64 bits for each of its parameters and
/// results; and in each a block for each of its blocks, built while the
/// builder stood at the end of that block, in which every instruction was
/// built on the LLVM values of its operands, every call is a call of the
/// function that was emitted for the callee, and the end is the return,
/// jump or branch that the block ends with. Every function with blocks
/// was found well formed by LLVM.
///
/// The builder is left at the end of the last block that was built.
pub fn emit<'ctx>(
    program: &TargetModule,
    context: &'ctx inkwell::context::Context,
    module: &inkwell::module::Module<'ctx>,
    builder: &mut inkwell::builder::Builder<'ctx>,
) -> (emitted: Result<Emission<'ctx>, EmitError>)
    ensures
        emitted matches Err(e) && e == EmitError::IllFormed <==> !well_formed(program@),
        emitted matches Err(e) && e == EmitError::TooLarge <==> well_formed(program@) && !narrow(
            program@,
        ),
        emitted matches Ok(all) ==> all.functions@.len() == program@.len() && all.bodies@.len()
            == program@.len() && forall|f: int|
            0 <= f < program@.len() ==> declared(*module, #[trigger] program@[f], all.functions@[f])
                && body_built(all.functions@.take(f), all.functions@[f], program@[f], all.bodies@[f])
                && (!program@[f].is_external() ==> found_valid(all.functions@[f], true)),
        well_formed(program@) && narrow(program@) && (forall|f: int|
            0 <= f < program@.len() ==> (#[trigger] program@[f]).is_external()) ==> emitted is Ok,
        emitted matches Err(e) ==> e == EmitError::IllFormed || e == EmitError::TooLarge || exists|
            f: int,
        |
            0 <= f < program@.len() && !(#[trigger] program@[f]).is_external() && e == (
            EmitError::Rejected { function: f as usize }) && rejected(*module, program@, f),
{
    if !validate(program) {
        return Err(EmitError::IllFormed);
    }
    if !is_narrow(program) {
        return Err(EmitError::TooLarge);
    }
    let mut functions: Vec<inkwell::values::FunctionValue<'ctx>> = Vec::new();
    let mut bodies: Vec<Body<'ctx>> = Vec::new();
    let mut index: usize = 0;
    while index < program.functions.len()
        invariant
            index <= program.functions@.len(),
            functions@.len() == index,
            bodies@.len() == index,
            well_formed(program@),
            narrow(program@),
            forall|f: int|
                0 <= f < index ==> declared(*module, #[trigger] program@[f], functions@[f])
                    && body_built(functions@.take(f), functions@[f], program@[f], bodies@[f]) && (
                !program@[f].is_external() ==> found_valid(functions@[f], true)),
        decreases program.functions@.len() - index,
    {
        match emit_function(program, index, context, module, builder, &functions) {
            Ok((function, body)) => {
                let ghost before = functions@;
                let ghost held = bodies@;
                functions.push(function);
                bodies.push(body);
                assert forall|f: int| 0 <= f < index + 1 implies declared(
                    *module,
                    #[trigger] program@[f],
                    functions@[f],
                ) && body_built(functions@.take(f), functions@[f], program@[f], bodies@[f]) && (
                !program@[f].is_external() ==> found_valid(functions@[f], true)) by {
                    assert(functions@.take(f) =~= before.take(f));
                    if f < index {
                        assert(functions@[f] == before[f]);
                        assert(bodies@[f] == held[f]);
                    } else {
                        assert(before.take(f) =~= before);
                    }
                }
            },
            Err(e) => {
                assert(!program@[index as int].is_external());
                return Err(e);
            },
        }
        index += 1;
    }
    Ok(Emission { functions, bodies })
}

} // verus!
