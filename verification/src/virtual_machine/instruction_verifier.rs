//! Static verification of an instruction stream: a single forward pass that
//! gives each slot the type of its first write and checks every read, every
//! call's arguments and every jump target against it.

use vstd::prelude::*;
use std::collections::HashMap;
use std::sync::Arc;
use crate::virtual_machine::instruction::{
    DefinedFunctionSignature, FunctionIdentifier, FunctionSignature, Functions, Instruction,
    Literal, Slot, SpecialFunctions,
};
use crate::virtual_machine::types::Type;

verus! {

broadcast use vstd::std_specs::hash::group_hash_axioms;

// ── Signatures of the built-in functions ────────────────────────────────────

/// The input types of a built-in function.
pub open spec fn function_inputs(f: Functions) -> Seq<Type> {
    match f {
        Functions::AddInteger | Functions::SubInteger | Functions::MulInteger | Functions::DivInteger
        | Functions::ModInteger | Functions::PowInteger | Functions::EqualInteger
        | Functions::NotEqualInteger | Functions::GreaterThanInteger | Functions::LessThanInteger
            => seq![Type::Integer, Type::Integer],
        Functions::AddFloat | Functions::SubFloat | Functions::MulFloat | Functions::DivFloat
        | Functions::PowFloat | Functions::GreaterThanFloat | Functions::LessThanFloat
            => seq![Type::Float, Type::Float],
        Functions::Not => seq![Type::Boolean],
        Functions::And | Functions::Or | Functions::Xor => seq![Type::Boolean, Type::Boolean],
        Functions::EqualString => seq![Type::String, Type::String],
        Functions::StringLength => seq![Type::String],
        Functions::StringGetChar => seq![Type::String, Type::Integer],
        Functions::VectorGetInteger => seq![Type::Vector(&Type::Integer), Type::Integer],
        Functions::VectorGetFloat => seq![Type::Vector(&Type::Float), Type::Integer],
        Functions::VectorGetString => seq![Type::Vector(&Type::String), Type::Integer],
        Functions::VectorGetChar => seq![Type::Vector(&Type::Char), Type::Integer],
        Functions::VectorGetBoolean => seq![Type::Vector(&Type::Boolean), Type::Integer],
        Functions::VectorInitInteger => seq![Type::Integer],
        Functions::VectorInitFloat => seq![Type::Float],
        Functions::VectorInitString => seq![Type::String],
        Functions::VectorInitChar => seq![Type::Char],
        Functions::VectorInitBoolean => seq![Type::Boolean],
        Functions::VectorPushInteger => seq![Type::Vector(&Type::Integer), Type::Integer],
        Functions::VectorPushFloat => seq![Type::Vector(&Type::Float), Type::Float],
        Functions::VectorPushString => seq![Type::Vector(&Type::String), Type::String],
        Functions::VectorPushChar => seq![Type::Vector(&Type::Char), Type::Char],
        Functions::VectorPushBoolean => seq![Type::Vector(&Type::Boolean), Type::Boolean],
        Functions::VectorPopInteger => seq![Type::Vector(&Type::Integer)],
        Functions::VectorPopFloat => seq![Type::Vector(&Type::Float)],
        Functions::VectorPopString => seq![Type::Vector(&Type::String)],
        Functions::VectorPopChar => seq![Type::Vector(&Type::Char)],
        Functions::VectorPopBoolean => seq![Type::Vector(&Type::Boolean)],
        Functions::IsSome | Functions::IsNone => seq![Type::Option(&Type::Any)],
        Functions::IsOk | Functions::IsErr => seq![Type::Result(&Type::Any, &Type::Any)],
        Functions::UnwrapSomeInteger => seq![Type::Option(&Type::Integer)],
        Functions::UnwrapSomeFloat => seq![Type::Option(&Type::Float)],
        Functions::UnwrapSomeString => seq![Type::Option(&Type::String)],
        Functions::UnwrapSomeChar => seq![Type::Option(&Type::Char)],
        Functions::UnwrapSomeBoolean => seq![Type::Option(&Type::Boolean)],
        Functions::UnwrapOkInteger => seq![Type::Result(&Type::Integer, &Type::Any)],
        Functions::UnwrapOkFloat => seq![Type::Result(&Type::Float, &Type::Any)],
        Functions::UnwrapOkString => seq![Type::Result(&Type::String, &Type::Any)],
        Functions::UnwrapOkChar => seq![Type::Result(&Type::Char, &Type::Any)],
        Functions::UnwrapOkBoolean => seq![Type::Result(&Type::Boolean, &Type::Any)],
        Functions::UnwrapErrInteger => seq![Type::Result(&Type::Any, &Type::Integer)],
        Functions::UnwrapErrFloat => seq![Type::Result(&Type::Any, &Type::Float)],
        Functions::UnwrapErrString => seq![Type::Result(&Type::Any, &Type::String)],
        Functions::UnwrapErrChar => seq![Type::Result(&Type::Any, &Type::Char)],
        Functions::UnwrapErrBoolean => seq![Type::Result(&Type::Any, &Type::Boolean)],
    }
}

/// The output type of a built-in function.
pub open spec fn function_output(f: Functions) -> Type {
    match f {
        Functions::AddInteger | Functions::SubInteger | Functions::MulInteger | Functions::DivInteger
        | Functions::ModInteger | Functions::PowInteger | Functions::StringLength => Type::Integer,
        Functions::AddFloat | Functions::SubFloat | Functions::MulFloat | Functions::DivFloat
        | Functions::PowFloat => Type::Float,
        Functions::EqualInteger | Functions::NotEqualInteger | Functions::GreaterThanInteger
        | Functions::LessThanInteger | Functions::GreaterThanFloat | Functions::LessThanFloat
        | Functions::Not | Functions::And | Functions::Or | Functions::Xor | Functions::EqualString
        | Functions::IsSome | Functions::IsNone | Functions::IsOk | Functions::IsErr => Type::Boolean,
        Functions::StringGetChar => Type::Char,
        Functions::VectorGetInteger | Functions::UnwrapSomeInteger | Functions::UnwrapOkInteger
        | Functions::UnwrapErrInteger => Type::Integer,
        Functions::VectorGetFloat | Functions::UnwrapSomeFloat | Functions::UnwrapOkFloat
        | Functions::UnwrapErrFloat => Type::Float,
        Functions::VectorGetString | Functions::UnwrapSomeString | Functions::UnwrapOkString
        | Functions::UnwrapErrString => Type::String,
        Functions::VectorGetChar | Functions::UnwrapSomeChar | Functions::UnwrapOkChar
        | Functions::UnwrapErrChar => Type::Char,
        Functions::VectorGetBoolean | Functions::UnwrapSomeBoolean | Functions::UnwrapOkBoolean
        | Functions::UnwrapErrBoolean => Type::Boolean,
        Functions::VectorInitInteger | Functions::VectorPushInteger | Functions::VectorPopInteger
            => Type::Vector(&Type::Integer),
        Functions::VectorInitFloat | Functions::VectorPushFloat | Functions::VectorPopFloat
            => Type::Vector(&Type::Float),
        Functions::VectorInitString | Functions::VectorPushString | Functions::VectorPopString
            => Type::Vector(&Type::String),
        Functions::VectorInitChar | Functions::VectorPushChar | Functions::VectorPopChar
            => Type::Vector(&Type::Char),
        Functions::VectorInitBoolean | Functions::VectorPushBoolean | Functions::VectorPopBoolean
            => Type::Vector(&Type::Boolean),
    }
}

/// The input types of a special function.
pub open spec fn special_inputs(f: SpecialFunctions) -> Seq<Type> {
    match f {
        SpecialFunctions::ReadGlobalMemoryInteger | SpecialFunctions::ReadGlobalMemoryFloat
        | SpecialFunctions::ReadGlobalMemoryString | SpecialFunctions::ReadGlobalMemoryChar
        | SpecialFunctions::ReadGlobalMemoryBoolean => seq![Type::String, Type::String],
        SpecialFunctions::WriteGlobalMemoryInteger => seq![Type::String, Type::String, Type::Integer],
        SpecialFunctions::WriteGlobalMemoryFloat => seq![Type::String, Type::String, Type::Float],
        SpecialFunctions::WriteGlobalMemoryString => seq![Type::String, Type::String, Type::String],
        SpecialFunctions::WriteGlobalMemoryChar => seq![Type::String, Type::String, Type::Char],
        SpecialFunctions::WriteGlobalMemoryBoolean => seq![Type::String, Type::String, Type::Boolean],
        SpecialFunctions::GetInstructionPosition | SpecialFunctions::GetModificationNamespaceList
            => Seq::empty(),
    }
}

/// The output type of a special function.
pub open spec fn special_output(f: SpecialFunctions) -> Type {
    match f {
        SpecialFunctions::ReadGlobalMemoryInteger => Type::Result(&Type::Option(&Type::Integer), &Type::String),
        SpecialFunctions::ReadGlobalMemoryFloat => Type::Result(&Type::Option(&Type::Float), &Type::String),
        SpecialFunctions::ReadGlobalMemoryString => Type::Result(&Type::Option(&Type::String), &Type::String),
        SpecialFunctions::ReadGlobalMemoryChar => Type::Result(&Type::Option(&Type::Char), &Type::String),
        SpecialFunctions::ReadGlobalMemoryBoolean => Type::Result(&Type::Option(&Type::Boolean), &Type::String),
        SpecialFunctions::GetInstructionPosition => Type::Integer,
        SpecialFunctions::GetModificationNamespaceList => Type::Vector(&Type::String),
        _ => Type::Void,
    }
}


/// The signature of a built-in function.
pub fn function_signature(f: Functions) -> (r: FunctionSignature)
    ensures
        r.inputs@ == function_inputs(f),
        r.outputs == function_output(f),
{
    let inputs: &'static [Type] = match f {
        Functions::AddInteger | Functions::SubInteger | Functions::MulInteger | Functions::DivInteger
        | Functions::ModInteger | Functions::PowInteger | Functions::EqualInteger
        | Functions::NotEqualInteger | Functions::GreaterThanInteger | Functions::LessThanInteger => &[Type::Integer, Type::Integer],
        Functions::AddFloat | Functions::SubFloat | Functions::MulFloat | Functions::DivFloat
        | Functions::PowFloat | Functions::GreaterThanFloat | Functions::LessThanFloat => &[Type::Float, Type::Float],
        Functions::Not => &[Type::Boolean],
        Functions::And | Functions::Or | Functions::Xor => &[Type::Boolean, Type::Boolean],
        Functions::EqualString => &[Type::String, Type::String],
        Functions::StringLength => &[Type::String],
        Functions::StringGetChar => &[Type::String, Type::Integer],
        Functions::VectorGetInteger => &[Type::Vector(&Type::Integer), Type::Integer],
        Functions::VectorGetFloat => &[Type::Vector(&Type::Float), Type::Integer],
        Functions::VectorGetString => &[Type::Vector(&Type::String), Type::Integer],
        Functions::VectorGetChar => &[Type::Vector(&Type::Char), Type::Integer],
        Functions::VectorGetBoolean => &[Type::Vector(&Type::Boolean), Type::Integer],
        Functions::VectorInitInteger => &[Type::Integer],
        Functions::VectorInitFloat => &[Type::Float],
        Functions::VectorInitString => &[Type::String],
        Functions::VectorInitChar => &[Type::Char],
        Functions::VectorInitBoolean => &[Type::Boolean],
        Functions::VectorPushInteger => &[Type::Vector(&Type::Integer), Type::Integer],
        Functions::VectorPushFloat => &[Type::Vector(&Type::Float), Type::Float],
        Functions::VectorPushString => &[Type::Vector(&Type::String), Type::String],
        Functions::VectorPushChar => &[Type::Vector(&Type::Char), Type::Char],
        Functions::VectorPushBoolean => &[Type::Vector(&Type::Boolean), Type::Boolean],
        Functions::VectorPopInteger => &[Type::Vector(&Type::Integer)],
        Functions::VectorPopFloat => &[Type::Vector(&Type::Float)],
        Functions::VectorPopString => &[Type::Vector(&Type::String)],
        Functions::VectorPopChar => &[Type::Vector(&Type::Char)],
        Functions::VectorPopBoolean => &[Type::Vector(&Type::Boolean)],
        Functions::IsSome | Functions::IsNone => &[Type::Option(&Type::Any)],
        Functions::IsOk | Functions::IsErr => &[Type::Result(&Type::Any, &Type::Any)],
        Functions::UnwrapSomeInteger => &[Type::Option(&Type::Integer)],
        Functions::UnwrapSomeFloat => &[Type::Option(&Type::Float)],
        Functions::UnwrapSomeString => &[Type::Option(&Type::String)],
        Functions::UnwrapSomeChar => &[Type::Option(&Type::Char)],
        Functions::UnwrapSomeBoolean => &[Type::Option(&Type::Boolean)],
        Functions::UnwrapOkInteger => &[Type::Result(&Type::Integer, &Type::Any)],
        Functions::UnwrapOkFloat => &[Type::Result(&Type::Float, &Type::Any)],
        Functions::UnwrapOkString => &[Type::Result(&Type::String, &Type::Any)],
        Functions::UnwrapOkChar => &[Type::Result(&Type::Char, &Type::Any)],
        Functions::UnwrapOkBoolean => &[Type::Result(&Type::Boolean, &Type::Any)],
        Functions::UnwrapErrInteger => &[Type::Result(&Type::Any, &Type::Integer)],
        Functions::UnwrapErrFloat => &[Type::Result(&Type::Any, &Type::Float)],
        Functions::UnwrapErrString => &[Type::Result(&Type::Any, &Type::String)],
        Functions::UnwrapErrChar => &[Type::Result(&Type::Any, &Type::Char)],
        Functions::UnwrapErrBoolean => &[Type::Result(&Type::Any, &Type::Boolean)],
    };
    let outputs = function_output_type(f);
    proof {
        assert(inputs@ =~= function_inputs(f));
    }
    FunctionSignature { inputs, outputs }
}

/// The output type of a built-in function.
fn function_output_type(f: Functions) -> (r: Type)
    ensures
        r == function_output(f),
{
    match f {
        Functions::AddInteger | Functions::SubInteger | Functions::MulInteger | Functions::DivInteger
        | Functions::ModInteger | Functions::PowInteger | Functions::StringLength => Type::Integer,
        Functions::AddFloat | Functions::SubFloat | Functions::MulFloat | Functions::DivFloat
        | Functions::PowFloat => Type::Float,
        Functions::EqualInteger | Functions::NotEqualInteger | Functions::GreaterThanInteger
        | Functions::LessThanInteger | Functions::GreaterThanFloat | Functions::LessThanFloat
        | Functions::Not | Functions::And | Functions::Or | Functions::Xor | Functions::EqualString
        | Functions::IsSome | Functions::IsNone | Functions::IsOk | Functions::IsErr => Type::Boolean,
        Functions::StringGetChar => Type::Char,
        Functions::VectorGetInteger | Functions::UnwrapSomeInteger | Functions::UnwrapOkInteger
        | Functions::UnwrapErrInteger => Type::Integer,
        Functions::VectorGetFloat | Functions::UnwrapSomeFloat | Functions::UnwrapOkFloat
        | Functions::UnwrapErrFloat => Type::Float,
        Functions::VectorGetString | Functions::UnwrapSomeString | Functions::UnwrapOkString
        | Functions::UnwrapErrString => Type::String,
        Functions::VectorGetChar | Functions::UnwrapSomeChar | Functions::UnwrapOkChar
        | Functions::UnwrapErrChar => Type::Char,
        Functions::VectorGetBoolean | Functions::UnwrapSomeBoolean | Functions::UnwrapOkBoolean
        | Functions::UnwrapErrBoolean => Type::Boolean,
        Functions::VectorInitInteger | Functions::VectorPushInteger | Functions::VectorPopInteger
            => Type::Vector(&Type::Integer),
        Functions::VectorInitFloat | Functions::VectorPushFloat | Functions::VectorPopFloat
            => Type::Vector(&Type::Float),
        Functions::VectorInitString | Functions::VectorPushString | Functions::VectorPopString
            => Type::Vector(&Type::String),
        Functions::VectorInitChar | Functions::VectorPushChar | Functions::VectorPopChar
            => Type::Vector(&Type::Char),
        Functions::VectorInitBoolean | Functions::VectorPushBoolean | Functions::VectorPopBoolean
            => Type::Vector(&Type::Boolean),
    }
}

/// The signature of a special function.
pub fn special_function_signature(f: SpecialFunctions) -> (r: FunctionSignature)
    ensures
        r.inputs@ == special_inputs(f),
        r.outputs == special_output(f),
{
    let inputs: &'static [Type] = match f {
        SpecialFunctions::ReadGlobalMemoryInteger | SpecialFunctions::ReadGlobalMemoryFloat
        | SpecialFunctions::ReadGlobalMemoryString | SpecialFunctions::ReadGlobalMemoryChar
        | SpecialFunctions::ReadGlobalMemoryBoolean => &[Type::String, Type::String],
        SpecialFunctions::WriteGlobalMemoryInteger => &[Type::String, Type::String, Type::Integer],
        SpecialFunctions::WriteGlobalMemoryFloat => &[Type::String, Type::String, Type::Float],
        SpecialFunctions::WriteGlobalMemoryString => &[Type::String, Type::String, Type::String],
        SpecialFunctions::WriteGlobalMemoryChar => &[Type::String, Type::String, Type::Char],
        SpecialFunctions::WriteGlobalMemoryBoolean => &[Type::String, Type::String, Type::Boolean],
        SpecialFunctions::GetInstructionPosition | SpecialFunctions::GetModificationNamespaceList => &[],
    };
    let outputs = match f {
            SpecialFunctions::ReadGlobalMemoryInteger => Type::Result(&Type::Option(&Type::Integer), &Type::String),
            SpecialFunctions::ReadGlobalMemoryFloat => Type::Result(&Type::Option(&Type::Float), &Type::String),
            SpecialFunctions::ReadGlobalMemoryString => Type::Result(&Type::Option(&Type::String), &Type::String),
            SpecialFunctions::ReadGlobalMemoryChar => Type::Result(&Type::Option(&Type::Char), &Type::String),
            SpecialFunctions::ReadGlobalMemoryBoolean => Type::Result(&Type::Option(&Type::Boolean), &Type::String),
            SpecialFunctions::GetInstructionPosition => Type::Integer,
            SpecialFunctions::GetModificationNamespaceList => Type::Vector(&Type::String),
            _ => Type::Void,
        };
    proof {
        assert(inputs@ =~= special_inputs(f));
    }
    FunctionSignature { inputs, outputs }
}

// ── Errors ───────────────────────────────────────────────────────────────────

#[derive(Debug, PartialEq, Eq, Clone, Copy, Structural)]
pub enum VerifyError {
    /// A slot was read before it was assigned.
    UnboundSlot { instruction_pointer: usize, slot: Slot },
    /// The type of a slot did not match what was expected.
    TypeMismatch { instruction_pointer: usize, slot: Slot, expected: Type, found: Type },
    /// The literal of a Bind does not have the declared type.
    InvalidLiteral { instruction_pointer: usize, slot: Slot },
    /// A Jump or ConditionalJump target is outside the instruction list.
    JumpOutOfBounds { instruction_pointer: usize, target: usize },
    /// The wrong number of arguments was supplied to a Call.
    ArgumentCountMismatch { instruction_pointer: usize, expected: usize, found: usize },
    /// A slot was written with a type other than the one it was first given.
    SlotRebound { instruction_pointer: usize, slot: Slot, original: Type, attempted: Type },
    CanNotFoundDefinedFunction { instruction_pointer: usize, function_identifier: FunctionIdentifier },
    DefinedFunctionArgumentCountMismatch { instruction_pointer: usize, expected: usize, found: usize },
    DefinedFunctionReturnCountMismatch { instruction_pointer: usize, expected: usize, found: usize },
}

// ── Type rules ───────────────────────────────────────────────────────────────

/// A value of type `found` may be passed where `expected` is asked for:
/// `Any` accepts every type, `Option<Any>` every option, `Result<Any, Any>`
/// every result, `Result<T, Any>` and `Result<Any, E>` check the other side;
/// containers are compared element-wise and everything else must be equal.
pub open spec fn compatible(found: Type, expected: Type) -> bool
    decreases found,
{
    match expected {
        Type::Any => true,
        Type::Option(e) => match found {
            Type::Option(f) => *e == Type::Any || compatible(*f, *e),
            _ => false,
        },
        Type::Result(ek, ev) => match found {
            Type::Result(fk, fv) => {
                if *ek == Type::Any && *ev == Type::Any {
                    true
                } else if *ev == Type::Any {
                    compatible(*fk, *ek)
                } else if *ek == Type::Any {
                    compatible(*fv, *ev)
                } else {
                    compatible(*fk, *ek) && compatible(*fv, *ev)
                }
            },
            _ => false,
        },
        Type::Vector(e) => match found {
            Type::Vector(f) => compatible(*f, *e),
            _ => false,
        },
        _ => found == expected,
    }
}

/// Type compatibility of an argument (see `compatible`).
pub fn type_compatible(found: &Type, expected: &Type) -> (r: bool)
    ensures
        r == compatible(*found, *expected),
    decreases found,
{
    match (found, expected) {
        (_, Type::Any) => true,
        (Type::Option(f), Type::Option(e)) => {
            if **e == Type::Any {
                true
            } else {
                type_compatible(f, e)
            }
        },
        (Type::Result(fk, fv), Type::Result(ek, ev)) => {
            if **ek == Type::Any && **ev == Type::Any {
                true
            } else if **ev == Type::Any {
                type_compatible(fk, ek)
            } else if **ek == Type::Any {
                type_compatible(fv, ev)
            } else {
                type_compatible(fk, ek) && type_compatible(fv, ev)
            }
        },
        (Type::Vector(f), Type::Vector(e)) => type_compatible(f, e),
        (_, Type::Option(_)) | (_, Type::Result(_, _)) | (_, Type::Vector(_)) => false,
        _ => *found == *expected,
    }
}

/// The literal has the declared type.
pub open spec fn literal_matches(literal: Literal, ty: Type) -> bool {
    match (literal, ty) {
        (Literal::Integer(_), Type::Integer) => true,
        (Literal::Float(_), Type::Float) => true,
        (Literal::Boolean(_), Type::Boolean) => true,
        (Literal::Char(_), Type::Char) => true,
        (Literal::String(_), Type::String) => true,
        _ => false,
    }
}

pub fn literal_matches_type(literal: &Literal, ty: &Type) -> (r: bool)
    ensures
        r == literal_matches(*literal, *ty),
{
    match (literal, ty) {
        (Literal::Integer(_), Type::Integer) => true,
        (Literal::Float(_), Type::Float) => true,
        (Literal::Boolean(_), Type::Boolean) => true,
        (Literal::Char(_), Type::Char) => true,
        (Literal::String(_), Type::String) => true,
        _ => false,
    }
}

// ── The pass, stated over slot types and errors ─────────────────────────────

/// Slot types established so far, and the errors found so far.
pub type CheckState = (Map<Slot, Type>, Seq<VerifyError>);

/// A write of type `attempted` to `slot`: the first write sets the slot's
/// type; a later write of another type is a `TypeMismatch` against the first.
pub open spec fn bind_step(st: CheckState, ip: usize, slot: Slot, attempted: Type) -> CheckState {
    if !st.0.contains_key(slot) {
        (st.0.insert(slot, attempted), st.1)
    } else if st.0[slot] != attempted {
        (st.0, st.1.push(VerifyError::TypeMismatch { instruction_pointer: ip, slot, expected: st.0[slot], found: attempted }))
    } else {
        st
    }
}

/// Writes to `slots[i]` of type `types[i]`, in order.
pub open spec fn bind_all(st: CheckState, ip: usize, slots: Seq<Slot>, types: Seq<Type>) -> CheckState
    decreases slots.len(),
{
    if slots.len() == 0 {
        st
    } else {
        let prev = bind_all(st, ip, slots.drop_last(), types.drop_last());
        bind_step(prev, ip, slots.last(), types[slots.len() - 1])
    }
}

/// The error, if any, of reading `slot` where `expected` is asked for.
pub open spec fn read_errors(types: Map<Slot, Type>, ip: usize, slot: Slot, expected: Type) -> Seq<VerifyError> {
    if !types.contains_key(slot) {
        seq![VerifyError::UnboundSlot { instruction_pointer: ip, slot }]
    } else if !compatible(types[slot], expected) {
        seq![VerifyError::TypeMismatch { instruction_pointer: ip, slot, expected, found: types[slot] }]
    } else {
        Seq::empty()
    }
}

/// The errors of reading `slots[i]` where `expected[i]` is asked for, in order.
pub open spec fn args_errors(types: Map<Slot, Type>, ip: usize, slots: Seq<Slot>, expected: Seq<Type>) -> Seq<VerifyError>
    decreases slots.len(),
{
    if slots.len() == 0 {
        Seq::empty()
    } else {
        args_errors(types, ip, slots.drop_last(), expected.drop_last())
            + read_errors(types, ip, slots.last(), expected[slots.len() - 1])
    }
}

/// The arity check then, when the count agrees, the argument checks.
pub open spec fn call_errors(types: Map<Slot, Type>, ip: usize, inputs: Seq<Slot>, expected: Seq<Type>) -> Seq<VerifyError> {
    if inputs.len() != expected.len() {
        seq![VerifyError::ArgumentCountMismatch { instruction_pointer: ip, expected: expected.len() as usize, found: inputs.len() as usize }]
    } else {
        args_errors(types, ip, inputs, expected)
    }
}

/// The error, if any, of a jump to `target` in a stream of `len` instructions.
pub open spec fn jump_errors(ip: usize, target: usize, len: nat) -> Seq<VerifyError> {
    if target >= len {
        seq![VerifyError::JumpOutOfBounds { instruction_pointer: ip, target }]
    } else {
        Seq::empty()
    }
}

/// A call of a user-defined function: its inputs, the callee's output slots
/// and the caller's destination slots, each count checked first.
pub open spec fn defined_call_step(
    st: CheckState,
    ip: usize,
    inputs: Seq<Slot>,
    destinations: Seq<Slot>,
    sources: Seq<Slot>,
    sig: DefinedFunctionSignature,
) -> CheckState {
    let e1 = if inputs.len() != sig.inputs@.len() {
        seq![VerifyError::DefinedFunctionArgumentCountMismatch { instruction_pointer: ip, expected: sig.inputs@.len() as usize, found: inputs.len() as usize }]
    } else {
        args_errors(st.0, ip, inputs, sig.inputs@)
    };
    let e2 = if sources.len() != sig.destinations@.len() {
        seq![VerifyError::DefinedFunctionReturnCountMismatch { instruction_pointer: ip, expected: sig.destinations@.len() as usize, found: sources.len() as usize }]
    } else {
        args_errors(st.0, ip, sources, sig.destinations@)
    };
    let mid = (st.0, st.1 + e1 + e2);
    if destinations.len() != sig.destinations@.len() {
        (mid.0, mid.1.push(VerifyError::DefinedFunctionReturnCountMismatch { instruction_pointer: ip, expected: sig.destinations@.len() as usize, found: destinations.len() as usize }))
    } else {
        bind_all(mid, ip, destinations, sig.destinations@)
    }
}

/// One instruction of the pass.
pub open spec fn check_step(
    st: CheckState,
    ip: usize,
    instruction: Instruction,
    len: nat,
    defined: Map<FunctionIdentifier, DefinedFunctionSignature>,
) -> CheckState {
    match instruction {
        Instruction::Bind { slot, value_type, value } => {
            let st1 = if !literal_matches(value, value_type) {
                (st.0, st.1.push(VerifyError::InvalidLiteral { instruction_pointer: ip, slot }))
            } else {
                st
            };
            bind_step(st1, ip, slot, value_type)
        },
        Instruction::Call { function_name, inputs, output } => {
            let st1 = (st.0, st.1 + call_errors(st.0, ip, inputs@, function_inputs(function_name)));
            bind_step(st1, ip, output, function_output(function_name))
        },
        Instruction::SpecialCall { function_name, inputs, output } => {
            let st1 = (st.0, st.1 + call_errors(st.0, ip, inputs@, special_inputs(function_name)));
            bind_step(st1, ip, output, special_output(function_name))
        },
        Instruction::Jump { target_position } => (st.0, st.1 + jump_errors(ip, target_position, len)),
        Instruction::ConditionalJump { condition, true_target_position, false_target_position } => {
            let cond = if !st.0.contains_key(condition) {
                seq![VerifyError::UnboundSlot { instruction_pointer: ip, slot: condition }]
            } else if st.0[condition] != Type::Boolean {
                seq![VerifyError::TypeMismatch { instruction_pointer: ip, slot: condition, expected: Type::Boolean, found: st.0[condition] }]
            } else {
                Seq::empty()
            };
            (st.0, st.1 + cond + jump_errors(ip, true_target_position, len) + jump_errors(ip, false_target_position, len))
        },
        Instruction::CallDefined { function_identifier, inputs, destination_slots, source_slots } => {
            if !defined.contains_key(function_identifier) {
                (st.0, st.1.push(VerifyError::CanNotFoundDefinedFunction { instruction_pointer: ip, function_identifier }))
            } else {
                defined_call_step(st, ip, inputs@, destination_slots@, source_slots@, defined[function_identifier])
            }
        },
    }
}

/// The pass over the first `n` instructions, from no slot types and no errors.
pub open spec fn check_prefix(
    instructions: Seq<Instruction>,
    n: nat,
    defined: Map<FunctionIdentifier, DefinedFunctionSignature>,
) -> CheckState
    decreases n,
{
    if n == 0 || n > instructions.len() {
        (Map::empty(), Seq::empty())
    } else {
        check_step(check_prefix(instructions, (n - 1) as nat, defined), (n - 1) as usize, instructions[n - 1], instructions.len(), defined)
    }
}

pub(crate) proof fn lemma_bind_all_grows(st: CheckState, ip: usize, slots: Seq<Slot>, types: Seq<Type>)
    ensures
        bind_all(st, ip, slots, types).1.len() >= st.1.len(),
    decreases slots.len(),
{
    if slots.len() > 0 {
        lemma_bind_all_grows(st, ip, slots.drop_last(), types.drop_last());
    }
}

proof fn lemma_step_grows(
    st: CheckState,
    ip: usize,
    instruction: Instruction,
    len: nat,
    defined: Map<FunctionIdentifier, DefinedFunctionSignature>,
)
    ensures
        check_step(st, ip, instruction, len, defined).1.len() >= st.1.len(),
{
    if let Instruction::CallDefined { function_identifier, inputs, destination_slots, source_slots } = instruction {
        if defined.contains_key(function_identifier) {
            let sig = defined[function_identifier];
            if destination_slots@.len() == sig.destinations@.len() {
                let e1 = if inputs@.len() != sig.inputs@.len() {
                    seq![VerifyError::DefinedFunctionArgumentCountMismatch { instruction_pointer: ip, expected: sig.inputs@.len() as usize, found: inputs@.len() as usize }]
                } else {
                    args_errors(st.0, ip, inputs@, sig.inputs@)
                };
                let e2 = if source_slots@.len() != sig.destinations@.len() {
                    seq![VerifyError::DefinedFunctionReturnCountMismatch { instruction_pointer: ip, expected: sig.destinations@.len() as usize, found: source_slots@.len() as usize }]
                } else {
                    args_errors(st.0, ip, source_slots@, sig.destinations@)
                };
                lemma_bind_all_grows((st.0, st.1 + e1 + e2), ip, destination_slots@, sig.destinations@);
            }
        }
    }
}

pub(crate) proof fn lemma_prefix_grows(
    instructions: Seq<Instruction>,
    n: nat,
    m: nat,
    defined: Map<FunctionIdentifier, DefinedFunctionSignature>,
)
    requires
        n <= m <= instructions.len(),
    ensures
        check_prefix(instructions, n, defined).1.len() <= check_prefix(instructions, m, defined).1.len(),
    decreases m - n,
{
    if n < m {
        lemma_prefix_grows(instructions, n, (m - 1) as nat, defined);
        lemma_step_grows(check_prefix(instructions, (m - 1) as nat, defined), (m - 1) as usize, instructions[m - 1], instructions.len(), defined);
    }
}

pub(crate) proof fn lemma_no_args_errors(types: Map<Slot, Type>, ip: usize, slots: Seq<Slot>, expected: Seq<Type>, j: int)
    requires
        slots.len() == expected.len(),
        args_errors(types, ip, slots, expected).len() == 0,
        0 <= j < slots.len(),
    ensures
        types.contains_key(slots[j]),
        compatible(types[slots[j]], expected[j]),
    decreases slots.len(),
{
    let rest = args_errors(types, ip, slots.drop_last(), expected.drop_last());
    let last = read_errors(types, ip, slots.last(), expected[slots.len() - 1]);
    assert(args_errors(types, ip, slots, expected) == rest + last);
    if j < slots.len() - 1 {
        lemma_no_args_errors(types, ip, slots.drop_last(), expected.drop_last(), j);
    }
}

/// A stream that the pass accepts (no error at all) is well formed: every
/// jump lands inside the stream, every bound literal has its declared type,
/// every call passes as many arguments as its callee takes, each argument
/// slot holds by then a value of a type that the callee accepts, and every
/// user-defined callee is known.
pub proof fn lemma_accepted_stream_is_well_formed(
    instructions: Seq<Instruction>,
    defined: Map<FunctionIdentifier, DefinedFunctionSignature>,
    i: int,
)
    requires
        check_prefix(instructions, instructions.len(), defined).1.len() == 0,
        0 <= i < instructions.len(),
    ensures
        instructions[i] matches Instruction::Jump { target_position } ==> target_position < instructions.len(),
        instructions[i] matches Instruction::ConditionalJump { true_target_position, false_target_position, .. }
            ==> true_target_position < instructions.len() && false_target_position < instructions.len(),
        instructions[i] matches Instruction::Bind { value_type, value, .. } ==> literal_matches(value, value_type),
        instructions[i] matches Instruction::Call { function_name, inputs, .. } ==> {
            let types = check_prefix(instructions, i as nat, defined).0;
            &&& inputs@.len() == function_inputs(function_name).len()
            &&& forall|j: int| 0 <= j < inputs@.len() ==>
                types.contains_key(inputs@[j]) && compatible(types[inputs@[j]], function_inputs(function_name)[j])
        },
        instructions[i] matches Instruction::SpecialCall { function_name, inputs, .. } ==> {
            let types = check_prefix(instructions, i as nat, defined).0;
            &&& inputs@.len() == special_inputs(function_name).len()
            &&& forall|j: int| 0 <= j < inputs@.len() ==>
                types.contains_key(inputs@[j]) && compatible(types[inputs@[j]], special_inputs(function_name)[j])
        },
        instructions[i] matches Instruction::CallDefined { function_identifier, .. } ==> defined.contains_key(function_identifier),
{
    let len = instructions.len();
    let st = check_prefix(instructions, i as nat, defined);
    lemma_prefix_grows(instructions, (i + 1) as nat, len, defined);
    let next = check_step(st, i as usize, instructions[i], len, defined);
    assert(check_prefix(instructions, (i + 1) as nat, defined) == next);
    assert(next.1.len() == 0);
    match instructions[i] {
        Instruction::Bind { slot, value_type, value } => {
            if !literal_matches(value, value_type) {
                let st1 = (st.0, st.1.push(VerifyError::InvalidLiteral { instruction_pointer: i as usize, slot }));
                assert(bind_step(st1, i as usize, slot, value_type).1.len() >= st1.1.len());
            }
        },
        Instruction::Call { function_name, inputs, output } => {
            let errs = call_errors(st.0, i as usize, inputs@, function_inputs(function_name));
            let st1 = (st.0, st.1 + errs);
            assert(bind_step(st1, i as usize, output, function_output(function_name)).1.len() >= st1.1.len());
            assert(errs.len() == 0);
            if inputs@.len() == function_inputs(function_name).len() {
                assert forall|j: int| 0 <= j < inputs@.len() implies
                    st.0.contains_key(inputs@[j]) && compatible(st.0[inputs@[j]], function_inputs(function_name)[j]) by {
                    lemma_no_args_errors(st.0, i as usize, inputs@, function_inputs(function_name), j);
                }
            }
        },
        Instruction::SpecialCall { function_name, inputs, output } => {
            let errs = call_errors(st.0, i as usize, inputs@, special_inputs(function_name));
            let st1 = (st.0, st.1 + errs);
            assert(bind_step(st1, i as usize, output, special_output(function_name)).1.len() >= st1.1.len());
            assert(errs.len() == 0);
            if inputs@.len() == special_inputs(function_name).len() {
                assert forall|j: int| 0 <= j < inputs@.len() implies
                    st.0.contains_key(inputs@[j]) && compatible(st.0[inputs@[j]], special_inputs(function_name)[j]) by {
                    lemma_no_args_errors(st.0, i as usize, inputs@, special_inputs(function_name), j);
                }
            }
        },
        _ => {},
    }
}

// ── The pass ─────────────────────────────────────────────────────────────────

/// Writes a type to a slot for the first time, or checks that a later write
/// uses the type the slot was first given; a different type is recorded as a
/// `TypeMismatch` against the first.
pub fn bind_slot(
    slots: &mut HashMap<Slot, Type>,
    errors: &mut Vec<VerifyError>,
    instruction_pointer: usize,
    slot: Slot,
    attempted: Type,
)
    ensures
        (final(slots)@, final(errors)@) == bind_step((old(slots)@, old(errors)@), instruction_pointer, slot, attempted),
{
    match slots.get(&slot) {
        None => {
            slots.insert(slot, attempted);
        },
        Some(original) => {
            if *original != attempted {
                errors.push(VerifyError::TypeMismatch { instruction_pointer, slot, expected: *original, found: attempted });
            }
        },
    }
}

/// Records the errors of reading `inputs[i]` where `expected[i]` is asked for.
fn check_arguments(
    slots: &HashMap<Slot, Type>,
    errors: &mut Vec<VerifyError>,
    instruction_pointer: usize,
    inputs: &Vec<Slot>,
    expected: &[Type],
)
    requires
        inputs@.len() == expected@.len(),
    ensures
        final(errors)@ == old(errors)@ + args_errors(slots@, instruction_pointer, inputs@, expected@),
{
    let mut i: usize = 0;
    while i < inputs.len()
        invariant
            i <= inputs@.len() == expected@.len(),
            errors@ == old(errors)@ + args_errors(slots@, instruction_pointer, inputs@.take(i as int), expected@.take(i as int)),
        decreases inputs@.len() - i,
    {
        let slot = inputs[i];
        let ghost before = errors@;
        match slots.get(&slot) {
            None => errors.push(VerifyError::UnboundSlot { instruction_pointer, slot }),
            Some(found) => {
                if !type_compatible(found, &expected[i]) {
                    errors.push(VerifyError::TypeMismatch { instruction_pointer, slot, expected: expected[i], found: *found });
                }
            },
        }
        proof {
            assert(inputs@.take(i + 1).drop_last() == inputs@.take(i as int));
            assert(expected@.take(i + 1).drop_last() == expected@.take(i as int));
            assert(errors@ == before + read_errors(slots@, instruction_pointer, slot, expected@[i as int]));
        }
        i = i + 1;
    }
    proof {
        assert(inputs@.take(i as int) == inputs@);
        assert(expected@.take(i as int) == expected@);
    }
}

/// Records the errors of a call: the argument count, then the arguments.
fn check_call(
    slots: &HashMap<Slot, Type>,
    errors: &mut Vec<VerifyError>,
    instruction_pointer: usize,
    inputs: &Vec<Slot>,
    expected: &[Type],
)
    ensures
        final(errors)@ == old(errors)@ + call_errors(slots@, instruction_pointer, inputs@, expected@),
{
    if inputs.len() != expected.len() {
        errors.push(VerifyError::ArgumentCountMismatch { instruction_pointer, expected: expected.len(), found: inputs.len() });
    } else {
        check_arguments(slots, errors, instruction_pointer, inputs, expected);
    }
}

/// Records a jump target past the end.
fn check_jump(errors: &mut Vec<VerifyError>, instruction_pointer: usize, target: usize, len: usize)
    ensures
        final(errors)@ == old(errors)@ + jump_errors(instruction_pointer, target, len as nat),
{
    if target >= len {
        errors.push(VerifyError::JumpOutOfBounds { instruction_pointer, target });
    }
}

/// Writes of `types[i]` to `destinations[i]`, in order.
fn bind_slots(
    slots: &mut HashMap<Slot, Type>,
    errors: &mut Vec<VerifyError>,
    instruction_pointer: usize,
    destinations: &Vec<Slot>,
    types: &Vec<Type>,
)
    requires
        destinations@.len() == types@.len(),
    ensures
        (final(slots)@, final(errors)@) == bind_all((old(slots)@, old(errors)@), instruction_pointer, destinations@, types@),
{
    let mut i: usize = 0;
    while i < destinations.len()
        invariant
            i <= destinations@.len() == types@.len(),
            (slots@, errors@) == bind_all((old(slots)@, old(errors)@), instruction_pointer, destinations@.take(i as int), types@.take(i as int)),
        decreases destinations@.len() - i,
    {
        bind_slot(slots, errors, instruction_pointer, destinations[i], types[i]);
        proof {
            assert(destinations@.take(i + 1).drop_last() == destinations@.take(i as int));
            assert(types@.take(i + 1).drop_last() == types@.take(i as int));
        }
        i = i + 1;
    }
    proof {
        assert(destinations@.take(i as int) == destinations@);
        assert(types@.take(i as int) == types@);
    }
}

/// Checks instruction streams against the built-in signatures and the
/// signatures of the user-defined functions.
pub struct InstructionVerifier {
    instruction: Arc<Vec<Instruction>>,
    defined_functions: Arc<HashMap<FunctionIdentifier, DefinedFunctionSignature>>,
}

impl InstructionVerifier {
    pub fn new(
        instruction: Arc<Vec<Instruction>>,
        defined_functions: Arc<HashMap<FunctionIdentifier, DefinedFunctionSignature>>,
    ) -> (r: Self)
        ensures
            r.instructions() == instruction@,
            r.defined() == defined_functions@,
    {
        Self { instruction, defined_functions }
    }

    /// The instruction stream.
    pub closed spec fn instructions(&self) -> Seq<Instruction> {
        self.instruction@
    }

    /// The signatures of the user-defined functions.
    pub closed spec fn defined(&self) -> Map<FunctionIdentifier, DefinedFunctionSignature> {
        self.defined_functions@
    }

    /// All errors of the instruction stream, in the order found; none means
    /// the program is well-typed.
    pub fn verify(&self) -> (r: Vec<VerifyError>)
        ensures
            r@ == check_prefix(self.instructions(), self.instructions().len(), self.defined()).1,
    {
        let instructions: &Vec<Instruction> = &*self.instruction;
        let len = instructions.len();
        let mut errors: Vec<VerifyError> = Vec::new();
        let mut slots: HashMap<Slot, Type> = HashMap::new();
        let mut instruction_pointer: usize = 0;
        while instruction_pointer < len
            invariant
                len == instructions@.len(),
                instructions@ == self.instructions(),
                instruction_pointer <= len,
                (slots@, errors@) == check_prefix(instructions@, instruction_pointer as nat, self.defined()),
            decreases len - instruction_pointer,
        {
            let ghost st = (slots@, errors@);
            match &instructions[instruction_pointer] {
                Instruction::Bind { slot, value_type, value } => {
                    if !literal_matches_type(value, value_type) {
                        errors.push(VerifyError::InvalidLiteral { instruction_pointer, slot: *slot });
                    }
                    bind_slot(&mut slots, &mut errors, instruction_pointer, *slot, *value_type);
                },
                Instruction::Call { function_name, inputs, output } => {
                    let sig = function_signature(*function_name);
                    check_call(&slots, &mut errors, instruction_pointer, inputs, sig.inputs);
                    bind_slot(&mut slots, &mut errors, instruction_pointer, *output, sig.outputs);
                },
                Instruction::Jump { target_position } => {
                    check_jump(&mut errors, instruction_pointer, *target_position, len);
                },
                Instruction::ConditionalJump { condition, true_target_position, false_target_position } => {
                    match slots.get(condition) {
                        None => errors.push(VerifyError::UnboundSlot { instruction_pointer, slot: *condition }),
                        Some(t) => {
                            if *t != Type::Boolean {
                                errors.push(VerifyError::TypeMismatch {
                                    instruction_pointer,
                                    slot: *condition,
                                    expected: Type::Boolean,
                                    found: *t,
                                });
                            }
                        },
                    }
                    check_jump(&mut errors, instruction_pointer, *true_target_position, len);
                    check_jump(&mut errors, instruction_pointer, *false_target_position, len);
                },
                Instruction::SpecialCall { function_name, inputs, output } => {
                    let sig = special_function_signature(*function_name);
                    check_call(&slots, &mut errors, instruction_pointer, inputs, sig.inputs);
                    bind_slot(&mut slots, &mut errors, instruction_pointer, *output, sig.outputs);
                },
                Instruction::CallDefined { function_identifier, inputs, destination_slots, source_slots } => {
                    match self.defined_functions.get(function_identifier) {
                        None => {
                            errors.push(VerifyError::CanNotFoundDefinedFunction {
                                instruction_pointer,
                                function_identifier: *function_identifier,
                            });
                        },
                        Some(sig) => {
                            assert(self.defined().contains_key(*function_identifier));
                            assert(*sig == self.defined()[*function_identifier]);
                            let ghost e0 = errors@;
                            if inputs.len() != sig.inputs.len() {
                                errors.push(VerifyError::DefinedFunctionArgumentCountMismatch {
                                    instruction_pointer,
                                    expected: sig.inputs.len(),
                                    found: inputs.len(),
                                });
                            } else {
                                check_arguments(&slots, &mut errors, instruction_pointer, inputs, sig.inputs.as_slice());
                            }
                            assert(errors@ =~= e0 + (if inputs@.len() != sig.inputs@.len() {
                                seq![VerifyError::DefinedFunctionArgumentCountMismatch { instruction_pointer, expected: sig.inputs@.len() as usize, found: inputs@.len() as usize }]
                            } else {
                                args_errors(slots@, instruction_pointer, inputs@, sig.inputs@)
                            }));
                            if source_slots.len() != sig.destinations.len() {
                                errors.push(VerifyError::DefinedFunctionReturnCountMismatch {
                                    instruction_pointer,
                                    expected: sig.destinations.len(),
                                    found: source_slots.len(),
                                });
                            } else {
                                check_arguments(&slots, &mut errors, instruction_pointer, source_slots, sig.destinations.as_slice());
                            }
                            let ghost mid = (slots@, errors@);
                            assert(mid.1 =~= st.1 + (if inputs@.len() != sig.inputs@.len() {
                                seq![VerifyError::DefinedFunctionArgumentCountMismatch { instruction_pointer, expected: sig.inputs@.len() as usize, found: inputs@.len() as usize }]
                            } else {
                                args_errors(st.0, instruction_pointer, inputs@, sig.inputs@)
                            }) + (if source_slots@.len() != sig.destinations@.len() {
                                seq![VerifyError::DefinedFunctionReturnCountMismatch { instruction_pointer, expected: sig.destinations@.len() as usize, found: source_slots@.len() as usize }]
                            } else {
                                args_errors(st.0, instruction_pointer, source_slots@, sig.destinations@)
                            }));
                            if destination_slots.len() != sig.destinations.len() {
                                errors.push(VerifyError::DefinedFunctionReturnCountMismatch {
                                    instruction_pointer,
                                    expected: sig.destinations.len(),
                                    found: destination_slots.len(),
                                });
                            } else {
                                bind_slots(&mut slots, &mut errors, instruction_pointer, destination_slots, &sig.destinations);
                            }
                        },
                    }
                },
            }
            proof {
                let next = check_step(st, instruction_pointer, instructions@[instruction_pointer as int], len as nat, self.defined());
                assert(errors@ =~= next.1);
                assert(slots@ =~= next.0);
            }
            instruction_pointer = instruction_pointer + 1;
        }
        errors
    }
}

} // verus!
