//! The instruction set.

use vstd::prelude::*;
use crate::virtual_machine::types::Type;

verus! {

pub type Slot = u64;

pub type FunctionIdentifier = u64;

#[derive(Clone, Debug, PartialEq)]
pub enum Instruction {
    Bind { slot: Slot, value_type: Type, value: Literal },
    /// The output undergoes the same type checking as `Bind`.
    Call { function_name: Functions, inputs: Vec<Slot>, output: Slot },
    /// The output undergoes the same type checking as `Bind`.
    SpecialCall { function_name: SpecialFunctions, inputs: Vec<Slot>, output: Slot },
    CallDefined {
        function_identifier: FunctionIdentifier,
        inputs: Vec<Slot>,
        /// Slots of this machine written with the callee's outputs.
        destination_slots: Vec<Slot>,
        /// Slots of the callee's machine that hold its outputs; they do not
        /// belong to the running machine.
        source_slots: Vec<Slot>,
    },
    Jump { target_position: usize },
    /// `condition` holds a Boolean.
    ConditionalJump { condition: Slot, true_target_position: usize, false_target_position: usize },
}

/// A literal of a `Bind`. A float is held as its IEEE 754 bit pattern.
#[derive(Clone, Debug, PartialEq)]
pub enum Literal {
    Integer(i64),
    Float(u64),
    String(String),
    Char(char),
    Boolean(bool),
}

#[derive(Debug, Clone, Copy, PartialEq, Eq, Hash, Structural)]
pub enum Functions {
    AddInteger,
    SubInteger,
    MulInteger,
    DivInteger,
    ModInteger,
    PowInteger,
    AddFloat,
    SubFloat,
    MulFloat,
    DivFloat,
    PowFloat,
    EqualInteger,
    NotEqualInteger,
    GreaterThanInteger,
    LessThanInteger,
    GreaterThanFloat,
    LessThanFloat,
    Not,
    And,
    Or,
    Xor,
    EqualString,
    StringLength,
    StringGetChar,
    VectorGetInteger,
    VectorGetFloat,
    VectorGetString,
    VectorGetChar,
    VectorGetBoolean,
    VectorInitInteger,
    VectorInitFloat,
    VectorInitString,
    VectorInitChar,
    VectorInitBoolean,
    VectorPushInteger,
    VectorPushFloat,
    VectorPushString,
    VectorPushChar,
    VectorPushBoolean,
    VectorPopInteger,
    VectorPopFloat,
    VectorPopString,
    VectorPopChar,
    VectorPopBoolean,
    IsSome,
    IsNone,
    IsOk,
    IsErr,
    UnwrapSomeInteger,
    UnwrapSomeFloat,
    UnwrapSomeString,
    UnwrapSomeChar,
    UnwrapSomeBoolean,
    UnwrapOkInteger,
    UnwrapOkFloat,
    UnwrapOkString,
    UnwrapOkChar,
    UnwrapOkBoolean,
    UnwrapErrInteger,
    UnwrapErrFloat,
    UnwrapErrString,
    UnwrapErrChar,
    UnwrapErrBoolean,
}

impl Functions {
    pub const COUNT: usize = 63;
}

#[derive(Debug, Clone, Copy, PartialEq, Eq, Hash, Structural)]
pub enum SpecialFunctions {
    ReadGlobalMemoryInteger,
    ReadGlobalMemoryFloat,
    ReadGlobalMemoryString,
    ReadGlobalMemoryChar,
    ReadGlobalMemoryBoolean,
    WriteGlobalMemoryInteger,
    WriteGlobalMemoryFloat,
    WriteGlobalMemoryString,
    WriteGlobalMemoryChar,
    WriteGlobalMemoryBoolean,
    GetInstructionPosition,
    GetModificationNamespaceList,
}

impl SpecialFunctions {
    pub const COUNT: usize = 12;
}

/// The types a built-in function takes and the type it returns.
pub struct FunctionSignature {
    pub inputs: &'static [Type],
    pub outputs: Type,
}

/// The types a user-defined function takes, the types of the caller's slots
/// its outputs are written to, and the types of its own output slots.
pub struct DefinedFunctionSignature {
    pub inputs: Vec<Type>,
    pub destinations: Vec<Type>,
    pub source: Vec<Type>,
}

pub struct FunctionRegistry<const N: usize> {
    pub functions: [FunctionSignature; N],
}

} // verus!
