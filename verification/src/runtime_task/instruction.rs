//! The instruction set of a task.

use vstd::prelude::*;
use crate::virtual_machine::instruction::{FunctionIdentifier, Functions, Literal, Slot, SpecialFunctions};
use crate::virtual_machine::types::Type;

verus! {

/// Identifies a running task in the events it reports.
pub type RuntimeTaskIdentifier = u64;

#[derive(Clone, Debug, PartialEq)]
pub enum Instruction {
    Bind { slot: Slot, value_type: Type, value: Literal },
    /// The output undergoes the same type checking as `Bind`.
    Call { function_name: Functions, inputs: Vec<Slot>, output: Slot },
    /// The output undergoes the same type checking as `Bind`.
    SpecialCall { function_name: SpecialFunctions, inputs: Vec<Slot>, output: Slot },
    /// Calls a user-defined function; its outputs come back into
    /// `destination_slots`.
    DefinedCall { function_identifier: FunctionIdentifier, inputs: Vec<Slot>, destination_slots: Vec<Slot> },
    Jump { target_position: usize },
    /// `condition` holds a Boolean.
    ConditionalJump { condition: Slot, true_target_position: usize, false_target_position: usize },
    /// Ends a user-defined function, handing the values of `outputs` back.
    ReturnDefinedCall { function_identifier: FunctionIdentifier, outputs: Vec<Slot> },
}

} // verus!
