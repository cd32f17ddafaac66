//! What the virtual machine reports while it runs, and how it stops.

use vstd::prelude::*;
use std::collections::HashMap;
use std::sync::Arc;
use crate::virtual_machine::instruction::{FunctionIdentifier, Slot};
use crate::virtual_machine::types::Value;

verus! {

#[derive(Debug)]
pub enum VirtualMachineEvent {
    Log(VirtualMachineLog),
    Trap(VirtualMachineTrap),
    StateChange(StateChange),
    ExecutionFinished,
}

#[derive(Debug)]
pub struct VirtualMachineLog {
    pub level: VirtualMachineLogLevel,
    pub message: String,
}

#[derive(Debug, Clone, Copy, PartialEq, Eq, Structural)]
pub enum VirtualMachineLogLevel {
    Trace,
    Debug,
    Info,
    Warn,
    Error,
}

#[derive(Debug)]
pub struct VirtualMachineTrap {
    pub trapped_position: usize,
    pub reason: TrapReason,
}

impl Clone for VirtualMachineTrap {
    fn clone(&self) -> (r: Self)
        ensures
            r == *self,
    {
        VirtualMachineTrap { trapped_position: self.trapped_position, reason: self.reason.clone() }
    }
}

/// Runtime-only failures: conditions the verifier cannot rule out statically.
#[derive(Debug)]
pub enum TrapReason {
    /// `UnwrapSome` on a `None` value.
    UnwrapNone,
    /// `UnwrapOk` on an `Err` value.
    UnwrapErrOnOk,
    /// `UnwrapErr` on an `Ok` value.
    UnwrapOkOnErr,
    /// Integer division or modulo by zero.
    DivisionByZero,
    /// Vector index out of bounds.
    IndexOutOfBounds { index: i64, length: usize },
    /// `StringGetChar` index out of bounds.
    StringIndexOutOfBounds { index: i64, length: usize },
    /// A condition that the verifier's checks are meant to rule out; a
    /// stream it accepts meets one only on an integer division that
    /// overflows, at the vector length limit, or where a jump, the host or a
    /// called function left a slot unbound or holding a value of another
    /// type than the verifier gave it.
    VerifierBug(String),
}

impl Clone for TrapReason {
    fn clone(&self) -> (r: Self)
        ensures
            r == *self,
    {
        match self {
            TrapReason::UnwrapNone => TrapReason::UnwrapNone,
            TrapReason::UnwrapErrOnOk => TrapReason::UnwrapErrOnOk,
            TrapReason::UnwrapOkOnErr => TrapReason::UnwrapOkOnErr,
            TrapReason::DivisionByZero => TrapReason::DivisionByZero,
            TrapReason::IndexOutOfBounds { index, length } => TrapReason::IndexOutOfBounds { index: *index, length: *length },
            TrapReason::StringIndexOutOfBounds { index, length } => TrapReason::StringIndexOutOfBounds { index: *index, length: *length },
            TrapReason::VerifierBug(m) => TrapReason::VerifierBug(m.clone()),
        }
    }
}

#[derive(Debug)]
pub struct StateChange {
    pub identifier: String,
    pub old: Option<Arc<Value>>,
    pub new: Option<Arc<Value>>,
}

#[derive(Debug)]
pub struct VirtualMachineCallEvent {
    pub self_identifier: FunctionIdentifier,
    pub function_identifier: FunctionIdentifier,
    pub input: HashMap<Slot, Arc<Value>>,
    pub output: HashMap<Slot, Arc<Value>>,
}

impl VirtualMachineCallEvent {
    pub fn new(
        self_identifier: FunctionIdentifier,
        function_identifier: FunctionIdentifier,
        input: HashMap<Slot, Arc<Value>>,
        output: HashMap<Slot, Arc<Value>>,
    ) -> (r: Self)
        ensures
            r.self_identifier == self_identifier,
            r.function_identifier == function_identifier,
            r.input@ == input@,
            r.output@ == output@,
    {
        Self { self_identifier, function_identifier, input, output }
    }
}

/// Why `run_until_yield` handed control back.
#[derive(Debug)]
pub enum VirtualMachineYield {
    /// A user-defined function is to be called by the scheduler; execution
    /// resumes at the same instruction with `resume_call`.
    Call {
        function_identifier: FunctionIdentifier,
        inputs: HashMap<Slot, Arc<Value>>,
        destination_slots: Vec<Slot>,
        source_slots: Vec<Slot>,
    },
    Finished,
}

} // verus!
