//! What a task reports while it runs, and how it stops.

use vstd::prelude::*;
use std::collections::HashMap;
use std::sync::Arc;
use crate::runtime_task::instruction::RuntimeTaskIdentifier;
use crate::virtual_machine::event::{StateChange, TrapReason};
use crate::virtual_machine::instruction::{FunctionIdentifier, Slot};
use crate::virtual_machine::types::Value;

verus! {

/// An event of a task, with the task that reported it.
#[derive(Debug)]
pub struct RuntimeTaskEvent {
    pub virtual_machine_identifier: RuntimeTaskIdentifier,
    pub virtual_machine_event_kind: RuntimeTaskEventKind,
}

#[derive(Debug)]
pub enum RuntimeTaskEventKind {
    Log(RuntimeTaskLog),
    Trap(RuntimeTaskTrap),
    StateChange(StateChange),
    ExecutionFinished,
}

#[derive(Debug)]
pub struct RuntimeTaskLog {
    pub level: RuntimeTaskLogLevel,
    pub message: String,
}

#[derive(Debug, Clone, Copy, PartialEq, Eq, Structural)]
pub enum RuntimeTaskLogLevel {
    Trace,
    Debug,
    Info,
    Warn,
    Error,
    State,
    Dev,
}

#[derive(Debug)]
pub struct RuntimeTaskTrap {
    pub trapped_position: usize,
    pub reason: TrapReason,
}

impl Clone for RuntimeTaskTrap {
    fn clone(&self) -> (r: Self)
        ensures
            r == *self,
    {
        RuntimeTaskTrap { trapped_position: self.trapped_position, reason: self.reason.clone() }
    }
}

#[derive(Debug)]
pub struct RuntimeTaskCallEvent {
    pub self_identifier: FunctionIdentifier,
    pub function_identifier: FunctionIdentifier,
    pub input: HashMap<Slot, Arc<Value>>,
    pub output: HashMap<Slot, Arc<Value>>,
}

impl RuntimeTaskCallEvent {
    pub fn new(
        self_identifier: FunctionIdentifier,
        function_identifier: FunctionIdentifier,
        input: HashMap<Slot, Arc<Value>>,
        output: HashMap<Slot, Arc<Value>>,
    ) -> (r: Self)
        ensures
            r.self_identifier == self_identifier,
            r.function_identifier == function_identifier,
            r.input@ == input@,
            r.output@ == output@,
    {
        Self { self_identifier, function_identifier, input, output }
    }
}

/// Why a task handed control back to its scheduler.
#[derive(Debug)]
pub enum RuntimeTaskYield {
    /// A user-defined function is to be called; the task resumes at the same
    /// instruction with `resume_call`.
    Call {
        function_identifier: FunctionIdentifier,
        inputs: HashMap<Slot, Arc<Value>>,
        destination_slots: Vec<Slot>,
    },
    Finished,
    /// A user-defined function ended with these output values.
    Return { function_identifier: FunctionIdentifier, outputs: Vec<Arc<Value>> },
}

} // verus!
