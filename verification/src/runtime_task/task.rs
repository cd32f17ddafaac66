//! A task: one execution context whose slots are a vector indexed by slot
//! number. Writing a slot overwrites the value at that position, or makes a
//! new slot when the position is the end of the vector. The run loop, the logger channel,
//! the global memory and float arithmetic belong to the host, as for the
//! virtual machine.

use vstd::prelude::*;
use std::collections::HashMap;
use std::sync::Arc;
use crate::persistent_vector::share;
use crate::Namespace;
use crate::runtime_task::event::{
    RuntimeTaskEvent, RuntimeTaskEventKind, RuntimeTaskLog, RuntimeTaskLogLevel, RuntimeTaskTrap,
    RuntimeTaskYield,
};
use crate::runtime_task::instruction::{Instruction, RuntimeTaskIdentifier};
use crate::virtual_machine::event::{StateChange, TrapReason};
use crate::virtual_machine::instruction::{Functions, Slot, SpecialFunctions};
use crate::virtual_machine::instruction_verifier::literal_matches;
use crate::virtual_machine::machine::{
    bug, dispatch, dispatch_result, jump_message, jump_positions_message, jump_positions_text, jump_text,
    literal_value, parse_literal, slot_label, slot_name, special_dispatch, special_result, Dispatched,
    HostRequest, SpecialDispatched,
};
use crate::virtual_machine::types::Value;

verus! {

broadcast use vstd::std_specs::hash::group_hash_axioms;

/// The position of a slot in the slot vector.
pub open spec fn slot_index(slot: Slot) -> int {
    (slot as usize) as int
}

/// The values of `inputs` when every one of them is inside the slot vector.
pub open spec fn task_read_all(slots: Seq<Arc<Value>>, inputs: Seq<Slot>) -> Option<Seq<Arc<Value>>> {
    if forall|i: int| 0 <= i < inputs.len() ==> slot_index(#[trigger] inputs[i]) < slots.len() {
        Some(inputs.map_values(|s: Slot| slots[slot_index(s)]))
    } else {
        None
    }
}

/// The slots of `inputs` with their values.
pub open spec fn task_read_map(slots: Seq<Arc<Value>>, inputs: Seq<Slot>) -> Map<Slot, Arc<Value>> {
    Map::new(|k: Slot| inputs.contains(k), |k: Slot| slots[slot_index(k)])
}

/// `slots` with `v` written at position `i`: the value there is replaced, or,
/// at the end of the vector, a new slot is made. Every other slot is kept.
pub open spec fn overwrite(slots: Seq<Arc<Value>>, i: int, v: Arc<Value>) -> Seq<Arc<Value>> {
    if i < slots.len() {
        slots.update(i, v)
    } else {
        slots.push(v)
    }
}

/// `after` is `before` with a value `v` written at the position of `slot`.
pub open spec fn written(before: Seq<Arc<Value>>, after: Seq<Arc<Value>>, slot: Slot, v: Value) -> bool {
    &&& after == overwrite(before, slot_index(slot), after[slot_index(slot)])
    &&& *after[slot_index(slot)] == v
}

/// `slots` after writing each of `entries` in order.
pub open spec fn write_all(slots: Seq<Arc<Value>>, entries: Seq<(Slot, Arc<Value>)>) -> Seq<Arc<Value>>
    decreases entries.len(),
{
    if entries.len() == 0 {
        slots
    } else {
        overwrite(write_all(slots, entries.drop_last()), slot_index(entries.last().0), entries.last().1)
    }
}

/// `entries` lists the pairs of `m`, each once, in some order.
pub open spec fn lists_map(entries: Seq<(Slot, Arc<Value>)>, m: Map<Slot, Arc<Value>>) -> bool {
    &&& entries.len() == m.dom().len()
    &&& forall|i: int| 0 <= i < entries.len() ==> m.contains_key(#[trigger] entries[i].0) && m[entries[i].0] == entries[i].1
    &&& forall|k: Slot| #[trigger] m.contains_key(k) ==> exists|i: int| 0 <= i < entries.len() && entries[i].0 == k
}

/// What a try to read a task's global memory without waiting came to.
pub enum TaskGlobalRead {
    Present(Value),
    Absent,
    Locked,
}

/// The value a read of a task's global memory gives the program, and the
/// log line the host writes: a value found is `Ok`; a missing one is an
/// `Err` saying so, logged at debug level; a locked entry is an `Err` saying
/// so, logged as a warning.
pub fn task_global_read_result(read: TaskGlobalRead) -> (r: (Value, Option<(RuntimeTaskLogLevel, String)>))
    ensures
        match read {
            TaskGlobalRead::Present(v) => r.0 == Value::Result(Ok(Box::new(v))) && r.1 is None,
            TaskGlobalRead::Absent => (r.0 matches Value::Result(Err(e)) && *e matches Value::String(m) && m@ == "absent"@)
                && (r.1 matches Some((l, w)) && l == RuntimeTaskLogLevel::Debug && w@ == "read to global memory empty space"@),
            TaskGlobalRead::Locked => (r.0 matches Value::Result(Err(e)) && *e matches Value::String(m)
                && m@ == "global memory is blocking"@)
                && (r.1 matches Some((l, w)) && l == RuntimeTaskLogLevel::Warn && w@ == "global memory is blocking is try read"@),
        },
{
    match read {
        TaskGlobalRead::Present(v) => (Value::Result(Ok(Box::new(v))), None),
        TaskGlobalRead::Absent => (
            Value::Result(Err(Box::new(Value::String("absent".to_owned())))),
            Some((RuntimeTaskLogLevel::Debug, "read to global memory empty space".to_owned())),
        ),
        TaskGlobalRead::Locked => (
            Value::Result(Err(Box::new(Value::String("global memory is blocking".to_owned())))),
            Some((RuntimeTaskLogLevel::Warn, "global memory is blocking is try read".to_owned())),
        ),
    }
}

/// The value a write of a task's global memory gives the program, and the
/// warning the host logs: `Ok(Void)` when the entry could be taken, else an
/// `Err` saying the memory is blocking.
pub fn task_global_write_result(written: bool) -> (r: (Value, Option<String>))
    ensures
        written ==> r.0 == Value::Result(Ok(Box::new(Value::Void))) && r.1 is None,
        !written ==> (r.0 matches Value::Result(Err(e)) && *e matches Value::String(m) && m@ == "global memory is blocking"@)
            && (r.1 matches Some(w) && w@ == "global memory is blocking is try write"@),
{
    if written {
        (Value::Result(Ok(Box::new(Value::Void))), None)
    } else {
        (
            Value::Result(Err(Box::new(Value::String("global memory is blocking".to_owned())))),
            Some("global memory is blocking is try write".to_owned()),
        )
    }
}

/// What one step of a task came to.
#[derive(Debug)]
pub enum RuntimeTaskStep {
    /// The instruction ran; the task can go on.
    Continue,
    /// A user-defined function is to be called, or has returned.
    Yield(RuntimeTaskYield),
    /// The host is to serve a request; `complete_host_request` goes on.
    Host(HostRequest),
    /// The instruction pointer is past the last instruction.
    Finished,
    /// A runtime failure at the current instruction.
    Trapped(RuntimeTaskTrap),
}

/// A single execution context: its instruction stream, its slots and its
/// position. Tasks run independently; their scheduling is the caller's.
pub struct RuntimeTask {
    pub virtual_machine_identifier: RuntimeTaskIdentifier,
    pub instruction_pointer: usize,
    pub instructions: Arc<Vec<Instruction>>,
    pub input_slots: Vec<(Slot, Arc<Value>)>,
    pub output_slots: Vec<(Slot, Arc<Value>)>,
    pub slots: Vec<Arc<Value>>,
    pub modification_namespace_list: Arc<Vec<Namespace>>,
}

/// `e` is an event of the task `id`: the slot at `slot`'s position, which
/// held what `before` holds there, now holds `v`.
pub open spec fn task_reports_change(e: RuntimeTaskEvent, id: RuntimeTaskIdentifier, before: Seq<Arc<Value>>, slot: Slot, v: Arc<Value>) -> bool {
    &&& e.virtual_machine_identifier == id
    &&& e.virtual_machine_event_kind matches RuntimeTaskEventKind::StateChange(c) && c.identifier@ == slot_label(slot)
        && c.old == (if slot_index(slot) < before.len() { Some(before[slot_index(slot)]) } else { None })
        && c.new == Some(v)
}

/// `e` is a log line of the task `id` at `level` with `message`.
pub open spec fn task_reports_log(e: RuntimeTaskEvent, id: RuntimeTaskIdentifier, level: RuntimeTaskLogLevel, message: Seq<char>) -> bool {
    &&& e.virtual_machine_identifier == id
    &&& e.virtual_machine_event_kind matches RuntimeTaskEventKind::Log(l) && l.level == level && l.message@ == message
}

/// `after` is `before` and then `n` more events.
pub open spec fn task_extended(before: Seq<RuntimeTaskEvent>, after: Seq<RuntimeTaskEvent>, n: int) -> bool {
    after.len() == before.len() + n && after.take(before.len() as int) == before
}

/// The event of the task `id` with `kind`.
pub open spec fn stamped(id: RuntimeTaskIdentifier, kind: RuntimeTaskEventKind) -> RuntimeTaskEvent {
    RuntimeTaskEvent { virtual_machine_identifier: id, virtual_machine_event_kind: kind }
}

pub open spec fn task_trapped(r: RuntimeTaskStep, ip: usize, message: Seq<char>) -> bool {
    r matches RuntimeTaskStep::Trapped(t) && t.trapped_position == ip
        && (t.reason matches TrapReason::VerifierBug(m) && m@ == message)
}

/// Whether the step at the instruction pointer writes a slot past the end of
/// the slot vector, where no slot can be made.
pub open spec fn step_overflows(t: RuntimeTask) -> bool {
    let ip = t.instruction_pointer;
    &&& ip < t.instructions@.len()
    &&& match t.instructions@[ip as int] {
        Instruction::Bind { slot, value_type, value } => literal_matches(value, value_type) && slot_index(slot) > t.slots@.len(),
        Instruction::Call { function_name, inputs, output } => match task_read_all(t.slots@, inputs@) {
            Some(args) => slot_index(output) > t.slots@.len()
                && exists|d: Result<Dispatched, TrapReason>| #[trigger] dispatch_result(function_name, args, d)
                    && d matches Ok(Dispatched::Value(_)),
            None => false,
        },
        Instruction::SpecialCall { function_name, inputs, output } => match task_read_all(t.slots@, inputs@) {
            Some(args) => slot_index(output) > t.slots@.len()
                && exists|d: Result<SpecialDispatched, TrapReason>|
                    #[trigger] special_result(function_name, args, ip, t.modification_namespace_list@, d)
                    && d matches Ok(SpecialDispatched::Value(_)),
            None => false,
        },
        _ => false,
    }
}

/// What one step does: the effect of the instruction at the instruction
/// pointer on the position and the slots, and the outcome. The code, the
/// loaded mods and the identity of the task never change.
pub open spec fn task_step_result(m: RuntimeTask, n: RuntimeTask, r: RuntimeTaskStep) -> bool {
    let ip = m.instruction_pointer;
    let unchanged = n.instruction_pointer == ip && n.slots@ == m.slots@;
    &&& n.virtual_machine_identifier == m.virtual_machine_identifier
    &&& n.instructions == m.instructions
    &&& n.modification_namespace_list == m.modification_namespace_list
    &&& n.input_slots == m.input_slots
    &&& n.output_slots == m.output_slots
    &&& if ip >= m.instructions@.len() {
        r is Finished && unchanged
    } else {
        match m.instructions@[ip as int] {
            Instruction::Bind { slot, value_type, value } => if literal_matches(value, value_type) {
                r is Continue && n.instruction_pointer == ip + 1 && written(m.slots@, n.slots@, slot, literal_value(value))
            } else {
                task_trapped(r, ip, "Type Mismatch"@) && unchanged
            },
            Instruction::Call { function_name, inputs, output } => match task_read_all(m.slots@, inputs@) {
                None => task_trapped(r, ip, "Unbound Slot"@) && unchanged,
                Some(args) => exists|d: Result<Dispatched, TrapReason>| #[trigger] dispatch_result(function_name, args, d) && match d {
                    Ok(Dispatched::Value(v)) => r is Continue && n.instruction_pointer == ip + 1 && written(m.slots@, n.slots@, output, v),
                    Ok(Dispatched::Float { function, lhs, rhs }) =>
                        r == RuntimeTaskStep::Host(HostRequest::Float { function, lhs, rhs, output }) && unchanged,
                    Err(reason) => r == RuntimeTaskStep::Trapped(RuntimeTaskTrap { trapped_position: ip, reason }) && unchanged,
                },
            },
            Instruction::SpecialCall { function_name, inputs, output } => match task_read_all(m.slots@, inputs@) {
                None => task_trapped(r, ip, "Unbound Slot"@) && unchanged,
                Some(args) => exists|d: Result<SpecialDispatched, TrapReason>|
                    #[trigger] special_result(function_name, args, ip, m.modification_namespace_list@, d) && match d {
                    Ok(SpecialDispatched::Value(v)) => r is Continue && n.instruction_pointer == ip + 1 && written(m.slots@, n.slots@, output, v),
                    Ok(SpecialDispatched::ReadGlobalMemory { namespace, identifier }) =>
                        r == RuntimeTaskStep::Host(HostRequest::ReadGlobalMemory { namespace, identifier, output }) && unchanged,
                    Ok(SpecialDispatched::WriteGlobalMemory { namespace, identifier, value }) =>
                        r == RuntimeTaskStep::Host(HostRequest::WriteGlobalMemory { namespace, identifier, value, output }) && unchanged,
                    Err(reason) => r == RuntimeTaskStep::Trapped(RuntimeTaskTrap { trapped_position: ip, reason }) && unchanged,
                },
            },
            Instruction::DefinedCall { function_identifier, inputs, destination_slots } => match task_read_all(m.slots@, inputs@) {
                None => task_trapped(r, ip, "Unbound Slot"@) && unchanged,
                Some(_) => unchanged && (r matches RuntimeTaskStep::Yield(RuntimeTaskYield::Call { function_identifier: f, inputs: i, destination_slots: d })
                    && f == function_identifier && i@ == task_read_map(m.slots@, inputs@) && d@ == destination_slots@),
            },
            Instruction::ReturnDefinedCall { function_identifier, outputs } => match task_read_all(m.slots@, outputs@) {
                None => task_trapped(r, ip, "Unbound Slot"@) && unchanged,
                Some(values) => unchanged && (r matches RuntimeTaskStep::Yield(RuntimeTaskYield::Return { function_identifier: f, outputs: o })
                    && f == function_identifier && o@ == values),
            },
            Instruction::Jump { target_position } => r is Continue && n.instruction_pointer == target_position && n.slots@ == m.slots@,
            Instruction::ConditionalJump { condition, true_target_position, false_target_position } =>
                if slot_index(condition) >= m.slots@.len() {
                    task_trapped(r, ip, "Unbound Slot"@) && unchanged
                } else {
                    match *m.slots@[slot_index(condition)] {
                        Value::Boolean(b) => r is Continue && n.slots@ == m.slots@
                            && n.instruction_pointer == (if b { true_target_position } else { false_target_position }),
                        _ => task_trapped(r, ip, "Type Mismatch"@) && unchanged,
                    }
                },
        }
    }
}

/// The events that one step appends to `before`, each stamped with the
/// task's identifier: the end of the stream is logged and reported; a trap
/// is reported with the end of execution; a write reports the change at its
/// position; a jump logs where it goes.
pub open spec fn task_step_events(m: RuntimeTask, n: RuntimeTask, r: RuntimeTaskStep, before: Seq<RuntimeTaskEvent>, after: Seq<RuntimeTaskEvent>) -> bool {
    let k = before.len() as int;
    let id = m.virtual_machine_identifier;
    match r {
        RuntimeTaskStep::Finished => task_extended(before, after, 2)
            && task_reports_log(after[k], id, RuntimeTaskLogLevel::Info, "Virtual Machine Halt"@)
            && after[k + 1] == stamped(id, RuntimeTaskEventKind::ExecutionFinished),
        RuntimeTaskStep::Trapped(t) => task_extended(before, after, 2)
            && after[k] == stamped(id, RuntimeTaskEventKind::Trap(t))
            && after[k + 1] == stamped(id, RuntimeTaskEventKind::ExecutionFinished),
        RuntimeTaskStep::Continue => match m.instructions@[m.instruction_pointer as int] {
            Instruction::Bind { slot, .. } => task_extended(before, after, 1)
                && task_reports_change(after[k], id, m.slots@, slot, n.slots@[slot_index(slot)]),
            Instruction::Call { output, .. } => task_extended(before, after, 1)
                && task_reports_change(after[k], id, m.slots@, output, n.slots@[slot_index(output)]),
            Instruction::SpecialCall { output, .. } => task_extended(before, after, 1)
                && task_reports_change(after[k], id, m.slots@, output, n.slots@[slot_index(output)]),
            Instruction::Jump { target_position } => task_extended(before, after, 1)
                && task_reports_log(after[k], id, RuntimeTaskLogLevel::Debug, jump_text(target_position)),
            Instruction::ConditionalJump { true_target_position, false_target_position, .. } => task_extended(before, after, 2)
                && task_reports_log(after[k], id, RuntimeTaskLogLevel::Debug, jump_positions_text(true_target_position, false_target_position))
                && task_reports_log(after[k + 1], id, RuntimeTaskLogLevel::Debug, jump_text(n.instruction_pointer)),
            _ => false,
        },
        _ => after == before,
    }
}

impl RuntimeTask {
    pub fn new(
        virtual_machine_identifier: RuntimeTaskIdentifier,
        instructions: Arc<Vec<Instruction>>,
        modification_namespace_list: Arc<Vec<Namespace>>,
    ) -> (r: Self)
        ensures
            r.virtual_machine_identifier == virtual_machine_identifier,
            r.instruction_pointer == 0,
            r.instructions@ == instructions@,
            r.slots@.len() == 0,
            r.modification_namespace_list@ == modification_namespace_list@,
            r.input_slots@.len() == 0,
            r.output_slots@.len() == 0,
    {
        Self::with_instruction_pointer(virtual_machine_identifier, instructions, 0, modification_namespace_list)
    }

    pub fn with_instruction_pointer(
        virtual_machine_identifier: RuntimeTaskIdentifier,
        instructions: Arc<Vec<Instruction>>,
        instruction_pointer: usize,
        modification_namespace_list: Arc<Vec<Namespace>>,
    ) -> (r: Self)
        ensures
            r.virtual_machine_identifier == virtual_machine_identifier,
            r.instruction_pointer == instruction_pointer,
            r.instructions@ == instructions@,
            r.slots@.len() == 0,
            r.modification_namespace_list@ == modification_namespace_list@,
            r.input_slots@.len() == 0,
            r.output_slots@.len() == 0,
    {
        RuntimeTask {
            virtual_machine_identifier,
            instruction_pointer,
            instructions,
            input_slots: Vec::new(),
            output_slots: Vec::new(),
            slots: Vec::new(),
            modification_namespace_list,
        }
    }

    /// A task for a call of a user-defined function, sharing this one's
    /// loaded mods.
    pub fn call_function(
        &self,
        virtual_machine_identifier: RuntimeTaskIdentifier,
        instruction_pointer: usize,
        instructions: Arc<Vec<Instruction>>,
        input_slots: Vec<(Slot, Arc<Value>)>,
    ) -> (r: Self)
        ensures
            r.virtual_machine_identifier == virtual_machine_identifier,
            r.instruction_pointer == instruction_pointer,
            r.instructions@ == instructions@,
            r.slots@.len() == 0,
            r.modification_namespace_list@ == self.modification_namespace_list@,
            r.input_slots@ == input_slots@,
            r.output_slots@.len() == 0,
    {
        RuntimeTask {
            virtual_machine_identifier,
            instruction_pointer,
            instructions,
            input_slots,
            output_slots: Vec::new(),
            slots: Vec::new(),
            modification_namespace_list: share(&self.modification_namespace_list),
        }
    }

    /// Adds an event, stamped with the identifier of the task, to `events`.
    fn event_emit(&self, events: &mut Vec<RuntimeTaskEvent>, kind: RuntimeTaskEventKind)
        ensures
            final(events)@ == old(events)@.push(RuntimeTaskEvent {
                virtual_machine_identifier: self.virtual_machine_identifier,
                virtual_machine_event_kind: kind,
            }),
    {
        events.push(RuntimeTaskEvent { virtual_machine_identifier: self.virtual_machine_identifier, virtual_machine_event_kind: kind });
    }

    fn log(&self, events: &mut Vec<RuntimeTaskEvent>, level: RuntimeTaskLogLevel, message: String)
        ensures
            final(events)@ == old(events)@.push(RuntimeTaskEvent {
                virtual_machine_identifier: self.virtual_machine_identifier,
                virtual_machine_event_kind: RuntimeTaskEventKind::Log(RuntimeTaskLog { level, message }),
            }),
            task_extended(old(events)@, final(events)@, 1),
            task_reports_log(final(events)@[old(events)@.len() as int], self.virtual_machine_identifier, level, message@),
    {
        self.event_emit(events, RuntimeTaskEventKind::Log(RuntimeTaskLog { level, message }));
        proof {
            assert(events@.take(old(events)@.len() as int) =~= old(events)@);
        }
    }

    fn trap(&self, reason: TrapReason) -> (r: RuntimeTaskTrap)
        ensures
            r.trapped_position == self.instruction_pointer,
            r.reason == reason,
    {
        RuntimeTaskTrap { trapped_position: self.instruction_pointer, reason }
    }

    /// The value of `slot`; a slot past the end of the vector is a verifier
    /// bug.
    fn read(&self, slot: Slot) -> (r: Result<Arc<Value>, TrapReason>)
        ensures
            slot_index(slot) < self.slots@.len() ==> r == Ok::<Arc<Value>, TrapReason>(self.slots@[slot_index(slot)]),
            slot_index(slot) >= self.slots@.len() ==> (r matches Err(TrapReason::VerifierBug(m)) && m@ == "Unbound Slot"@),
    {
        let index = slot as usize;
        if index < self.slots.len() {
            Ok(share(&self.slots[index]))
        } else {
            Err(bug("Unbound Slot"))
        }
    }

    /// The values of `inputs`, in order.
    fn read_arguments(&self, inputs: &Vec<Slot>) -> (r: Result<Vec<Arc<Value>>, TrapReason>)
        ensures
            task_read_all(self.slots@, inputs@) matches Some(args) ==> (r matches Ok(v) && v@ == args),
            task_read_all(self.slots@, inputs@) is None ==> (r matches Err(TrapReason::VerifierBug(m)) && m@ == "Unbound Slot"@),
    {
        let mut args: Vec<Arc<Value>> = Vec::new();
        let mut i: usize = 0;
        while i < inputs.len()
            invariant
                i <= inputs@.len(),
                forall|j: int| 0 <= j < i ==> slot_index(#[trigger] inputs@[j]) < self.slots@.len(),
                args@ == inputs@.take(i as int).map_values(|s: Slot| self.slots@[slot_index(s)]),
            decreases inputs@.len() - i,
        {
            match self.read(inputs[i]) {
                Ok(v) => {
                    args.push(v);
                },
                Err(e) => {
                    return Err(e);
                },
            }
            proof {
                assert(inputs@.take(i + 1).map_values(|s: Slot| self.slots@[slot_index(s)])
                    == inputs@.take(i as int).map_values(|s: Slot| self.slots@[slot_index(s)]).push(self.slots@[slot_index(inputs@[i as int])]));
            }
            i = i + 1;
        }
        proof {
            assert(inputs@.take(i as int) == inputs@);
        }
        Ok(args)
    }

    /// The slots of `inputs` with their values, for a call.
    fn read_inputs(&self, inputs: &Vec<Slot>) -> (r: Result<HashMap<Slot, Arc<Value>>, TrapReason>)
        ensures
            task_read_all(self.slots@, inputs@) is Some ==> (r matches Ok(m) && m@ == task_read_map(self.slots@, inputs@)),
            task_read_all(self.slots@, inputs@) is None ==> (r matches Err(TrapReason::VerifierBug(m)) && m@ == "Unbound Slot"@),
    {
        let mut result: HashMap<Slot, Arc<Value>> = HashMap::new();
        let mut i: usize = 0;
        while i < inputs.len()
            invariant
                i <= inputs@.len(),
                forall|j: int| 0 <= j < i ==> slot_index(#[trigger] inputs@[j]) < self.slots@.len(),
                result@ == task_read_map(self.slots@, inputs@.take(i as int)),
            decreases inputs@.len() - i,
        {
            let slot = inputs[i];
            match self.read(slot) {
                Ok(v) => {
                    result.insert(slot, v);
                },
                Err(e) => {
                    return Err(e);
                },
            }
            proof {
                let prefix = inputs@.take(i as int);
                let next = inputs@.take(i + 1);
                assert(next == prefix.push(slot));
                assert forall|k: Slot| next.contains(k) <==> (prefix.contains(k) || k == slot) by {
                    if next.contains(k) {
                        let j = choose|j: int| 0 <= j < next.len() && next[j] == k;
                        if j < prefix.len() {
                            assert(prefix[j] == k);
                        }
                    }
                    if prefix.contains(k) {
                        let j = choose|j: int| 0 <= j < prefix.len() && prefix[j] == k;
                        assert(next[j] == k);
                    }
                    if k == slot {
                        assert(next[i as int] == k);
                    }
                }
                assert(result@ =~= task_read_map(self.slots@, next));
            }
            i = i + 1;
        }
        proof {
            assert(inputs@.take(i as int) == inputs@);
        }
        Ok(result)
    }

    /// Writes `value` at the position of `slot` (overwriting, or making a new
    /// slot at the end), reporting the change with the value that was at that
    /// position before.
    fn write(&mut self, events: &mut Vec<RuntimeTaskEvent>, slot: Slot, value: Arc<Value>)
        requires
            slot_index(slot) <= old(self).slots@.len(),
        ensures
            final(self).slots@ == overwrite(old(self).slots@, slot_index(slot), value),
            final(self).instruction_pointer == old(self).instruction_pointer,
            final(self).instructions == old(self).instructions,
            final(self).modification_namespace_list == old(self).modification_namespace_list,
            final(self).virtual_machine_identifier == old(self).virtual_machine_identifier,
            final(self).input_slots == old(self).input_slots,
            final(self).output_slots == old(self).output_slots,
            task_extended(old(events)@, final(events)@, 1),
            task_reports_change(final(events)@[old(events)@.len() as int], old(self).virtual_machine_identifier, old(self).slots@, slot, value),
    {
        let index = slot as usize;
        let old_value = if index < self.slots.len() { Some(share(&self.slots[index])) } else { None };
        if index < self.slots.len() {
            self.slots.set(index, share(&value));
        } else {
            self.slots.push(share(&value));
        }
        let identifier = slot_name(slot);
        self.event_emit(events, RuntimeTaskEventKind::StateChange(StateChange { identifier, old: old_value, new: Some(value) }));
        proof {
            assert(events@.take(old(events)@.len() as int) =~= old(events)@);
        }
    }

    /// Reports a trap and the end of execution.
    fn fail(&self, events: &mut Vec<RuntimeTaskEvent>, reason: TrapReason) -> (r: RuntimeTaskStep)
        ensures
            r == RuntimeTaskStep::Trapped(RuntimeTaskTrap { trapped_position: self.instruction_pointer, reason }),
            task_extended(old(events)@, final(events)@, 2),
            final(events)@[old(events)@.len() as int] == stamped(self.virtual_machine_identifier,
                RuntimeTaskEventKind::Trap(RuntimeTaskTrap { trapped_position: self.instruction_pointer, reason })),
            final(events)@[old(events)@.len() + 1int] == stamped(self.virtual_machine_identifier, RuntimeTaskEventKind::ExecutionFinished),
    {
        let trap = self.trap(reason);
        self.event_emit(events, RuntimeTaskEventKind::Trap(trap.clone()));
        self.event_emit(events, RuntimeTaskEventKind::ExecutionFinished);
        proof {
            assert(events@.take(old(events)@.len() as int) =~= old(events)@);
        }
        RuntimeTaskStep::Trapped(trap)
    }
}


proof fn lemma_dispatch_kind(f: Functions, args: Seq<Arc<Value>>, d1: Result<Dispatched, TrapReason>, d2: Result<Dispatched, TrapReason>)
    requires
        dispatch_result(f, args, d1),
        dispatch_result(f, args, d2),
    ensures
        (d1 matches Ok(Dispatched::Value(_))) == (d2 matches Ok(Dispatched::Value(_))),
{
}

proof fn lemma_special_kind(
    f: SpecialFunctions,
    args: Seq<Arc<Value>>,
    ip: usize,
    namespaces: Seq<Namespace>,
    d1: Result<SpecialDispatched, TrapReason>,
    d2: Result<SpecialDispatched, TrapReason>,
)
    requires
        special_result(f, args, ip, namespaces, d1),
        special_result(f, args, ip, namespaces, d2),
    ensures
        (d1 matches Ok(SpecialDispatched::Value(_))) == (d2 matches Ok(SpecialDispatched::Value(_))),
{
}

impl RuntimeTask {
    /// Whether the next step would write a slot past the end of the slot
    /// vector, where `step` may not be called.
    pub fn step_would_overflow(&self) -> (r: bool)
        ensures
            r == step_overflows(*self),
    {
        let ip = self.instruction_pointer;
        if ip >= self.instructions.len() {
            return false;
        }
        let len = self.slots.len();
        match &self.instructions[ip] {
            Instruction::Bind { slot, value_type, value } => {
                parse_literal(value_type, value).is_some() && (*slot as usize) > len
            },
            Instruction::Call { function_name, inputs, output } => {
                match self.read_arguments(inputs) {
                    Ok(args) => {
                        let d = dispatch(*function_name, args.as_slice());
                        proof {
                            assert(dispatch_result(*function_name, args@, d));
                            assert forall|d2: Result<Dispatched, TrapReason>| #[trigger] dispatch_result(*function_name, args@, d2)
                                implies (d2 matches Ok(Dispatched::Value(_))) == (d matches Ok(Dispatched::Value(_))) by {
                                lemma_dispatch_kind(*function_name, args@, d, d2);
                            }
                        }
                        let is_value = match d {
                            Ok(Dispatched::Value(_)) => true,
                            _ => false,
                        };
                        is_value && (*output as usize) > len
                    },
                    Err(_) => false,
                }
            },
            Instruction::SpecialCall { function_name, inputs, output } => {
                match self.read_arguments(inputs) {
                    Ok(args) => {
                        let d = special_dispatch(*function_name, args.as_slice(), ip, &*self.modification_namespace_list);
                        proof {
                            assert(special_result(*function_name, args@, ip, self.modification_namespace_list@, d));
                            assert forall|d2: Result<SpecialDispatched, TrapReason>|
                                #[trigger] special_result(*function_name, args@, ip, self.modification_namespace_list@, d2)
                                implies (d2 matches Ok(SpecialDispatched::Value(_))) == (d matches Ok(SpecialDispatched::Value(_))) by {
                                lemma_special_kind(*function_name, args@, ip, self.modification_namespace_list@, d, d2);
                            }
                        }
                        let is_value = match d {
                            Ok(SpecialDispatched::Value(_)) => true,
                            _ => false,
                        };
                        is_value && (*output as usize) > len
                    },
                    Err(_) => false,
                }
            },
            _ => false,
        }
    }
}

impl RuntimeTask {
    /// Runs the instruction at the instruction pointer, or reports the end of
    /// the stream. Log lines, state changes, traps and the end of execution
    /// are appended to `events` for the host to send on.
    pub fn step(&mut self, events: &mut Vec<RuntimeTaskEvent>) -> (r: RuntimeTaskStep)
        requires
            !step_overflows(*old(self)),
        ensures
            task_step_result(*old(self), *final(self), r),
            task_step_events(*old(self), *final(self), r, old(events)@, final(events)@),
    {
        let ip = self.instruction_pointer;
        if ip >= self.instructions.len() {
            self.log(events, RuntimeTaskLogLevel::Info, "Virtual Machine Halt".to_owned());
            self.event_emit(events, RuntimeTaskEventKind::ExecutionFinished);
            proof {
                assert(events@.take(old(events)@.len() as int) =~= old(events)@);
            }
            return RuntimeTaskStep::Finished;
        }
        let code = share(&self.instructions);
        match &code[ip] {
            Instruction::Bind { slot, value_type, value } => {
                match parse_literal(value_type, value) {
                    Some(v) => {
                        let a = Arc::new(v);
                        self.write(events, *slot, a);
                        self.instruction_pointer = ip + 1;
                        RuntimeTaskStep::Continue
                    },
                    None => self.fail(events, bug("Type Mismatch")),
                }
            },
            Instruction::Call { function_name, inputs, output } => {
                let args = match self.read_arguments(inputs) {
                    Ok(args) => args,
                    Err(e) => {
                        return self.fail(events, e);
                    },
                };
                let d = dispatch(*function_name, args.as_slice());
                proof {
                    assert(dispatch_result(*function_name, args@, d));
                }
                match d {
                    Ok(Dispatched::Value(v)) => {
                        let a = Arc::new(v);
                        self.write(events, *output, a);
                        self.instruction_pointer = ip + 1;
                        RuntimeTaskStep::Continue
                    },
                    Ok(Dispatched::Float { function, lhs, rhs }) => {
                        RuntimeTaskStep::Host(HostRequest::Float { function, lhs, rhs, output: *output })
                    },
                    Err(reason) => self.fail(events, reason),
                }
            },
            Instruction::SpecialCall { function_name, inputs, output } => {
                let args = match self.read_arguments(inputs) {
                    Ok(args) => args,
                    Err(e) => {
                        return self.fail(events, e);
                    },
                };
                let d = special_dispatch(*function_name, args.as_slice(), ip, &*self.modification_namespace_list);
                proof {
                    assert(special_result(*function_name, args@, ip, self.modification_namespace_list@, d));
                }
                match d {
                    Ok(SpecialDispatched::Value(v)) => {
                        let a = Arc::new(v);
                        self.write(events, *output, a);
                        self.instruction_pointer = ip + 1;
                        RuntimeTaskStep::Continue
                    },
                    Ok(SpecialDispatched::ReadGlobalMemory { namespace, identifier }) => {
                        RuntimeTaskStep::Host(HostRequest::ReadGlobalMemory { namespace, identifier, output: *output })
                    },
                    Ok(SpecialDispatched::WriteGlobalMemory { namespace, identifier, value }) => {
                        RuntimeTaskStep::Host(HostRequest::WriteGlobalMemory { namespace, identifier, value, output: *output })
                    },
                    Err(reason) => self.fail(events, reason),
                }
            },
            Instruction::DefinedCall { function_identifier, inputs, destination_slots } => {
                let resolved = match self.read_inputs(inputs) {
                    Ok(m) => m,
                    Err(e) => {
                        return self.fail(events, e);
                    },
                };
                RuntimeTaskStep::Yield(RuntimeTaskYield::Call {
                    function_identifier: *function_identifier,
                    inputs: resolved,
                    destination_slots: destination_slots.clone(),
                })
            },
            Instruction::ReturnDefinedCall { function_identifier, outputs } => {
                let values = match self.read_arguments(outputs) {
                    Ok(v) => v,
                    Err(e) => {
                        return self.fail(events, e);
                    },
                };
                RuntimeTaskStep::Yield(RuntimeTaskYield::Return { function_identifier: *function_identifier, outputs: values })
            },
            Instruction::Jump { target_position } => {
                self.log(events, RuntimeTaskLogLevel::Debug, jump_message(*target_position));
                self.instruction_pointer = *target_position;
                RuntimeTaskStep::Continue
            },
            Instruction::ConditionalJump { condition, true_target_position, false_target_position } => {
                let v = match self.read(*condition) {
                    Ok(v) => v,
                    Err(e) => {
                        return self.fail(events, e);
                    },
                };
                let b = match &*v {
                    Value::Boolean(b) => *b,
                    _ => {
                        return self.fail(events, bug("Type Mismatch"));
                    },
                };
                self.log(events, RuntimeTaskLogLevel::Debug, jump_positions_message(*true_target_position, *false_target_position));
                let target = if b { *true_target_position } else { *false_target_position };
                self.log(events, RuntimeTaskLogLevel::Debug, jump_message(target));
                proof {
                    assert(events@.take(old(events)@.len() as int) =~= old(events)@);
                }
                self.instruction_pointer = target;
                RuntimeTaskStep::Continue
            },
        }
    }

    /// Writes the result of a host request to its output slot and moves on.
    pub fn complete_host_request(&mut self, events: &mut Vec<RuntimeTaskEvent>, output: Slot, value: Value)
        requires
            old(self).instruction_pointer < usize::MAX,
            slot_index(output) <= old(self).slots@.len(),
        ensures
            written(old(self).slots@, final(self).slots@, output, value),
            task_extended(old(events)@, final(events)@, 1),
            task_reports_change(final(events)@[old(events)@.len() as int], old(self).virtual_machine_identifier,
                old(self).slots@, output, final(self).slots@[slot_index(output)]),
            final(self).instruction_pointer == old(self).instruction_pointer + 1,
            final(self).instructions == old(self).instructions,
            final(self).modification_namespace_list == old(self).modification_namespace_list,
            final(self).virtual_machine_identifier == old(self).virtual_machine_identifier,
    {
        let a = Arc::new(value);
        self.write(events, output, a);
        self.instruction_pointer = self.instruction_pointer + 1;
    }
}

impl RuntimeTask {
    /// Takes back the outputs of a finished call of a user-defined function,
    /// writing each at the position of its slot in the order the map
    /// yields them, and moves past the call.
    pub fn resume_call(&mut self, values: HashMap<Slot, Arc<Value>>) -> (r: Result<(), RuntimeTaskTrap>)
        requires
            old(self).instruction_pointer < usize::MAX,
            forall|k: Slot| #[trigger] values@.contains_key(k) ==> slot_index(k) <= old(self).slots@.len(),
        ensures
            r is Ok,
            exists|entries: Seq<(Slot, Arc<Value>)>| lists_map(entries, values@)
                && final(self).slots@ == write_all(old(self).slots@, entries),
            final(self).instruction_pointer == old(self).instruction_pointer + 1,
            final(self).instructions == old(self).instructions,
            final(self).modification_namespace_list == old(self).modification_namespace_list,
            final(self).virtual_machine_identifier == old(self).virtual_machine_identifier,
    {
        let ghost before = self.slots@;
        let ghost m = values@;
        proof {
            assert(write_all(before, Seq::<(Slot, Arc<Value>)>::empty()) == before);
            if m.dom().len() == 0 {
                assert(lists_map(Seq::<(Slot, Arc<Value>)>::empty(), m)) by {
                    assert forall|k: Slot| #[trigger] m.contains_key(k) implies false by {
                        vstd::set_lib::lemma_set_empty_equivalency_len(m.dom());
                    }
                }
            }
        }
        for kv in it: values.iter()
            invariant
                self.instruction_pointer == old(self).instruction_pointer,
                self.instructions == old(self).instructions,
                self.modification_namespace_list == old(self).modification_namespace_list,
                self.virtual_machine_identifier == old(self).virtual_machine_identifier,
                before == old(self).slots@,
                m == values@,
                forall|k: Slot| #[trigger] m.contains_key(k) ==> slot_index(k) <= before.len(),
                it.seq().len() == m.dom().len(),
                forall|j: int| 0 <= j < it.seq().len() ==> m.contains_key(*(#[trigger] it.seq()[j]).0) && m[*it.seq()[j].0] == *it.seq()[j].1,
                forall|k: Slot| #[trigger] m.contains_key(k) ==> it.seq().contains((&k, &m[k])),
                self.slots@.len() >= before.len(),
                self.slots@ == write_all(before, it.seq().map_values(|p: (&Slot, &Arc<Value>)| (*p.0, *p.1)).take(it.index() as int)),
                it.index() == it.seq().len() ==> exists|e: Seq<(Slot, Arc<Value>)>|
                    #[trigger] lists_map(e, m) && self.slots@ == write_all(before, e),
        {
            let ghost order = it.seq().map_values(|p: (&Slot, &Arc<Value>)| (*p.0, *p.1));
            let ghost done = it.index();
            let (slot, value) = kv;
            assert(m.contains_key(*it.seq()[done as int].0));
            let index = *slot as usize;
            if index < self.slots.len() {
                self.slots.set(index, share(value));
            } else {
                self.slots.push(share(value));
            }
            proof {
                assert(order.take(done + 1).drop_last() == order.take(done as int));
                assert(order.take(done + 1).last() == order[done as int]);
                assert(order.take(order.len() as int) == order);
                assert forall|k: Slot| #[trigger] m.contains_key(k) implies
                    exists|i: int| 0 <= i < order.len() && order[i].0 == k by {
                    assert(it.seq().contains((&k, &m[k])));
                    let i = choose|i: int| 0 <= i < it.seq().len() && it.seq()[i] == (&k, &m[k]);
                    assert(order[i].0 == k);
                }
                assert forall|i: int| 0 <= i < order.len() implies
                    m.contains_key(#[trigger] order[i].0) && m[order[i].0] == order[i].1 by {
                    assert(m.contains_key(*it.seq()[i].0));
                }
                assert(lists_map(order, m));
            }
        }
        self.instruction_pointer = self.instruction_pointer + 1;
        Ok(())
    }
}

} // verus!
