use state_game::runtime_task::task::{task_global_read_result, task_global_write_result, TaskGlobalRead};
use state_game::runtime_task::event::{RuntimeTaskEvent, RuntimeTaskEventKind, RuntimeTaskYield};
use state_game::runtime_task::instruction::Instruction;
use state_game::runtime_task::task::{RuntimeTask, RuntimeTaskStep};
use state_game::virtual_machine::event::TrapReason;
use state_game::virtual_machine::instruction::{Functions, Literal, SpecialFunctions};
use state_game::virtual_machine::machine::HostRequest;
use state_game::virtual_machine::types::{Type, Value};
use state_game::Namespace;
use std::collections::HashMap;
use std::sync::Arc;

fn task(instructions: Vec<Instruction>) -> RuntimeTask {
    RuntimeTask::new(7, Arc::new(instructions), Arc::new(vec![Namespace("noting".to_string())]))
}

fn bind_int(slot: u64, n: i64) -> Instruction {
    Instruction::Bind { slot, value_type: Type::Integer, value: Literal::Integer(n) }
}

/// Steps until the task stops; returns the last outcome.
fn run(t: &mut RuntimeTask, events: &mut Vec<RuntimeTaskEvent>) -> RuntimeTaskStep {
    loop {
        assert!(!t.step_would_overflow());
        match t.step(events) {
            RuntimeTaskStep::Continue => {}
            other => return other,
        }
    }
}

fn integer_at(t: &RuntimeTask, index: usize) -> i64 {
    match &*t.slots[index] {
        Value::Integer(n) => *n,
        other => panic!("not an integer: {:?}", other),
    }
}

#[test]
fn add_integer() {
    let instructions = vec![
        bind_int(0, 2),
        bind_int(1, 3),
        Instruction::Call { function_name: Functions::AddInteger, inputs: vec![0, 1], output: 2 },
    ];
    let mut t = task(instructions);
    let mut events = Vec::new();
    assert!(matches!(run(&mut t, &mut events), RuntimeTaskStep::Finished));
    assert_eq!(integer_at(&t, 2), 5);
    assert!(events.iter().all(|e| e.virtual_machine_identifier == 7));
    assert!(matches!(events.last().unwrap().virtual_machine_event_kind, RuntimeTaskEventKind::ExecutionFinished));
}

#[test]
fn fibo() {
    let instructions = vec![
        bind_int(0, 5),
        bind_int(1, 0),
        bind_int(2, 1),
        bind_int(3, 13),
        bind_int(4, 20),
        bind_int(5, 40),
        Instruction::Call { function_name: Functions::VectorInitInteger, inputs: Vec::new(), output: 6 },
        bind_int(7, 0),
        bind_int(8, 0),
        Instruction::Call { function_name: Functions::VectorPushInteger, inputs: vec![6, 7], output: 9 },
        Instruction::Call { function_name: Functions::VectorPushInteger, inputs: vec![9, 8], output: 10 },
    ];
    let t = task(instructions);
    assert_eq!(t.instruction_pointer, 0);
    assert_eq!(t.instructions.len(), 11);
}

#[test]
fn writing_a_slot_overwrites_it() {
    let mut t = task(vec![bind_int(0, 1), bind_int(0, 2), bind_int(1, 3), bind_int(0, 4)]);
    let mut events = Vec::new();
    assert!(matches!(run(&mut t, &mut events), RuntimeTaskStep::Finished));
    assert_eq!(t.slots.len(), 2);
    assert_eq!(integer_at(&t, 0), 4);
    assert_eq!(integer_at(&t, 1), 3);
}

#[test]
fn writing_past_the_end_is_detected_before_the_step() {
    let t = task(vec![bind_int(3, 1)]);
    assert!(t.step_would_overflow());
    let t = task(vec![Instruction::Bind { slot: 3, value_type: Type::Boolean, value: Literal::Integer(1) }]);
    assert!(!t.step_would_overflow());
    let t = task(vec![Instruction::Call { function_name: Functions::AddInteger, inputs: vec![0, 1], output: 9 }]);
    assert!(!t.step_would_overflow());
    let t = task(vec![Instruction::SpecialCall {
        function_name: SpecialFunctions::GetInstructionPosition,
        inputs: vec![],
        output: 2,
    }]);
    assert!(t.step_would_overflow());
}

#[test]
fn mistyped_literal_traps() {
    let mut t = task(vec![Instruction::Bind { slot: 0, value_type: Type::Integer, value: Literal::Boolean(true) }]);
    let mut events = Vec::new();
    match run(&mut t, &mut events) {
        RuntimeTaskStep::Trapped(trap) => {
            assert_eq!(trap.trapped_position, 0);
            assert!(matches!(trap.reason, TrapReason::VerifierBug(ref m) if m == "Type Mismatch"));
        }
        other => panic!("unexpected {:?}", other),
    }
    assert!(t.slots.is_empty());
}

#[test]
fn conditional_jump_reads_by_position() {
    let instructions = vec![
        Instruction::Bind { slot: 0, value_type: Type::Boolean, value: Literal::Boolean(false) },
        Instruction::ConditionalJump { condition: 0, true_target_position: 0, false_target_position: 3 },
        bind_int(1, 99),
        Instruction::ConditionalJump { condition: 5, true_target_position: 0, false_target_position: 0 },
    ];
    let mut t = task(instructions);
    let mut events = Vec::new();
    match run(&mut t, &mut events) {
        RuntimeTaskStep::Trapped(trap) => {
            assert_eq!(trap.trapped_position, 3);
            assert!(matches!(trap.reason, TrapReason::VerifierBug(ref m) if m == "Unbound Slot"));
        }
        other => panic!("unexpected {:?}", other),
    }
    assert_eq!(t.slots.len(), 1);
}

#[test]
fn defined_calls_yield_and_resume() {
    let instructions = vec![
        bind_int(0, 4),
        Instruction::DefinedCall { function_identifier: 11, inputs: vec![0], destination_slots: vec![1] },
        Instruction::ReturnDefinedCall { function_identifier: 11, outputs: vec![1, 0] },
    ];
    let mut t = task(instructions);
    let mut events = Vec::new();
    match run(&mut t, &mut events) {
        RuntimeTaskStep::Yield(RuntimeTaskYield::Call { function_identifier, inputs, destination_slots }) => {
            assert_eq!(function_identifier, 11);
            assert_eq!(inputs.len(), 1);
            assert!(matches!(*inputs[&0], Value::Integer(4)));
            assert_eq!(destination_slots, vec![1]);
        }
        other => panic!("unexpected {:?}", other),
    }
    assert_eq!(t.instruction_pointer, 1);
    let mut back = HashMap::new();
    back.insert(1u64, Arc::new(Value::Integer(16)));
    assert!(t.resume_call(back).is_ok());
    assert_eq!(t.instruction_pointer, 2);
    match run(&mut t, &mut events) {
        RuntimeTaskStep::Yield(RuntimeTaskYield::Return { function_identifier, outputs }) => {
            assert_eq!(function_identifier, 11);
            assert_eq!(outputs.len(), 2);
            assert!(matches!(*outputs[0], Value::Integer(16)));
            assert!(matches!(*outputs[1], Value::Integer(4)));
        }
        other => panic!("unexpected {:?}", other),
    }
    assert_eq!(t.instruction_pointer, 2);
}

#[test]
fn host_requests_are_completed_by_writing() {
    let instructions = vec![
        Instruction::Bind { slot: 0, value_type: Type::Float, value: Literal::Float(1.5f64.to_bits()) },
        Instruction::Call { function_name: Functions::AddFloat, inputs: vec![0, 0], output: 1 },
        Instruction::Bind { slot: 2, value_type: Type::String, value: Literal::String("ns".to_string()) },
        Instruction::SpecialCall { function_name: SpecialFunctions::ReadGlobalMemoryInteger, inputs: vec![2, 2], output: 3 },
    ];
    let mut t = task(instructions);
    let mut events = Vec::new();
    match run(&mut t, &mut events) {
        RuntimeTaskStep::Host(HostRequest::Float { function, lhs, rhs, output }) => {
            assert_eq!(function, Functions::AddFloat);
            assert_eq!(f64::from_bits(lhs), 1.5);
            assert_eq!(f64::from_bits(rhs), 1.5);
            assert_eq!(output, 1);
            t.complete_host_request(&mut events, output, Value::Float(3.0f64.to_bits()));
        }
        other => panic!("unexpected {:?}", other),
    }
    assert_eq!(t.instruction_pointer, 2);
    match run(&mut t, &mut events) {
        RuntimeTaskStep::Host(HostRequest::ReadGlobalMemory { namespace, identifier, output }) => {
            assert_eq!(namespace, "ns");
            assert_eq!(identifier, "ns");
            assert_eq!(output, 3);
        }
        other => panic!("unexpected {:?}", other),
    }
    assert!(matches!(*t.slots[1], Value::Float(bits) if f64::from_bits(bits) == 3.0));
}

#[test]
fn special_functions_run_in_the_task() {
    let instructions = vec![
        Instruction::SpecialCall { function_name: SpecialFunctions::GetInstructionPosition, inputs: vec![], output: 0 },
        Instruction::SpecialCall { function_name: SpecialFunctions::GetModificationNamespaceList, inputs: vec![], output: 1 },
    ];
    let mut t = task(instructions);
    let mut events = Vec::new();
    assert!(matches!(run(&mut t, &mut events), RuntimeTaskStep::Finished));
    assert_eq!(integer_at(&t, 0), 0);
    match &*t.slots[1] {
        Value::Vector(v) => {
            assert_eq!(v.len(), 1);
            assert!(matches!(&*v.get(0).unwrap(), Value::String(s) if s == "noting"));
        }
        other => panic!("unexpected {:?}", other),
    }
}

#[test]
fn call_function_starts_a_fresh_task() {
    let parent = task(vec![bind_int(0, 1)]);
    let child = parent.call_function(9, 0, Arc::new(vec![]), vec![(0, Arc::new(Value::Integer(2)))]);
    assert_eq!(child.virtual_machine_identifier, 9);
    assert!(child.slots.is_empty());
    assert_eq!(child.input_slots.len(), 1);
    assert_eq!(child.modification_namespace_list.len(), 1);
    let mut child = child;
    let mut events = Vec::new();
    assert!(matches!(run(&mut child, &mut events), RuntimeTaskStep::Finished));
}

#[test]
fn task_events_carry_its_identifier() {
    let mut t = task(vec![bind_int(0, 1), bind_int(0, 2)]);
    let mut events: Vec<RuntimeTaskEvent> = Vec::new();
    assert!(matches!(t.step(&mut events), RuntimeTaskStep::Continue));
    assert!(matches!(t.step(&mut events), RuntimeTaskStep::Continue));
    assert_eq!(events.len(), 2);
    assert!(events.iter().all(|e| e.virtual_machine_identifier == 7));
    match &events[1].virtual_machine_event_kind {
        RuntimeTaskEventKind::StateChange(c) => {
            assert_eq!(c.identifier, "slot_0");
            assert!(matches!(c.old.as_deref(), Some(Value::Integer(1))));
            assert!(matches!(c.new.as_deref(), Some(Value::Integer(2))));
        }
        _ => panic!("expected a state change"),
    }
    assert!(matches!(t.step(&mut events), RuntimeTaskStep::Finished));
    assert!(matches!(events[3].virtual_machine_event_kind, RuntimeTaskEventKind::ExecutionFinished));
}

#[test]
fn hello_world() {
    let mut instructions: Vec<Instruction> = [72, 101, 108, 108, 111, 44, 32, 87, 111, 114, 108, 100, 33]
        .iter()
        .enumerate()
        .map(|(slot, &c)| bind_int(slot as u64, c))
        .collect();
    instructions.push(Instruction::Bind {
        slot: 13,
        value_type: Type::Integer,
        value: Literal::String("Hello, World!".to_string()),
    });
    let mut t = task(instructions);
    assert_eq!(t.instructions.len(), 14);
    // The last literal is not an integer: running the task traps there.
    let mut events = Vec::new();
    match run(&mut t, &mut events) {
        RuntimeTaskStep::Trapped(trap) => {
            assert_eq!(trap.trapped_position, 13);
            assert!(matches!(trap.reason, TrapReason::VerifierBug(ref m) if m == "Type Mismatch"));
        }
        _ => panic!("expected a trap"),
    }
    assert_eq!(t.slots.len(), 13);
    assert_eq!(integer_at(&t, 12), 33);
}

#[test]
fn task_global_memory_results() {
    let (v, line) = task_global_read_result(TaskGlobalRead::Present(Value::Boolean(true)));
    assert!(matches!(v, Value::Result(Ok(ref b)) if matches!(**b, Value::Boolean(true))));
    assert!(line.is_none());
    let (v, line) = task_global_read_result(TaskGlobalRead::Absent);
    assert!(matches!(v, Value::Result(Err(ref b)) if matches!(**b, Value::String(ref s) if s == "absent")));
    assert_eq!(line.unwrap().1, "read to global memory empty space");
    let (v, _) = task_global_write_result(true);
    assert!(matches!(v, Value::Result(Ok(ref b)) if matches!(**b, Value::Void)));
    let (_, w) = task_global_write_result(false);
    assert_eq!(w.as_deref(), Some("global memory is blocking is try write"));
}

#[test]
fn messages_write_numbers_in_decimal() {
    let mut instructions: Vec<Instruction> = (0..13u64).map(|s| bind_int(s, 1)).collect();
    instructions.push(Instruction::Jump { target_position: 14 });
    let mut t = task(instructions);
    let mut events: Vec<RuntimeTaskEvent> = Vec::new();
    for _ in 0..14 {
        assert!(matches!(t.step(&mut events), RuntimeTaskStep::Continue));
    }
    match &events[12].virtual_machine_event_kind {
        RuntimeTaskEventKind::StateChange(c) => assert_eq!(c.identifier, "slot_12"),
        _ => panic!("expected a state change"),
    }
    match &events[13].virtual_machine_event_kind {
        RuntimeTaskEventKind::Log(l) => assert_eq!(l.message, "Jump to 14"),
        _ => panic!("expected a log line"),
    }
}
