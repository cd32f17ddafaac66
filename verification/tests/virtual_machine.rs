use state_game::virtual_machine::machine::{global_read_result, global_write_plan, GlobalAccess};
use state_game::persistent_vector::PersistentVector;
use state_game::virtual_machine::event::{
    TrapReason, VirtualMachineEvent, VirtualMachineLogLevel, VirtualMachineYield,
};
use state_game::virtual_machine::instruction::{
    DefinedFunctionSignature, Functions, Instruction, Literal, SpecialFunctions,
};
use state_game::virtual_machine::instruction_verifier::{
    function_signature, special_function_signature, type_compatible, InstructionVerifier, VerifyError,
};
use state_game::virtual_machine::machine::{
    dispatch, parse_literal, special_dispatch, Dispatched, HostRequest, StepOutcome, VirtualMachine,
};
use state_game::virtual_machine::types::{Type, Value};
use state_game::Namespace;
use std::collections::HashMap;
use std::sync::Arc;

fn checker_of(instructions: Vec<Instruction>) -> InstructionVerifier {
    InstructionVerifier::new(Arc::new(instructions), Arc::new(HashMap::new()))
}

fn machine(instructions: Vec<Instruction>) -> VirtualMachine {
    VirtualMachine::new(0, Arc::new(instructions), Arc::new(vec![Namespace("noting".to_string())]))
}

/// Steps until the machine stops; returns the last outcome.
fn run(vm: &mut VirtualMachine, events: &mut Vec<VirtualMachineEvent>) -> StepOutcome {
    loop {
        match vm.step(events) {
            StepOutcome::Continue => {}
            other => return other,
        }
    }
}

fn int_value(v: i64) -> Arc<Value> {
    Arc::new(Value::Integer(v))
}

fn integer_of(r: Result<Dispatched, TrapReason>) -> i64 {
    match r {
        Ok(Dispatched::Value(Value::Integer(n))) => n,
        _ => panic!("not an integer"),
    }
}

fn boolean_of(r: Result<Dispatched, TrapReason>) -> bool {
    match r {
        Ok(Dispatched::Value(Value::Boolean(b))) => b,
        _ => panic!("not a boolean"),
    }
}

fn bind_int(slot: u64, n: i64) -> Instruction {
    Instruction::Bind { slot, value_type: Type::Integer, value: Literal::Integer(n) }
}

#[test]
fn machine_adds_integers() {
    let instructions = vec![
        bind_int(0, 2),
        bind_int(1, 3),
        Instruction::Call { function_name: Functions::AddInteger, inputs: vec![0, 1], output: 2 },
    ];
    assert!(checker_of(instructions.clone()).verify().is_empty());
    let mut vm = machine(instructions);
    let mut events = Vec::new();
    assert!(matches!(run(&mut vm, &mut events), StepOutcome::Finished));
    assert!(matches!(&*vm.slots[&2], Value::Integer(5)));
    assert!(matches!(events.last(), Some(VirtualMachineEvent::ExecutionFinished)));
}

#[test]
fn machine_fibonacci_prelude() {
    let instructions = vec![
        bind_int(0, 5),
        bind_int(1, 0),
        bind_int(2, 1),
        bind_int(3, 13),
        bind_int(4, 20),
        bind_int(5, 40),
        Instruction::Call { function_name: Functions::VectorInitInteger, inputs: Vec::new(), output: 6 },
        bind_int(7, 0),
        bind_int(8, 0),
        Instruction::Call { function_name: Functions::VectorPushInteger, inputs: vec![6, 7], output: 9 },
        Instruction::Call { function_name: Functions::VectorPushInteger, inputs: vec![9, 8], output: 10 },
    ];
    assert_eq!(instructions.len(), 11);
}

#[test]
fn verifier_reports_count_and_binding_errors() {
    let instructions = vec![
        Instruction::Call { function_name: Functions::VectorInitInteger, inputs: Vec::new(), output: 6 },
        Instruction::Call { function_name: Functions::AddInteger, inputs: vec![0, 1], output: 2 },
        Instruction::Bind { slot: 13, value_type: Type::Integer, value: Literal::String("Hello".to_string()) },
        Instruction::Jump { target_position: 9 },
    ];
    let errors = checker_of(instructions).verify();
    assert_eq!(
        errors,
        vec![
            VerifyError::ArgumentCountMismatch { instruction_pointer: 0, expected: 1, found: 0 },
            VerifyError::UnboundSlot { instruction_pointer: 1, slot: 0 },
            VerifyError::UnboundSlot { instruction_pointer: 1, slot: 1 },
            VerifyError::InvalidLiteral { instruction_pointer: 2, slot: 13 },
            VerifyError::JumpOutOfBounds { instruction_pointer: 3, target: 9 },
        ]
    );
}

#[test]
fn verifier_first_write_fixes_slot_type() {
    let instructions = vec![
        bind_int(0, 1),
        Instruction::Bind { slot: 0, value_type: Type::Boolean, value: Literal::Boolean(true) },
        Instruction::ConditionalJump { condition: 0, true_target_position: 0, false_target_position: 0 },
    ];
    let errors = checker_of(instructions).verify();
    assert_eq!(
        errors,
        vec![
            VerifyError::TypeMismatch { instruction_pointer: 1, slot: 0, expected: Type::Integer, found: Type::Boolean },
            VerifyError::TypeMismatch { instruction_pointer: 2, slot: 0, expected: Type::Boolean, found: Type::Integer },
        ]
    );
}

#[test]
fn verifier_checks_defined_calls() {
    let mut defined = HashMap::new();
    defined.insert(
        7u64,
        DefinedFunctionSignature { inputs: vec![Type::Integer], destinations: vec![Type::Boolean], source: vec![] },
    );
    let instructions = vec![
        bind_int(0, 1),
        Instruction::CallDefined { function_identifier: 7, inputs: vec![0], destination_slots: vec![1], source_slots: vec![0] },
        Instruction::CallDefined { function_identifier: 8, inputs: vec![], destination_slots: vec![], source_slots: vec![] },
        Instruction::CallDefined { function_identifier: 7, inputs: vec![], destination_slots: vec![], source_slots: vec![] },
    ];
    let errors = InstructionVerifier::new(Arc::new(instructions), Arc::new(defined)).verify();
    assert_eq!(
        errors,
        vec![
            VerifyError::TypeMismatch { instruction_pointer: 1, slot: 0, expected: Type::Boolean, found: Type::Integer },
            VerifyError::CanNotFoundDefinedFunction { instruction_pointer: 2, function_identifier: 8 },
            VerifyError::DefinedFunctionArgumentCountMismatch { instruction_pointer: 3, expected: 1, found: 0 },
            VerifyError::DefinedFunctionReturnCountMismatch { instruction_pointer: 3, expected: 1, found: 0 },
            VerifyError::DefinedFunctionReturnCountMismatch { instruction_pointer: 3, expected: 1, found: 0 },
        ]
    );
}

#[test]
fn type_compatibility_wildcards() {
    assert!(type_compatible(&Type::Option(&Type::Integer), &Type::Option(&Type::Any)));
    assert!(type_compatible(&Type::Result(&Type::Integer, &Type::String), &Type::Result(&Type::Integer, &Type::Any)));
    assert!(!type_compatible(&Type::Result(&Type::Boolean, &Type::String), &Type::Result(&Type::Integer, &Type::Any)));
    assert!(type_compatible(&Type::Result(&Type::Boolean, &Type::String), &Type::Result(&Type::Any, &Type::String)));
    assert!(type_compatible(&Type::Vector(&Type::Char), &Type::Vector(&Type::Char)));
    assert!(!type_compatible(&Type::Vector(&Type::Char), &Type::Vector(&Type::String)));
    assert!(type_compatible(&Type::Float, &Type::Any));
    assert!(!type_compatible(&Type::Float, &Type::Integer));
}

#[test]
fn signatures_of_built_ins() {
    let s = function_signature(Functions::StringGetChar);
    assert_eq!(s.inputs, &[Type::String, Type::Integer]);
    assert_eq!(s.outputs, Type::Char);
    let s = special_function_signature(SpecialFunctions::WriteGlobalMemoryFloat);
    assert_eq!(s.inputs, &[Type::String, Type::String, Type::Float]);
    assert_eq!(s.outputs, Type::Void);
}

#[test]
fn integer_arithmetic_wraps_and_traps() {
    assert_eq!(integer_of(dispatch(Functions::AddInteger, &[int_value(i64::MAX), int_value(1)])), i64::MIN);
    assert_eq!(integer_of(dispatch(Functions::SubInteger, &[int_value(3), int_value(5)])), -2);
    assert_eq!(integer_of(dispatch(Functions::MulInteger, &[int_value(-4), int_value(6)])), -24);
    assert_eq!(integer_of(dispatch(Functions::DivInteger, &[int_value(-7), int_value(2)])), -3);
    assert_eq!(integer_of(dispatch(Functions::ModInteger, &[int_value(-7), int_value(2)])), -1);
    assert_eq!(integer_of(dispatch(Functions::PowInteger, &[int_value(3), int_value(4)])), 81);
    assert_eq!(integer_of(dispatch(Functions::PowInteger, &[int_value(3), int_value(-1)])), 1);
    assert!(matches!(dispatch(Functions::DivInteger, &[int_value(1), int_value(0)]), Err(TrapReason::DivisionByZero)));
    assert!(matches!(dispatch(Functions::ModInteger, &[int_value(1), int_value(0)]), Err(TrapReason::DivisionByZero)));
    match dispatch(Functions::DivInteger, &[int_value(i64::MIN), int_value(-1)]) {
        Err(TrapReason::VerifierBug(m)) => assert_eq!(m, "Integer Overflow"),
        _ => panic!("expected overflow trap"),
    }
    match dispatch(Functions::AddInteger, &[int_value(1)]) {
        Err(TrapReason::VerifierBug(m)) => assert_eq!(m, "Argument count Mismatch"),
        _ => panic!("expected count trap"),
    }
    match dispatch(Functions::AddInteger, &[int_value(1), Arc::new(Value::Boolean(true))]) {
        Err(TrapReason::VerifierBug(m)) => assert_eq!(m, "Type Mismatch"),
        _ => panic!("expected type trap"),
    }
}

#[test]
fn comparisons_logic_and_strings() {
    assert!(boolean_of(dispatch(Functions::GreaterThanInteger, &[int_value(3), int_value(2)])));
    assert!(!boolean_of(dispatch(Functions::LessThanInteger, &[int_value(3), int_value(2)])));
    assert!(boolean_of(dispatch(Functions::NotEqualInteger, &[int_value(3), int_value(2)])));
    let t = Arc::new(Value::Boolean(true));
    let f = Arc::new(Value::Boolean(false));
    assert!(!boolean_of(dispatch(Functions::Not, &[t.clone()])));
    assert!(!boolean_of(dispatch(Functions::And, &[t.clone(), f.clone()])));
    assert!(boolean_of(dispatch(Functions::Or, &[t.clone(), f.clone()])));
    assert!(boolean_of(dispatch(Functions::Xor, &[t.clone(), f.clone()])));
    let hello = Arc::new(Value::String("héllo".to_string()));
    assert!(boolean_of(dispatch(Functions::EqualString, &[hello.clone(), hello.clone()])));
    assert_eq!(integer_of(dispatch(Functions::StringLength, &[hello.clone()])), 5);
    match dispatch(Functions::StringGetChar, &[hello.clone(), int_value(1)]) {
        Ok(Dispatched::Value(Value::Char(c))) => assert_eq!(c, 'é'),
        _ => panic!("expected a char"),
    }
    assert!(matches!(
        dispatch(Functions::StringGetChar, &[hello, int_value(5)]),
        Err(TrapReason::StringIndexOutOfBounds { index: 5, length: 5 })
    ));
}

#[test]
fn float_functions_go_to_the_host() {
    let a = Arc::new(Value::Float(1.5f64.to_bits()));
    let b = Arc::new(Value::Float(2.0f64.to_bits()));
    match dispatch(Functions::AddFloat, &[a, b]) {
        Ok(Dispatched::Float { function, lhs, rhs }) => {
            assert_eq!(function, Functions::AddFloat);
            assert_eq!(f64::from_bits(lhs), 1.5);
            assert_eq!(f64::from_bits(rhs), 2.0);
        }
        _ => panic!("expected a host request"),
    }
}

#[test]
fn vector_and_option_functions() {
    let v = match dispatch(Functions::VectorInitInteger, &[int_value(4)]) {
        Ok(Dispatched::Value(Value::Vector(v))) => v,
        _ => panic!("expected a vector"),
    };
    assert_eq!(v.len(), 1);
    let v = Arc::new(Value::Vector(v));
    let pushed = match dispatch(Functions::VectorPushInteger, &[v.clone(), int_value(9)]) {
        Ok(Dispatched::Value(Value::Vector(w))) => w,
        _ => panic!("expected a vector"),
    };
    assert_eq!(pushed.len(), 2);
    assert!(matches!(&*pushed.get(1).unwrap(), Value::Integer(9)));
    let pushed = Arc::new(Value::Vector(pushed));
    assert_eq!(integer_of(dispatch(Functions::VectorGetInteger, &[pushed.clone(), int_value(1)])), 9);
    assert!(matches!(
        dispatch(Functions::VectorGetInteger, &[pushed.clone(), int_value(-1)]),
        Err(TrapReason::IndexOutOfBounds { index: -1, length: 2 })
    ));
    match dispatch(Functions::VectorPopInteger, &[pushed]) {
        Ok(Dispatched::Value(Value::Vector(w))) => assert_eq!(w.len(), 1),
        _ => panic!("expected a vector"),
    }
    let empty = Arc::new(Value::Vector(PersistentVector::new()));
    assert!(matches!(
        dispatch(Functions::VectorPopInteger, &[empty]),
        Err(TrapReason::IndexOutOfBounds { index: -1, length: 0 })
    ));
    let some = Arc::new(Value::Option(Some(Box::new(Value::Integer(3)))));
    let none = Arc::new(Value::Option(None));
    assert!(boolean_of(dispatch(Functions::IsSome, &[some.clone()])));
    assert!(boolean_of(dispatch(Functions::IsNone, &[none.clone()])));
    assert_eq!(integer_of(dispatch(Functions::UnwrapSomeInteger, &[some])), 3);
    assert!(matches!(dispatch(Functions::UnwrapSomeInteger, &[none]), Err(TrapReason::UnwrapNone)));
    let ok = Arc::new(Value::Result(Ok(Box::new(Value::Integer(1)))));
    let err = Arc::new(Value::Result(Err(Box::new(Value::Integer(2)))));
    assert!(boolean_of(dispatch(Functions::IsOk, &[ok.clone()])));
    assert!(boolean_of(dispatch(Functions::IsErr, &[err.clone()])));
    assert_eq!(integer_of(dispatch(Functions::UnwrapOkInteger, &[ok.clone()])), 1);
    assert_eq!(integer_of(dispatch(Functions::UnwrapErrInteger, &[err.clone()])), 2);
    assert!(matches!(dispatch(Functions::UnwrapOkInteger, &[err]), Err(TrapReason::UnwrapErrOnOk)));
    assert!(matches!(dispatch(Functions::UnwrapErrInteger, &[ok]), Err(TrapReason::UnwrapOkOnErr)));
}

#[test]
fn special_functions() {
    let names = vec![Namespace("core".to_string()), Namespace("extra".to_string())];
    match special_dispatch(SpecialFunctions::GetInstructionPosition, &[], 7, &names) {
        Ok(state_game::virtual_machine::machine::SpecialDispatched::Value(Value::Integer(7))) => {}
        _ => panic!("expected the position"),
    }
    match special_dispatch(SpecialFunctions::GetModificationNamespaceList, &[], 0, &names) {
        Ok(state_game::virtual_machine::machine::SpecialDispatched::Value(Value::Vector(v))) => {
            assert_eq!(v.len(), 2);
            assert!(matches!(&*v.get(1).unwrap(), Value::String(s) if s == "extra"));
        }
        _ => panic!("expected the names"),
    }
    let ns = Arc::new(Value::String("core".to_string()));
    let id = Arc::new(Value::String("score".to_string()));
    match special_dispatch(SpecialFunctions::ReadGlobalMemoryInteger, &[ns.clone(), id.clone()], 0, &names) {
        Ok(state_game::virtual_machine::machine::SpecialDispatched::ReadGlobalMemory { namespace, identifier }) => {
            assert_eq!(namespace, "core");
            assert_eq!(identifier, "score");
        }
        _ => panic!("expected a read request"),
    }
    match special_dispatch(SpecialFunctions::WriteGlobalMemoryInteger, &[ns, int_value(1), int_value(2)], 0, &names) {
        Err(TrapReason::VerifierBug(m)) => assert_eq!(m, "Type Mismatch"),
        _ => panic!("expected a type trap"),
    }
}

#[test]
fn literals_parse_only_at_their_type() {
    assert!(matches!(parse_literal(&Type::Integer, &Literal::Integer(4)), Some(Value::Integer(4))));
    assert!(parse_literal(&Type::Integer, &Literal::Boolean(true)).is_none());
    assert!(matches!(parse_literal(&Type::Char, &Literal::Char('x')), Some(Value::Char('x'))));
}

#[test]
fn conditional_jump_loops_until_done() {
    // i = 0; n = 3; loop: i = i + 1; if i < n goto loop
    let instructions = vec![
        bind_int(0, 0),
        bind_int(1, 3),
        bind_int(2, 1),
        Instruction::Call { function_name: Functions::AddInteger, inputs: vec![0, 2], output: 0 },
        Instruction::Call { function_name: Functions::LessThanInteger, inputs: vec![0, 1], output: 3 },
        Instruction::ConditionalJump { condition: 3, true_target_position: 3, false_target_position: 6 },
    ];
    let mut vm = machine(instructions);
    let mut events = Vec::new();
    assert!(matches!(run(&mut vm, &mut events), StepOutcome::Finished));
    assert!(matches!(&*vm.slots[&0], Value::Integer(3)));
    assert_eq!(vm.instruction_pointer, 6);
}

#[test]
fn unbound_read_traps_at_its_position() {
    let instructions = vec![
        bind_int(0, 1),
        Instruction::Call { function_name: Functions::AddInteger, inputs: vec![0, 5], output: 2 },
    ];
    let mut vm = machine(instructions);
    let mut events = Vec::new();
    match run(&mut vm, &mut events) {
        StepOutcome::Trapped(t) => {
            assert_eq!(t.trapped_position, 1);
            assert!(matches!(t.reason, TrapReason::VerifierBug(ref m) if m == "Unbound Slot"));
        }
        _ => panic!("expected a trap"),
    }
    assert!(matches!(events.last(), Some(VirtualMachineEvent::ExecutionFinished)));
}

#[test]
fn host_requests_and_defined_calls() {
    let instructions = vec![
        Instruction::Bind { slot: 0, value_type: Type::Float, value: Literal::Float(2.0f64.to_bits()) },
        Instruction::Call { function_name: Functions::MulFloat, inputs: vec![0, 0], output: 1 },
        Instruction::CallDefined { function_identifier: 4, inputs: vec![1], destination_slots: vec![2], source_slots: vec![9] },
    ];
    let mut vm = machine(instructions);
    let mut events = Vec::new();
    match run(&mut vm, &mut events) {
        StepOutcome::Host(HostRequest::Float { function, lhs, rhs, output }) => {
            assert_eq!(function, Functions::MulFloat);
            assert_eq!(output, 1);
            let product = f64::from_bits(lhs) * f64::from_bits(rhs);
            vm.complete_host_request(&mut events, output, Value::Float(product.to_bits()));
        }
        _ => panic!("expected a float request"),
    }
    assert_eq!(vm.instruction_pointer, 2);
    match run(&mut vm, &mut events) {
        StepOutcome::Yield(VirtualMachineYield::Call { function_identifier, inputs, destination_slots, source_slots }) => {
            assert_eq!(function_identifier, 4);
            assert_eq!(inputs.len(), 1);
            assert!(matches!(&*inputs[&1], Value::Float(bits) if f64::from_bits(*bits) == 4.0));
            assert_eq!(destination_slots, vec![2]);
            assert_eq!(source_slots, vec![9]);
        }
        _ => panic!("expected a call"),
    }
    let mut outputs = HashMap::new();
    outputs.insert(2u64, int_value(11));
    assert!(vm.resume_call(outputs).is_ok());
    assert_eq!(vm.instruction_pointer, 3);
    assert!(matches!(&*vm.slots[&2], Value::Integer(11)));
    assert!(matches!(vm.step(&mut events), StepOutcome::Finished));
}

#[test]
fn call_function_shares_loaded_mods() {
    let vm = machine(vec![]);
    let mut inputs = HashMap::new();
    inputs.insert(0u64, int_value(1));
    let callee = vm.call_function(3, 0, Arc::new(vec![]), inputs);
    assert_eq!(callee.self_identifier, 3);
    assert_eq!(callee.modification_namespace_list.len(), 1);
    assert_eq!(callee.input_slots.len(), 1);
}

#[test]
fn each_step_reports_its_events() {
    let instructions = vec![
        bind_int(0, 5),
        bind_int(0, 6),
        Instruction::Bind { slot: 1, value_type: Type::Boolean, value: Literal::Boolean(false) },
        Instruction::ConditionalJump { condition: 1, true_target_position: 0, false_target_position: 4 },
        Instruction::Jump { target_position: 5 },
    ];
    let mut vm = machine(instructions);
    let mut events = Vec::new();
    assert!(matches!(vm.step(&mut events), StepOutcome::Continue));
    match &events[..] {
        [VirtualMachineEvent::StateChange(c)] => {
            assert_eq!(c.identifier, "slot_0");
            assert!(c.old.is_none());
            assert!(matches!(c.new.as_deref(), Some(Value::Integer(5))));
        }
        _ => panic!("expected one state change"),
    }
    assert!(matches!(vm.step(&mut events), StepOutcome::Continue));
    match &events[1] {
        VirtualMachineEvent::StateChange(c) => {
            assert!(matches!(c.old.as_deref(), Some(Value::Integer(5))));
            assert!(matches!(c.new.as_deref(), Some(Value::Integer(6))));
        }
        _ => panic!("expected a state change"),
    }
    assert!(matches!(vm.step(&mut events), StepOutcome::Continue));
    assert_eq!(events.len(), 3);
    assert!(matches!(vm.step(&mut events), StepOutcome::Continue));
    assert_eq!(vm.instruction_pointer, 4);
    match &events[3..] {
        [VirtualMachineEvent::Log(a), VirtualMachineEvent::Log(b)] => {
            assert_eq!(a.level, VirtualMachineLogLevel::Debug);
            assert_eq!(a.message, "Jump positions. true: 0, false: 4");
            assert_eq!(b.message, "Jump to 4");
        }
        _ => panic!("expected two log lines"),
    }
    assert!(matches!(vm.step(&mut events), StepOutcome::Continue));
    assert!(matches!(&events[5], VirtualMachineEvent::Log(l) if l.message == "Jump to 5"));
    assert!(matches!(vm.step(&mut events), StepOutcome::Finished));
    match &events[6..] {
        [VirtualMachineEvent::Log(l), VirtualMachineEvent::ExecutionFinished] => {
            assert_eq!(l.level, VirtualMachineLogLevel::Info);
            assert_eq!(l.message, "Virtual Machine Halt");
        }
        _ => panic!("expected the halt log and the end of execution"),
    }
}

#[test]
fn accepted_stream_runs_without_verifier_bug() {
    let instructions = vec![
        bind_int(0, 7),
        Instruction::Call { function_name: Functions::VectorInitInteger, inputs: vec![0], output: 1 },
        Instruction::Call { function_name: Functions::VectorPushInteger, inputs: vec![1, 0], output: 1 },
        bind_int(2, 1),
        Instruction::Call { function_name: Functions::VectorGetInteger, inputs: vec![1, 2], output: 3 },
        Instruction::Call { function_name: Functions::EqualInteger, inputs: vec![3, 0], output: 4 },
        Instruction::Call { function_name: Functions::Not, inputs: vec![4], output: 5 },
    ];
    assert!(checker_of(instructions.clone()).verify().is_empty());
    let mut vm = machine(instructions);
    let mut events = Vec::new();
    assert!(matches!(run(&mut vm, &mut events), StepOutcome::Finished));
    assert!(matches!(&*vm.slots[&5], Value::Boolean(false)));
    assert!(!events.iter().any(|e| matches!(e, VirtualMachineEvent::Trap(_))));
}

#[test]
fn a_jump_can_skip_a_binding_the_verifier_counted_on() {
    // The verifier reads the stream in order, so slot 0 is bound when
    // instruction 2 reads it; the jump skips that binding at run time.
    let instructions = vec![
        Instruction::Jump { target_position: 2 },
        bind_int(0, 1),
        Instruction::Call { function_name: Functions::AddInteger, inputs: vec![0, 0], output: 1 },
    ];
    assert!(checker_of(instructions.clone()).verify().is_empty());
    let mut vm = machine(instructions);
    let mut events = Vec::new();
    match run(&mut vm, &mut events) {
        StepOutcome::Trapped(t) => {
            assert_eq!(t.trapped_position, 2);
            assert!(matches!(t.reason, TrapReason::VerifierBug(ref m) if m == "Unbound Slot"));
        }
        _ => panic!("expected a trap"),
    }
}

#[test]
fn test_instruction() {
    let instructions = vec![bind_int(0, 2), bind_int(1, 3),
        Instruction::Call { function_name: Functions::AddInteger, inputs: vec![0, 1], output: 2 }];
    assert!(checker_of(instructions.clone()).verify().is_empty());
    let mut vm = machine(instructions);
    let mut events = Vec::new();
    assert!(matches!(run(&mut vm, &mut events), StepOutcome::Finished));
    assert!(matches!(&*vm.slots[&2], Value::Integer(5)));
    assert!(matches!(events.last(), Some(VirtualMachineEvent::ExecutionFinished)));
}

#[test]
fn global_memory_results_and_warnings() {
    let (v, w) = global_read_result(GlobalAccess::Locked(Some(Value::Integer(7))));
    assert!(matches!(v, Value::Result(Ok(ref b)) if matches!(**b, Value::Integer(7))));
    assert!(w.is_none());
    let (v, w) = global_read_result(GlobalAccess::Locked(None));
    assert!(matches!(v, Value::Result(Err(ref b)) if matches!(**b, Value::String(ref s) if s == "not in value")));
    assert!(w.is_none());
    let (v, w) = global_read_result(GlobalAccess::Poisoned(None));
    assert!(matches!(v, Value::Result(Ok(ref b)) if matches!(**b, Value::Option(None))));
    assert_eq!(w.as_deref(), Some("global memory is poisoned"));
    let (v, w) = global_read_result(GlobalAccess::WouldBlock);
    assert!(matches!(v, Value::Result(Err(_))));
    assert_eq!(w.as_deref(), Some("global memory is blocking"));
    assert_eq!(global_write_plan(GlobalAccess::Locked(())), (true, None));
    assert_eq!(global_write_plan(GlobalAccess::WouldBlock), (false, Some("global memory is blocking".to_string())));
}

#[test]
fn and_or_read_the_second_argument_only_when_needed() {
    let t = Arc::new(Value::Boolean(true));
    let f = Arc::new(Value::Boolean(false));
    let n = int_value(3);
    assert!(!boolean_of(dispatch(Functions::And, &[f.clone(), n.clone()])));
    assert!(boolean_of(dispatch(Functions::Or, &[t.clone(), n.clone()])));
    assert!(matches!(dispatch(Functions::And, &[t.clone(), n.clone()]), Err(TrapReason::VerifierBug(ref m)) if m == "Type Mismatch"));
    assert!(matches!(dispatch(Functions::Or, &[f.clone(), n.clone()]), Err(TrapReason::VerifierBug(ref m)) if m == "Type Mismatch"));
    assert!(boolean_of(dispatch(Functions::Or, &[f.clone(), t.clone()])));
    assert!(matches!(dispatch(Functions::Xor, &[t.clone(), n.clone()]), Err(_)));
}
