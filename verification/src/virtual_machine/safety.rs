//! What the verifier buys at run time: a stream it accepts runs without
//! type errors in straight line.

use vstd::prelude::*;
use std::sync::Arc;
use crate::Namespace;
use crate::virtual_machine::event::{TrapReason, VirtualMachineTrap};
use crate::virtual_machine::instruction::{
    DefinedFunctionSignature, FunctionIdentifier, Functions, Instruction, Slot, SpecialFunctions,
};
use crate::virtual_machine::instruction_verifier::{
    literal_matches, CheckState,
    args_errors, bind_all, bind_step, call_errors, check_prefix, check_step, compatible, function_inputs,
    function_output, lemma_accepted_stream_is_well_formed, lemma_bind_all_grows, lemma_no_args_errors,
    lemma_prefix_grows, special_inputs, special_output, VerifyError,
};
use crate::virtual_machine::machine::{
    dispatch_result, holds_string, literal_value, read_all, special_result, step_result, written,
    Dispatched, HostRequest, SpecialDispatched, StepOutcome, VirtualMachine,
};
use crate::virtual_machine::types::{Type, Value};

verus! {

/// `v` is a value of type `t`; `Any` and `Void` admit every value.
pub open spec fn value_typed(v: Value, t: Type) -> bool
    decreases t,
{
    match t {
        Type::Integer => v is Integer,
        Type::Float => v is Float,
        Type::String => v is String,
        Type::Char => v is Char,
        Type::Boolean => v is Boolean,
        Type::Vector(e) => v matches Value::Vector(items)
            && forall|i: int| 0 <= i < items@.len() ==> value_typed(*#[trigger] items@[i], *e),
        Type::Option(e) => v matches Value::Option(o) && (o matches Some(x) ==> value_typed(*x, *e)),
        Type::Result(k, e) => v matches Value::Result(r) && match r {
            Ok(x) => value_typed(*x, *k),
            Err(x) => value_typed(*x, *e),
        },
        Type::Any => true,
        Type::Void => true,
    }
}

/// Every slot that `types` gives a type is bound to a value of that type.
pub open spec fn typed_slots(types: Map<Slot, Type>, slots: Map<Slot, Arc<Value>>) -> bool {
    forall|s: Slot| #[trigger] types.contains_key(s) ==> slots.contains_key(s) && value_typed(*slots[s], types[s])
}

/// A value of a type that is compatible with `expected` has type `expected`.
pub proof fn lemma_compatible_typed(v: Value, found: Type, expected: Type)
    requires
        value_typed(v, found),
        compatible(found, expected),
    ensures
        value_typed(v, expected),
    decreases found,
{
    match expected {
        Type::Option(e) => {
            if let (Type::Option(f), Value::Option(Some(x))) = (found, v) {
                if *e != Type::Any {
                    lemma_compatible_typed(*x, *f, *e);
                }
            }
        },
        Type::Result(ek, ev) => {
            if let Type::Result(fk, fv) = found {
                match v {
                    Value::Result(Ok(x)) => {
                        if *ek != Type::Any {
                            lemma_compatible_typed(*x, *fk, *ek);
                        }
                    },
                    Value::Result(Err(x)) => {
                        if *ev != Type::Any {
                            lemma_compatible_typed(*x, *fv, *ev);
                        }
                    },
                    _ => {},
                }
            }
        },
        Type::Vector(e) => {
            if let (Type::Vector(f), Value::Vector(items)) = (found, v) {
                assert forall|i: int| 0 <= i < items@.len() implies value_typed(*#[trigger] items@[i], *e) by {
                    lemma_compatible_typed(*items@[i], *f, *e);
                }
            }
        },
        _ => {},
    }
}

/// A built-in function given arguments of its input types traps as a
/// verifier bug only where an integer division overflows or a vector is at
/// its length limit, and a value it gives has its output type.
proof fn lemma_dispatch_typed(f: Functions, args: Seq<Arc<Value>>, d: Result<Dispatched, TrapReason>)
    requires
        args.len() == function_inputs(f).len(),
        forall|j: int| 0 <= j < args.len() ==> value_typed(*#[trigger] args[j], function_inputs(f)[j]),
        dispatch_result(f, args, d),
    ensures
        d matches Err(TrapReason::VerifierBug(m)) ==> m@ == "Integer Overflow"@ || m@ == "Vector Length Limit"@,
        d matches Ok(Dispatched::Value(v)) ==> value_typed(v, function_output(f)),
{
    assert(value_typed(*args[0], function_inputs(f)[0]));
    if args.len() > 1 {
        assert(value_typed(*args[1], function_inputs(f)[1]));
    }
    match d {
        Ok(Dispatched::Value(Value::Vector(w))) => {
            let v = items_of(args[0]);
            match f {
                Functions::VectorPushInteger | Functions::VectorPushFloat | Functions::VectorPushString
                | Functions::VectorPushChar | Functions::VectorPushBoolean => {
                    assert forall|i: int| 0 <= i < w@.len() implies #[trigger] w@[i] == (if i < v.len() { v[i] } else { args[1] }) by {}
                },
                Functions::VectorPopInteger | Functions::VectorPopFloat | Functions::VectorPopString
                | Functions::VectorPopChar | Functions::VectorPopBoolean => {
                    assert forall|i: int| 0 <= i < w@.len() implies #[trigger] w@[i] == v[i] by {}
                },
                _ => {},
            }
        },
        _ => {},
    }
}

/// A special function given arguments of its input types never traps as a
/// verifier bug, and a value it gives has its output type.
proof fn lemma_special_typed(
    f: SpecialFunctions,
    args: Seq<Arc<Value>>,
    ip: usize,
    namespaces: Seq<Namespace>,
    d: Result<SpecialDispatched, TrapReason>,
)
    requires
        args.len() == special_inputs(f).len(),
        forall|j: int| 0 <= j < args.len() ==> value_typed(*#[trigger] args[j], special_inputs(f)[j]),
        special_result(f, args, ip, namespaces, d),
    ensures
        !(d matches Err(TrapReason::VerifierBug(_))),
        d matches Ok(SpecialDispatched::Value(v)) ==> value_typed(v, special_output(f)),
{
    if args.len() > 1 {
        assert(value_typed(*args[0], special_inputs(f)[0]));
        assert(value_typed(*args[1], special_inputs(f)[1]));
    }
    if let Ok(SpecialDispatched::Value(Value::Vector(w))) = d {
        if f == SpecialFunctions::GetModificationNamespaceList {
            assert forall|i: int| 0 <= i < w@.len() implies value_typed(*#[trigger] w@[i], Type::String) by {
                assert(holds_string(*w@[i], namespaces[i].0@));
            }
        }
    }
}

/// A machine that has bound no slot is typed for the start of any stream.
pub proof fn lemma_start_is_typed(
    instructions: Seq<Instruction>,
    defined: Map<FunctionIdentifier, DefinedFunctionSignature>,
)
    ensures
        typed_slots(check_prefix(instructions, 0, defined).0, Map::<Slot, Arc<Value>>::empty()),
{
}

/// A stream that the verifier accepts runs safely in straight line: when,
/// before an instruction, every slot the verifier has typed by then holds a
/// value of that type, the step at that instruction traps as a verifier bug
/// only where an integer division overflows or a vector is at its length
/// limit, and after a step that goes on, every slot the verifier has typed
/// after that instruction holds a value of that type. (A jump may land where
/// the verifier assumed other slots bound: the typing then is not carried.)
pub proof fn lemma_verified_step_is_safe(
    m: VirtualMachine,
    n: VirtualMachine,
    r: StepOutcome,
    defined: Map<FunctionIdentifier, DefinedFunctionSignature>,
)
    requires
        check_prefix(m.instructions@, m.instructions@.len(), defined).1.len() == 0,
        m.instruction_pointer < m.instructions@.len(),
        typed_slots(check_prefix(m.instructions@, m.instruction_pointer as nat, defined).0, m.slots@),
        step_result(m, n, r),
    ensures
        r matches StepOutcome::Trapped(t) ==> (t.reason matches TrapReason::VerifierBug(msg)
            ==> msg@ == "Integer Overflow"@ || msg@ == "Vector Length Limit"@),
        r is Continue ==> typed_slots(check_prefix(m.instructions@, (m.instruction_pointer + 1) as nat, defined).0, n.slots@),
{
    let ins = m.instructions@;
    let len = ins.len();
    let ip = m.instruction_pointer;
    let st = check_prefix(ins, ip as nat, defined);
    let next = check_step(st, ip, ins[ip as int], len, defined);
    assert(check_prefix(ins, (ip + 1) as nat, defined) == next);
    lemma_prefix_grows(ins, (ip + 1) as nat, len, defined);
    assert(next.1.len() == 0);
    lemma_accepted_stream_is_well_formed(ins, defined, ip as int);
    match ins[ip as int] {
        Instruction::Bind { slot, value_type, value } => {
            if st.0.contains_key(slot) && st.0[slot] != value_type {
                assert(bind_step(st, ip, slot, value_type).1.len() > 0);
            }
            assert(value_typed(literal_value(value), value_type));
        },
        Instruction::Call { function_name, inputs, output } => {
            let st1 = (st.0, st.1 + call_errors(st.0, ip, inputs@, function_inputs(function_name)));
            if st.0.contains_key(output) && st.0[output] != function_output(function_name) {
                assert(bind_step(st1, ip, output, function_output(function_name)).1.len() > 0);
            }
            assert forall|j: int| 0 <= j < inputs@.len() implies m.slots@.contains_key(#[trigger] inputs@[j]) by {}
            let args = inputs@.map_values(|s: Slot| m.slots@[s]);
            assert(read_all(m.slots@, inputs@) == Some(args));
            assert forall|j: int| 0 <= j < args.len() implies value_typed(*#[trigger] args[j], function_inputs(function_name)[j]) by {
                assert(st.0.contains_key(inputs@[j]));
                lemma_compatible_typed(*m.slots@[inputs@[j]], st.0[inputs@[j]], function_inputs(function_name)[j]);
            }
            let d = choose|d: Result<Dispatched, TrapReason>| #[trigger] dispatch_result(function_name, args, d) && match d {
                Ok(Dispatched::Value(v)) => r is Continue && n.instruction_pointer == ip + 1
                    && written(m.slots@, n.slots@, output, v),
                Ok(Dispatched::Float { function, lhs, rhs }) =>
                    r == StepOutcome::Host(HostRequest::Float { function, lhs, rhs, output })
                    && n.instruction_pointer == ip && n.slots@ == m.slots@,
                Err(reason) => r == StepOutcome::Trapped(VirtualMachineTrap { trapped_position: ip, reason })
                    && n.instruction_pointer == ip && n.slots@ == m.slots@,
            };
            lemma_dispatch_typed(function_name, args, d);
        },
        Instruction::SpecialCall { function_name, inputs, output } => {
            let st1 = (st.0, st.1 + call_errors(st.0, ip, inputs@, special_inputs(function_name)));
            if st.0.contains_key(output) && st.0[output] != special_output(function_name) {
                assert(bind_step(st1, ip, output, special_output(function_name)).1.len() > 0);
            }
            assert forall|j: int| 0 <= j < inputs@.len() implies m.slots@.contains_key(#[trigger] inputs@[j]) by {}
            let args = inputs@.map_values(|s: Slot| m.slots@[s]);
            assert(read_all(m.slots@, inputs@) == Some(args));
            assert forall|j: int| 0 <= j < args.len() implies value_typed(*#[trigger] args[j], special_inputs(function_name)[j]) by {
                assert(st.0.contains_key(inputs@[j]));
                lemma_compatible_typed(*m.slots@[inputs@[j]], st.0[inputs@[j]], special_inputs(function_name)[j]);
            }
            let d = choose|d: Result<SpecialDispatched, TrapReason>|
                #[trigger] special_result(function_name, args, ip, m.modification_namespace_list@, d) && match d {
                Ok(SpecialDispatched::Value(v)) => r is Continue && n.instruction_pointer == ip + 1
                    && written(m.slots@, n.slots@, output, v),
                Ok(SpecialDispatched::ReadGlobalMemory { namespace, identifier }) =>
                    r == StepOutcome::Host(HostRequest::ReadGlobalMemory { namespace, identifier, output })
                    && n.instruction_pointer == ip && n.slots@ == m.slots@,
                Ok(SpecialDispatched::WriteGlobalMemory { namespace, identifier, value }) =>
                    r == StepOutcome::Host(HostRequest::WriteGlobalMemory { namespace, identifier, value, output })
                    && n.instruction_pointer == ip && n.slots@ == m.slots@,
                Err(reason) => r == StepOutcome::Trapped(VirtualMachineTrap { trapped_position: ip, reason })
                    && n.instruction_pointer == ip && n.slots@ == m.slots@,
            };
            lemma_special_typed(function_name, args, ip, m.modification_namespace_list@, d);
        },
        Instruction::CallDefined { function_identifier, inputs, destination_slots, source_slots } => {
            let sig = defined[function_identifier];
            let e1 = if inputs@.len() != sig.inputs@.len() {
                seq![VerifyError::DefinedFunctionArgumentCountMismatch {
                    instruction_pointer: ip, expected: sig.inputs@.len() as usize, found: inputs@.len() as usize }]
            } else {
                args_errors(st.0, ip, inputs@, sig.inputs@)
            };
            let e2 = if source_slots@.len() != sig.destinations@.len() {
                seq![VerifyError::DefinedFunctionReturnCountMismatch {
                    instruction_pointer: ip, expected: sig.destinations@.len() as usize, found: source_slots@.len() as usize }]
            } else {
                args_errors(st.0, ip, source_slots@, sig.destinations@)
            };
            let mid = (st.0, st.1 + e1 + e2);
            if destination_slots@.len() == sig.destinations@.len() {
                lemma_bind_all_grows(mid, ip, destination_slots@, sig.destinations@);
            }
            assert(e1.len() == 0);
            assert forall|j: int| 0 <= j < inputs@.len() implies m.slots@.contains_key(#[trigger] inputs@[j]) by {
                lemma_no_args_errors(st.0, ip, inputs@, sig.inputs@, j);
            }
        },
        _ => {},
    }
}

/// Writes that add no error only add slot types: each slot keeps the type
/// it had.
proof fn lemma_bind_all_keeps(st: CheckState, ip: usize, slots: Seq<Slot>, types: Seq<Type>)
    requires
        bind_all(st, ip, slots, types).1.len() == st.1.len(),
    ensures
        st.0.submap_of(bind_all(st, ip, slots, types).0),
    decreases slots.len(),
{
    if slots.len() > 0 {
        let prev = bind_all(st, ip, slots.drop_last(), types.drop_last());
        lemma_bind_all_grows(st, ip, slots.drop_last(), types.drop_last());
        lemma_bind_all_keeps(st, ip, slots.drop_last(), types.drop_last());
    }
}

/// In a stream that the verifier accepts, the slot types it has given only
/// grow along the stream.
pub proof fn lemma_types_grow(instructions: Seq<Instruction>, defined: Map<FunctionIdentifier, DefinedFunctionSignature>, a: nat, b: nat)
    requires
        check_prefix(instructions, instructions.len(), defined).1.len() == 0,
        a <= b <= instructions.len(),
    ensures
        check_prefix(instructions, a, defined).0.submap_of(check_prefix(instructions, b, defined).0),
    decreases b - a,
{
    if a < b {
        lemma_types_grow(instructions, defined, a, (b - 1) as nat);
        let len = instructions.len();
        let ip = (b - 1) as usize;
        let st = check_prefix(instructions, (b - 1) as nat, defined);
        let next = check_step(st, ip, instructions[b - 1], len, defined);
        assert(check_prefix(instructions, b, defined) == next);
        lemma_prefix_grows(instructions, b, len, defined);
        lemma_prefix_grows(instructions, (b - 1) as nat, b, defined);
        assert(st.1.len() == 0 && next.1.len() == 0);
        match instructions[b - 1] {
            Instruction::Bind { slot, value_type, value } => {
                let st1 = if !literal_matches(value, value_type) {
                    (st.0, st.1.push(VerifyError::InvalidLiteral { instruction_pointer: ip, slot }))
                } else {
                    st
                };
                assert(bind_step(st1, ip, slot, value_type).1.len() >= st1.1.len());
                assert(st.0.submap_of(next.0));
            },
            Instruction::Call { function_name, inputs, output } => {
                let st1 = (st.0, st.1 + call_errors(st.0, ip, inputs@, function_inputs(function_name)));
                assert(bind_step(st1, ip, output, function_output(function_name)).1.len() >= st1.1.len());
                assert(st.0.submap_of(next.0));
            },
            Instruction::SpecialCall { function_name, inputs, output } => {
                let st1 = (st.0, st.1 + call_errors(st.0, ip, inputs@, special_inputs(function_name)));
                assert(bind_step(st1, ip, output, special_output(function_name)).1.len() >= st1.1.len());
                assert(st.0.submap_of(next.0));
            },
            Instruction::CallDefined { function_identifier, inputs, destination_slots, source_slots } => {
                if defined.contains_key(function_identifier) {
                    let sig = defined[function_identifier];
                    let e1 = if inputs@.len() != sig.inputs@.len() {
                        seq![VerifyError::DefinedFunctionArgumentCountMismatch {
                            instruction_pointer: ip, expected: sig.inputs@.len() as usize, found: inputs@.len() as usize }]
                    } else {
                        args_errors(st.0, ip, inputs@, sig.inputs@)
                    };
                    let e2 = if source_slots@.len() != sig.destinations@.len() {
                        seq![VerifyError::DefinedFunctionReturnCountMismatch {
                            instruction_pointer: ip, expected: sig.destinations@.len() as usize, found: source_slots@.len() as usize }]
                    } else {
                        args_errors(st.0, ip, source_slots@, sig.destinations@)
                    };
                    let mid = (st.0, st.1 + e1 + e2);
                    if destination_slots@.len() == sig.destinations@.len() {
                        lemma_bind_all_grows(mid, ip, destination_slots@, sig.destinations@);
                        lemma_bind_all_keeps(mid, ip, destination_slots@, sig.destinations@);
                    }
                }
                assert(st.0.submap_of(next.0));
            },
            _ => {},
        }
        let first = check_prefix(instructions, a, defined).0;
        assert forall|k: Slot| #[trigger] first.dom().contains(k) implies next.0.dom().contains(k) && first[k] == next.0[k] by {
            assert(st.0.dom().contains(k));
        }
    }
}

/// Every jump of the stream lands where the verifier has typed no slot that
/// it has not typed, with the same type, after the jump itself: a backward
/// jump always does (see `lemma_backward_jumps_land_typed`).
pub open spec fn jumps_land_typed(instructions: Seq<Instruction>, defined: Map<FunctionIdentifier, DefinedFunctionSignature>) -> bool {
    forall|i: int| 0 <= i < instructions.len() ==> match #[trigger] instructions[i] {
        Instruction::Jump { target_position } => check_prefix(instructions, target_position as nat, defined).0
            .submap_of(check_prefix(instructions, (i + 1) as nat, defined).0),
        Instruction::ConditionalJump { true_target_position, false_target_position, .. } => {
            &&& check_prefix(instructions, true_target_position as nat, defined).0
                .submap_of(check_prefix(instructions, (i + 1) as nat, defined).0)
            &&& check_prefix(instructions, false_target_position as nat, defined).0
                .submap_of(check_prefix(instructions, (i + 1) as nat, defined).0)
        },
        _ => true,
    }
}

/// In a stream that the verifier accepts, jumps that go back (to the
/// instruction after them at the latest) land typed.
pub proof fn lemma_backward_jumps_land_typed(instructions: Seq<Instruction>, defined: Map<FunctionIdentifier, DefinedFunctionSignature>)
    requires
        check_prefix(instructions, instructions.len(), defined).1.len() == 0,
        forall|i: int| 0 <= i < instructions.len() ==> match #[trigger] instructions[i] {
            Instruction::Jump { target_position } => target_position <= i + 1,
            Instruction::ConditionalJump { true_target_position, false_target_position, .. } =>
                true_target_position <= i + 1 && false_target_position <= i + 1,
            _ => true,
        },
    ensures
        jumps_land_typed(instructions, defined),
{
    assert forall|i: int| 0 <= i < instructions.len() implies match #[trigger] instructions[i] {
        Instruction::Jump { target_position } => check_prefix(instructions, target_position as nat, defined).0
            .submap_of(check_prefix(instructions, (i + 1) as nat, defined).0),
        Instruction::ConditionalJump { true_target_position, false_target_position, .. } => {
            &&& check_prefix(instructions, true_target_position as nat, defined).0
                .submap_of(check_prefix(instructions, (i + 1) as nat, defined).0)
            &&& check_prefix(instructions, false_target_position as nat, defined).0
                .submap_of(check_prefix(instructions, (i + 1) as nat, defined).0)
        },
        _ => true,
    } by {
        match instructions[i] {
            Instruction::Jump { target_position } => {
                lemma_types_grow(instructions, defined, target_position as nat, (i + 1) as nat);
            },
            Instruction::ConditionalJump { true_target_position, false_target_position, .. } => {
                lemma_types_grow(instructions, defined, true_target_position as nat, (i + 1) as nat);
                lemma_types_grow(instructions, defined, false_target_position as nat, (i + 1) as nat);
            },
            _ => {},
        }
    }
}

/// `ms` are machines that each step of `rs` took to the next, every step but
/// the last going on.
pub open spec fn steps_on(ms: Seq<VirtualMachine>, rs: Seq<StepOutcome>) -> bool {
    &&& ms.len() == rs.len() + 1
    &&& forall|i: int| 0 <= i < rs.len() ==> step_result(ms[i], ms[i + 1], #[trigger] rs[i])
    &&& forall|i: int| 0 <= i < rs.len() - 1 ==> #[trigger] rs[i] is Continue
}

/// Along steps that went on from a fresh machine over an accepted stream
/// whose jumps land typed, the slots of the machine after `k` steps are
/// typed for its instruction.
proof fn lemma_run_prefix(ms: Seq<VirtualMachine>, rs: Seq<StepOutcome>, defined: Map<FunctionIdentifier, DefinedFunctionSignature>, k: int)
    requires
        steps_on(ms, rs),
        check_prefix(ms[0].instructions@, ms[0].instructions@.len(), defined).1.len() == 0,
        jumps_land_typed(ms[0].instructions@, defined),
        ms[0].instruction_pointer == 0,
        ms[0].slots@ == Map::<Slot, Arc<Value>>::empty(),
        0 <= k < ms.len(),
        forall|i: int| 0 <= i < k ==> #[trigger] rs[i] is Continue,
    ensures
        ms[k].instructions == ms[0].instructions,
        ms[k].instruction_pointer <= ms[0].instructions@.len(),
        typed_slots(check_prefix(ms[0].instructions@, ms[k].instruction_pointer as nat, defined).0, ms[k].slots@),
    decreases k,
{
    if k > 0 {
        lemma_run_prefix(ms, rs, defined, k - 1);
        let m = ms[k - 1];
        let n = ms[k];
        let ins = m.instructions@;
        let ip = m.instruction_pointer;
        assert(step_result(m, n, rs[k - 1]));
        assert(rs[k - 1] is Continue);
        if ip < ins.len() {
            lemma_verified_step_is_safe(m, n, rs[k - 1], defined);
            lemma_accepted_stream_is_well_formed(ins, defined, ip as int);
            let after = check_prefix(ins, (ip + 1) as nat, defined).0;
            let here = check_prefix(ins, n.instruction_pointer as nat, defined).0;
            assert(jumps_land_typed(ins, defined) ==> match ins[ip as int] {
                Instruction::Jump { target_position } => check_prefix(ins, target_position as nat, defined).0.submap_of(after),
                Instruction::ConditionalJump { true_target_position, false_target_position, .. } => {
                    &&& check_prefix(ins, true_target_position as nat, defined).0.submap_of(after)
                    &&& check_prefix(ins, false_target_position as nat, defined).0.submap_of(after)
                },
                _ => true,
            });
            assert(here.submap_of(after));
            assert forall|s: Slot| #[trigger] here.contains_key(s) implies n.slots@.contains_key(s) && value_typed(*n.slots@[s], here[s]) by {
                assert(after.contains_key(s));
            }
        }
    }
}

/// A stream that the verifier accepts and whose jumps land typed runs from a
/// fresh machine without a verifier-bug trap, but where an integer division
/// overflows or a vector is at its length limit: along steps that went on,
/// the last step traps as a verifier bug only there.
pub proof fn lemma_verified_run_is_safe(ms: Seq<VirtualMachine>, rs: Seq<StepOutcome>, defined: Map<FunctionIdentifier, DefinedFunctionSignature>)
    requires
        steps_on(ms, rs),
        rs.len() > 0,
        check_prefix(ms[0].instructions@, ms[0].instructions@.len(), defined).1.len() == 0,
        jumps_land_typed(ms[0].instructions@, defined),
        ms[0].instruction_pointer == 0,
        ms[0].slots@ == Map::<Slot, Arc<Value>>::empty(),
    ensures
        rs.last() matches StepOutcome::Trapped(t) ==> (t.reason matches TrapReason::VerifierBug(msg)
            ==> msg@ == "Integer Overflow"@ || msg@ == "Vector Length Limit"@),
{
    let k = rs.len() - 1;
    lemma_run_prefix(ms, rs, defined, k);
    let m = ms[k];
    assert(step_result(m, ms[k + 1], rs[k]));
    if m.instruction_pointer < m.instructions@.len() {
        lemma_verified_step_is_safe(m, ms[k + 1], rs[k], defined);
    }
}

/// The items of a vector value.
spec fn items_of(v: Arc<Value>) -> Seq<Arc<Value>> {
    match *v {
        Value::Vector(items) => items@,
        _ => Seq::empty(),
    }
}


// ── Laws of argument compatibility ───────────────────────────────────────────

/// `Any` accepts every type.
pub proof fn lemma_any_accepts_every_type(t: Type)
    ensures
        compatible(t, Type::Any),
{
}

/// `Option<Any>` accepts every option type, whatever it holds.
pub proof fn lemma_option_any_accepts_every_option(t: Type)
    ensures
        compatible(Type::Option(&t), Type::Option(&Type::Any)),
{
}

/// `Result<Any, Any>` accepts every result type, whatever its sides.
pub proof fn lemma_result_any_accepts_every_result(k: Type, e: Type)
    ensures
        compatible(Type::Result(&k, &e), Type::Result(&Type::Any, &Type::Any)),
{
}

/// A wildcard on one side of a result leaves only the other side to check:
/// `Result<K, E>` fits `Result<T, Any>` exactly when `K` fits `T`, and
/// `Result<Any, F>` exactly when `E` fits `F`.
pub proof fn lemma_result_wildcard_side(k: Type, e: Type, t: Type)
    ensures
        compatible(Type::Result(&k, &e), Type::Result(&t, &Type::Any)) == compatible(k, t),
        compatible(Type::Result(&k, &e), Type::Result(&Type::Any, &t)) == compatible(e, t),
{
}

/// Every type fits itself.
pub proof fn lemma_compatible_reflexive(t: Type)
    ensures
        compatible(t, t),
    decreases t,
{
    match t {
        Type::Vector(e) => lemma_compatible_reflexive(*e),
        Type::Option(e) => lemma_compatible_reflexive(*e),
        Type::Result(k, e) => {
            lemma_compatible_reflexive(*k);
            lemma_compatible_reflexive(*e);
        },
        _ => {},
    }
}

/// Where a type is accepted, every value of it is a value of the expected
/// type; and for the wildcards the converse holds too: every value of any
/// type is a value of `Any`, every option value of `Option<Any>`, every
/// result value of `Result<Any, Any>`, and each of these is accepted.
pub proof fn lemma_wildcards_accept_exactly_their_values(v: Value, t: Type, k: Type, e: Type)
    ensures
        value_typed(v, t) ==> value_typed(v, Type::Any) && compatible(t, Type::Any),
        value_typed(v, Type::Option(&t)) ==> value_typed(v, Type::Option(&Type::Any))
            && compatible(Type::Option(&t), Type::Option(&Type::Any)),
        value_typed(v, Type::Result(&k, &e)) ==> value_typed(v, Type::Result(&Type::Any, &Type::Any))
            && compatible(Type::Result(&k, &e), Type::Result(&Type::Any, &Type::Any)),
{
    match v {
        Value::Option(Some(x)) => {
            assert(value_typed(*x, Type::Any));
        },
        Value::Result(Ok(x)) => {
            assert(value_typed(*x, Type::Any));
        },
        Value::Result(Err(x)) => {
            assert(value_typed(*x, Type::Any));
        },
        _ => {},
    }
}

/// The option and result tests take any option or any result: `IsSome` and
/// `IsNone` accept an argument of every option type, `IsOk` and `IsErr` of
/// every result type.
pub proof fn lemma_tests_accept_every_option_and_result(t: Type, k: Type, e: Type)
    ensures
        compatible(Type::Option(&t), function_inputs(Functions::IsSome)[0]),
        compatible(Type::Option(&t), function_inputs(Functions::IsNone)[0]),
        compatible(Type::Result(&k, &e), function_inputs(Functions::IsOk)[0]),
        compatible(Type::Result(&k, &e), function_inputs(Functions::IsErr)[0]),
{
}


/// Containers are compared element-wise: a vector type fits another exactly
/// when its element type fits the other's; an option type fits `Option<E>`
/// (`E` not `Any`) exactly when its content fits `E`; a result type fits
/// `Result<K, E>` (neither `Any`) exactly when both sides fit.
pub proof fn lemma_compatible_element_wise(f: Type, g: Type, e: Type, d: Type)
    ensures
        compatible(Type::Vector(&f), Type::Vector(&e)) == compatible(f, e),
        e != Type::Any ==> compatible(Type::Option(&f), Type::Option(&e)) == compatible(f, e),
        e != Type::Any && d != Type::Any ==>
            compatible(Type::Result(&f, &g), Type::Result(&e, &d)) == (compatible(f, e) && compatible(g, d)),
{
}

/// A container type is only accepted by a container of the same kind (or by
/// `Any`), and a plain type (`Integer`, `Float`, `String`, `Char`, `Boolean`,
/// `Void`) only by itself (or by `Any`).
pub proof fn lemma_compatible_same_kind(found: Type, expected: Type)
    ensures
        expected is Vector && compatible(found, expected) ==> found is Vector,
        expected is Option && compatible(found, expected) ==> found is Option,
        expected is Result && compatible(found, expected) ==> found is Result,
        !(expected is Vector || expected is Option || expected is Result || expected is Any)
            ==> (compatible(found, expected) <==> found == expected),
{
}

} // verus!
