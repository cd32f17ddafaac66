//! The execution core of the virtual machine: built-in function dispatch,
//! special functions, instruction execution and the step function that the
//! run loop drives. The loop, the logger channel, the shared global memory
//! and float arithmetic are the host's: a step hands them back as requests.

use vstd::prelude::*;
use std::collections::HashMap;
use std::sync::Arc;
use crate::persistent_vector::{share, PersistentVector};
use crate::Namespace;
use crate::virtual_machine::event::{
    StateChange, TrapReason, VirtualMachineEvent, VirtualMachineLog, VirtualMachineLogLevel,
    VirtualMachineTrap, VirtualMachineYield,
};
use crate::virtual_machine::instruction::{FunctionIdentifier, Functions, Instruction, Literal, Slot, SpecialFunctions};
use crate::virtual_machine::instruction_verifier::{function_signature, literal_matches, special_inputs};
use crate::virtual_machine::types::{Type, Value};

verus! {

broadcast use vstd::std_specs::hash::group_hash_axioms;

/// What a built-in function gives back: a value, or, for a float function,
/// the operands the host computes it from (as IEEE 754 bit patterns).
#[derive(Debug)]
pub enum Dispatched {
    Value(Value),
    Float { function: Functions, lhs: u64, rhs: u64 },
}

/// Calls `i64::wrapping_pow`: `base` to the `exp`, truncated to 64 bits.
#[verifier::external_body]
fn wrapping_pow(base: i64, exp: u32) -> (r: i64)
    ensures
        r == vstd::arithmetic::power::pow(base as int, exp as nat) as i64,
{
    base.wrapping_pow(exp)
}

/// The number of arguments a built-in function takes.
pub open spec fn arity(f: Functions) -> nat {
    crate::virtual_machine::instruction_verifier::function_inputs(f).len()
}

/// A verifier-bug trap with the given message.
pub open spec fn is_bug(r: Result<Dispatched, TrapReason>, message: Seq<char>) -> bool {
    r matches Err(TrapReason::VerifierBug(m)) && m@ == message
}

pub open spec fn type_mismatch(r: Result<Dispatched, TrapReason>) -> bool {
    is_bug(r, "Type Mismatch"@)
}

pub open spec fn int_of(v: Value) -> Option<i64> {
    match v {
        Value::Integer(n) => Some(n),
        _ => None,
    }
}

pub open spec fn bool_of(v: Value) -> Option<bool> {
    match v {
        Value::Boolean(b) => Some(b),
        _ => None,
    }
}

pub open spec fn is_string(v: Value) -> bool {
    v is String
}

pub open spec fn string_of(v: Value) -> Seq<char> {
    match v {
        Value::String(s) => s@,
        _ => Seq::empty(),
    }
}

/// `r` is the value `v`.
pub open spec fn gives(r: Result<Dispatched, TrapReason>, v: Value) -> bool {
    r == Ok::<Dispatched, TrapReason>(Dispatched::Value(v))
}

/// An operation of two integers, the left one read first.
pub open spec fn int_pair(a: Value, b: Value, r: Result<Dispatched, TrapReason>, f: spec_fn(i64, i64) -> Value) -> bool {
    match (int_of(a), int_of(b)) {
        (Some(x), Some(y)) => gives(r, f(x, y)),
        _ => type_mismatch(r),
    }
}

/// An operation of two Booleans.
pub open spec fn bool_pair(a: Value, b: Value, r: Result<Dispatched, TrapReason>, f: spec_fn(bool, bool) -> bool) -> bool {
    match (bool_of(a), bool_of(b)) {
        (Some(x), Some(y)) => gives(r, Value::Boolean(f(x, y))),
        _ => type_mismatch(r),
    }
}

/// A short-circuit operation of two Booleans: when the first is `stop`, the
/// result is `stop` and the second is not read; otherwise the result is the
/// second.
pub open spec fn bool_short(a: Value, b: Value, r: Result<Dispatched, TrapReason>, stop: bool) -> bool {
    match bool_of(a) {
        Some(x) => if x == stop {
            gives(r, Value::Boolean(stop))
        } else {
            match bool_of(b) {
                Some(y) => gives(r, Value::Boolean(y)),
                None => type_mismatch(r),
            }
        },
        None => type_mismatch(r),
    }
}

/// Division and remainder: the divisor is read first, a zero divisor traps,
/// and the one overflowing case (`i64::MIN` by `-1`) traps as a verifier bug.
pub open spec fn int_division(a: Value, b: Value, r: Result<Dispatched, TrapReason>, checked: spec_fn(i64, i64) -> Option<i64>) -> bool {
    match int_of(b) {
        None => type_mismatch(r),
        Some(d) => if d == 0 {
            r == Err::<Dispatched, TrapReason>(TrapReason::DivisionByZero)
        } else {
            match int_of(a) {
                None => type_mismatch(r),
                Some(x) => match checked(x, d) {
                    Some(q) => gives(r, Value::Integer(q)),
                    None => is_bug(r, "Integer Overflow"@),
                },
            }
        },
    }
}

/// What the built-in function `f` gives for `args`.
pub open spec fn dispatch_result(f: Functions, args: Seq<Arc<Value>>, r: Result<Dispatched, TrapReason>) -> bool {
    if args.len() != arity(f) {
        is_bug(r, "Argument count Mismatch"@)
    } else {
        let a = *args[0];
        let b = *args[1];
        match f {
            Functions::AddInteger => int_pair(a, b, r, |x: i64, y: i64| Value::Integer(x.wrapping_add(y))),
            Functions::SubInteger => int_pair(a, b, r, |x: i64, y: i64| Value::Integer(x.wrapping_sub(y))),
            Functions::MulInteger => int_pair(a, b, r, |x: i64, y: i64| Value::Integer(x.wrapping_mul(y))),
            Functions::DivInteger => int_division(a, b, r, |x: i64, y: i64| x.checked_div(y)),
            Functions::ModInteger => int_division(a, b, r, |x: i64, y: i64| x.checked_rem(y)),
            Functions::PowInteger => int_pair(a, b, r, |x: i64, y: i64| Value::Integer(
                vstd::arithmetic::power::pow(x as int, (if 0 <= y <= u32::MAX { y } else { 0 }) as nat) as i64)),
            Functions::EqualInteger => int_pair(a, b, r, |x: i64, y: i64| Value::Boolean(x == y)),
            Functions::NotEqualInteger => int_pair(a, b, r, |x: i64, y: i64| Value::Boolean(x != y)),
            Functions::GreaterThanInteger => int_pair(a, b, r, |x: i64, y: i64| Value::Boolean(x > y)),
            Functions::LessThanInteger => int_pair(a, b, r, |x: i64, y: i64| Value::Boolean(x < y)),
            Functions::AddFloat | Functions::SubFloat | Functions::MulFloat | Functions::DivFloat
            | Functions::PowFloat | Functions::GreaterThanFloat | Functions::LessThanFloat => match (a, b) {
                (Value::Float(x), Value::Float(y)) => r == Ok::<Dispatched, TrapReason>(Dispatched::Float { function: f, lhs: x, rhs: y }),
                _ => type_mismatch(r),
            },
            Functions::Not => match bool_of(a) {
                Some(x) => gives(r, Value::Boolean(!x)),
                None => type_mismatch(r),
            },
            Functions::And => bool_short(a, b, r, false),
            Functions::Or => bool_short(a, b, r, true),
            Functions::Xor => bool_pair(a, b, r, |x: bool, y: bool| x != y),
            Functions::EqualString => if is_string(a) && is_string(b) {
                gives(r, Value::Boolean(string_of(a) == string_of(b)))
            } else {
                type_mismatch(r)
            },
            Functions::StringLength => if is_string(a) {
                gives(r, Value::Integer(string_of(a).len() as i64))
            } else {
                type_mismatch(r)
            },
            Functions::StringGetChar => match (is_string(a), int_of(b)) {
                (true, Some(i)) => if 0 <= i < string_of(a).len() {
                    gives(r, Value::Char(string_of(a)[i as int]))
                } else {
                    r == Err::<Dispatched, TrapReason>(TrapReason::StringIndexOutOfBounds { index: i, length: string_of(a).len() as usize })
                },
                _ => type_mismatch(r),
            },
            Functions::VectorGetInteger | Functions::VectorGetFloat | Functions::VectorGetString
            | Functions::VectorGetChar | Functions::VectorGetBoolean => match (a, int_of(b)) {
                (Value::Vector(v), Some(i)) => if 0 <= i < v@.len() {
                    gives(r, *v@[i as int])
                } else {
                    r == Err::<Dispatched, TrapReason>(TrapReason::IndexOutOfBounds { index: i, length: v@.len() as usize })
                },
                _ => type_mismatch(r),
            },
            Functions::VectorInitInteger | Functions::VectorInitFloat | Functions::VectorInitString
            | Functions::VectorInitChar | Functions::VectorInitBoolean =>
                r matches Ok(Dispatched::Value(Value::Vector(w))) && w@ == seq![args[0]],
            Functions::VectorPushInteger | Functions::VectorPushFloat | Functions::VectorPushString
            | Functions::VectorPushChar | Functions::VectorPushBoolean => match a {
                Value::Vector(v) => if v@.len() < usize::MAX {
                    r matches Ok(Dispatched::Value(Value::Vector(w))) && w@ == v@.push(args[1])
                } else {
                    is_bug(r, "Vector Length Limit"@)
                },
                _ => type_mismatch(r),
            },
            Functions::VectorPopInteger | Functions::VectorPopFloat | Functions::VectorPopString
            | Functions::VectorPopChar | Functions::VectorPopBoolean => match a {
                Value::Vector(v) => if v@.len() == 0 {
                    r == Err::<Dispatched, TrapReason>(TrapReason::IndexOutOfBounds { index: -1i64, length: 0usize })
                } else {
                    r matches Ok(Dispatched::Value(Value::Vector(w))) && w@ == v@.drop_last()
                },
                _ => type_mismatch(r),
            },
            Functions::IsSome => gives(r, Value::Boolean(a matches Value::Option(Some(_)))),
            Functions::IsNone => gives(r, Value::Boolean(a matches Value::Option(None))),
            Functions::IsOk => gives(r, Value::Boolean(a matches Value::Result(Ok(_)))),
            Functions::IsErr => gives(r, Value::Boolean(a matches Value::Result(Err(_)))),
            Functions::UnwrapSomeInteger | Functions::UnwrapSomeFloat | Functions::UnwrapSomeString
            | Functions::UnwrapSomeChar | Functions::UnwrapSomeBoolean => match a {
                Value::Option(Some(inner)) => gives(r, *inner),
                Value::Option(None) => r == Err::<Dispatched, TrapReason>(TrapReason::UnwrapNone),
                _ => type_mismatch(r),
            },
            Functions::UnwrapOkInteger | Functions::UnwrapOkFloat | Functions::UnwrapOkString
            | Functions::UnwrapOkChar | Functions::UnwrapOkBoolean => match a {
                Value::Result(Ok(inner)) => gives(r, *inner),
                Value::Result(Err(_)) => r == Err::<Dispatched, TrapReason>(TrapReason::UnwrapErrOnOk),
                _ => type_mismatch(r),
            },
            Functions::UnwrapErrInteger | Functions::UnwrapErrFloat | Functions::UnwrapErrString
            | Functions::UnwrapErrChar | Functions::UnwrapErrBoolean => match a {
                Value::Result(Err(inner)) => gives(r, *inner),
                Value::Result(Ok(_)) => r == Err::<Dispatched, TrapReason>(TrapReason::UnwrapOkOnErr),
                _ => type_mismatch(r),
            },
        }
    }
}

/// A verifier-bug trap reason with `message`.
pub(crate) fn bug(message: &str) -> (r: TrapReason)
    ensures
        r matches TrapReason::VerifierBug(m) && m@ == message@,
{
    TrapReason::VerifierBug(message.to_owned())
}

fn int_arg(v: &Value) -> (r: Option<i64>)
    ensures
        r == int_of(*v),
{
    match v {
        Value::Integer(n) => Some(*n),
        _ => None,
    }
}

fn bool_arg(v: &Value) -> (r: Option<bool>)
    ensures
        r == bool_of(*v),
{
    match v {
        Value::Boolean(b) => Some(*b),
        _ => None,
    }
}

/// `index` as a position below `len`, if it is one.
fn position_below(index: i64, len: usize) -> (r: Option<usize>)
    ensures
        r matches Some(i) ==> 0 <= index < len && i == index,
        r is None ==> !(0 <= index < len),
{
    if index < 0 {
        None
    } else if (index as u64) < (len as u64) {
        Some(index as usize)
    } else {
        None
    }
}

/// Applies the built-in function `func` to `args`. A wrong argument count or
/// a wrong argument type is a verifier bug (a verified stream never has one);
/// the runtime failures are the traps named in `TrapReason`. Float functions
/// check their arguments and hand the operands back for the host.
pub fn dispatch(func: Functions, args: &[Arc<Value>]) -> (r: Result<Dispatched, TrapReason>)
    ensures
        dispatch_result(func, args@, r),
{
    let arity = function_signature(func).inputs.len();
    if args.len() != arity {
        return Err(bug("Argument count Mismatch"));
    }
    match func {
        Functions::AddInteger | Functions::SubInteger | Functions::MulInteger | Functions::PowInteger
        | Functions::EqualInteger | Functions::NotEqualInteger | Functions::GreaterThanInteger
        | Functions::LessThanInteger => {
            let x = match int_arg(&*args[0]) {
                Some(x) => x,
                None => {
                    return Err(bug("Type Mismatch"));
                },
            };
            let y = match int_arg(&*args[1]) {
                Some(y) => y,
                None => {
                    return Err(bug("Type Mismatch"));
                },
            };
            let v = match func {
                Functions::AddInteger => Value::Integer(x.wrapping_add(y)),
                Functions::SubInteger => Value::Integer(x.wrapping_sub(y)),
                Functions::MulInteger => Value::Integer(x.wrapping_mul(y)),
                Functions::PowInteger => {
                    let exp: u32 = if 0 <= y && y <= 0xffff_ffff { y as u32 } else { 0 };
                    Value::Integer(wrapping_pow(x, exp))
                },
                Functions::EqualInteger => Value::Boolean(x == y),
                Functions::NotEqualInteger => Value::Boolean(x != y),
                Functions::GreaterThanInteger => Value::Boolean(x > y),
                _ => Value::Boolean(x < y),
            };
            Ok(Dispatched::Value(v))
        },
        Functions::DivInteger | Functions::ModInteger => {
            let d = match int_arg(&*args[1]) {
                Some(d) => d,
                None => {
                    return Err(bug("Type Mismatch"));
                },
            };
            if d == 0 {
                return Err(TrapReason::DivisionByZero);
            }
            let x = match int_arg(&*args[0]) {
                Some(x) => x,
                None => {
                    return Err(bug("Type Mismatch"));
                },
            };
            let q = match func {
                Functions::DivInteger => x.checked_div(d),
                _ => x.checked_rem(d),
            };
            match q {
                Some(q) => Ok(Dispatched::Value(Value::Integer(q))),
                None => Err(bug("Integer Overflow")),
            }
        },
        Functions::AddFloat | Functions::SubFloat | Functions::MulFloat | Functions::DivFloat
        | Functions::PowFloat | Functions::GreaterThanFloat | Functions::LessThanFloat => {
            match (&*args[0], &*args[1]) {
                (Value::Float(x), Value::Float(y)) => Ok(Dispatched::Float { function: func, lhs: *x, rhs: *y }),
                _ => Err(bug("Type Mismatch")),
            }
        },
        Functions::Not => match bool_arg(&*args[0]) {
            Some(x) => Ok(Dispatched::Value(Value::Boolean(!x))),
            None => Err(bug("Type Mismatch")),
        },
        Functions::And | Functions::Or => {
            let stop = match func {
                Functions::Or => true,
                _ => false,
            };
            match bool_arg(&*args[0]) {
                Some(x) => {
                    if x == stop {
                        Ok(Dispatched::Value(Value::Boolean(stop)))
                    } else {
                        match bool_arg(&*args[1]) {
                            Some(y) => Ok(Dispatched::Value(Value::Boolean(y))),
                            None => Err(bug("Type Mismatch")),
                        }
                    }
                },
                None => Err(bug("Type Mismatch")),
            }
        },
        Functions::Xor => {
            match (bool_arg(&*args[0]), bool_arg(&*args[1])) {
                (Some(x), Some(y)) => Ok(Dispatched::Value(Value::Boolean(x != y))),
                _ => Err(bug("Type Mismatch")),
            }
        },
        Functions::EqualString => match (&*args[0], &*args[1]) {
            (Value::String(s), Value::String(t)) => Ok(Dispatched::Value(Value::Boolean(*s == *t))),
            _ => Err(bug("Type Mismatch")),
        },
        Functions::StringLength => match &*args[0] {
            Value::String(s) => Ok(Dispatched::Value(Value::Integer(s.as_str().unicode_len() as i64))),
            _ => Err(bug("Type Mismatch")),
        },
        Functions::StringGetChar => {
            let s = match &*args[0] {
                Value::String(s) => s,
                _ => {
                    return Err(bug("Type Mismatch"));
                },
            };
            let idx = match int_arg(&*args[1]) {
                Some(i) => i,
                None => {
                    return Err(bug("Type Mismatch"));
                },
            };
            let len = s.as_str().unicode_len();
            match position_below(idx, len) {
                Some(i) => Ok(Dispatched::Value(Value::Char(s.as_str().get_char(i)))),
                None => Err(TrapReason::StringIndexOutOfBounds { index: idx, length: len }),
            }
        },
        Functions::VectorGetInteger | Functions::VectorGetFloat | Functions::VectorGetString
        | Functions::VectorGetChar | Functions::VectorGetBoolean => {
            let v = match &*args[0] {
                Value::Vector(v) => v,
                _ => {
                    return Err(bug("Type Mismatch"));
                },
            };
            let idx = match int_arg(&*args[1]) {
                Some(i) => i,
                None => {
                    return Err(bug("Type Mismatch"));
                },
            };
            let len = v.len();
            match position_below(idx, len) {
                Some(i) => match v.get(i) {
                    Some(x) => Ok(Dispatched::Value((*x).clone())),
                    None => Err(TrapReason::IndexOutOfBounds { index: idx, length: len }),
                },
                None => Err(TrapReason::IndexOutOfBounds { index: idx, length: len }),
            }
        },
        Functions::VectorInitInteger | Functions::VectorInitFloat | Functions::VectorInitString
        | Functions::VectorInitChar | Functions::VectorInitBoolean => {
            let w = PersistentVector::new().push(Arc::new((*args[0]).clone()));
            Ok(Dispatched::Value(Value::Vector(w)))
        },
        Functions::VectorPushInteger | Functions::VectorPushFloat | Functions::VectorPushString
        | Functions::VectorPushChar | Functions::VectorPushBoolean => match &*args[0] {
            Value::Vector(v) => {
                if v.len() == usize::MAX {
                    return Err(bug("Vector Length Limit"));
                }
                let w = v.push(Arc::new((*args[1]).clone()));
                Ok(Dispatched::Value(Value::Vector(w)))
            },
            _ => Err(bug("Type Mismatch")),
        },
        Functions::VectorPopInteger | Functions::VectorPopFloat | Functions::VectorPopString
        | Functions::VectorPopChar | Functions::VectorPopBoolean => match &*args[0] {
            Value::Vector(v) => match v.pop() {
                Some(w) => Ok(Dispatched::Value(Value::Vector(w))),
                None => Err(TrapReason::IndexOutOfBounds { index: -1, length: 0 }),
            },
            _ => Err(bug("Type Mismatch")),
        },
        Functions::IsSome => Ok(Dispatched::Value(Value::Boolean(matches!(&*args[0], Value::Option(Some(_)))))),
        Functions::IsNone => Ok(Dispatched::Value(Value::Boolean(matches!(&*args[0], Value::Option(None))))),
        Functions::IsOk => Ok(Dispatched::Value(Value::Boolean(matches!(&*args[0], Value::Result(Ok(_)))))),
        Functions::IsErr => Ok(Dispatched::Value(Value::Boolean(matches!(&*args[0], Value::Result(Err(_)))))),
        Functions::UnwrapSomeInteger | Functions::UnwrapSomeFloat | Functions::UnwrapSomeString
        | Functions::UnwrapSomeChar | Functions::UnwrapSomeBoolean => match &*args[0] {
            Value::Option(Some(inner)) => Ok(Dispatched::Value((**inner).clone())),
            Value::Option(None) => Err(TrapReason::UnwrapNone),
            _ => Err(bug("Type Mismatch")),
        },
        Functions::UnwrapOkInteger | Functions::UnwrapOkFloat | Functions::UnwrapOkString
        | Functions::UnwrapOkChar | Functions::UnwrapOkBoolean => match &*args[0] {
            Value::Result(Ok(inner)) => Ok(Dispatched::Value((**inner).clone())),
            Value::Result(Err(_)) => Err(TrapReason::UnwrapErrOnOk),
            _ => Err(bug("Type Mismatch")),
        },
        Functions::UnwrapErrInteger | Functions::UnwrapErrFloat | Functions::UnwrapErrString
        | Functions::UnwrapErrChar | Functions::UnwrapErrBoolean => match &*args[0] {
            Value::Result(Err(inner)) => Ok(Dispatched::Value((**inner).clone())),
            Value::Result(Ok(_)) => Err(TrapReason::UnwrapOkOnErr),
            _ => Err(bug("Type Mismatch")),
        },
    }
}

// ── Laws of the integer comparisons ──────────────────────────────────────────

/// The arguments are the integers `x` and `y`, in that order.
pub open spec fn int_args(args: Seq<Arc<Value>>, x: i64, y: i64) -> bool {
    &&& args.len() == 2
    &&& *args[0] == Value::Integer(x)
    &&& *args[1] == Value::Integer(y)
}

/// The result is the Boolean `b`.
pub open spec fn yields_bool(r: Result<Dispatched, TrapReason>, b: bool) -> bool {
    r == Ok::<Dispatched, TrapReason>(Dispatched::Value(Value::Boolean(b)))
}

/// The integer comparisons decide the integer order: on integers `x`, `y`,
/// `GreaterThanInteger` gives whether `x > y` strictly, `LessThanInteger`
/// whether `x < y`, `EqualInteger` whether they are equal and
/// `NotEqualInteger` whether they differ.
pub proof fn lemma_integer_comparisons_decide_order(
    args: Seq<Arc<Value>>, x: i64, y: i64,
    gt: Result<Dispatched, TrapReason>, lt: Result<Dispatched, TrapReason>,
    eq: Result<Dispatched, TrapReason>, ne: Result<Dispatched, TrapReason>,
)
    requires
        int_args(args, x, y),
        dispatch_result(Functions::GreaterThanInteger, args, gt),
        dispatch_result(Functions::LessThanInteger, args, lt),
        dispatch_result(Functions::EqualInteger, args, eq),
        dispatch_result(Functions::NotEqualInteger, args, ne),
    ensures
        yields_bool(gt, x > y),
        yields_bool(lt, x < y),
        yields_bool(eq, x == y),
        yields_bool(ne, x != y),
{
}

/// The comparisons of an integer with itself: it is not greater than itself,
/// not less than itself, and equal to itself (`>` and `<` are irreflexive).
pub proof fn lemma_integer_comparisons_irreflexive(
    args: Seq<Arc<Value>>, x: i64,
    gt: Result<Dispatched, TrapReason>, lt: Result<Dispatched, TrapReason>, eq: Result<Dispatched, TrapReason>,
)
    requires
        int_args(args, x, x),
        dispatch_result(Functions::GreaterThanInteger, args, gt),
        dispatch_result(Functions::LessThanInteger, args, lt),
        dispatch_result(Functions::EqualInteger, args, eq),
    ensures
        yields_bool(gt, false),
        yields_bool(lt, false),
        yields_bool(eq, true),
{
}

/// `x > y` is `y < x`: `GreaterThanInteger` on `(x, y)` gives what
/// `LessThanInteger` gives on `(y, x)`.
pub proof fn lemma_greater_is_converse_of_less(
    args: Seq<Arc<Value>>, swapped: Seq<Arc<Value>>, x: i64, y: i64,
    gt: Result<Dispatched, TrapReason>, lt: Result<Dispatched, TrapReason>,
)
    requires
        int_args(args, x, y),
        int_args(swapped, y, x),
        dispatch_result(Functions::GreaterThanInteger, args, gt),
        dispatch_result(Functions::LessThanInteger, swapped, lt),
    ensures
        gt == lt,
{
}

/// Trichotomy: of `x < y`, `x == y` and `x > y`, exactly one holds; and
/// `NotEqualInteger` is the negation of `EqualInteger`.
pub proof fn lemma_integer_trichotomy(
    args: Seq<Arc<Value>>, x: i64, y: i64,
    gt: Result<Dispatched, TrapReason>, lt: Result<Dispatched, TrapReason>,
    eq: Result<Dispatched, TrapReason>, ne: Result<Dispatched, TrapReason>,
)
    requires
        int_args(args, x, y),
        dispatch_result(Functions::GreaterThanInteger, args, gt),
        dispatch_result(Functions::LessThanInteger, args, lt),
        dispatch_result(Functions::EqualInteger, args, eq),
        dispatch_result(Functions::NotEqualInteger, args, ne),
    ensures
        exists|a: bool, b: bool, c: bool| yields_bool(lt, a) && yields_bool(eq, b) && yields_bool(gt, c)
            && (if a { !b && !c } else if b { !c } else { c }),
        exists|b: bool| yields_bool(eq, b) && yields_bool(ne, !b),
{
    assert(yields_bool(lt, x < y) && yields_bool(eq, x == y) && yields_bool(gt, x > y));
    assert(yields_bool(ne, !(x == y)));
}

/// `GreaterThanInteger` is transitive: `x > y` and `y > z` give `x > z`.
pub proof fn lemma_greater_than_transitive(
    xy: Seq<Arc<Value>>, yz: Seq<Arc<Value>>, xz: Seq<Arc<Value>>, x: i64, y: i64, z: i64,
    r1: Result<Dispatched, TrapReason>, r2: Result<Dispatched, TrapReason>, r3: Result<Dispatched, TrapReason>,
)
    requires
        int_args(xy, x, y),
        int_args(yz, y, z),
        int_args(xz, x, z),
        dispatch_result(Functions::GreaterThanInteger, xy, r1),
        dispatch_result(Functions::GreaterThanInteger, yz, r2),
        dispatch_result(Functions::GreaterThanInteger, xz, r3),
        yields_bool(r1, true),
        yields_bool(r2, true),
    ensures
        yields_bool(r3, true),
{
}

// ── Laws of the other built-in functions ─────────────────────────────────────

/// The result is the integer `z`.
pub open spec fn yields_int(r: Result<Dispatched, TrapReason>, z: int) -> bool {
    exists|n: i64| n == z && r == Ok::<Dispatched, TrapReason>(Dispatched::Value(Value::Integer(n)))
}

/// Integer arithmetic is exact where the exact result fits in 64 bits:
/// `AddInteger`, `SubInteger` and `MulInteger` give `x + y`, `x - y` and
/// `x * y`.
pub proof fn lemma_integer_arithmetic_exact(
    args: Seq<Arc<Value>>, x: i64, y: i64,
    add: Result<Dispatched, TrapReason>, sub: Result<Dispatched, TrapReason>, mul: Result<Dispatched, TrapReason>,
)
    requires
        int_args(args, x, y),
        dispatch_result(Functions::AddInteger, args, add),
        dispatch_result(Functions::SubInteger, args, sub),
        dispatch_result(Functions::MulInteger, args, mul),
    ensures
        i64::MIN <= x + y <= i64::MAX ==> yields_int(add, x + y),
        i64::MIN <= x - y <= i64::MAX ==> yields_int(sub, x - y),
        i64::MIN <= x * y <= i64::MAX ==> yields_int(mul, x * y),
{
    if i64::MIN <= x + y <= i64::MAX {
        assert(yields_int(add, x + y)) by {
            assert(x.wrapping_add(y) == x + y);
        }
    }
    if i64::MIN <= x - y <= i64::MAX {
        assert(yields_int(sub, x - y)) by {
            assert(x.wrapping_sub(y) == x - y);
        }
    }
    if i64::MIN <= x * y <= i64::MAX {
        assert(yields_int(mul, x * y)) by {
            assert(x.wrapping_mul(y) == x * y);
        }
    }
}

/// Integer arithmetic wraps around in two's complement: the results of
/// `AddInteger`, `SubInteger` and `MulInteger` are the 64-bit integers
/// congruent to `x + y`, `x - y` and `x * y` modulo 2^64.
pub proof fn lemma_integer_arithmetic_wraps(
    args: Seq<Arc<Value>>, x: i64, y: i64,
    add: Result<Dispatched, TrapReason>, sub: Result<Dispatched, TrapReason>, mul: Result<Dispatched, TrapReason>,
)
    requires
        int_args(args, x, y),
        dispatch_result(Functions::AddInteger, args, add),
        dispatch_result(Functions::SubInteger, args, sub),
        dispatch_result(Functions::MulInteger, args, mul),
    ensures
        exists|z: int| yields_int(add, z) && (z - (x + y)) % 0x1_0000_0000_0000_0000 == 0,
        exists|z: int| yields_int(sub, z) && (z - (x - y)) % 0x1_0000_0000_0000_0000 == 0,
        exists|z: int| yields_int(mul, z) && (z - x * y) % 0x1_0000_0000_0000_0000 == 0,
{
    let big: int = 0x1_0000_0000_0000_0000;
    let a = x.wrapping_add(y);
    assert(yields_int(add, a as int));
    assert((a - (x + y)) % big == 0) by {
        if x + y > i64::MAX {
            assert(a == x + y - big);
        } else if x + y < i64::MIN {
            assert(a == x + y + big);
        } else {
            assert(a == x + y);
        }
    }
    let b = x.wrapping_sub(y);
    assert(yields_int(sub, b as int));
    assert((b - (x - y)) % big == 0) by {
        if x - y > i64::MAX {
            assert(b == x - y - big);
        } else if x - y < i64::MIN {
            assert(b == x - y + big);
        } else {
            assert(b == x - y);
        }
    }
    let c = x.wrapping_mul(y);
    assert(yields_int(mul, c as int));
    let p = x * y;
    let k = p % big;
    assert(0 <= k < big);
    assert((k - p) % big == 0) by {
        vstd::arithmetic::div_mod::lemma_fundamental_div_mod(p, big);
        assert(k - p == -(p / big) * big) by (nonlinear_arith)
            requires p == big * (p / big) + k;
        vstd::arithmetic::div_mod::lemma_mod_multiples_basic(-(p / big), big);
    }
    assert((c - p) % big == 0) by {
        if k > i64::MAX {
            assert(c == k - big);
            assert(c - p == (k - p) - big);
            vstd::arithmetic::div_mod::lemma_mod_sub_multiples_vanish(k - p, big);
        } else {
            assert(c == k);
        }
    }
}

/// Addition and multiplication do not depend on the order of their
/// arguments.
pub proof fn lemma_add_mul_commute(
    args: Seq<Arc<Value>>, swapped: Seq<Arc<Value>>, x: i64, y: i64,
    add1: Result<Dispatched, TrapReason>, add2: Result<Dispatched, TrapReason>,
    mul1: Result<Dispatched, TrapReason>, mul2: Result<Dispatched, TrapReason>,
)
    requires
        int_args(args, x, y),
        int_args(swapped, y, x),
        dispatch_result(Functions::AddInteger, args, add1),
        dispatch_result(Functions::AddInteger, swapped, add2),
        dispatch_result(Functions::MulInteger, args, mul1),
        dispatch_result(Functions::MulInteger, swapped, mul2),
    ensures
        add1 == add2,
        mul1 == mul2,
{
    assert(x.wrapping_add(y) == y.wrapping_add(x));
    assert(x * y == y * x) by (nonlinear_arith);
    assert(x.wrapping_mul(y) == y.wrapping_mul(x));
}

/// Division and remainder by a nonzero integer, away from the overflowing
/// `i64::MIN / -1`, give the quotient `q` rounded toward zero and the
/// remainder `m`: `x == q * y + m`, `|m| < |y|`, and `m` is zero or has the
/// sign of `x`. Division or remainder by zero traps.
pub proof fn lemma_division_and_remainder(
    args: Seq<Arc<Value>>, x: i64, y: i64,
    div: Result<Dispatched, TrapReason>, rem: Result<Dispatched, TrapReason>,
)
    requires
        int_args(args, x, y),
        dispatch_result(Functions::DivInteger, args, div),
        dispatch_result(Functions::ModInteger, args, rem),
    ensures
        y == 0 ==> div == Err::<Dispatched, TrapReason>(TrapReason::DivisionByZero)
            && rem == Err::<Dispatched, TrapReason>(TrapReason::DivisionByZero),
        y != 0 && !(x == i64::MIN && y == -1) ==> exists|q: i64, m: i64| {
            &&& div == Ok::<Dispatched, TrapReason>(Dispatched::Value(Value::Integer(q)))
            &&& rem == Ok::<Dispatched, TrapReason>(Dispatched::Value(Value::Integer(m)))
            &&& x == q * y + m
            &&& (if m < 0 { -m } else { m as int }) < (if y < 0 { -y } else { y as int })
            &&& (m == 0 || (m > 0) == (x > 0))
        },
{
    if y != 0 && !(x == i64::MIN && y == -1) {
        let xi = x as int;
        let d = y as int;
        let (qi, mi): (int, int) = if xi == 0 {
            (0, 0)
        } else if xi > 0 && d > 0 {
            assert(xi == (xi / d) * d + xi % d && 0 <= xi % d < d && 0 <= xi / d <= xi) by (nonlinear_arith)
                requires xi > 0, d > 0;
            (xi / d, xi % d)
        } else if xi < 0 && d < 0 {
            let a = -xi;
            let c = -d;
            assert(a == (a / c) * c + a % c && 0 <= a % c < c && 0 <= a / c <= a) by (nonlinear_arith)
                requires a > 0, c > 0;
            if c == 1 {
                assert(a % c == 0 && a / c == a);
            } else {
                assert(a / c <= a / 2) by (nonlinear_arith) requires a > 0, c >= 2;
            }
            assert(xi == (a / c) * d + (a % c) * -1) by (nonlinear_arith)
                requires a == -xi, c == -d, a == (a / c) * c + a % c;
            (a / c, (a % c) * -1)
        } else if xi < 0 {
            let a = -xi;
            assert(a == (a / d) * d + a % d && 0 <= a % d < d && 0 <= a / d <= a) by (nonlinear_arith)
                requires a > 0, d > 0;
            assert(xi == ((a / d) * -1) * d + (a % d) * -1) by (nonlinear_arith)
                requires a == -xi, a == (a / d) * d + a % d;
            ((a / d) * -1, (a % d) * -1)
        } else {
            let c = -d;
            assert(xi == (xi / c) * c + xi % c && 0 <= xi % c < c && 0 <= xi / c <= xi) by (nonlinear_arith)
                requires xi > 0, c > 0;
            assert(xi == ((xi / c) * -1) * d + xi % c) by (nonlinear_arith)
                requires c == -d, xi == (xi / c) * c + xi % c;
            ((xi / c) * -1, xi % c)
        };
        assert(i64::MIN <= qi <= i64::MAX);
        assert(i64::MIN <= mi <= i64::MAX);
        assert(x.checked_div(y) == Some(qi as i64));
        assert(x.checked_rem(y) == Some(mi as i64));
        let q = qi as i64;
        let m = mi as i64;
        assert(div == Ok::<Dispatched, TrapReason>(Dispatched::Value(Value::Integer(q))));
        assert(rem == Ok::<Dispatched, TrapReason>(Dispatched::Value(Value::Integer(m))));
        assert(x == q * y + m);
    }
}

/// Any integer to the power 0 is 1, and to the power 1 is itself.
pub proof fn lemma_power_zero_and_one(
    zero: Seq<Arc<Value>>, one: Seq<Arc<Value>>, x: i64,
    p0: Result<Dispatched, TrapReason>, p1: Result<Dispatched, TrapReason>,
)
    requires
        int_args(zero, x, 0),
        int_args(one, x, 1),
        dispatch_result(Functions::PowInteger, zero, p0),
        dispatch_result(Functions::PowInteger, one, p1),
    ensures
        yields_int(p0, 1),
        yields_int(p1, x as int),
{
    assert(vstd::arithmetic::power::pow(x as int, 0) == 1) by {
        reveal(vstd::arithmetic::power::pow);
    }
    assert(vstd::arithmetic::power::pow(x as int, 1) == x) by {
        reveal(vstd::arithmetic::power::pow);
        assert(vstd::arithmetic::power::pow(x as int, 0) == 1);
    }
    assert(yields_int(p0, 1)) by {
        assert((1int as i64) == 1i64);
    }
    assert(yields_int(p1, x as int)) by {
        assert(((x as int) as i64) == x);
    }
}

/// Popping what was just pushed gives the vector back, and reading at the
/// old length after a push gives the pushed value.
pub proof fn lemma_vector_push_pop_get(
    push_args: Seq<Arc<Value>>, pushed: Result<Dispatched, TrapReason>,
    pop_args: Seq<Arc<Value>>, popped: Result<Dispatched, TrapReason>,
    get_args: Seq<Arc<Value>>, got: Result<Dispatched, TrapReason>,
    v: crate::persistent_vector::PersistentVector<Value>, w: crate::persistent_vector::PersistentVector<Value>,
)
    requires
        push_args.len() == 2,
        *push_args[0] == Value::Vector(v),
        dispatch_result(Functions::VectorPushInteger, push_args, pushed),
        pushed == Ok::<Dispatched, TrapReason>(Dispatched::Value(Value::Vector(w))),
        pop_args.len() == 1,
        *pop_args[0] == Value::Vector(w),
        dispatch_result(Functions::VectorPopInteger, pop_args, popped),
        get_args.len() == 2,
        *get_args[0] == Value::Vector(w),
        *get_args[1] == Value::Integer(v@.len() as i64),
        v@.len() < i64::MAX,
        dispatch_result(Functions::VectorGetInteger, get_args, got),
    ensures
        popped matches Ok(Dispatched::Value(Value::Vector(u))) && u@ == v@,
        got == Ok::<Dispatched, TrapReason>(Dispatched::Value(*push_args[1])),
{
    assert(w@ == v@.push(push_args[1]));
    assert(w@.drop_last() =~= v@);
}

/// Unwrapping an option that holds a value, or a result on the side it
/// holds, gives that value; unwrapping the other case traps.
pub proof fn lemma_unwrap_gives_content(
    args: Seq<Arc<Value>>, some: Result<Dispatched, TrapReason>, ok: Result<Dispatched, TrapReason>,
    err: Result<Dispatched, TrapReason>,
)
    requires
        args.len() == 1,
        dispatch_result(Functions::UnwrapSomeInteger, args, some),
        dispatch_result(Functions::UnwrapOkInteger, args, ok),
        dispatch_result(Functions::UnwrapErrInteger, args, err),
    ensures
        *args[0] matches Value::Option(Some(x)) ==> some == Ok::<Dispatched, TrapReason>(Dispatched::Value(*x)),
        *args[0] matches Value::Option(None) ==> some == Err::<Dispatched, TrapReason>(TrapReason::UnwrapNone),
        *args[0] matches Value::Result(Ok(x)) ==> ok == Ok::<Dispatched, TrapReason>(Dispatched::Value(*x))
            && err == Err::<Dispatched, TrapReason>(TrapReason::UnwrapOkOnErr),
        *args[0] matches Value::Result(Err(x)) ==> err == Ok::<Dispatched, TrapReason>(Dispatched::Value(*x))
            && ok == Err::<Dispatched, TrapReason>(TrapReason::UnwrapErrOnOk),
{
}

/// The Boolean functions are the logical connectives: on Booleans `a`, `b`,
/// `Not` gives `!a`, `And` gives `a && b`, `Or` gives `a || b` and `Xor`
/// gives `a != b`.
pub proof fn lemma_boolean_connectives(
    args: Seq<Arc<Value>>, a: bool, b: bool,
    not: Result<Dispatched, TrapReason>, and: Result<Dispatched, TrapReason>,
    or: Result<Dispatched, TrapReason>, xor: Result<Dispatched, TrapReason>,
)
    requires
        args.len() == 2,
        *args[0] == Value::Boolean(a),
        *args[1] == Value::Boolean(b),
        dispatch_result(Functions::And, args, and),
        dispatch_result(Functions::Or, args, or),
        dispatch_result(Functions::Xor, args, xor),
        dispatch_result(Functions::Not, args.take(1), not),
    ensures
        yields_bool(not, !a),
        yields_bool(and, a && b),
        yields_bool(or, a || b),
        yields_bool(xor, a != b),
{
    assert(*args.take(1)[0] == Value::Boolean(a));
}

/// Exactly one of `IsSome` and `IsNone` holds of an option, and exactly one
/// of `IsOk` and `IsErr` of a result.
pub proof fn lemma_tests_complementary(
    args: Seq<Arc<Value>>,
    some: Result<Dispatched, TrapReason>, none: Result<Dispatched, TrapReason>,
    ok: Result<Dispatched, TrapReason>, err: Result<Dispatched, TrapReason>,
)
    requires
        args.len() == 1,
        dispatch_result(Functions::IsSome, args, some),
        dispatch_result(Functions::IsNone, args, none),
        dispatch_result(Functions::IsOk, args, ok),
        dispatch_result(Functions::IsErr, args, err),
    ensures
        *args[0] is Option ==> exists|b: bool| yields_bool(some, b) && yields_bool(none, !b),
        *args[0] is Result ==> exists|b: bool| yields_bool(ok, b) && yields_bool(err, !b),
{
    if let Value::Option(o) = *args[0] {
        assert(yields_bool(some, o is Some) && yields_bool(none, !(o is Some)));
    }
    if let Value::Result(o) = *args[0] {
        assert(yields_bool(ok, o is Ok) && yields_bool(err, !(o is Ok)));
    }
}

/// String equality is equality of the texts, and the length of a string is
/// its number of characters.
pub proof fn lemma_string_functions(
    args: Seq<Arc<Value>>, s: String, t: String,
    eq: Result<Dispatched, TrapReason>, len: Result<Dispatched, TrapReason>,
)
    requires
        args.len() == 2,
        *args[0] == Value::String(s),
        *args[1] == Value::String(t),
        dispatch_result(Functions::EqualString, args, eq),
        dispatch_result(Functions::StringLength, args.take(1), len),
    ensures
        yields_bool(eq, s@ == t@),
        s@.len() <= i64::MAX ==> yields_int(len, s@.len() as int),
{
    assert(*args.take(1)[0] == Value::String(s));
    if s@.len() <= i64::MAX {
        assert(yields_int(len, s@.len() as int)) by {
            assert((s@.len() as i64) == s@.len());
        }
    }
}


// ── Special functions ───────────────────────────────────────────────────────

/// What a special function gives back: a value, or a request on the shared
/// global memory for the host, which holds it.
#[derive(Debug)]
pub enum SpecialDispatched {
    Value(Value),
    ReadGlobalMemory { namespace: String, identifier: String },
    WriteGlobalMemory { namespace: String, identifier: String, value: Value },
}

pub open spec fn special_bug(r: Result<SpecialDispatched, TrapReason>, message: Seq<char>) -> bool {
    r matches Err(TrapReason::VerifierBug(m)) && m@ == message
}

/// What the special function `f` gives for `args` at position `ip` with the
/// mods `namespaces` loaded.
pub open spec fn special_result(
    f: SpecialFunctions,
    args: Seq<Arc<Value>>,
    ip: usize,
    namespaces: Seq<Namespace>,
    r: Result<SpecialDispatched, TrapReason>,
) -> bool {
    match f {
        SpecialFunctions::GetInstructionPosition => r == Ok::<SpecialDispatched, TrapReason>(SpecialDispatched::Value(Value::Integer(ip as i64))),
        SpecialFunctions::GetModificationNamespaceList => r matches Ok(SpecialDispatched::Value(Value::Vector(w)))
            && w@.len() == namespaces.len()
            && forall|i: int| #![trigger namespaces[i]] 0 <= i < namespaces.len() ==> holds_string(*w@[i], namespaces[i].0@),
        _ => if args.len() != special_inputs(f).len() {
            special_bug(r, "Argument count Mismatch"@)
        } else if !(*args[0] is String) || !(*args[1] is String) {
            special_bug(r, "Type Mismatch"@)
        } else if args.len() == 2 {
            r matches Ok(SpecialDispatched::ReadGlobalMemory { namespace, identifier })
                && namespace@ == string_of(*args[0]) && identifier@ == string_of(*args[1])
        } else {
            r matches Ok(SpecialDispatched::WriteGlobalMemory { namespace, identifier, value })
                && namespace@ == string_of(*args[0]) && identifier@ == string_of(*args[1])
                && value == *args[2]
        },
    }
}

/// `v` is the string `s`.
pub open spec fn holds_string(v: Value, s: Seq<char>) -> bool {
    v matches Value::String(x) && x@ == s
}

/// The names of the loaded mods as a vector of strings.
fn namespace_values(namespaces: &Vec<Namespace>) -> (r: PersistentVector<Value>)
    ensures
        r@.len() == namespaces@.len(),
        forall|i: int| #![trigger namespaces@[i]] 0 <= i < namespaces@.len() ==> holds_string(*r@[i], namespaces@[i].0@),
{
    let mut r = PersistentVector::new();
    let mut i: usize = 0;
    while i < namespaces.len()
        invariant
            i <= namespaces@.len(),
            r@.len() == i,
            forall|j: int| #![trigger namespaces@[j]] 0 <= j < i ==> holds_string(*r@[j], namespaces@[j].0@),
        decreases namespaces@.len() - i,
    {
        let ghost before = r@;
        let item = Arc::new(Value::String(namespaces[i].0.clone()));
        assert(holds_string(*item, namespaces@[i as int].0@));
        r = r.push(item);
        assert(r@[i as int] == item);
        proof {
            assert forall|j: int| #![trigger namespaces@[j]] 0 <= j < i + 1 implies holds_string(*r@[j], namespaces@[j].0@) by {
                if j < i {
                    assert(r@[j] == before[j]);
                }
            }
        }
        i = i + 1;
    }
    r
}

/// Applies the special function `f` to `arguments` at instruction position
/// `ip`.
pub fn special_dispatch(
    f: SpecialFunctions,
    arguments: &[Arc<Value>],
    ip: usize,
    namespaces: &Vec<Namespace>,
) -> (r: Result<SpecialDispatched, TrapReason>)
    ensures
        special_result(f, arguments@, ip, namespaces@, r),
{
    match f {
        SpecialFunctions::GetInstructionPosition => Ok(SpecialDispatched::Value(Value::Integer(#[verifier::truncate] (ip as i64)))),
        SpecialFunctions::GetModificationNamespaceList => Ok(SpecialDispatched::Value(Value::Vector(namespace_values(namespaces)))),
        _ => {
            let expected = crate::virtual_machine::instruction_verifier::special_function_signature(f).inputs.len();
            if arguments.len() != expected {
                return Err(bug("Argument count Mismatch"));
            }
            let namespace = match &*arguments[0] {
                Value::String(s) => s.clone(),
                _ => {
                    return Err(bug("Type Mismatch"));
                },
            };
            let identifier = match &*arguments[1] {
                Value::String(s) => s.clone(),
                _ => {
                    return Err(bug("Type Mismatch"));
                },
            };
            if arguments.len() == 2 {
                Ok(SpecialDispatched::ReadGlobalMemory { namespace, identifier })
            } else {
                Ok(SpecialDispatched::WriteGlobalMemory { namespace, identifier, value: (*arguments[2]).clone() })
            }
        },
    }
}

// ── Literals ────────────────────────────────────────────────────────────────

/// The value of a literal.
pub open spec fn literal_value(literal: Literal) -> Value {
    match literal {
        Literal::Integer(n) => Value::Integer(n),
        Literal::Float(f) => Value::Float(f),
        Literal::String(s) => Value::String(s),
        Literal::Char(c) => Value::Char(c),
        Literal::Boolean(b) => Value::Boolean(b),
    }
}

/// The value of a literal of the declared type, or `None` when the literal
/// does not have that type (a stream that was not verified).
pub fn parse_literal(ty: &Type, lit: &Literal) -> (r: Option<Value>)
    ensures
        r == (if literal_matches(*lit, *ty) { Some(literal_value(*lit)) } else { None }),
{
    match (ty, lit) {
        (Type::Integer, Literal::Integer(n)) => Some(Value::Integer(*n)),
        (Type::Float, Literal::Float(f)) => Some(Value::Float(*f)),
        (Type::String, Literal::String(s)) => Some(Value::String(s.clone())),
        (Type::Char, Literal::Char(c)) => Some(Value::Char(*c)),
        (Type::Boolean, Literal::Boolean(b)) => Some(Value::Boolean(*b)),
        _ => None,
    }
}

// ── Messages ────────────────────────────────────────────────────────────────

/// The decimal digit `d` (below ten) as a character.
pub open spec fn digit(d: nat) -> char {
    (d + 48) as char
}

/// `n` written in decimal, as `{}` formats an unsigned integer: no sign, no
/// leading zeros (`0` is one digit).
pub open spec fn decimal(n: nat) -> Seq<char>
    decreases n,
{
    if n < 10 {
        seq![digit(n)]
    } else {
        decimal(n / 10).push(digit(n % 10))
    }
}

/// The text `slot_<n>` naming a slot in state changes.
pub open spec fn slot_label(slot: Slot) -> Seq<char> {
    "slot_"@ + decimal(slot as nat)
}

/// The text `Jump to <target>`.
pub open spec fn jump_text(target: usize) -> Seq<char> {
    "Jump to "@ + decimal(target as nat)
}

/// The text `Jump positions. true: <t>, false: <f>`.
pub open spec fn jump_positions_text(true_target: usize, false_target: usize) -> Seq<char> {
    "Jump positions. true: "@ + decimal(true_target as nat) + ", false: "@ + decimal(false_target as nat)
}

/// Formats `slot_{slot}` (with `format!`, which writes an unsigned integer
/// in decimal).
#[verifier::external_body]
pub(crate) fn slot_name(slot: Slot) -> (r: String)
    ensures
        r@ == slot_label(slot),
{
    format!("slot_{}", slot)
}

/// Formats `Jump to {target}` (with `format!`, decimal).
#[verifier::external_body]
pub(crate) fn jump_message(target: usize) -> (r: String)
    ensures
        r@ == jump_text(target),
{
    format!("Jump to {}", target)
}

/// Formats `Jump positions. true: {t}, false: {f}` (with `format!`, decimal).
#[verifier::external_body]
pub(crate) fn jump_positions_message(true_target: usize, false_target: usize) -> (r: String)
    ensures
        r@ == jump_positions_text(true_target, false_target),
{
    format!("Jump positions. true: {}, false: {}", true_target, false_target)
}

// ── The machine ─────────────────────────────────────────────────────────────

/// A request that only the host can serve: float arithmetic, or the shared
/// global memory. The host writes the result to `output` with
/// `complete_host_request`.
#[derive(Debug)]
pub enum HostRequest {
    Float { function: Functions, lhs: u64, rhs: u64, output: Slot },
    ReadGlobalMemory { namespace: String, identifier: String, output: Slot },
    WriteGlobalMemory { namespace: String, identifier: String, value: Value, output: Slot },
}

/// What a try to lock the global memory came to: the lock was taken, or it
/// was poisoned (its contents are still reached), or it would block. For a
/// read, `Locked` and `Poisoned` carry what the memory held under the key.
pub enum GlobalAccess<T> {
    Locked(T),
    Poisoned(T),
    WouldBlock,
}

/// A value boxed inside an option.
pub open spec fn boxed(o: Option<Value>) -> Option<Box<Value>> {
    match o {
        Some(v) => Some(Box::new(v)),
        None => None,
    }
}

/// The value a read of the global memory gives the program, and the warning
/// the host logs: a value found is `Ok`, a missing one an `Err` saying so;
/// through a poisoned lock the read goes on and gives `Ok` of an option; a
/// lock that would block gives an `Err` saying so.
pub fn global_read_result(access: GlobalAccess<Option<Value>>) -> (r: (Value, Option<String>))
    ensures
        match access {
            GlobalAccess::Locked(Some(v)) => r.0 == Value::Result(Ok(Box::new(v))) && r.1 is None,
            GlobalAccess::Locked(None) => r.1 is None && (r.0 matches Value::Result(Err(e))
                && *e matches Value::String(m) && m@ == "not in value"@),
            GlobalAccess::Poisoned(o) => r.0 == Value::Result(Ok(Box::new(Value::Option(boxed(o)))))
                && (r.1 matches Some(w) && w@ == "global memory is poisoned"@),
            GlobalAccess::WouldBlock => (r.0 matches Value::Result(Err(e)) && *e matches Value::String(m)
                && m@ == "global memory is blocking"@) && (r.1 matches Some(w) && w@ == "global memory is blocking"@),
        },
{
    match access {
        GlobalAccess::Locked(Some(v)) => (Value::Result(Ok(Box::new(v))), None),
        GlobalAccess::Locked(None) => (Value::Result(Err(Box::new(Value::String("not in value".to_owned())))), None),
        GlobalAccess::Poisoned(o) => {
            let b = match o {
                Some(v) => Some(Box::new(v)),
                None => None,
            };
            (Value::Result(Ok(Box::new(Value::Option(b)))), Some("global memory is poisoned".to_owned()))
        },
        GlobalAccess::WouldBlock => (
            Value::Result(Err(Box::new(Value::String("global memory is blocking".to_owned())))),
            Some("global memory is blocking".to_owned()),
        ),
    }
}

/// Whether a write of the global memory goes through, and the warning the
/// host logs: it goes through when the lock is taken, and through a poisoned
/// lock with a warning; a lock that would block drops the write with a
/// warning.
pub fn global_write_plan(access: GlobalAccess<()>) -> (r: (bool, Option<String>))
    ensures
        match access {
            GlobalAccess::Locked(_) => r.0 && r.1 is None,
            GlobalAccess::Poisoned(_) => r.0 && (r.1 matches Some(w) && w@ == "global memory is poisoned"@),
            GlobalAccess::WouldBlock => !r.0 && (r.1 matches Some(w) && w@ == "global memory is blocking"@),
        },
{
    match access {
        GlobalAccess::Locked(_) => (true, None),
        GlobalAccess::Poisoned(_) => (true, Some("global memory is poisoned".to_owned())),
        GlobalAccess::WouldBlock => (false, Some("global memory is blocking".to_owned())),
    }
}

/// What one step of the machine came to.
#[derive(Debug)]
pub enum StepOutcome {
    /// The instruction ran; the machine can go on.
    Continue,
    /// A user-defined function is to be called; `resume_call` goes on.
    Yield(VirtualMachineYield),
    /// The host is to serve a request; `complete_host_request` goes on.
    Host(HostRequest),
    /// The instruction pointer is past the last instruction.
    Finished,
    /// A runtime failure at the current instruction.
    Trapped(VirtualMachineTrap),
}

/// A single execution context: its instruction stream, its slots and its
/// position. Instances run independently; ordering between them is the
/// caller's concern.
pub struct VirtualMachine {
    pub self_identifier: FunctionIdentifier,
    pub instruction_pointer: usize,
    pub instructions: Arc<Vec<Instruction>>,
    pub slots: HashMap<Slot, Arc<Value>>,
    pub modification_namespace_list: Arc<Vec<Namespace>>,
    pub input_slots: HashMap<Slot, Arc<Value>>,
    pub output_slots: HashMap<Slot, Arc<Value>>,
}

/// The values of `inputs` when every one of them is bound.
pub open spec fn read_all(slots: Map<Slot, Arc<Value>>, inputs: Seq<Slot>) -> Option<Seq<Arc<Value>>> {
    if forall|i: int| 0 <= i < inputs.len() ==> slots.contains_key(#[trigger] inputs[i]) {
        Some(inputs.map_values(|s: Slot| slots[s]))
    } else {
        None
    }
}

/// The slots of `inputs` with their values.
pub open spec fn read_map(slots: Map<Slot, Arc<Value>>, inputs: Seq<Slot>) -> Map<Slot, Arc<Value>> {
    Map::new(|k: Slot| inputs.contains(k), |k: Slot| slots[k])
}

/// `after` is `before` with `slot` holding `v`.
pub open spec fn written(before: Map<Slot, Arc<Value>>, after: Map<Slot, Arc<Value>>, slot: Slot, v: Value) -> bool {
    &&& after.dom() == before.dom().insert(slot)
    &&& *after[slot] == v
    &&& forall|k: Slot| k != slot && #[trigger] before.contains_key(k) ==> after[k] == before[k]
}

/// `e` reports that `slot`, which held what `before` holds of it, now holds `v`.
pub open spec fn reports_change(e: VirtualMachineEvent, before: Map<Slot, Arc<Value>>, slot: Slot, v: Arc<Value>) -> bool {
    e matches VirtualMachineEvent::StateChange(c) && c.identifier@ == slot_label(slot)
        && c.old == (if before.contains_key(slot) { Some(before[slot]) } else { None })
        && c.new == Some(v)
}

/// `e` is a log line at `level` with `message`.
pub open spec fn reports_log(e: VirtualMachineEvent, level: VirtualMachineLogLevel, message: Seq<char>) -> bool {
    e matches VirtualMachineEvent::Log(l) && l.level == level && l.message@ == message
}

/// `after` is `before` and then `n` more events.
pub open spec fn extended(before: Seq<VirtualMachineEvent>, after: Seq<VirtualMachineEvent>, n: int) -> bool {
    after.len() == before.len() + n && after.take(before.len() as int) == before
}

pub open spec fn trapped_bug(r: StepOutcome, ip: usize, message: Seq<char>) -> bool {
    r matches StepOutcome::Trapped(t) && t.trapped_position == ip
        && (t.reason matches TrapReason::VerifierBug(m) && m@ == message)
}

impl VirtualMachine {
    pub fn new(
        self_identifier: FunctionIdentifier,
        instructions: Arc<Vec<Instruction>>,
        modification_namespace_list: Arc<Vec<Namespace>>,
    ) -> (r: Self)
        ensures
            r.self_identifier == self_identifier,
            r.instruction_pointer == 0,
            r.instructions@ == instructions@,
            r.slots@ == Map::<Slot, Arc<Value>>::empty(),
            r.modification_namespace_list@ == modification_namespace_list@,
            r.input_slots@ == Map::<Slot, Arc<Value>>::empty(),
            r.output_slots@ == Map::<Slot, Arc<Value>>::empty(),
    {
        Self::with_instruction_pointer(self_identifier, instructions, 0, modification_namespace_list)
    }

    pub fn with_instruction_pointer(
        self_identifier: FunctionIdentifier,
        instructions: Arc<Vec<Instruction>>,
        instruction_pointer: usize,
        modification_namespace_list: Arc<Vec<Namespace>>,
    ) -> (r: Self)
        ensures
            r.self_identifier == self_identifier,
            r.instruction_pointer == instruction_pointer,
            r.instructions@ == instructions@,
            r.slots@ == Map::<Slot, Arc<Value>>::empty(),
            r.modification_namespace_list@ == modification_namespace_list@,
            r.input_slots@ == Map::<Slot, Arc<Value>>::empty(),
            r.output_slots@ == Map::<Slot, Arc<Value>>::empty(),
    {
        VirtualMachine {
            self_identifier,
            instruction_pointer,
            instructions,
            slots: HashMap::new(),
            modification_namespace_list,
            input_slots: HashMap::new(),
            output_slots: HashMap::new(),
        }
    }

    /// A machine for a call of a user-defined function, sharing this one's
    /// loaded mods.
    pub fn call_function(
        &self,
        self_identifier: FunctionIdentifier,
        instruction_pointer: usize,
        instructions: Arc<Vec<Instruction>>,
        input_slots: HashMap<Slot, Arc<Value>>,
    ) -> (r: Self)
        ensures
            r.self_identifier == self_identifier,
            r.instruction_pointer == instruction_pointer,
            r.instructions@ == instructions@,
            r.slots@ == Map::<Slot, Arc<Value>>::empty(),
            r.modification_namespace_list@ == self.modification_namespace_list@,
            r.input_slots@ == input_slots@,
            r.output_slots@ == Map::<Slot, Arc<Value>>::empty(),
    {
        VirtualMachine {
            self_identifier,
            instruction_pointer,
            instructions,
            slots: HashMap::new(),
            modification_namespace_list: self.modification_namespace_list.clone(),
            input_slots,
            output_slots: HashMap::new(),
        }
    }

    fn trap(&self, reason: TrapReason) -> (r: VirtualMachineTrap)
        ensures
            r.trapped_position == self.instruction_pointer,
            r.reason == reason,
    {
        VirtualMachineTrap { trapped_position: self.instruction_pointer, reason }
    }

    fn log(&self, events: &mut Vec<VirtualMachineEvent>, level: VirtualMachineLogLevel, message: String)
        ensures
            final(events)@ == old(events)@.push(VirtualMachineEvent::Log(VirtualMachineLog { level, message })),
            extended(old(events)@, final(events)@, 1),
            reports_log(final(events)@[old(events)@.len() as int], level, message@),
    {
        events.push(VirtualMachineEvent::Log(VirtualMachineLog { level, message }));
        proof {
            assert(events@.take(old(events)@.len() as int) =~= old(events)@);
        }
    }

    /// The value of `slot`; an unbound slot is a verifier bug.
    fn read(&self, slot: Slot) -> (r: Result<Arc<Value>, TrapReason>)
        ensures
            self.slots@.contains_key(slot) ==> r == Ok::<Arc<Value>, TrapReason>(self.slots@[slot]),
            !self.slots@.contains_key(slot) ==> (r matches Err(TrapReason::VerifierBug(m)) && m@ == "Unbound Slot"@),
    {
        match self.slots.get(&slot) {
            Some(v) => Ok(v.clone()),
            None => Err(bug("Unbound Slot")),
        }
    }

    /// The values of `inputs`, in order.
    fn read_arguments(&self, inputs: &Vec<Slot>) -> (r: Result<Vec<Arc<Value>>, TrapReason>)
        ensures
            read_all(self.slots@, inputs@) matches Some(args) ==> (r matches Ok(v) && v@ == args),
            read_all(self.slots@, inputs@) is None ==> (r matches Err(TrapReason::VerifierBug(m)) && m@ == "Unbound Slot"@),
    {
        let mut args: Vec<Arc<Value>> = Vec::new();
        let mut i: usize = 0;
        while i < inputs.len()
            invariant
                i <= inputs@.len(),
                forall|j: int| 0 <= j < i ==> self.slots@.contains_key(#[trigger] inputs@[j]),
                args@ == inputs@.take(i as int).map_values(|s: Slot| self.slots@[s]),
            decreases inputs@.len() - i,
        {
            let v = self.read(inputs[i]);
            match v {
                Ok(v) => {
                    args.push(v);
                },
                Err(e) => {
                    return Err(e);
                },
            }
            proof {
                assert(inputs@.take(i + 1).map_values(|s: Slot| self.slots@[s])
                    == inputs@.take(i as int).map_values(|s: Slot| self.slots@[s]).push(self.slots@[inputs@[i as int]]));
            }
            i = i + 1;
        }
        proof {
            assert(inputs@.take(i as int) == inputs@);
        }
        Ok(args)
    }

    /// The slots of `inputs` with their values, for a call.
    fn read_inputs(&self, inputs: &Vec<Slot>) -> (r: Result<HashMap<Slot, Arc<Value>>, TrapReason>)
        ensures
            read_all(self.slots@, inputs@) is Some ==> (r matches Ok(m) && m@ == read_map(self.slots@, inputs@)),
            read_all(self.slots@, inputs@) is None ==> (r matches Err(TrapReason::VerifierBug(m)) && m@ == "Unbound Slot"@),
    {
        let mut result: HashMap<Slot, Arc<Value>> = HashMap::new();
        let mut i: usize = 0;
        while i < inputs.len()
            invariant
                i <= inputs@.len(),
                forall|j: int| 0 <= j < i ==> self.slots@.contains_key(#[trigger] inputs@[j]),
                result@ == read_map(self.slots@, inputs@.take(i as int)),
            decreases inputs@.len() - i,
        {
            let slot = inputs[i];
            match self.read(slot) {
                Ok(v) => {
                    result.insert(slot, v);
                },
                Err(e) => {
                    return Err(e);
                },
            }
            proof {
                let prefix = inputs@.take(i as int);
                let next = inputs@.take(i + 1);
                assert(next == prefix.push(slot));
                assert forall|k: Slot| next.contains(k) <==> (prefix.contains(k) || k == slot) by {
                    if next.contains(k) {
                        let j = choose|j: int| 0 <= j < next.len() && next[j] == k;
                        if j < prefix.len() {
                            assert(prefix[j] == k);
                        }
                    }
                    if prefix.contains(k) {
                        let j = choose|j: int| 0 <= j < prefix.len() && prefix[j] == k;
                        assert(next[j] == k);
                    }
                    if k == slot {
                        assert(next[i as int] == k);
                    }
                }
                assert(result@ =~= read_map(self.slots@, next));
            }
            i = i + 1;
        }
        proof {
            assert(inputs@.take(i as int) == inputs@);
        }
        Ok(result)
    }

    /// Writes `value` to `slot`, reporting the change.
    fn write(&mut self, events: &mut Vec<VirtualMachineEvent>, slot: Slot, value: Arc<Value>)
        ensures
            final(self).slots@ == old(self).slots@.insert(slot, value),
            final(self).instruction_pointer == old(self).instruction_pointer,
            final(self).instructions == old(self).instructions,
            final(self).modification_namespace_list == old(self).modification_namespace_list,
            final(self).self_identifier == old(self).self_identifier,
            final(self).input_slots == old(self).input_slots,
            final(self).output_slots == old(self).output_slots,
            extended(old(events)@, final(events)@, 1),
            reports_change(final(events)@[old(events)@.len() as int], old(self).slots@, slot, value),
    {
        let old_value = self.slots.insert(slot, value.clone());
        let identifier = slot_name(slot);
        events.push(VirtualMachineEvent::StateChange(StateChange { identifier, old: old_value, new: Some(value) }));
        proof {
            assert(events@.take(old(events)@.len() as int) == old(events)@);
        }
    }
}

/// What one step does: the effect of the instruction at the instruction
/// pointer on the position and the slots, and the outcome. The code, the
/// loaded mods and the identity of the machine never change.
pub open spec fn step_result(m: VirtualMachine, n: VirtualMachine, r: StepOutcome) -> bool {
    let ip = m.instruction_pointer;
    let unchanged = n.instruction_pointer == ip && n.slots@ == m.slots@;
    &&& n.self_identifier == m.self_identifier
    &&& n.instructions == m.instructions
    &&& n.modification_namespace_list == m.modification_namespace_list
    &&& n.input_slots == m.input_slots
    &&& n.output_slots == m.output_slots
    &&& if ip >= m.instructions@.len() {
        r is Finished && unchanged
    } else {
        match m.instructions@[ip as int] {
            Instruction::Bind { slot, value_type, value } => if literal_matches(value, value_type) {
                r is Continue && n.instruction_pointer == ip + 1 && written(m.slots@, n.slots@, slot, literal_value(value))
            } else {
                trapped_bug(r, ip, "Type Mismatch"@) && unchanged
            },
            Instruction::Call { function_name, inputs, output } => match read_all(m.slots@, inputs@) {
                None => trapped_bug(r, ip, "Unbound Slot"@) && unchanged,
                Some(args) => exists|d: Result<Dispatched, TrapReason>| #[trigger] dispatch_result(function_name, args, d) && match d {
                    Ok(Dispatched::Value(v)) => r is Continue && n.instruction_pointer == ip + 1 && written(m.slots@, n.slots@, output, v),
                    Ok(Dispatched::Float { function, lhs, rhs }) =>
                        r == StepOutcome::Host(HostRequest::Float { function, lhs, rhs, output }) && unchanged,
                    Err(reason) => r == StepOutcome::Trapped(VirtualMachineTrap { trapped_position: ip, reason }) && unchanged,
                },
            },
            Instruction::SpecialCall { function_name, inputs, output } => match read_all(m.slots@, inputs@) {
                None => trapped_bug(r, ip, "Unbound Slot"@) && unchanged,
                Some(args) => exists|d: Result<SpecialDispatched, TrapReason>|
                    #[trigger] special_result(function_name, args, ip, m.modification_namespace_list@, d) && match d {
                    Ok(SpecialDispatched::Value(v)) => r is Continue && n.instruction_pointer == ip + 1 && written(m.slots@, n.slots@, output, v),
                    Ok(SpecialDispatched::ReadGlobalMemory { namespace, identifier }) =>
                        r == StepOutcome::Host(HostRequest::ReadGlobalMemory { namespace, identifier, output }) && unchanged,
                    Ok(SpecialDispatched::WriteGlobalMemory { namespace, identifier, value }) =>
                        r == StepOutcome::Host(HostRequest::WriteGlobalMemory { namespace, identifier, value, output }) && unchanged,
                    Err(reason) => r == StepOutcome::Trapped(VirtualMachineTrap { trapped_position: ip, reason }) && unchanged,
                },
            },
            Instruction::CallDefined { function_identifier, inputs, destination_slots, source_slots } =>
                match read_all(m.slots@, inputs@) {
                    None => trapped_bug(r, ip, "Unbound Slot"@) && unchanged,
                    Some(_) => unchanged && (r matches StepOutcome::Yield(VirtualMachineYield::Call { function_identifier: f, inputs: i, destination_slots: d, source_slots: s })
                        && f == function_identifier && i@ == read_map(m.slots@, inputs@)
                        && d@ == destination_slots@ && s@ == source_slots@),
                },
            Instruction::Jump { target_position } => r is Continue && n.instruction_pointer == target_position && n.slots@ == m.slots@,
            Instruction::ConditionalJump { condition, true_target_position, false_target_position } =>
                if !m.slots@.contains_key(condition) {
                    trapped_bug(r, ip, "Unbound Slot"@) && unchanged
                } else {
                    match *m.slots@[condition] {
                        Value::Boolean(b) => r is Continue && n.slots@ == m.slots@
                            && n.instruction_pointer == (if b { true_target_position } else { false_target_position }),
                        _ => trapped_bug(r, ip, "Type Mismatch"@) && unchanged,
                    }
                },
        }
    }
}

/// The events that one step appends to `before`: the end of the stream is
/// logged and reported; a trap is reported with the end of execution; a
/// write reports the change of its slot; a jump logs where it goes.
pub open spec fn step_events(m: VirtualMachine, n: VirtualMachine, r: StepOutcome, before: Seq<VirtualMachineEvent>, after: Seq<VirtualMachineEvent>) -> bool {
    let k = before.len() as int;
    match r {
        StepOutcome::Finished => extended(before, after, 2)
            && reports_log(after[k], VirtualMachineLogLevel::Info, "Virtual Machine Halt"@)
            && after[k + 1] == VirtualMachineEvent::ExecutionFinished,
        StepOutcome::Trapped(t) => extended(before, after, 2)
            && after[k] == VirtualMachineEvent::Trap(t) && after[k + 1] == VirtualMachineEvent::ExecutionFinished,
        StepOutcome::Continue => match m.instructions@[m.instruction_pointer as int] {
            Instruction::Bind { slot, .. } => extended(before, after, 1) && reports_change(after[k], m.slots@, slot, n.slots@[slot]),
            Instruction::Call { output, .. } => extended(before, after, 1) && reports_change(after[k], m.slots@, output, n.slots@[output]),
            Instruction::SpecialCall { output, .. } => extended(before, after, 1) && reports_change(after[k], m.slots@, output, n.slots@[output]),
            Instruction::Jump { target_position } => extended(before, after, 1)
                && reports_log(after[k], VirtualMachineLogLevel::Debug, jump_text(target_position)),
            Instruction::ConditionalJump { true_target_position, false_target_position, .. } => extended(before, after, 2)
                && reports_log(after[k], VirtualMachineLogLevel::Debug, jump_positions_text(true_target_position, false_target_position))
                && reports_log(after[k + 1], VirtualMachineLogLevel::Debug, jump_text(n.instruction_pointer)),
            Instruction::CallDefined { .. } => false,
        },
        _ => after == before,
    }
}

impl VirtualMachine {
    /// Reports a trap and the end of execution.
    fn fail(&self, events: &mut Vec<VirtualMachineEvent>, reason: TrapReason) -> (r: StepOutcome)
        ensures
            r == StepOutcome::Trapped(VirtualMachineTrap { trapped_position: self.instruction_pointer, reason }),
            extended(old(events)@, final(events)@, 2),
            final(events)@[old(events)@.len() as int] == VirtualMachineEvent::Trap(VirtualMachineTrap { trapped_position: self.instruction_pointer, reason }),
            final(events)@[old(events)@.len() + 1int] == VirtualMachineEvent::ExecutionFinished,
    {
        let trap = self.trap(reason);
        events.push(VirtualMachineEvent::Trap(trap.clone()));
        events.push(VirtualMachineEvent::ExecutionFinished);
        proof {
            assert(events@.take(old(events)@.len() as int) =~= old(events)@);
        }
        StepOutcome::Trapped(trap)
    }

    /// Runs the instruction at the instruction pointer, or reports the end of
    /// the stream. Log lines, state changes, traps and the end of execution
    /// are appended to `events` for the host to send on.
    pub fn step(&mut self, events: &mut Vec<VirtualMachineEvent>) -> (r: StepOutcome)
        ensures
            step_result(*old(self), *final(self), r),
            step_events(*old(self), *final(self), r, old(events)@, final(events)@),
    {
        let ip = self.instruction_pointer;
        if ip >= self.instructions.len() {
            self.log(events, VirtualMachineLogLevel::Info, "Virtual Machine Halt".to_owned());
            events.push(VirtualMachineEvent::ExecutionFinished);
            proof {
                assert(events@.take(old(events)@.len() as int) =~= old(events)@);
            }
            return StepOutcome::Finished;
        }
        let code = share(&self.instructions);
        match &code[ip] {
            Instruction::Bind { slot, value_type, value } => {
                match parse_literal(value_type, value) {
                    Some(v) => {
                        self.write(events, *slot, Arc::new(v));
                        self.instruction_pointer = ip + 1;
                        StepOutcome::Continue
                    },
                    None => self.fail(events, bug("Type Mismatch")),
                }
            },
            Instruction::Call { function_name, inputs, output } => {
                let args = match self.read_arguments(inputs) {
                    Ok(args) => args,
                    Err(e) => {
                        return self.fail(events, e);
                    },
                };
                let d = dispatch(*function_name, args.as_slice());
                proof {
                    assert(dispatch_result(*function_name, args@, d));
                }
                match d {
                    Ok(Dispatched::Value(v)) => {
                        self.write(events, *output, Arc::new(v));
                        self.instruction_pointer = ip + 1;
                        StepOutcome::Continue
                    },
                    Ok(Dispatched::Float { function, lhs, rhs }) => {
                        StepOutcome::Host(HostRequest::Float { function, lhs, rhs, output: *output })
                    },
                    Err(reason) => self.fail(events, reason),
                }
            },
            Instruction::SpecialCall { function_name, inputs, output } => {
                let args = match self.read_arguments(inputs) {
                    Ok(args) => args,
                    Err(e) => {
                        return self.fail(events, e);
                    },
                };
                let d = special_dispatch(*function_name, args.as_slice(), ip, &*self.modification_namespace_list);
                proof {
                    assert(special_result(*function_name, args@, ip, self.modification_namespace_list@, d));
                }
                match d {
                    Ok(SpecialDispatched::Value(v)) => {
                        self.write(events, *output, Arc::new(v));
                        self.instruction_pointer = ip + 1;
                        StepOutcome::Continue
                    },
                    Ok(SpecialDispatched::ReadGlobalMemory { namespace, identifier }) => {
                        StepOutcome::Host(HostRequest::ReadGlobalMemory { namespace, identifier, output: *output })
                    },
                    Ok(SpecialDispatched::WriteGlobalMemory { namespace, identifier, value }) => {
                        StepOutcome::Host(HostRequest::WriteGlobalMemory { namespace, identifier, value, output: *output })
                    },
                    Err(reason) => self.fail(events, reason),
                }
            },
            Instruction::CallDefined { function_identifier, inputs, destination_slots, source_slots } => {
                let resolved = match self.read_inputs(inputs) {
                    Ok(m) => m,
                    Err(e) => {
                        return self.fail(events, e);
                    },
                };
                StepOutcome::Yield(VirtualMachineYield::Call {
                    function_identifier: *function_identifier,
                    inputs: resolved,
                    destination_slots: destination_slots.clone(),
                    source_slots: source_slots.clone(),
                })
            },
            Instruction::Jump { target_position } => {
                self.log(events, VirtualMachineLogLevel::Debug, jump_message(*target_position));
                self.instruction_pointer = *target_position;
                StepOutcome::Continue
            },
            Instruction::ConditionalJump { condition, true_target_position, false_target_position } => {
                let v = match self.read(*condition) {
                    Ok(v) => v,
                    Err(e) => {
                        return self.fail(events, e);
                    },
                };
                let b = match &*v {
                    Value::Boolean(b) => *b,
                    _ => {
                        return self.fail(events, bug("Type Mismatch"));
                    },
                };
                self.log(events, VirtualMachineLogLevel::Debug, jump_positions_message(*true_target_position, *false_target_position));
                let target = if b { *true_target_position } else { *false_target_position };
                self.log(events, VirtualMachineLogLevel::Debug, jump_message(target));
                proof {
                    assert(events@.take(old(events)@.len() as int) =~= old(events)@);
                }
                self.instruction_pointer = target;
                StepOutcome::Continue
            },
        }
    }
}

impl VirtualMachine {
    /// Takes back the outputs of a finished call of a user-defined function
    /// and moves past the call.
    pub fn resume_call(&mut self, values: HashMap<Slot, Arc<Value>>) -> (r: Result<(), VirtualMachineTrap>)
        requires
            old(self).instruction_pointer < usize::MAX,
        ensures
            r is Ok,
            final(self).slots@ == old(self).slots@.union_prefer_right(values@),
            final(self).instruction_pointer == old(self).instruction_pointer + 1,
            final(self).instructions == old(self).instructions,
            final(self).modification_namespace_list == old(self).modification_namespace_list,
            final(self).self_identifier == old(self).self_identifier,
    {
        let ghost before = self.slots@;
        let ghost m = values@;
        let ghost mut seen: Set<Slot> = Set::empty();
        for kv in it: values.iter()
            invariant
                self.instruction_pointer == old(self).instruction_pointer,
                self.instructions == old(self).instructions,
                self.modification_namespace_list == old(self).modification_namespace_list,
                self.self_identifier == old(self).self_identifier,
                m == values@,
                forall|j: int| 0 <= j < it.seq().len() ==> m.contains_key(*(#[trigger] it.seq()[j]).0) && m[*it.seq()[j].0] == *it.seq()[j].1,
                forall|k: Slot| #[trigger] m.contains_key(k) ==> it.seq().contains((&k, &m[k])),
                forall|k: Slot| #[trigger] seen.contains(k) ==> m.contains_key(k),
                forall|k: Slot| #[trigger] m.contains_key(k) ==> (seen.contains(k)
                    || exists|j: int| it.index() <= j < it.seq().len() && *it.seq()[j].0 == k),
                forall|k: Slot| #[trigger] self.slots@.contains_key(k) <==> (before.contains_key(k) || seen.contains(k)),
                forall|k: Slot| #[trigger] seen.contains(k) ==> self.slots@[k] == m[k],
                forall|k: Slot| !seen.contains(k) && #[trigger] before.contains_key(k) ==> self.slots@[k] == before[k],
        {
            let (slot, value) = kv;
            proof {
                seen = seen.insert(*slot);
            }
            self.slots.insert(*slot, value.clone());
        }
        proof {
            assert(self.slots@ =~= before.union_prefer_right(m));
        }
        self.instruction_pointer = self.instruction_pointer + 1;
        Ok(())
    }

    /// Writes the result of a host request to its output slot and moves on.
    pub fn complete_host_request(&mut self, events: &mut Vec<VirtualMachineEvent>, output: Slot, value: Value)
        requires
            old(self).instruction_pointer < usize::MAX,
        ensures
            written(old(self).slots@, final(self).slots@, output, value),
            extended(old(events)@, final(events)@, 1),
            reports_change(final(events)@[old(events)@.len() as int], old(self).slots@, output, final(self).slots@[output]),
            final(self).instruction_pointer == old(self).instruction_pointer + 1,
            final(self).instructions == old(self).instructions,
            final(self).modification_namespace_list == old(self).modification_namespace_list,
            final(self).self_identifier == old(self).self_identifier,
    {
        self.write(events, output, Arc::new(value));
        self.instruction_pointer = self.instruction_pointer + 1;
    }
}

} // verus!
