//! Types and values of the virtual machine.

use vstd::prelude::*;
use crate::persistent_vector::PersistentVector;

verus! {

#[derive(Clone, Copy, PartialEq, Eq, PartialOrd, Ord, Debug, Structural)]
pub enum Type {
    Integer,
    Float,
    String,
    Char,
    Boolean,
    Vector(&'static Type),
    Option(&'static Type),
    Result(&'static Type, &'static Type),
    /// Only valid in function input positions: accepts every concrete type
    /// as an argument. It never appears in outputs, storage or inferred types.
    Any,
    /// Only valid in function output positions: no return value.
    Void,
}

/// A runtime value. A float is held as its IEEE 754 bit pattern.
#[derive(Debug, PartialEq)]
pub enum Value {
    Integer(i64),
    Float(u64),
    String(String),
    Char(char),
    Boolean(bool),
    Vector(PersistentVector<Value>),
    Option(Option<Box<Value>>),
    Result(Result<Box<Value>, Box<Value>>),
    /// A value that cannot be used.
    Any,
    Void,
}

impl Clone for Value {
    fn clone(&self) -> (r: Self)
        ensures
            r == *self,
        decreases self,
    {
        match self {
            Value::Integer(n) => Value::Integer(*n),
            Value::Float(f) => Value::Float(*f),
            Value::String(s) => Value::String(s.clone()),
            Value::Char(c) => Value::Char(*c),
            Value::Boolean(b) => Value::Boolean(*b),
            Value::Vector(v) => Value::Vector(v.clone()),
            Value::Option(o) => match o {
                Some(inner) => Value::Option(Some(Box::new((**inner).clone()))),
                None => Value::Option(None),
            },
            Value::Result(r) => match r {
                Ok(inner) => Value::Result(Ok(Box::new((**inner).clone()))),
                Err(inner) => Value::Result(Err(Box::new((**inner).clone()))),
            },
            Value::Any => Value::Any,
            Value::Void => Value::Void,
        }
    }
}

} // verus!
