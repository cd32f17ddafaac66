//! The first form of the policy model: three-valued logic values, logic
//! operators, function outputs and the expression tree.

use vstd::prelude::*;
use crate::{Identifier, Namespace};

verus! {

/// Node identifier: binding key, cache key and dependency graph key.
#[derive(Debug, Clone, Copy, PartialEq, Eq, Hash, Structural)]
pub struct NodeIdentifier(pub u64);

/// Function identifier.
#[derive(Debug, Clone, PartialEq, Eq, Hash)]
pub struct FunctionIdentifier(pub String);

#[derive(Debug, Clone, Copy, PartialEq, Eq, Structural)]
pub enum LogicValue {
    True,
    False,
    Unknown,
}

/// Truth order: False < Unknown < True.
pub open spec fn truth(v: LogicValue) -> int {
    match v {
        LogicValue::False => 0,
        LogicValue::Unknown => 1,
        LogicValue::True => 2,
    }
}

pub open spec fn from_truth(t: int) -> LogicValue {
    if t <= 0 {
        LogicValue::False
    } else if t == 1 {
        LogicValue::Unknown
    } else {
        LogicValue::True
    }
}

impl LogicValue {
    /// Kleene conjunction: the lesser of the two in truth order.
    pub open spec fn spec_and(self, other: Self) -> Self {
        from_truth(if truth(self) <= truth(other) { truth(self) } else { truth(other) })
    }

    /// Kleene disjunction: the greater of the two in truth order.
    pub open spec fn spec_or(self, other: Self) -> Self {
        from_truth(if truth(self) >= truth(other) { truth(self) } else { truth(other) })
    }

    /// Kleene negation: the mirror image in truth order.
    pub open spec fn spec_not(self) -> Self {
        from_truth(2 - truth(self))
    }

    pub fn and(self, other: Self) -> (r: Self)
        ensures
            r == self.spec_and(other),
    {
        match (self, other) {
            (Self::False, _) => Self::False,
            (_, Self::False) => Self::False,
            (Self::True, Self::True) => Self::True,
            _ => Self::Unknown,
        }
    }

    pub fn or(self, other: Self) -> (r: Self)
        ensures
            r == self.spec_or(other),
    {
        match (self, other) {
            (Self::True, _) => Self::True,
            (_, Self::True) => Self::True,
            (Self::False, Self::False) => Self::False,
            _ => Self::Unknown,
        }
    }

    pub fn not(self) -> (r: Self)
        ensures
            r == self.spec_not(),
    {
        match self {
            Self::True => Self::False,
            Self::False => Self::True,
            Self::Unknown => Self::Unknown,
        }
    }
}

/// The laws of Kleene's three-valued logic: conjunction and disjunction are
/// commutative and associative, True and False are their identities and
/// absorbing elements, negation is an involution, and De Morgan's laws hold.
pub proof fn lemma_logic_value_laws(a: LogicValue, b: LogicValue, c: LogicValue)
    ensures
        a.spec_and(b) == b.spec_and(a),
        a.spec_or(b) == b.spec_or(a),
        a.spec_and(b).spec_and(c) == a.spec_and(b.spec_and(c)),
        a.spec_or(b).spec_or(c) == a.spec_or(b.spec_or(c)),
        LogicValue::True.spec_and(a) == a,
        LogicValue::False.spec_or(a) == a,
        LogicValue::False.spec_and(a) == LogicValue::False,
        LogicValue::True.spec_or(a) == LogicValue::True,
        a.spec_not().spec_not() == a,
        a.spec_and(b).spec_not() == a.spec_not().spec_or(b.spec_not()),
        a.spec_or(b).spec_not() == a.spec_not().spec_and(b.spec_not()),
{
}

/// A user-defined logic operator over any number of inputs.
pub trait CustomLogicOp: Send + Sync {
    fn combine(&self, inputs: &[LogicValue]) -> LogicValue;
}

pub enum LogicOperators {
    And,
    Or,
    Not,
    Custom(Box<dyn CustomLogicOp>),
}

/// Conjunction of a sequence: False if any input is False, else Unknown if any
/// is Unknown, else True (True for no inputs).
pub open spec fn conjunction(s: Seq<LogicValue>) -> LogicValue {
    if s.contains(LogicValue::False) {
        LogicValue::False
    } else if s.contains(LogicValue::Unknown) {
        LogicValue::Unknown
    } else {
        LogicValue::True
    }
}

/// Disjunction of a sequence: True if any input is True, else Unknown if any
/// is Unknown, else False (False for no inputs).
pub open spec fn disjunction(s: Seq<LogicValue>) -> LogicValue {
    if s.contains(LogicValue::True) {
        LogicValue::True
    } else if s.contains(LogicValue::Unknown) {
        LogicValue::Unknown
    } else {
        LogicValue::False
    }
}

proof fn lemma_disjunction_push(s: Seq<LogicValue>, x: LogicValue)
    ensures
        disjunction(s.push(x)) == disjunction(s).spec_or(x),
{
    assert(s.push(x)[s.len() as int] == x);
    assert forall|v: LogicValue| s.contains(v) implies s.push(x).contains(v) by {
        let i = choose|i: int| 0 <= i < s.len() && s[i] == v;
        assert(s.push(x)[i] == v);
    }
    assert forall|v: LogicValue| s.push(x).contains(v) && v != x implies s.contains(v) by {
        let i = choose|i: int| 0 <= i < s.push(x).len() && s.push(x)[i] == v;
        assert(i < s.len());
        assert(s[i] == v);
    }
}

proof fn lemma_conjunction_push(s: Seq<LogicValue>, x: LogicValue)
    ensures
        conjunction(s.push(x)) == conjunction(s).spec_and(x),
{
    assert(s.push(x)[s.len() as int] == x);
    assert forall|v: LogicValue| s.contains(v) implies s.push(x).contains(v) by {
        let i = choose|i: int| 0 <= i < s.len() && s[i] == v;
        assert(s.push(x)[i] == v);
    }
    assert forall|v: LogicValue| s.push(x).contains(v) && v != x implies s.contains(v) by {
        let i = choose|i: int| 0 <= i < s.push(x).len() && s.push(x)[i] == v;
        assert(i < s.len());
        assert(s[i] == v);
    }
}

impl LogicOperators {
    /// And folds the inputs with Kleene AND from True; Or folds them with
    /// Kleene OR from False, its identity. Not negates
    /// the first input (Unknown when there is none). A custom operator
    /// decides for itself.
    pub fn combine(&self, inputs: &[LogicValue]) -> (r: LogicValue)
        ensures
            self is And ==> r == conjunction(inputs@),
            self is Or ==> r == disjunction(inputs@),
            self is Not ==> r == (if inputs@.len() == 0 { LogicValue::Unknown } else { inputs@[0].spec_not() }),
    {
        match self {
            Self::And => {
                let mut acc = LogicValue::True;
                let mut i: usize = 0;
                while i < inputs.len()
                    invariant
                        i <= inputs@.len(),
                        acc == conjunction(inputs@.take(i as int)),
                    decreases inputs@.len() - i,
                {
                    proof {
                        assert(inputs@.take(i + 1) == inputs@.take(i as int).push(inputs@[i as int]));
                        lemma_conjunction_push(inputs@.take(i as int), inputs@[i as int]);
                    }
                    acc = acc.and(inputs[i]);
                    i = i + 1;
                }
                proof {
                    assert(inputs@.take(i as int) == inputs@);
                }
                acc
            },
            Self::Or => {
                let mut acc = LogicValue::False;
                let mut i: usize = 0;
                while i < inputs.len()
                    invariant
                        i <= inputs@.len(),
                        acc == disjunction(inputs@.take(i as int)),
                    decreases inputs@.len() - i,
                {
                    proof {
                        assert(inputs@.take(i + 1) == inputs@.take(i as int).push(inputs@[i as int]));
                        lemma_disjunction_push(inputs@.take(i as int), inputs@[i as int]);
                    }
                    acc = acc.or(inputs[i]);
                    i = i + 1;
                }
                proof {
                    assert(inputs@.take(i as int) == inputs@);
                }
                acc
            },
            Self::Not => {
                if inputs.len() == 0 {
                    LogicValue::Unknown
                } else {
                    inputs[0].not()
                }
            },
            Self::Custom(op) => op.combine(inputs),
        }
    }
}

/// What a function node returns: an expression, data, or both.
pub enum FunctionOutputs {
    AbstractSyntaxTree(Expression),
    Data(Data),
    Both(Expression, Data),
}

impl FunctionOutputs {
    pub fn into_parts(self) -> (r: (Option<Expression>, Option<Data>))
        ensures
            match self {
                FunctionOutputs::AbstractSyntaxTree(a) => r.0 == Some(a) && r.1.is_none(),
                FunctionOutputs::Data(d) => r.0.is_none() && r.1 == Some(d),
                FunctionOutputs::Both(e, d) => r.0 == Some(e) && r.1 == Some(d),
            },
    {
        match self {
            Self::AbstractSyntaxTree(a) => (Some(a), None),
            Self::Data(d) => (None, Some(d)),
            Self::Both(e, d) => (Some(e), Some(d)),
        }
    }

    pub fn expr_ref(&self) -> (r: Option<&Expression>)
        ensures
            match self {
                FunctionOutputs::AbstractSyntaxTree(a) => r == Some(a),
                FunctionOutputs::Both(a, _) => r == Some(a),
                FunctionOutputs::Data(_) => r.is_none(),
            },
    {
        match self {
            Self::AbstractSyntaxTree(a) => Some(a),
            Self::Both(a, _) => Some(a),
            _ => None,
        }
    }

    pub fn data_ref(&self) -> (r: Option<&Data>)
        ensures
            match self {
                FunctionOutputs::Data(d) => r == Some(d),
                FunctionOutputs::Both(_, d) => r == Some(d),
                FunctionOutputs::AbstractSyntaxTree(_) => r.is_none(),
            },
    {
        match self {
            Self::Data(d) => Some(d),
            Self::Both(_, d) => Some(d),
            _ => None,
        }
    }
}

/// Data produced by a function: where it comes from, and a value of any type
/// that the evaluator carries without looking inside.
#[verifier::external_body]
pub struct Data {
    pub namespace: Namespace,
    pub identifier: Identifier,
    pub data: Box<dyn std::any::Any + Send + Sync>,
}

#[derive(Debug, Clone, Copy, PartialEq, Eq, Structural)]
pub enum ParamRole {
    /// The child's expression goes to the `ast` parameter.
    Ast,
    /// The child's data goes to the `data` parameter.
    DataOnly,
    /// The child's expression and data are both passed on.
    Both,
}

#[derive(Debug, Clone, Copy, PartialEq, Eq, Structural)]
pub struct ParamBinding {
    pub child_index: usize,
    pub role: ParamRole,
}

pub enum Expression {
    /// A leaf waiting for an injected value; Unknown until it has one.
    Binding(NodeIdentifier),
    /// A fixed leaf.
    Literal(LogicValue),
    /// A logic node.
    Logic { id: NodeIdentifier, op: LogicOperators, children: Vec<Expression> },
    /// A function node, the only bridge between expressions and data; its
    /// children are its parameters.
    Fn {
        id: NodeIdentifier,
        fn_id: FunctionIdentifier,
        children: Vec<Expression>,
        /// Child index to parameter role.
        params: Vec<ParamBinding>,
    },
}

impl Expression {
    pub fn node_id(&self) -> (r: Option<NodeIdentifier>)
        ensures
            r == match *self {
                Expression::Binding(id) => Some(id),
                Expression::Literal(_) => None,
                Expression::Logic { id, .. } => Some(id),
                Expression::Fn { id, .. } => Some(id),
            },
    {
        match self {
            Self::Binding(id) => Some(*id),
            Self::Literal(_) => None,
            Self::Logic { id, .. } => Some(*id),
            Self::Fn { id, .. } => Some(*id),
        }
    }
}

} // verus!
