//! Declarative policy graph.
//!
//! The AST (`Expr`) is a pure, immutable structure graph; `Data` is a
//! side-channel living outside the AST; `Fn` nodes are the only bridge
//! between the two. Evaluation uses Kleene three-valued logic, a per-node
//! cache and a diff log that supports audit and rollback.

use vstd::prelude::*;
use std::collections::HashMap;
use std::sync::Arc;

verus! {

broadcast use vstd::std_specs::hash::group_hash_axioms;

// ─────────────────────────────────────────────────────────────
// Identifiers and the opaque data side-channel
// ─────────────────────────────────────────────────────────────

/// Node identifier: binding key, cache key and dependency graph key.
#[derive(Debug, Clone, Copy, PartialEq, Eq, Hash, Structural)]
pub struct NodeId(pub u64);

/// Function identifier.
#[derive(Debug, Clone, PartialEq, Eq, Hash)]
pub struct FnId(pub String);

/// Data living outside the AST; only the `Fn` chain produces or reads it.
/// Its content is any value; the evaluator carries it without looking inside.
#[verifier::external_body]
pub struct Data {
    value: Box<dyn std::any::Any + Send + Sync>,
}

impl Data {
    /// Boxes `val` as opaque data (calls `Box::new` and erases the type).
    #[verifier::external_body]
    pub fn new<T: std::any::Any + Send + Sync>(val: T) -> Self {
        Data { value: Box::new(val) }
    }

    /// Views the data as a `T` when it holds one (calls `<dyn Any>::downcast_ref`).
    #[verifier::external_body]
    pub fn downcast_ref<T: std::any::Any>(&self) -> Option<&T> {
        self.value.downcast_ref::<T>()
    }
}

// ─────────────────────────────────────────────────────────────
// PolicyValue: Kleene three-valued logic
// ─────────────────────────────────────────────────────────────

#[derive(Debug, Clone, Copy, PartialEq, Eq, Structural)]
pub enum PolicyValue {
    Allow,
    Deny,
    /// A binding that is not yet satisfied.
    Unknown,
}

/// Truth order of the Kleene logic: Deny < Unknown < Allow.
pub open spec fn rank(v: PolicyValue) -> int {
    match v {
        PolicyValue::Deny => 0,
        PolicyValue::Unknown => 1,
        PolicyValue::Allow => 2,
    }
}

pub open spec fn from_rank(r: int) -> PolicyValue {
    if r <= 0 {
        PolicyValue::Deny
    } else if r == 1 {
        PolicyValue::Unknown
    } else {
        PolicyValue::Allow
    }
}

impl PolicyValue {
    /// Kleene conjunction: the lesser of the two in truth order.
    pub open spec fn kleene_and(self, other: Self) -> Self {
        from_rank(if rank(self) <= rank(other) { rank(self) } else { rank(other) })
    }

    /// Kleene disjunction: the greater of the two in truth order.
    pub open spec fn kleene_or(self, other: Self) -> Self {
        from_rank(if rank(self) >= rank(other) { rank(self) } else { rank(other) })
    }

    /// Kleene negation: the mirror image in truth order.
    pub open spec fn kleene_not(self) -> Self {
        from_rank(2 - rank(self))
    }

    /// Kleene AND.
    pub fn and(self, other: Self) -> (r: Self)
        ensures
            r == self.kleene_and(other),
    {
        match (self, other) {
            (Self::Deny, _) => Self::Deny,
            (_, Self::Deny) => Self::Deny,
            (Self::Allow, Self::Allow) => Self::Allow,
            _ => Self::Unknown,
        }
    }

    /// Kleene OR.
    pub fn or(self, other: Self) -> (r: Self)
        ensures
            r == self.kleene_or(other),
    {
        match (self, other) {
            (Self::Allow, _) => Self::Allow,
            (_, Self::Allow) => Self::Allow,
            (Self::Deny, Self::Deny) => Self::Deny,
            _ => Self::Unknown,
        }
    }

    /// Kleene NOT.
    pub fn not(self) -> (r: Self)
        ensures
            r == self.kleene_not(),
    {
        match self {
            Self::Allow => Self::Deny,
            Self::Deny => Self::Allow,
            Self::Unknown => Self::Unknown,
        }
    }
}

/// Kleene AND and OR are commutative and associative, NOT is an involution,
/// De Morgan's laws hold, Allow is the unit of AND and Deny is the unit of OR,
/// Deny absorbs AND and Allow absorbs OR.
pub proof fn lemma_kleene_laws(a: PolicyValue, b: PolicyValue, c: PolicyValue)
    ensures
        a.kleene_and(b) == b.kleene_and(a),
        a.kleene_or(b) == b.kleene_or(a),
        a.kleene_and(b).kleene_and(c) == a.kleene_and(b.kleene_and(c)),
        a.kleene_or(b).kleene_or(c) == a.kleene_or(b.kleene_or(c)),
        a.kleene_not().kleene_not() == a,
        a.kleene_and(b).kleene_not() == a.kleene_not().kleene_or(b.kleene_not()),
        a.kleene_or(b).kleene_not() == a.kleene_not().kleene_and(b.kleene_not()),
        PolicyValue::Allow.kleene_and(a) == a,
        PolicyValue::Deny.kleene_or(a) == a,
        PolicyValue::Deny.kleene_and(a) == PolicyValue::Deny,
        PolicyValue::Allow.kleene_or(a) == PolicyValue::Allow,
        PolicyValue::Unknown.kleene_not() == PolicyValue::Unknown,
{
}


// ─────────────────────────────────────────────────────────────
// LogicOp: built-in operators and user extensions
// ─────────────────────────────────────────────────────────────

/// Extension point for logic operators that are not built in
/// (XOR, IMPLIES, ...). Implemented by users of the library.
pub trait CustomLogicOp: Send + Sync {
    fn combine(&self, inputs: &[PolicyValue]) -> PolicyValue;
}

/// Logic operators: simple ones are built in, complex ones are delegated
/// to a `CustomLogicOp`.
pub enum LogicOp {
    And,
    Or,
    Not,
    AtLeastN(usize),
    Custom(Box<dyn CustomLogicOp>),
}

/// Kleene AND over a sequence: Deny if any input is Deny, else Unknown if any
/// input is Unknown, else Allow (Allow for no inputs).
pub open spec fn and_all(s: Seq<PolicyValue>) -> PolicyValue {
    if s.contains(PolicyValue::Deny) {
        PolicyValue::Deny
    } else if s.contains(PolicyValue::Unknown) {
        PolicyValue::Unknown
    } else {
        PolicyValue::Allow
    }
}

/// Kleene OR over a sequence: Allow if any input is Allow, else Unknown if any
/// input is Unknown, else Deny (Deny for no inputs).
pub open spec fn or_all(s: Seq<PolicyValue>) -> PolicyValue {
    if s.contains(PolicyValue::Allow) {
        PolicyValue::Allow
    } else if s.contains(PolicyValue::Unknown) {
        PolicyValue::Unknown
    } else {
        PolicyValue::Deny
    }
}

/// Number of Allow entries in a sequence.
pub open spec fn count_allow(s: Seq<PolicyValue>) -> nat
    decreases s.len(),
{
    if s.len() == 0 {
        0
    } else {
        count_allow(s.drop_last()) + if s.last() == PolicyValue::Allow { 1nat } else { 0nat }
    }
}

proof fn lemma_contains_push(s: Seq<PolicyValue>, x: PolicyValue, v: PolicyValue)
    ensures
        s.push(x).contains(v) <==> (s.contains(v) || x == v),
{
    if s.contains(v) {
        let i = choose|i: int| 0 <= i < s.len() && s[i] == v;
        assert(s.push(x)[i] == v);
    }
    if x == v {
        assert(s.push(x)[s.len() as int] == v);
    }
    if s.push(x).contains(v) {
        let i = choose|i: int| 0 <= i < s.len() + 1 && s.push(x)[i] == v;
        if i < s.len() {
            assert(s[i] == v);
        }
    }
}

proof fn lemma_and_or_push(s: Seq<PolicyValue>, x: PolicyValue)
    ensures
        and_all(s.push(x)) == and_all(s).kleene_and(x),
        or_all(s.push(x)) == or_all(s).kleene_or(x),
{
    lemma_contains_push(s, x, PolicyValue::Allow);
    lemma_contains_push(s, x, PolicyValue::Deny);
    lemma_contains_push(s, x, PolicyValue::Unknown);
}

impl LogicOp {
    /// What a built-in operator yields on the given inputs.
    pub open spec fn builtin_combine(&self, s: Seq<PolicyValue>) -> PolicyValue {
        match self {
            LogicOp::And => and_all(s),
            LogicOp::Or => or_all(s),
            LogicOp::Not => s[0].kleene_not(),
            LogicOp::AtLeastN(n) => if count_allow(s) >= *n { PolicyValue::Allow } else { PolicyValue::Deny },
            LogicOp::Custom(_) => PolicyValue::Unknown,
        }
    }

    /// Inputs the operator accepts: `Not` takes exactly one input.
    pub open spec fn accepts(&self, n: nat) -> bool {
        self is Not ==> n == 1
    }

    pub fn combine(&self, inputs: &[PolicyValue]) -> (r: PolicyValue)
        requires
            self.accepts(inputs@.len()),
        ensures
            !(self is Custom) ==> r == self.builtin_combine(inputs@),
    {
        match self {
            LogicOp::And => {
                let mut acc = PolicyValue::Allow;
                let mut i: usize = 0;
                while i < inputs.len()
                    invariant
                        i <= inputs@.len(),
                        acc == and_all(inputs@.take(i as int)),
                    decreases inputs@.len() - i,
                {
                    proof {
                        assert(inputs@.take(i + 1) == inputs@.take(i as int).push(inputs@[i as int]));
                        lemma_and_or_push(inputs@.take(i as int), inputs@[i as int]);
                    }
                    acc = acc.and(inputs[i]);
                    i = i + 1;
                }
                proof {
                    assert(inputs@.take(i as int) == inputs@);
                }
                acc
            }
            LogicOp::Or => {
                let mut acc = PolicyValue::Deny;
                let mut i: usize = 0;
                while i < inputs.len()
                    invariant
                        i <= inputs@.len(),
                        acc == or_all(inputs@.take(i as int)),
                    decreases inputs@.len() - i,
                {
                    proof {
                        assert(inputs@.take(i + 1) == inputs@.take(i as int).push(inputs@[i as int]));
                        lemma_and_or_push(inputs@.take(i as int), inputs@[i as int]);
                    }
                    acc = acc.or(inputs[i]);
                    i = i + 1;
                }
                proof {
                    assert(inputs@.take(i as int) == inputs@);
                }
                acc
            }
            LogicOp::Not => inputs[0].not(),
            LogicOp::AtLeastN(n) => {
                let mut count: usize = 0;
                let mut i: usize = 0;
                while i < inputs.len()
                    invariant
                        i <= inputs@.len(),
                        count == count_allow(inputs@.take(i as int)),
                        count <= i,
                    decreases inputs@.len() - i,
                {
                    proof {
                        assert(inputs@.take(i + 1).drop_last() == inputs@.take(i as int));
                    }
                    if inputs[i] == PolicyValue::Allow {
                        count = count + 1;
                    }
                    i = i + 1;
                }
                proof {
                    assert(inputs@.take(i as int) == inputs@);
                }
                if count >= *n { PolicyValue::Allow } else { PolicyValue::Deny }
            }
            LogicOp::Custom(op) => op.combine(inputs),
        }
    }
}


// ─────────────────────────────────────────────────────────────
// FnOutput: three states only, (None, None) cannot be built
// ─────────────────────────────────────────────────────────────

/// What a `Fn` node returns: AST only, data only, or both.
pub enum FnOutput {
    Ast(Expr),
    Data(Data),
    Both(Expr, Data),
}

impl FnOutput {
    pub fn into_parts(self) -> (r: (Option<Expr>, Option<Data>))
        ensures
            match self {
                FnOutput::Ast(e) => r.0 == Some(e) && r.1.is_none(),
                FnOutput::Data(d) => r.0.is_none() && r.1 == Some(d),
                FnOutput::Both(e, d) => r.0 == Some(e) && r.1 == Some(d),
            },
            r.0.is_some() || r.1.is_some(),
    {
        match self {
            FnOutput::Ast(e) => (Some(e), None),
            FnOutput::Data(d) => (None, Some(d)),
            FnOutput::Both(e, d) => (Some(e), Some(d)),
        }
    }

    pub fn expr_ref(&self) -> (r: Option<&Expr>)
        ensures
            match self {
                FnOutput::Ast(e) => r == Some(e),
                FnOutput::Both(e, _) => r == Some(e),
                FnOutput::Data(_) => r.is_none(),
            },
    {
        match self {
            FnOutput::Ast(e) => Some(e),
            FnOutput::Both(e, _) => Some(e),
            FnOutput::Data(_) => None,
        }
    }

    pub fn data_ref(&self) -> (r: Option<&Data>)
        ensures
            match self {
                FnOutput::Data(d) => r == Some(d),
                FnOutput::Both(_, d) => r == Some(d),
                FnOutput::Ast(_) => r.is_none(),
            },
    {
        match self {
            FnOutput::Data(d) => Some(d),
            FnOutput::Both(_, d) => Some(d),
            FnOutput::Ast(_) => None,
        }
    }
}

// ─────────────────────────────────────────────────────────────
// ParamBinding: child index -> parameter role
// ─────────────────────────────────────────────────────────────

#[derive(Debug, Clone, Copy, PartialEq, Eq, Structural)]
pub enum ParamRole {
    /// The child's Expr goes to the `ast` parameter.
    Ast,
    /// The child's Data goes to the `data` parameter.
    DataOnly,
    /// The child's Expr and Data are both passed on.
    Both,
}

#[derive(Debug, Clone, Copy, PartialEq, Eq, Structural)]
pub struct ParamBinding {
    pub child_index: usize,
    pub role: ParamRole,
}

// ─────────────────────────────────────────────────────────────
// Expr: the AST before evaluation (immutable)
// ─────────────────────────────────────────────────────────────

pub enum Expr {
    /// A leaf waiting for an external value; Unknown until bound.
    Binding(NodeId),
    /// A fixed leaf.
    Literal(PolicyValue),
    /// A logic node.
    Logic { id: NodeId, op: LogicOp, children: Vec<Expr> },
    /// A function node: the only bridge between AST and Data.
    Fn { id: NodeId, fn_id: FnId, children: Vec<Expr>, params: Vec<ParamBinding> },
}

impl Expr {
    pub open spec fn spec_node_id(&self) -> Option<NodeId> {
        match self {
            Expr::Binding(id) => Some(*id),
            Expr::Literal(_) => None,
            Expr::Logic { id, .. } => Some(*id),
            Expr::Fn { id, .. } => Some(*id),
        }
    }

    pub fn node_id(&self) -> (r: Option<NodeId>)
        ensures
            r == self.spec_node_id(),
    {
        match self {
            Expr::Binding(id) => Some(*id),
            Expr::Literal(_) => None,
            Expr::Logic { id, .. } => Some(*id),
            Expr::Fn { id, .. } => Some(*id),
        }
    }
}

/// Every `Not` node in the tree has exactly one child (evaluating a `Not`
/// node with another number of children is refused).
pub open spec fn well_formed(e: Expr) -> bool
    decreases e,
{
    match e {
        Expr::Binding(_) => true,
        Expr::Literal(_) => true,
        Expr::Logic { op, children, .. } => {
            &&& op.accepts(children@.len())
            &&& forall|i: int| 0 <= i < children@.len() ==> well_formed(#[trigger] children@[i])
        },
        Expr::Fn { children, .. } => forall|i: int|
            0 <= i < children@.len() ==> well_formed(#[trigger] children@[i]),
    }
}

/// Decides `well_formed`.
#[verifier::loop_isolation(false)]
pub fn is_well_formed(e: &Expr) -> (r: bool)
    ensures
        r == well_formed(*e),
    decreases e,
{
    match e {
        Expr::Binding(_) => true,
        Expr::Literal(_) => true,
        Expr::Logic { op, children, .. } => {
            let arity_ok = match op {
                LogicOp::Not => children.len() == 1,
                _ => true,
            };
            if !arity_ok {
                return false;
            }
            let mut i: usize = 0;
            while i < children.len()
                invariant
                    i <= children@.len(),
                    forall|j: int| 0 <= j < i ==> well_formed(#[trigger] children@[j]),
                decreases children@.len() - i,
            {
                proof {
                    assert(decreases_to!(*e => children@[i as int]));
                }
                if !is_well_formed(&children[i]) {
                    return false;
                }
                i = i + 1;
            }
            true
        },
        Expr::Fn { children, .. } => {
            let mut i: usize = 0;
            while i < children.len()
                invariant
                    i <= children@.len(),
                    forall|j: int| 0 <= j < i ==> well_formed(#[trigger] children@[j]),
                decreases children@.len() - i,
            {
                proof {
                    assert(decreases_to!(*e => children@[i as int]));
                }
                if !is_well_formed(&children[i]) {
                    return false;
                }
                i = i + 1;
            }
            true
        },
    }
}

// ─────────────────────────────────────────────────────────────
// EvalContext: read-only during evaluation
// ─────────────────────────────────────────────────────────────

/// A function that a `Fn` node calls.
trait PolicyFunction: Send + Sync {
    fn call(&self, ast: Option<&Expr>, data: Option<&Data>, ctx: &EvalContext) -> FnOutput;
}

/// A closure registered by a user, seen as a `PolicyFunction`. It accepts
/// every input: registration demands that of the closure.
struct ClosureFunction<F: Fn(Option<&Expr>, Option<&Data>, &EvalContext) -> FnOutput + Send + Sync> {
    f: F,
}

impl<F: Fn(Option<&Expr>, Option<&Data>, &EvalContext) -> FnOutput + Send + Sync> ClosureFunction<F> {
    #[verifier::type_invariant]
    spec fn accepts_all(self) -> bool {
        forall|ast: Option<&Expr>, data: Option<&Data>, ctx: &EvalContext| #[trigger] self.f.requires((ast, data, ctx))
    }
}

impl<F: Fn(Option<&Expr>, Option<&Data>, &EvalContext) -> FnOutput + Send + Sync> PolicyFunction for ClosureFunction<F> {
    /// The closure's own answer on the three arguments.
    fn call(&self, ast: Option<&Expr>, data: Option<&Data>, ctx: &EvalContext) -> (r: FnOutput)
        ensures
            call_ensures(self.f, (ast, data, ctx), r),
    {
        proof {
            use_type_invariant(self);
        }
        (self.f)(ast, data, ctx)
    }
}

/// The function registry: a map from function name to the function a user
/// registered. Its values are boxed trait objects whose calls take the
/// context that holds the registry, so the map is kept opaque and reached
/// only through the three items below, which speak of it through
/// `registered_names`.
#[verifier::external_body]
pub struct FnRegistry {
    functions: HashMap<FnId, Box<dyn PolicyFunction>>,
}

/// The names (the characters of each `FnId`) under which a registry holds a
/// function: the key set of its map.
pub uninterp spec fn registered_names(registry: FnRegistry) -> Set<Seq<char>>;

impl FnRegistry {
    /// An empty registry (calls `HashMap::new`): no name is registered.
    #[verifier::external_body]
    fn new() -> (r: Self)
        ensures
            registered_names(r) == Set::<Seq<char>>::empty(),
    {
        FnRegistry { functions: HashMap::new() }
    }

    /// Registers `f` under `id`, replacing an earlier one (calls `HashMap::insert`
    /// on the boxed closure). `FnId` compares and hashes by its string, so the
    /// key set gains exactly `id`'s characters.
    #[verifier::external_body]
    fn insert<F: Fn(Option<&Expr>, Option<&Data>, &EvalContext) -> FnOutput + Send + Sync + 'static>(
        &mut self,
        id: FnId,
        f: ClosureFunction<F>,
    )
        ensures
            registered_names(*final(self)) == registered_names(*old(self)).insert(id.0@),
    {
        self.functions.insert(id, Box::new(f));
    }

    /// Looks `id` up (calls `HashMap::get`) and runs the closure found there
    /// on the given arguments: `Some` exactly when a function is registered
    /// under `id`'s characters. What the closure returns is left unsaid: the
    /// map holds it boxed behind a trait object, so the contract cannot tell
    /// which closure ran.
    #[verifier::external_body]
    fn call(&self, id: &FnId, ast: Option<&Expr>, data: Option<&Data>, ctx: &EvalContext) -> (r: Option<FnOutput>)
        ensures
            r is Some <==> registered_names(*self).contains(id.0@),
    {
        self.functions.get(id).map(|f| f.call(ast, data, ctx))
    }
}

pub struct EvalContext {
    /// Binding values, keyed by the node identifier's number.
    pub bindings: HashMap<u64, PolicyValue>,
    /// Context metadata, keyed by the characters of each key.
    pub meta: vstd::hash_map::StringHashMap<String>,
    /// Function registry; opaque, so `Fn` nodes cannot call through it.
    pub functions: FnRegistry,
}

impl EvalContext {
    pub fn new() -> (r: Self)
        ensures
            r.bindings@ == Map::<u64, PolicyValue>::empty(),
            r.meta@ == Map::<Seq<char>, String>::empty(),
            registered_names(r.functions) == Set::<Seq<char>>::empty(),
    {
        EvalContext {
            bindings: HashMap::new(),
            meta: vstd::hash_map::StringHashMap::new(),
            functions: FnRegistry::new(),
        }
    }

    pub fn bind(self, id: NodeId, val: PolicyValue) -> (r: Self)
        ensures
            r.bindings@ == self.bindings@.insert(id.0, val),
            r.meta@ == self.meta@,
            registered_names(r.functions) == registered_names(self.functions),
    {
        let mut ctx = self;
        ctx.bindings.insert(id.0, val);
        ctx
    }

    /// Adds the metadata entry `key` -> `val`, each turned into a `String`
    /// by its `Into` impl, replacing an earlier value under the same key.
    pub fn with_meta<K: Into<String>, V: Into<String>>(self, key: K, val: V) -> (r: Self)
        ensures
            r.bindings@ == self.bindings@,
            registered_names(r.functions) == registered_names(self.functions),
            exists|k: String, v: String|
                #![trigger call_ensures(K::into, (key,), k), call_ensures(V::into, (val,), v)]
                call_ensures(K::into, (key,), k) && call_ensures(V::into, (val,), v)
                    && r.meta@ == self.meta@.insert(k@, v),
    {
        let mut ctx = self;
        let k: String = key.into();
        let v: String = val.into();
        ctx.meta.insert(k, v);
        ctx
    }

    /// Registers `f` under `id`, replacing an earlier function of that name.
    /// `f` must accept every input, as it is called on whatever a node gathers.
    pub fn register_fn<F: Fn(Option<&Expr>, Option<&Data>, &EvalContext) -> FnOutput + Send + Sync + 'static>(
        &mut self,
        id: FnId,
        f: F,
    )
        requires
            forall|ast: Option<&Expr>, data: Option<&Data>, ctx: &EvalContext| #[trigger] f.requires((ast, data, ctx)),
        ensures
            final(self).bindings@ == old(self).bindings@,
            final(self).meta@ == old(self).meta@,
            registered_names(final(self).functions) == registered_names(old(self).functions).insert(id.0@),
    {
        self.functions.insert(id, ClosureFunction { f });
    }

    /// Calls the registered function `id`; `None` when no function has that name.
    pub(crate) fn call_fn(&self, id: &FnId, ast: Option<&Expr>, data: Option<&Data>) -> (r: Option<FnOutput>)
        ensures
            r is Some <==> registered_names(self.functions).contains(id.0@),
    {
        self.functions.call(id, ast, data, self)
    }
}


// ─────────────────────────────────────────────────────────────
// EvaluatedExpr: per-node cache and diff log
// ─────────────────────────────────────────────────────────────

#[derive(Debug, Clone, Copy, PartialEq, Eq, Structural)]
pub struct Diff {
    pub node_id: NodeId,
    pub before: PolicyValue,
    pub after: PolicyValue,
}

/// The abstract state of an evaluation cache: cached values and the log of
/// the changes made to them.
pub struct EvalState {
    pub cache: Map<u64, PolicyValue>,
    pub log: Seq<Diff>,
}

/// The value a cache gives a node: the cached one, Unknown when absent.
pub open spec fn cached_value(c: Map<u64, PolicyValue>, id: u64) -> PolicyValue {
    if c.contains_key(id) {
        c[id]
    } else {
        PolicyValue::Unknown
    }
}

/// The state after caching `val` for `id`: a diff is logged only when the
/// cached value changes, and Unknown is never stored (the entry is dropped).
pub open spec fn state_after_set(s: EvalState, id: u64, val: PolicyValue) -> EvalState {
    let before = cached_value(s.cache, id);
    if before != val {
        EvalState {
            cache: if val == PolicyValue::Unknown { s.cache.remove(id) } else { s.cache.insert(id, val) },
            log: s.log.push(Diff { node_id: NodeId(id), before, after: val }),
        }
    } else {
        s
    }
}

/// The state after dropping the cached value of `id`.
pub open spec fn state_after_invalidate(s: EvalState, id: u64) -> EvalState {
    if s.cache.contains_key(id) {
        EvalState {
            cache: s.cache.remove(id),
            log: s.log.push(Diff { node_id: NodeId(id), before: s.cache[id], after: PolicyValue::Unknown }),
        }
    } else {
        s
    }
}

/// The state after invalidating each id of `ids` in order.
pub open spec fn state_after_invalidate_all(s: EvalState, ids: Seq<u64>) -> EvalState
    decreases ids.len(),
{
    if ids.len() == 0 {
        s
    } else {
        state_after_invalidate(state_after_invalidate_all(s, ids.drop_last()), ids.last())
    }
}

/// A cache with its Unknown entries dropped: absent and Unknown read alike.
pub open spec fn normalized(c: Map<u64, PolicyValue>) -> Map<u64, PolicyValue> {
    Map::new(|k: u64| c.contains_key(k) && c[k] != PolicyValue::Unknown, |k: u64| c[k])
}

/// Puts a diff's `after` value in a normalized cache.
pub open spec fn redo(c: Map<u64, PolicyValue>, d: Diff) -> Map<u64, PolicyValue> {
    if d.after == PolicyValue::Unknown {
        c.remove(d.node_id.0)
    } else {
        c.insert(d.node_id.0, d.after)
    }
}

/// Puts a diff's `before` value back in a cache.
pub open spec fn restore(c: Map<u64, PolicyValue>, d: Diff) -> Map<u64, PolicyValue> {
    if d.before == PolicyValue::Unknown {
        c.remove(d.node_id.0)
    } else {
        c.insert(d.node_id.0, d.before)
    }
}

/// Replays diffs forward, first to last.
pub open spec fn redo_all(c: Map<u64, PolicyValue>, diffs: Seq<Diff>) -> Map<u64, PolicyValue>
    decreases diffs.len(),
{
    if diffs.len() == 0 {
        c
    } else {
        redo(redo_all(c, diffs.drop_last()), diffs.last())
    }
}

/// Replays diffs backward, last to first: what rollback does.
pub open spec fn undo(c: Map<u64, PolicyValue>, diffs: Seq<Diff>) -> Map<u64, PolicyValue>
    decreases diffs.len(),
{
    if diffs.len() == 0 {
        c
    } else {
        undo(restore(c, diffs.last()), diffs.drop_last())
    }
}

/// Each diff's `before` is the value the cache held when the diff was made.
pub open spec fn consistent(c: Map<u64, PolicyValue>, diffs: Seq<Diff>) -> bool
    decreases diffs.len(),
{
    if diffs.len() == 0 {
        true
    } else {
        &&& consistent(c, diffs.drop_last())
        &&& diffs.last().before == cached_value(redo_all(c, diffs.drop_last()), diffs.last().node_id.0)
    }
}

/// `t` comes from `s` by logging consistent diffs: the log only grows, and
/// replaying the new diffs on `s`'s cache gives `t`'s cache.
pub open spec fn evolves(s: EvalState, t: EvalState) -> bool {
    &&& s.log.len() <= t.log.len()
    &&& t.log.take(s.log.len() as int) == s.log
    &&& consistent(normalized(s.cache), t.log.skip(s.log.len() as int))
    &&& normalized(t.cache) == redo_all(normalized(s.cache), t.log.skip(s.log.len() as int))
}

/// No entry of the cache is Unknown.
pub open spec fn no_unknown(c: Map<u64, PolicyValue>) -> bool {
    forall|k: u64| c.contains_key(k) ==> c[k] != PolicyValue::Unknown
}

/// Rollback undoes history: replaying consistent diffs forward from a cache
/// and then rolling them back yields that cache again.
pub proof fn lemma_rollback_undoes(c: Map<u64, PolicyValue>, diffs: Seq<Diff>)
    requires
        no_unknown(c),
        consistent(c, diffs),
    ensures
        undo(redo_all(c, diffs), diffs) == c,
    decreases diffs.len(),
{
    if diffs.len() > 0 {
        let d = diffs.last();
        let m = redo_all(c, diffs.drop_last());
        lemma_redo_all_no_unknown(c, diffs.drop_last());
        assert(restore(redo(m, d), d) == m) by {
            assert(d.before == cached_value(m, d.node_id.0));
            if d.before == PolicyValue::Unknown {
                assert(!m.contains_key(d.node_id.0));
            }
        }
        lemma_rollback_undoes(c, diffs.drop_last());
    }
}

proof fn lemma_redo_all_no_unknown(c: Map<u64, PolicyValue>, diffs: Seq<Diff>)
    requires
        no_unknown(c),
    ensures
        no_unknown(redo_all(c, diffs)),
    decreases diffs.len(),
{
    if diffs.len() > 0 {
        lemma_redo_all_no_unknown(c, diffs.drop_last());
    }
}

/// Rollback after evaluation restores the cache: if `t` evolved from `s`,
/// rolling back the diffs that `t` logged after `s` gives `s`'s cache back
/// (absent entries and Unknown entries read alike).
pub proof fn lemma_rollback_restores_evolved(s: EvalState, t: EvalState)
    requires
        evolves(s, t),
    ensures
        undo(normalized(t.cache), t.log.skip(s.log.len() as int)) == normalized(s.cache),
{
    assert(no_unknown(normalized(s.cache)));
    lemma_rollback_undoes(normalized(s.cache), t.log.skip(s.log.len() as int));
}

proof fn lemma_consistent_split(c: Map<u64, PolicyValue>, a: Seq<Diff>, b: Seq<Diff>)
    requires
        consistent(c, a + b),
    ensures
        consistent(c, a),
        consistent(redo_all(c, a), b),
        redo_all(c, a + b) == redo_all(redo_all(c, a), b),
    decreases b.len(),
{
    if b.len() == 0 {
        assert(a + b == a);
    } else {
        assert((a + b).drop_last() == a + b.drop_last());
        assert((a + b).last() == b.last());
        lemma_consistent_split(c, a, b.drop_last());
    }
}

/// Rolling back all but the first `j` diffs: replaying consistent diffs
/// forward from a cache and then rolling back those after the first `j`
/// yields the cache that replaying only the first `j` gives.
pub proof fn lemma_rollback_keeps_first(c: Map<u64, PolicyValue>, diffs: Seq<Diff>, j: int)
    requires
        no_unknown(c),
        consistent(c, diffs),
        0 <= j <= diffs.len(),
    ensures
        undo(redo_all(c, diffs), diffs.skip(j)) == redo_all(c, diffs.take(j)),
{
    assert(diffs == diffs.take(j) + diffs.skip(j));
    lemma_consistent_split(c, diffs.take(j), diffs.skip(j));
    lemma_redo_all_no_unknown(c, diffs.take(j));
    lemma_rollback_undoes(redo_all(c, diffs.take(j)), diffs.skip(j));
}

/// The audit log is the whole change history: for an evaluation cache that
/// started empty, replaying its log forward from an empty cache gives its
/// cache (absent entries and Unknown entries read alike).
pub proof fn lemma_audit_replays_history(s: EvalState, t: EvalState)
    requires
        s.cache == Map::<u64, PolicyValue>::empty(),
        s.log == Seq::<Diff>::empty(),
        evolves(s, t),
    ensures
        normalized(t.cache) == redo_all(Map::<u64, PolicyValue>::empty(), t.log),
        consistent(Map::<u64, PolicyValue>::empty(), t.log),
{
    assert(normalized(s.cache) =~= Map::<u64, PolicyValue>::empty());
    assert(t.log.skip(0) == t.log);
}

/// The audit log is the change history of the cache: no Unknown is cached,
/// the logged diffs are consistent from an empty cache, and replaying them
/// forward from an empty cache gives the cache.
pub open spec fn replays_history(s: EvalState) -> bool {
    &&& no_unknown(s.cache)
    &&& consistent(Map::<u64, PolicyValue>::empty(), s.log)
    &&& s.cache == redo_all(Map::<u64, PolicyValue>::empty(), s.log)
}

proof fn lemma_normalized_id(c: Map<u64, PolicyValue>)
    requires
        no_unknown(c),
    ensures
        normalized(c) == c,
{
    assert(normalized(c) =~= c);
}

proof fn lemma_history_evolves(s: EvalState, t: EvalState)
    requires
        replays_history(s),
        evolves(s, t),
        no_unknown(t.cache),
    ensures
        replays_history(t),
{
    let e = Map::<u64, PolicyValue>::empty();
    let d = t.log.skip(s.log.len() as int);
    lemma_normalized_id(s.cache);
    lemma_normalized_id(t.cache);
    lemma_consistent_concat(e, s.log, d);
    assert(t.log =~= t.log.take(s.log.len() as int) + d);
}

/// Rolling back the diffs after the first `j` keeps the history: the log
/// keeps its first `j` diffs and the cache is the one they give.
proof fn lemma_history_rollback(s: EvalState, j: int)
    requires
        replays_history(s),
        0 <= j <= s.log.len(),
    ensures
        replays_history(EvalState { cache: undo(s.cache, s.log.skip(j)), log: s.log.take(j) }),
        undo(s.cache, s.log.skip(j)) == redo_all(Map::<u64, PolicyValue>::empty(), s.log.take(j)),
{
    let e = Map::<u64, PolicyValue>::empty();
    assert(no_unknown(e));
    lemma_rollback_keeps_first(e, s.log, j);
    assert(s.log =~= s.log.take(j) + s.log.skip(j));
    lemma_consistent_split(e, s.log.take(j), s.log.skip(j));
    lemma_redo_all_no_unknown(e, s.log.take(j));
}

/// Rollback to any point of the history: rolling back all diffs after the
/// first `j` gives exactly the cache that the evaluation had right after
/// logging those `j` diffs (every cache of this library keeps its history,
/// as `replays_history` says).
pub proof fn lemma_rollback_to_history(s: EvalState, j: int)
    requires
        replays_history(s),
        0 <= j <= s.log.len(),
    ensures
        undo(s.cache, s.log.skip(j)) == redo_all(Map::<u64, PolicyValue>::empty(), s.log.take(j)),
{
    lemma_history_rollback(s, j);
}

/// Rollback after evaluation restores the earlier cache exactly: if `t`
/// evolved from `s`, rolling back the diffs `t` logged after `s` gives `s`'s
/// cache.
pub proof fn lemma_rollback_restores_cache(s: EvalState, t: EvalState)
    requires
        replays_history(s),
        replays_history(t),
        evolves(s, t),
    ensures
        undo(t.cache, t.log.skip(s.log.len() as int)) == s.cache,
{
    lemma_normalized_id(s.cache);
    lemma_normalized_id(t.cache);
    lemma_rollback_restores_evolved(s, t);
}

proof fn lemma_redo_all_push(c: Map<u64, PolicyValue>, diffs: Seq<Diff>, d: Diff)
    ensures
        redo_all(c, diffs.push(d)) == redo(redo_all(c, diffs), d),
        consistent(c, diffs.push(d)) <==> (consistent(c, diffs) && d.before == cached_value(redo_all(c, diffs), d.node_id.0)),
{
    assert(diffs.push(d).drop_last() == diffs);
}

proof fn lemma_evolves_refl(s: EvalState)
    ensures
        evolves(s, s),
{
    assert(s.log.take(s.log.len() as int) == s.log);
    assert(s.log.skip(s.log.len() as int) =~= Seq::<Diff>::empty());
}

proof fn lemma_evolves_trans(s: EvalState, t: EvalState, u: EvalState)
    requires
        evolves(s, t),
        evolves(t, u),
    ensures
        evolves(s, u),
{
    let a = t.log.skip(s.log.len() as int);
    let b = u.log.skip(t.log.len() as int);
    assert(u.log.take(s.log.len() as int) == s.log) by {
        assert(u.log.take(s.log.len() as int) == u.log.take(t.log.len() as int).take(s.log.len() as int));
    }
    assert(u.log.skip(s.log.len() as int) == a + b) by {
        assert(u.log == t.log + b) by {
            assert(u.log =~= u.log.take(t.log.len() as int) + u.log.skip(t.log.len() as int));
        }
        assert(t.log == s.log + a) by {
            assert(t.log =~= t.log.take(s.log.len() as int) + t.log.skip(s.log.len() as int));
        }
        assert(u.log.skip(s.log.len() as int) =~= a + b);
    }
    lemma_consistent_concat(normalized(s.cache), a, b);
}

proof fn lemma_consistent_concat(c: Map<u64, PolicyValue>, a: Seq<Diff>, b: Seq<Diff>)
    requires
        consistent(c, a),
        consistent(redo_all(c, a), b),
    ensures
        consistent(c, a + b),
        redo_all(c, a + b) == redo_all(redo_all(c, a), b),
    decreases b.len(),
{
    if b.len() == 0 {
        assert(a + b == a);
    } else {
        lemma_consistent_concat(c, a, b.drop_last());
        assert((a + b).drop_last() == a + b.drop_last());
        assert((a + b).last() == b.last());
    }
}

/// A single `set` or `invalidate` is an evolution step.
proof fn lemma_set_evolves(s: EvalState, id: u64, val: PolicyValue)
    ensures
        evolves(s, state_after_set(s, id, val)),
{
    let t = state_after_set(s, id, val);
    if cached_value(s.cache, id) != val {
        let d = Diff { node_id: NodeId(id), before: cached_value(s.cache, id), after: val };
        assert(t.log.take(s.log.len() as int) == s.log);
        assert(t.log.skip(s.log.len() as int) =~= seq![d]);
        assert(seq![d].drop_last() =~= Seq::<Diff>::empty());
        lemma_redo_all_push(normalized(s.cache), Seq::<Diff>::empty(), d);
        assert(Seq::<Diff>::empty().push(d) =~= seq![d]);
        assert(redo_all(normalized(s.cache), seq![d]) == redo(normalized(s.cache), d));
        assert(cached_value(normalized(s.cache), id) == cached_value(s.cache, id));
        assert(consistent(normalized(s.cache), seq![d]));
        assert(normalized(t.cache) =~= redo(normalized(s.cache), d));
    } else {
        lemma_evolves_refl(s);
    }
}

proof fn lemma_invalidate_evolves(s: EvalState, id: u64)
    ensures
        evolves(s, state_after_invalidate(s, id)),
{
    let t = state_after_invalidate(s, id);
    if s.cache.contains_key(id) {
        let d = Diff { node_id: NodeId(id), before: s.cache[id], after: PolicyValue::Unknown };
        assert(t.log.take(s.log.len() as int) == s.log);
        assert(t.log.skip(s.log.len() as int) =~= seq![d]);
        assert(seq![d].drop_last() =~= Seq::<Diff>::empty());
        lemma_redo_all_push(normalized(s.cache), Seq::<Diff>::empty(), d);
        assert(Seq::<Diff>::empty().push(d) =~= seq![d]);
        assert(redo_all(normalized(s.cache), seq![d]) == redo(normalized(s.cache), d));
        assert(cached_value(normalized(s.cache), id) == cached_value(s.cache, id));
        assert(consistent(normalized(s.cache), seq![d]));
        assert(normalized(t.cache) =~= redo(normalized(s.cache), d));
    } else {
        lemma_evolves_refl(s);
    }
}

/// EvaluatedExpr: a cache overlay (derived state) and a diff log.
/// `AuditComponent` reads and replays the log.
pub struct EvaluatedExpr {
    cache: HashMap<u64, PolicyValue>,
    diff_log: Vec<Diff>,
    calls: Ghost<Seq<FnCall>>,
    trace: Ghost<Seq<Outside>>,
}

impl EvaluatedExpr {
    /// The cache never holds Unknown (an unevaluated or unsatisfied node is
    /// absent from it), and the diff log replays to the cache.
    #[verifier::type_invariant]
    spec fn keeps_history(self) -> bool {
        replays_history(EvalState { cache: self.cache@, log: self.diff_log@ })
    }

    /// The abstract state: cached values and the diff log.
    pub closed spec fn state(&self) -> EvalState {
        EvalState { cache: self.cache@, log: self.diff_log@ }
    }

    /// The calls of registered functions made while evaluating, in order.
    pub closed spec fn calls(&self) -> Seq<FnCall> {
        self.calls@
    }

    /// What outside code answered while evaluating (function calls and
    /// custom operators), in order.
    pub closed spec fn trace(&self) -> Seq<Outside> {
        self.trace@
    }

    pub fn new() -> (r: Self)
        ensures
            r.state().cache == Map::<u64, PolicyValue>::empty(),
            r.state().log == Seq::<Diff>::empty(),
            r.calls() == Seq::<FnCall>::empty(),
            r.trace() == Seq::<Outside>::empty(),
            replays_history(r.state()),
    {
        EvaluatedExpr { cache: HashMap::new(), diff_log: Vec::new(), calls: Ghost(Seq::empty()), trace: Ghost(Seq::empty()) }
    }

    pub(crate) fn set(&mut self, id: NodeId, val: PolicyValue)
        ensures
            final(self).state() == state_after_set(old(self).state(), id.0, val),
            final(self).calls() == old(self).calls(),
            final(self).trace() == old(self).trace(),
    {
        proof {
            use_type_invariant(&*self);
        }
        let before = match self.cache.get(&id.0) {
            Some(v) => *v,
            None => PolicyValue::Unknown,
        };
        if before != val {
            let mut this = EvaluatedExpr::new();
            std::mem::swap(&mut this, self);
            let EvaluatedExpr { cache: mut cache, diff_log: mut log, calls, trace } = this;
            log.push(Diff { node_id: id, before, after: val });
            if val == PolicyValue::Unknown {
                cache.remove(&id.0);
            } else {
                cache.insert(id.0, val);
            }
            proof {
                let s0 = EvalState { cache: old(self).cache@, log: old(self).diff_log@ };
                lemma_set_evolves(s0, id.0, val);
                assert(EvalState { cache: cache@, log: log@ } == state_after_set(s0, id.0, val));
                lemma_history_evolves(s0, EvalState { cache: cache@, log: log@ });
            }
            *self = EvaluatedExpr { cache, diff_log: log, calls, trace };
        }
    }

    pub(crate) fn get(&self, id: &NodeId) -> (r: Option<PolicyValue>)
        ensures
            r == (if self.state().cache.contains_key(id.0) {
                Some(self.state().cache[id.0])
            } else {
                None::<PolicyValue>
            }),
    {
        match self.cache.get(&id.0) {
            Some(v) => Some(*v),
            None => None,
        }
    }

    pub(crate) fn invalidate(&mut self, id: &NodeId)
        ensures
            final(self).state() == state_after_invalidate(old(self).state(), id.0),
            final(self).calls() == old(self).calls(),
            final(self).trace() == old(self).trace(),
    {
        proof {
            use_type_invariant(&*self);
        }
        let mut this = EvaluatedExpr::new();
        std::mem::swap(&mut this, self);
        let EvaluatedExpr { cache: mut cache, diff_log: mut log, calls, trace } = this;
        match cache.remove(&id.0) {
            Some(old_value) => {
                log.push(Diff { node_id: *id, before: old_value, after: PolicyValue::Unknown });
            },
            None => {
                proof {
                    assert(cache@ =~= old(self).cache@);
                }
            },
        }
        proof {
            let s0 = EvalState { cache: old(self).cache@, log: old(self).diff_log@ };
            lemma_invalidate_evolves(s0, id.0);
            assert(EvalState { cache: cache@, log: log@ } == state_after_invalidate(s0, id.0));
            lemma_history_evolves(s0, EvalState { cache: cache@, log: log@ });
        }
        *self = EvaluatedExpr { cache, diff_log: log, calls, trace };
    }
}

// ─────────────────────────────────────────────────────────────
// AuditComponent: reads and replays the diff log
// ─────────────────────────────────────────────────────────────

pub struct AuditComponent;

/// Where rollback of `steps` diffs starts in a log of `len` diffs.
pub open spec fn rollback_start(len: nat, steps: nat) -> nat {
    if steps >= len { 0 } else { (len - steps) as nat }
}

impl AuditComponent {
    /// The change history, oldest first.
    pub fn audit(evaluated: &EvaluatedExpr) -> (r: &[Diff])
        ensures
            r@ == evaluated.state().log,
    {
        evaluated.diff_log.as_slice()
    }

    /// Replays the last `steps` diffs backward, restoring the cache, and
    /// drops them from the log.
    pub fn rollback(evaluated: &mut EvaluatedExpr, steps: usize)
        ensures
            final(evaluated).state().log == old(evaluated).state().log.take(
                rollback_start(old(evaluated).state().log.len(), steps as nat) as int),
            final(evaluated).state().cache == undo(old(evaluated).state().cache,
                old(evaluated).state().log.skip(rollback_start(old(evaluated).state().log.len(), steps as nat) as int)),
            final(evaluated).calls() == old(evaluated).calls(),
            final(evaluated).trace() == old(evaluated).trace(),
            replays_history(final(evaluated).state()),
    {
        proof {
            use_type_invariant(&*evaluated);
        }
        let mut this = EvaluatedExpr::new();
        std::mem::swap(&mut this, evaluated);
        let EvaluatedExpr { cache: mut cache, diff_log: mut log, calls, trace } = this;
        let from = log.len().saturating_sub(steps);
        let ghost log0 = log@;
        let ghost cache0 = cache@;
        proof {
            assert(log0.skip(from as int).take(log0.len() - from) =~= log0.skip(from as int));
            assert(log0.take(log0.len() as int) =~= log0);
        }
        while log.len() > from
            invariant
                from == rollback_start(log0.len(), steps as nat),
                from <= log@.len() <= log0.len(),
                log@ == log0.take(log@.len() as int),
                undo(cache@, log0.skip(from as int).take(log@.len() - from))
                    == undo(cache0, log0.skip(from as int)),
                no_unknown(cache@),
            decreases log@.len(),
        {
            let ghost n = log@.len();
            let diff = log.pop().unwrap();
            if diff.before == PolicyValue::Unknown {
                cache.remove(&diff.node_id.0);
            } else {
                cache.insert(diff.node_id.0, diff.before);
            }
            proof {
                let suffix = log0.skip(from as int).take(n - from);
                assert(suffix.last() == diff);
                assert(suffix.drop_last() == log0.skip(from as int).take(n - 1 - from));
                assert(log@ == log0.take(n - 1));
            }
        }
        proof {
            assert(log0.skip(from as int).take(0) =~= Seq::<Diff>::empty());
            lemma_history_rollback(EvalState { cache: cache0, log: log0 }, from as int);
            assert(undo(cache@, Seq::<Diff>::empty()) == cache@);
            assert(log@ == log0.take(from as int));
        }
        *evaluated = EvaluatedExpr { cache, diff_log: log, calls, trace };
        proof {
            use_type_invariant(&*evaluated);
        }
    }
}


// ─────────────────────────────────────────────────────────────
// DependencyGraph: explicit parents for the Logic chain
// ─────────────────────────────────────────────────────────────

pub struct DependencyGraph {
    /// Logic chain only: child node -> its parent nodes, in registration order.
    parents: HashMap<u64, Vec<u64>>,
}

/// The parents registered for `x`, in registration order.
pub open spec fn parents_of(g: Map<u64, Seq<u64>>, x: u64) -> Seq<u64> {
    if g.contains_key(x) {
        g[x]
    } else {
        Seq::empty()
    }
}

/// Every chain of parents starting at `x` has fewer than `n` steps
/// (so no cycle is reachable from `x`).
pub open spec fn chains_bounded(g: Map<u64, Seq<u64>>, x: u64, n: nat) -> bool
    decreases n,
{
    n > 0 && forall|i: int|
        0 <= i < parents_of(g, x).len() ==> chains_bounded(g, #[trigger] parents_of(g, x)[i], (n - 1) as nat)
}

/// The ancestors of `x` in the order a depth-first walk with an explicit
/// stack lists them: first the parents of `x`, then the ancestors of each
/// parent, the last parent first (looking at most `n` steps up).
pub open spec fn ancestors(g: Map<u64, Seq<u64>>, x: u64, n: nat) -> Seq<u64>
    decreases n, 0nat,
{
    if n == 0 {
        Seq::empty()
    } else {
        parents_of(g, x) + ancestors_of_all(g, parents_of(g, x), (n - 1) as nat)
    }
}

/// The ancestors of each node of `xs`, the last node first.
pub open spec fn ancestors_of_all(g: Map<u64, Seq<u64>>, xs: Seq<u64>, n: nat) -> Seq<u64>
    decreases n, xs.len(),
{
    if xs.len() == 0 {
        Seq::empty()
    } else {
        ancestors(g, xs.last(), n) + ancestors_of_all(g, xs.drop_last(), n)
    }
}

/// The ancestors of `x`, when no cycle is reachable from `x`.
pub open spec fn logic_ancestor_ids(g: Map<u64, Seq<u64>>, x: u64) -> Seq<u64> {
    ancestors(g, x, choose|n: nat| chains_bounded(g, x, n))
}

/// `y` is reached from `x` by following parent edges, at least once and at
/// most `n` times.
pub open spec fn reaches(g: Map<u64, Seq<u64>>, x: u64, y: u64, n: nat) -> bool
    decreases n, 0nat,
{
    n > 0 && (parents_of(g, x).contains(y) || reaches_from_any(g, parents_of(g, x), y, (n - 1) as nat))
}

/// `y` is reached from some node of `xs` in at most `n` steps.
pub open spec fn reaches_from_any(g: Map<u64, Seq<u64>>, xs: Seq<u64>, y: u64, n: nat) -> bool
    decreases n, xs.len(),
{
    xs.len() > 0 && (reaches(g, xs.last(), y, n) || reaches_from_any(g, xs.drop_last(), y, n))
}

proof fn lemma_concat_contains(a: Seq<u64>, b: Seq<u64>, y: u64)
    ensures
        (a + b).contains(y) <==> (a.contains(y) || b.contains(y)),
{
    if a.contains(y) {
        let i = choose|i: int| 0 <= i < a.len() && a[i] == y;
        assert((a + b)[i] == y);
    }
    if b.contains(y) {
        let i = choose|i: int| 0 <= i < b.len() && b[i] == y;
        assert((a + b)[a.len() + i] == y);
    }
    if (a + b).contains(y) {
        let i = choose|i: int| 0 <= i < (a + b).len() && (a + b)[i] == y;
        if i < a.len() {
            assert(a[i] == y);
        } else {
            assert(b[i - a.len()] == y);
        }
    }
}

proof fn lemma_ancestors_reach(g: Map<u64, Seq<u64>>, x: u64, y: u64, n: nat)
    ensures
        ancestors(g, x, n).contains(y) <==> reaches(g, x, y, n),
    decreases n, 0nat, 0nat,
{
    if n > 0 {
        lemma_concat_contains(parents_of(g, x), ancestors_of_all(g, parents_of(g, x), (n - 1) as nat), y);
        lemma_ancestors_all_reach(g, parents_of(g, x), y, (n - 1) as nat);
    } else {
        assert(ancestors(g, x, n) =~= Seq::<u64>::empty());
    }
}

proof fn lemma_ancestors_all_reach(g: Map<u64, Seq<u64>>, xs: Seq<u64>, y: u64, n: nat)
    ensures
        ancestors_of_all(g, xs, n).contains(y) <==> reaches_from_any(g, xs, y, n),
    decreases n, xs.len(), 1nat,
{
    if xs.len() > 0 {
        lemma_concat_contains(ancestors(g, xs.last(), n), ancestors_of_all(g, xs.drop_last(), n), y);
        lemma_ancestors_reach(g, xs.last(), y, n);
        lemma_ancestors_all_reach(g, xs.drop_last(), y, n);
    } else {
        assert(ancestors_of_all(g, xs, n) =~= Seq::<u64>::empty());
    }
}

proof fn lemma_reaches_within(g: Map<u64, Seq<u64>>, x: u64, y: u64, n: nat, m: nat)
    requires
        chains_bounded(g, x, n),
        reaches(g, x, y, m),
    ensures
        reaches(g, x, y, n),
    decreases m, 0nat,
{
    if !parents_of(g, x).contains(y) {
        lemma_reaches_any_within(g, parents_of(g, x), y, (n - 1) as nat, (m - 1) as nat);
    }
}

proof fn lemma_reaches_any_within(g: Map<u64, Seq<u64>>, xs: Seq<u64>, y: u64, n: nat, m: nat)
    requires
        forall|i: int| 0 <= i < xs.len() ==> chains_bounded(g, #[trigger] xs[i], n),
        reaches_from_any(g, xs, y, m),
    ensures
        reaches_from_any(g, xs, y, n),
    decreases m, xs.len(),
{
    assert(chains_bounded(g, xs[xs.len() - 1], n));
    if reaches(g, xs.last(), y, m) {
        lemma_reaches_within(g, xs.last(), y, n, m);
    } else {
        assert forall|i: int| 0 <= i < xs.drop_last().len() implies chains_bounded(g, #[trigger] xs.drop_last()[i], n) by {
            assert(xs.drop_last()[i] == xs[i]);
        }
        lemma_reaches_any_within(g, xs.drop_last(), y, n, m);
    }
}

/// The Logic ancestors that invalidation walks are exactly the nodes
/// reachable from `x` by parent edges, when no cycle is reachable from `x`.
pub proof fn lemma_logic_ancestors_are_reachable(g: Map<u64, Seq<u64>>, x: u64, y: u64, n: nat)
    requires
        chains_bounded(g, x, n),
    ensures
        logic_ancestor_ids(g, x).contains(y) <==> exists|m: nat| #[trigger] reaches(g, x, y, m),
{
    let n0 = choose|n: nat| chains_bounded(g, x, n);
    if n0 <= n {
        lemma_bounded_mono(g, x, n0, n);
    } else {
        lemma_bounded_mono(g, x, n, n0);
    }
    lemma_ancestors_reach(g, x, y, n);
    if exists|m: nat| #[trigger] reaches(g, x, y, m) {
        let m = choose|m: nat| #[trigger] reaches(g, x, y, m);
        lemma_reaches_within(g, x, y, n, m);
    }
}

proof fn lemma_bounded_mono(g: Map<u64, Seq<u64>>, x: u64, n: nat, m: nat)
    requires
        chains_bounded(g, x, n),
        n <= m,
    ensures
        chains_bounded(g, x, m),
        ancestors(g, x, n) == ancestors(g, x, m),
    decreases n, 0nat,
{
    let ps = parents_of(g, x);
    assert forall|i: int| 0 <= i < ps.len() implies chains_bounded(g, #[trigger] ps[i], (m - 1) as nat) by {
        lemma_bounded_mono(g, ps[i], (n - 1) as nat, (m - 1) as nat);
    }
    lemma_bounded_mono_all(g, ps, (n - 1) as nat, (m - 1) as nat);
}

proof fn lemma_bounded_mono_all(g: Map<u64, Seq<u64>>, xs: Seq<u64>, n: nat, m: nat)
    requires
        forall|i: int| 0 <= i < xs.len() ==> chains_bounded(g, #[trigger] xs[i], n),
        n <= m,
    ensures
        ancestors_of_all(g, xs, n) == ancestors_of_all(g, xs, m),
    decreases n, xs.len(),
{
    if xs.len() > 0 {
        assert(chains_bounded(g, xs[xs.len() - 1], n));
        lemma_bounded_mono(g, xs.last(), n, m);
        assert forall|i: int| 0 <= i < xs.drop_last().len() implies chains_bounded(g, #[trigger] xs.drop_last()[i], n) by {
            assert(xs.drop_last()[i] == xs[i]);
        }
        lemma_bounded_mono_all(g, xs.drop_last(), n, m);
    }
}

proof fn lemma_ancestors_of_all_concat(g: Map<u64, Seq<u64>>, a: Seq<u64>, b: Seq<u64>, n: nat)
    ensures
        ancestors_of_all(g, a + b, n) == ancestors_of_all(g, b, n) + ancestors_of_all(g, a, n),
    decreases b.len(),
{
    if b.len() == 0 {
        assert(a + b == a);
        assert(ancestors_of_all(g, b, n) + ancestors_of_all(g, a, n) =~= ancestors_of_all(g, a, n));
    } else {
        assert((a + b).last() == b.last());
        assert((a + b).drop_last() == a + b.drop_last());
        lemma_ancestors_of_all_concat(g, a, b.drop_last(), n);
        assert(ancestors_of_all(g, a + b, n) =~= ancestors_of_all(g, b, n) + ancestors_of_all(g, a, n));
    }
}

impl DependencyGraph {
    /// The registered parents of each node.
    pub closed spec fn parent_map(&self) -> Map<u64, Seq<u64>> {
        self.parents@.map_values(|v: Vec<u64>| v@)
    }

    pub fn new() -> (r: Self)
        ensures
            r.parent_map() == Map::<u64, Seq<u64>>::empty(),
    {
        let r = DependencyGraph { parents: HashMap::new() };
        proof {
            assert(r.parent_map() =~= Map::<u64, Seq<u64>>::empty());
        }
        r
    }

    /// Records that `parent` depends on `child`.
    pub fn register_parent(&mut self, child: NodeId, parent: NodeId)
        ensures
            final(self).parent_map() == old(self).parent_map().insert(
                child.0,
                parents_of(old(self).parent_map(), child.0).push(parent.0),
            ),
    {
        let mut ps = match self.parents.remove(&child.0) {
            Some(v) => v,
            None => Vec::new(),
        };
        ps.push(parent.0);
        self.parents.insert(child.0, ps);
        proof {
            assert(self.parent_map() =~= old(self).parent_map().insert(
                child.0,
                parents_of(old(self).parent_map(), child.0).push(parent.0),
            ));
        }
    }

    /// The Logic chain ancestors of `id`, read from the graph without
    /// searching the AST (a node appears once per path that reaches it).
    pub fn logic_ancestors(&self, id: NodeId) -> (r: Vec<NodeId>)
        requires
            exists|n: nat| chains_bounded(self.parent_map(), id.0, n),
        ensures
            r@.len() == logic_ancestor_ids(self.parent_map(), id.0).len(),
            forall|i: int| 0 <= i < r@.len() ==> #[trigger] r@[i].0 == logic_ancestor_ids(self.parent_map(), id.0)[i],
    {
        let ghost g = self.parent_map();
        let ghost n = choose|n: nat| chains_bounded(g, id.0, n);
        let ghost target = ancestors(g, id.0, n);
        let mut result: Vec<NodeId> = Vec::new();
        let ghost mut ids: Seq<u64> = Seq::empty();
        let mut queue: Vec<u64> = Vec::new();
        queue.push(id.0);
        proof {
            assert(queue@.drop_last() =~= Seq::<u64>::empty());
            assert(queue@.last() == id.0);
            assert(ancestors_of_all(g, queue@.drop_last(), n) =~= Seq::<u64>::empty());
            assert(ancestors_of_all(g, queue@, n) =~= target);
        }
        while queue.len() > 0
            invariant
                g == self.parent_map(),
                target == ancestors(g, id.0, n),
                result@.len() == ids.len(),
                forall|i: int| 0 <= i < ids.len() ==> #[trigger] result@[i].0 == ids[i],
                forall|i: int| 0 <= i < queue@.len() ==> chains_bounded(g, #[trigger] queue@[i], n),
                ids + ancestors_of_all(g, queue@, n) == target,
            decreases queue@.len() + ancestors_of_all(g, queue@, n).len(),
        {
            let ghost head_queue = queue@;
            let cur = queue.pop().unwrap();
            let ghost q0 = queue@;
            let ghost r0 = ids;
            let ghost ps = parents_of(g, cur);
            proof {
                assert(chains_bounded(g, cur, n));
            }
            match self.parents.get(&cur) {
                Some(ps_vec) => {
                    proof {
                        assert(ps_vec@ == ps);
                    }
                    let mut j: usize = 0;
                    while j < ps_vec.len()
                        invariant
                            ps_vec@ == ps,
                            j <= ps.len(),
                            result@.len() == ids.len(),
                            forall|i: int| 0 <= i < ids.len() ==> #[trigger] result@[i].0 == ids[i],
                            ids == r0 + ps.take(j as int),
                            queue@ == q0 + ps.take(j as int),
                        decreases ps.len() - j,
                    {
                        let p = ps_vec[j];
                        result.push(NodeId(p));
                        queue.push(p);
                        proof {
                            ids = ids.push(p);
                            assert(ps.take(j + 1) == ps.take(j as int).push(p));
                        }
                        j = j + 1;
                    }
                    proof {
                        assert(ps.take(j as int) == ps);
                    }
                },
                None => {
                    proof {
                        assert(ps =~= Seq::<u64>::empty());
                        assert(ids =~= r0 + ps);
                        assert(queue@ =~= q0 + ps);
                    }
                },
            }
            proof {
                let old_q = q0.push(cur);
                assert(old_q.last() == cur);
                assert(old_q.drop_last() == q0);
                assert(chains_bounded(g, cur, n));
                assert(n > 0);
                assert forall|i: int| 0 <= i < ps.len() implies chains_bounded(g, #[trigger] ps[i], (n - 1) as nat) by {
                }
                lemma_bounded_mono_all(g, ps, (n - 1) as nat, n);
                lemma_ancestors_of_all_concat(g, q0, ps, n);
                assert(head_queue == old_q);
                assert(r0 + ancestors_of_all(g, old_q, n) == target);
                assert(ancestors_of_all(g, old_q, n) == ancestors(g, cur, n) + ancestors_of_all(g, q0, n));
                assert(ancestors(g, cur, n) == ps + ancestors_of_all(g, ps, (n - 1) as nat));
                assert forall|i: int| 0 <= i < queue@.len() implies chains_bounded(g, #[trigger] queue@[i], n) by {
                    if i < q0.len() {
                        assert(queue@[i] == old_q[i]);
                    } else {
                        assert(queue@[i] == ps[i - q0.len()]);
                        lemma_bounded_mono(g, ps[i - q0.len()], (n - 1) as nat, n);
                    }
                }
                assert(ids + ancestors_of_all(g, queue@, n) =~= target);
            }
        }
        proof {
            assert(ancestors_of_all(g, queue@, n) =~= Seq::<u64>::empty());
            assert(ids =~= target);
        }
        result
    }
}


// ─────────────────────────────────────────────────────────────
// Evaluation semantics
// ─────────────────────────────────────────────────────────────

/// Expressions whose evaluation the library decides on its own: no `Fn` node
/// and no custom operator (those run code registered by users).
pub open spec fn self_contained(e: Expr) -> bool
    decreases e,
{
    match e {
        Expr::Binding(_) => true,
        Expr::Literal(_) => true,
        Expr::Logic { op, children, .. } => {
            &&& !(op is Custom)
            &&& forall|i: int| 0 <= i < children@.len() ==> self_contained(#[trigger] children@[i])
        },
        Expr::Fn { .. } => false,
    }
}

/// Value and state after evaluating a self-contained expression `e` from
/// state `s` with bindings `b`: cache hits return at once; a binding reads
/// its bound value (Unknown when unbound); a logic node evaluates its
/// children in order, stopping at the first Deny under And and at the first
/// Allow under Or, and combines the values otherwise. Each evaluated node's
/// value is cached.
pub open spec fn eval_spec(e: Expr, s: EvalState, b: Map<u64, PolicyValue>) -> (PolicyValue, EvalState)
    decreases e, 0nat,
{
    match e {
        Expr::Literal(v) => (v, s),
        Expr::Binding(id) => {
            if s.cache.contains_key(id.0) {
                (s.cache[id.0], s)
            } else {
                let v = cached_value(b, id.0);
                (v, state_after_set(s, id.0, v))
            }
        },
        Expr::Logic { id, op, children } => {
            if s.cache.contains_key(id.0) {
                (s.cache[id.0], s)
            } else {
                eval_logic_spec(id.0, op, children@, 0, Seq::empty(), s, b)
            }
        },
        Expr::Fn { .. } => (PolicyValue::Unknown, s),
    }
}

/// Evaluates children `i..` of the logic node `id`, `collected` holding the
/// values of the children before `i`.
pub open spec fn eval_logic_spec(
    id: u64,
    op: LogicOp,
    cs: Seq<Expr>,
    i: nat,
    collected: Seq<PolicyValue>,
    s: EvalState,
    b: Map<u64, PolicyValue>,
) -> (PolicyValue, EvalState)
    decreases cs, cs.len() - i,
{
    if i >= cs.len() {
        let r = op.builtin_combine(collected);
        (r, state_after_set(s, id, r))
    } else {
        let (v, s1) = eval_spec(cs[i as int], s, b);
        if op is And && v == PolicyValue::Deny {
            (PolicyValue::Deny, state_after_set(s1, id, PolicyValue::Deny))
        } else if op is Or && v == PolicyValue::Allow {
            (PolicyValue::Allow, state_after_set(s1, id, PolicyValue::Allow))
        } else {
            eval_logic_spec(id, op, cs, i + 1, collected.push(v), s1, b)
        }
    }
}

/// Whether a node of `e` has the id `k`.
pub open spec fn has_id(e: Expr, k: u64) -> bool
    decreases e,
{
    match e {
        Expr::Binding(id) => id.0 == k,
        Expr::Literal(_) => false,
        Expr::Logic { id, children, .. } => id.0 == k
            || exists|j: int| 0 <= j < children@.len() && has_id(#[trigger] children@[j], k),
        Expr::Fn { id, children, .. } => id.0 == k
            || exists|j: int| 0 <= j < children@.len() && has_id(#[trigger] children@[j], k),
    }
}

/// Evaluating `e` caches nothing under an id that no node of `e` has.
proof fn lemma_eval_frame(e: Expr, s: EvalState, b: Map<u64, PolicyValue>, k: u64)
    requires
        self_contained(e),
        !has_id(e, k),
    ensures
        eval_spec(e, s, b).1.cache.contains_key(k) == s.cache.contains_key(k),
        s.cache.contains_key(k) ==> eval_spec(e, s, b).1.cache[k] == s.cache[k],
    decreases e, 0nat,
{
    match e {
        Expr::Logic { id, op, children } => {
            if !s.cache.contains_key(id.0) {
                assert forall|j: int| 0 <= j < children@.len() implies !has_id(#[trigger] children@[j], k) by {}
                lemma_logic_frame(id.0, op, children@, 0, Seq::empty(), s, b, k);
            }
        },
        _ => {},
    }
}

proof fn lemma_logic_frame(id: u64, op: LogicOp, cs: Seq<Expr>, i: nat, collected: Seq<PolicyValue>, s: EvalState, b: Map<u64, PolicyValue>, k: u64)
    requires
        id != k,
        forall|j: int| 0 <= j < cs.len() ==> self_contained(#[trigger] cs[j]),
        forall|j: int| 0 <= j < cs.len() ==> !has_id(#[trigger] cs[j], k),
    ensures
        eval_logic_spec(id, op, cs, i, collected, s, b).1.cache.contains_key(k) == s.cache.contains_key(k),
        s.cache.contains_key(k) ==> eval_logic_spec(id, op, cs, i, collected, s, b).1.cache[k] == s.cache[k],
    decreases cs, cs.len() - i,
{
    if i < cs.len() {
        let (v, s1) = eval_spec(cs[i as int], s, b);
        lemma_eval_frame(cs[i as int], s, b, k);
        if !(op is And && v == PolicyValue::Deny) && !(op is Or && v == PolicyValue::Allow) {
            lemma_logic_frame(id, op, cs, i + 1, collected.push(v), s1, b, k);
        }
    }
}

/// The value of a self-contained expression under the bindings `b`, with no
/// cache: a binding reads its bound value (Unknown when unbound); a logic
/// node takes the values of its children in order, stopping at the first
/// Deny under And and at the first Allow under Or, and combines them
/// otherwise.
pub open spec fn value_of(e: Expr, b: Map<u64, PolicyValue>) -> PolicyValue
    decreases e, 0nat,
{
    match e {
        Expr::Literal(v) => v,
        Expr::Binding(id) => cached_value(b, id.0),
        Expr::Logic { op, children, .. } => logic_value_of(op, children@, 0, Seq::empty(), b),
        Expr::Fn { .. } => PolicyValue::Unknown,
    }
}

/// The value of a logic node from its child `i` on, `collected` holding the
/// values of the children before it.
pub open spec fn logic_value_of(op: LogicOp, cs: Seq<Expr>, i: nat, collected: Seq<PolicyValue>, b: Map<u64, PolicyValue>) -> PolicyValue
    decreases cs, cs.len() - i,
{
    if i >= cs.len() {
        op.builtin_combine(collected)
    } else {
        let v = value_of(cs[i as int], b);
        if op is And && v == PolicyValue::Deny {
            PolicyValue::Deny
        } else if op is Or && v == PolicyValue::Allow {
            PolicyValue::Allow
        } else {
            logic_value_of(op, cs, i + 1, collected.push(v), b)
        }
    }
}

/// Every value the cache `c` holds for a node of `e` is that node's value
/// under the bindings `b`.
pub open spec fn cache_agrees(e: Expr, c: Map<u64, PolicyValue>, b: Map<u64, PolicyValue>) -> bool
    decreases e,
{
    match e {
        Expr::Literal(_) => true,
        Expr::Binding(id) => c.contains_key(id.0) ==> c[id.0] == value_of(e, b),
        Expr::Logic { id, children, .. } => {
            &&& c.contains_key(id.0) ==> c[id.0] == value_of(e, b)
            &&& forall|j: int| 0 <= j < children@.len() ==> cache_agrees(#[trigger] children@[j], c, b)
        },
        Expr::Fn { .. } => true,
    }
}

/// Every node of `e` has an id of its own: no two nodes share one.
pub open spec fn ids_distinct(e: Expr) -> bool
    decreases e,
{
    match e {
        Expr::Logic { id, children, .. } => {
            &&& forall|j: int| 0 <= j < children@.len() ==> !has_id(#[trigger] children@[j], id.0) && ids_distinct(children@[j])
            &&& forall|i: int, j: int, k: u64| 0 <= i < j < children@.len()
                ==> !(#[trigger] has_id(children@[i], k) && #[trigger] has_id(children@[j], k))
        },
        Expr::Fn { id, children, .. } => {
            &&& forall|j: int| 0 <= j < children@.len() ==> !has_id(#[trigger] children@[j], id.0) && ids_distinct(children@[j])
            &&& forall|i: int, j: int, k: u64| 0 <= i < j < children@.len()
                ==> !(#[trigger] has_id(children@[i], k) && #[trigger] has_id(children@[j], k))
        },
        _ => true,
    }
}

/// Agreement of a cache with `e` depends only on the entries of `e`'s ids.
proof fn lemma_agrees_frame(e: Expr, c: Map<u64, PolicyValue>, c2: Map<u64, PolicyValue>, b: Map<u64, PolicyValue>)
    requires
        cache_agrees(e, c, b),
        forall|k: u64| has_id(e, k) ==> (#[trigger] c2.contains_key(k) ==> c.contains_key(k) && c2[k] == c[k]),
    ensures
        cache_agrees(e, c2, b),
    decreases e,
{
    if let Expr::Logic { id, children, .. } = e {
        assert forall|j: int| 0 <= j < children@.len() implies cache_agrees(#[trigger] children@[j], c2, b) by {
            assert forall|k: u64| has_id(children@[j], k) implies (#[trigger] c2.contains_key(k) ==> c.contains_key(k) && c2[k] == c[k]) by {
                assert(has_id(e, k));
            }
            lemma_agrees_frame(children@[j], c, c2, b);
        }
    }
}

/// Evaluating with a cache that agrees with the bindings gives the value of
/// the expression, and leaves a cache that still agrees: the cache never
/// changes a result.
pub proof fn lemma_eval_agrees(e: Expr, s: EvalState, b: Map<u64, PolicyValue>)
    requires
        self_contained(e),
        ids_distinct(e),
        cache_agrees(e, s.cache, b),
    ensures
        eval_spec(e, s, b).0 == value_of(e, b),
        cache_agrees(e, eval_spec(e, s, b).1.cache, b),
    decreases e, 0nat,
{
    if let Expr::Logic { id, op, children } = e {
        if !s.cache.contains_key(id.0) {
            lemma_logic_agrees(id.0, op, children@, 0, Seq::empty(), s, b);
        }
    }
}

proof fn lemma_logic_agrees(id: u64, op: LogicOp, cs: Seq<Expr>, i: nat, collected: Seq<PolicyValue>, s: EvalState, b: Map<u64, PolicyValue>)
    requires
        forall|j: int| 0 <= j < cs.len() ==> self_contained(#[trigger] cs[j]),
        forall|j: int| 0 <= j < cs.len() ==> !has_id(#[trigger] cs[j], id) && ids_distinct(cs[j]),
        forall|x: int, j: int, k: u64| 0 <= x < j < cs.len() ==> !(#[trigger] has_id(cs[x], k) && #[trigger] has_id(cs[j], k)),
        forall|j: int| 0 <= j < cs.len() ==> cache_agrees(#[trigger] cs[j], s.cache, b),
    ensures
        eval_logic_spec(id, op, cs, i, collected, s, b).0 == logic_value_of(op, cs, i, collected, b),
        forall|j: int| 0 <= j < cs.len() ==> cache_agrees(#[trigger] cs[j], eval_logic_spec(id, op, cs, i, collected, s, b).1.cache, b),
        cached_value(eval_logic_spec(id, op, cs, i, collected, s, b).1.cache, id) == eval_logic_spec(id, op, cs, i, collected, s, b).0,
    decreases cs, cs.len() - i,
{
    let (r, t) = eval_logic_spec(id, op, cs, i, collected, s, b);
    if i < cs.len() {
        let (v, s1) = eval_spec(cs[i as int], s, b);
        lemma_eval_agrees(cs[i as int], s, b);
        assert forall|j: int| 0 <= j < cs.len() implies cache_agrees(#[trigger] cs[j], s1.cache, b) by {
            if j != i {
                assert forall|k: u64| has_id(cs[j], k) implies (#[trigger] s1.cache.contains_key(k) ==> s.cache.contains_key(k) && s1.cache[k] == s.cache[k]) by {
                    if j < i {
                        assert(!(has_id(cs[j], k) && has_id(cs[i as int], k)));
                    } else {
                        assert(!(has_id(cs[i as int], k) && has_id(cs[j], k)));
                    }
                    lemma_eval_frame(cs[i as int], s, b, k);
                }
                lemma_agrees_frame(cs[j], s.cache, s1.cache, b);
            }
        }
        if !(op is And && v == PolicyValue::Deny) && !(op is Or && v == PolicyValue::Allow) {
            lemma_logic_agrees(id, op, cs, i + 1, collected.push(v), s1, b);
        } else {
            assert forall|j: int| 0 <= j < cs.len() implies cache_agrees(#[trigger] cs[j], t.cache, b) by {
                lemma_agrees_frame(cs[j], s1.cache, t.cache, b);
            }
        }
    } else {
        assert forall|j: int| 0 <= j < cs.len() implies cache_agrees(#[trigger] cs[j], t.cache, b) by {
            lemma_agrees_frame(cs[j], s.cache, t.cache, b);
        }
    }
}

/// The ids that a search for `target` invalidates in `e`, in order, and
/// whether `target` was found: a node is invalidated when one of its
/// children leads to `target` (every child is searched, so every structural
/// ancestor of every occurrence is found) or, for a `Fn` node, when it is
/// `target` itself.
pub open spec fn fn_chain(e: Expr, target: u64) -> (bool, Seq<u64>)
    decreases e, 0nat,
{
    match e {
        Expr::Binding(id) => (id.0 == target, Seq::empty()),
        Expr::Literal(_) => (false, Seq::empty()),
        Expr::Logic { id, children, .. } => {
            let (hit, ids) = fn_chain_children(children@, 0, target);
            if hit { (true, ids.push(id.0)) } else { (false, ids) }
        },
        Expr::Fn { id, children, .. } => {
            let (hit, ids) = fn_chain_children(children@, 0, target);
            if hit || id.0 == target { (true, ids.push(id.0)) } else { (false, ids) }
        },
    }
}

pub open spec fn fn_chain_children(cs: Seq<Expr>, i: nat, target: u64) -> (bool, Seq<u64>)
    decreases cs, cs.len() - i,
{
    if i >= cs.len() {
        (false, Seq::empty())
    } else {
        let (hit, ids) = fn_chain(cs[i as int], target);
        let (hit2, ids2) = fn_chain_children(cs, i + 1, target);
        (hit || hit2, ids + ids2)
    }
}

/// The expression a function output asks to evaluate: the AST part of
/// `Ast` and `Both`; a pure `Data` output (or no output) yields none.
pub open spec fn output_expr(output: Option<FnOutput>) -> Option<Expr> {
    match output {
        Some(FnOutput::Ast(e)) => Some(e),
        Some(FnOutput::Both(e, _)) => Some(e),
        _ => None,
    }
}

/// What a function node `id` comes to once its function returned `output`,
/// from the state `s`: no expression to evaluate, or no fuel left, or an
/// expression that is not well formed, gives no value; otherwise the
/// expression is evaluated with one unit of fuel less, its value (Unknown
/// when it has none) is the node's value and is cached. The value of an
/// expression that runs user code is not stated beyond that.
pub open spec fn fn_node_result(id: u64, output: Option<FnOutput>, s: EvalState, b: Map<u64, PolicyValue>, fuel: nat, r: Option<PolicyValue>, t: EvalState) -> bool {
    match output_expr(output) {
        None => r is None && t == s,
        Some(e) => if fuel == 0 || !well_formed(e) {
            r is None && t == s
        } else if self_contained(e) {
            let (v, s2) = eval_spec(e, s, b);
            r == Some(v) && t == state_after_set(s2, id, v)
        } else {
            (r matches Some(v) && cached_value(t.cache, id) == v) && evolves(s, t)
        },
    }
}

/// A value, Unknown when there is none.
pub open spec fn value_or_unknown(v: Option<PolicyValue>) -> PolicyValue {
    match v {
        Some(v) => v,
        None => PolicyValue::Unknown,
    }
}

/// A call of a registered function made while evaluating: the node that
/// made it, the function's name, the arguments handed to it, and what came
/// back (`None` when nothing is registered under the name).
pub struct FnCall {
    pub node: u64,
    pub name: Seq<char>,
    pub ast: Option<Expr>,
    pub data: Option<Data>,
    pub output: Option<FnOutput>,
}

/// The record of node `id` calling `name` with `args`, answered by `output`.
pub open spec fn call_of(id: u64, name: Seq<char>, args: (Option<Expr>, Option<Data>), output: Option<FnOutput>) -> FnCall {
    FnCall { node: id, name, ast: args.0, data: args.1, output }
}

/// `after` keeps the calls of `before`, in order, and may add more.
pub open spec fn calls_grow(before: Seq<FnCall>, after: Seq<FnCall>) -> bool {
    &&& before.len() <= after.len()
    &&& forall|i: int| 0 <= i < before.len() ==> after[i] == before[i]
}

/// What evaluating a function node `id` that calls `name`, with children
/// `children` and parameter bindings `params`, comes to when its value is
/// not cached, `names` being the registered names: the arguments are
/// gathered (as `gathered` says over plain children), the function is called
/// with them, which `calls` records under `id`; the call answers exactly when
/// `name` is registered; and `fn_node_result` says the rest for whatever it
/// returned, `r` being the node's value.
pub open spec fn fn_node_eval(id: u64, name: Seq<char>, names: Set<Seq<char>>, children: Seq<Expr>, params: Seq<ParamBinding>, s: EvalState, b: Map<u64, PolicyValue>, fuel: nat, r: Option<PolicyValue>, t: EvalState, calls: Seq<FnCall>) -> bool {
    exists|args: (Option<Expr>, Option<Data>), output: Option<FnOutput>, s1: EvalState|
        #![trigger calls.contains(call_of(id, name, args, output)), fn_node_result(id, output, s1, b, fuel, r, t)]
        evolves(s, s1)
        && (plain_children(children) ==> (args, s1) == gathered(children, params, 0, (None, None), s, b))
        && (output is Some <==> names.contains(name))
        && calls.contains(call_of(id, name, args, output))
        && fn_node_result(id, output, s1, b, fuel, r, t)
}

/// `fn_node_eval` for a root, whose value is Unknown when it has none.
pub open spec fn fn_root_result(id: u64, name: Seq<char>, names: Set<Seq<char>>, children: Seq<Expr>, params: Seq<ParamBinding>, s: EvalState, b: Map<u64, PolicyValue>, fuel: nat, r: PolicyValue, t: EvalState, calls: Seq<FnCall>) -> bool {
    exists|v: Option<PolicyValue>| #[trigger] fn_node_eval(id, name, names, children, params, s, b, fuel, v, t, calls)
        && r == value_or_unknown(v)
}

/// Something the evaluator got from code outside the library, in the order
/// it happened.
pub enum Outside {
    /// A registered function was called.
    Call(FnCall),
    /// The custom operator of node `node` combined `inputs` into `output`.
    Combine { node: u64, inputs: Seq<PolicyValue>, output: PolicyValue },
}

/// `after` keeps the events of `before`, in order, and may add more.
pub open spec fn trace_grows(before: Seq<Outside>, after: Seq<Outside>) -> bool {
    &&& before.len() <= after.len()
    &&& after.take(before.len() as int) == before
}

/// The events `after` added to `before`.
pub open spec fn added(before: Seq<Outside>, after: Seq<Outside>) -> Seq<Outside> {
    after.skip(before.len() as int)
}

/// The call that node `id` makes to `name` with `args`, as the next event of
/// `tr` records it: what came back, the events left, and whether the record
/// is that call (node, name and arguments) and came back exactly when `name`
/// is registered.
pub open spec fn replay_call(id: u64, name: Seq<char>, args: (Option<Expr>, Option<Data>), names: Set<Seq<char>>, tr: Seq<Outside>) -> (Option<FnOutput>, Seq<Outside>, bool) {
    if tr.len() == 0 {
        (None, tr, false)
    } else {
        match tr[0] {
            Outside::Call(c) => (
                c.output,
                tr.drop_first(),
                c == call_of(id, name, args, c.output) && (c.output is Some <==> names.contains(name)),
            ),
            _ => (None, tr, false),
        }
    }
}

/// Evaluation of any expression, given what outside code answered: `tr`
/// lists the outside events from here on, and the result is the node's value
/// (none for a function node whose output yields no value), the state after,
/// the events left, and whether every event used is the one the evaluation
/// makes at that point. A cache hit returns at once; a binding reads its
/// bound value (Unknown when unbound); a logic node evaluates its children in
/// order, a child without a value counting as Unknown, stops at the first
/// Deny under And and at the first Allow under Or, and otherwise combines the
/// values (a custom operator combines all of them, as the next event
/// records); a function node gathers its arguments from its parameter
/// bindings, calls its function (the next event), and evaluates the
/// expression it returned with one unit of fuel less. Each evaluated node's
/// value is cached.
pub open spec fn replay(e: Expr, s: EvalState, b: Map<u64, PolicyValue>, names: Set<Seq<char>>, fuel: nat, tr: Seq<Outside>) -> (Option<PolicyValue>, EvalState, Seq<Outside>, bool)
    decreases fuel, e, 0nat,
{
    match e {
        Expr::Literal(v) => (Some(v), s, tr, true),
        Expr::Binding(id) => {
            if s.cache.contains_key(id.0) {
                (Some(s.cache[id.0]), s, tr, true)
            } else {
                let v = cached_value(b, id.0);
                (Some(v), state_after_set(s, id.0, v), tr, true)
            }
        },
        Expr::Logic { id, op, children } => {
            if s.cache.contains_key(id.0) {
                (Some(s.cache[id.0]), s, tr, true)
            } else {
                replay_logic(id.0, op, children@, 0, Seq::empty(), s, b, names, fuel, tr)
            }
        },
        Expr::Fn { id, fn_id, children, params } => {
            if s.cache.contains_key(id.0) {
                (Some(s.cache[id.0]), s, tr, true)
            } else {
                let (args, s1, tr1, ok1) = replay_gather(children@, params@, 0, (None, None), s, b, names, fuel, tr);
                let (output, tr2, ok2) = replay_call(id.0, fn_id.0@, args, names, tr1);
                match output_expr(output) {
                    None => (None, s1, tr2, ok1 && ok2),
                    Some(e2) => {
                        if fuel == 0 || !well_formed(e2) {
                            (None, s1, tr2, ok1 && ok2)
                        } else {
                            let (v, s3, tr3, ok3) = replay(e2, s1, b, names, (fuel - 1) as nat, tr2);
                            let val = value_or_unknown(v);
                            (Some(val), state_after_set(s3, id.0, val), tr3, ok1 && ok2 && ok3)
                        }
                    },
                }
            }
        },
    }
}

/// `replay` of the children `i..` of the logic node `id`, `collected` holding
/// the values of the children before `i`.
pub open spec fn replay_logic(id: u64, op: LogicOp, cs: Seq<Expr>, i: nat, collected: Seq<PolicyValue>, s: EvalState, b: Map<u64, PolicyValue>, names: Set<Seq<char>>, fuel: nat, tr: Seq<Outside>) -> (Option<PolicyValue>, EvalState, Seq<Outside>, bool)
    decreases fuel, cs, cs.len() - i,
{
    if i >= cs.len() {
        if op is Custom {
            if tr.len() == 0 {
                (None, s, tr, false)
            } else {
                match tr[0] {
                    Outside::Combine { node, inputs, output } =>
                        (Some(output), state_after_set(s, id, output), tr.drop_first(), node == id && inputs == collected),
                    _ => (None, s, tr, false),
                }
            }
        } else {
            let r = op.builtin_combine(collected);
            (Some(r), state_after_set(s, id, r), tr, true)
        }
    } else {
        let (v0, s1, tr1, ok1) = replay(cs[i as int], s, b, names, fuel, tr);
        let v = value_or_unknown(v0);
        if op is And && v == PolicyValue::Deny {
            (Some(v), state_after_set(s1, id, v), tr1, ok1)
        } else if op is Or && v == PolicyValue::Allow {
            (Some(v), state_after_set(s1, id, v), tr1, ok1)
        } else {
            let (r, t, tr2, ok2) = replay_logic(id, op, cs, i + 1, collected.push(v), s1, b, names, fuel, tr1);
            (r, t, tr2, ok1 && ok2)
        }
    }
}

/// `replay` of a node as a function output: a function node yields what its
/// function returned (its AST is not evaluated here); any other node yields
/// `Ast(Literal(value))`, its value Unknown when it has none.
pub open spec fn replay_child(e: Expr, s: EvalState, b: Map<u64, PolicyValue>, names: Set<Seq<char>>, fuel: nat, tr: Seq<Outside>) -> (Option<FnOutput>, EvalState, Seq<Outside>, bool)
    decreases fuel, e, 1nat,
{
    match e {
        Expr::Fn { id, fn_id, children, params } => {
            let (args, s1, tr1, ok1) = replay_gather(children@, params@, 0, (None, None), s, b, names, fuel, tr);
            let (output, tr2, ok2) = replay_call(id.0, fn_id.0@, args, names, tr1);
            (output, s1, tr2, ok1 && ok2)
        },
        _ => {
            let (v, s1, tr1, ok) = replay(e, s, b, names, fuel, tr);
            (Some(FnOutput::Ast(Expr::Literal(value_or_unknown(v)))), s1, tr1, ok)
        },
    }
}

/// `replay` of the parameter bindings `params[k..]` of a function node after
/// `acc`: each binding whose child exists evaluates that child as a function
/// output and routes its parts by the binding's role.
pub open spec fn replay_gather(cs: Seq<Expr>, params: Seq<ParamBinding>, k: nat, acc: (Option<Expr>, Option<Data>), s: EvalState, b: Map<u64, PolicyValue>, names: Set<Seq<char>>, fuel: nat, tr: Seq<Outside>) -> ((Option<Expr>, Option<Data>), EvalState, Seq<Outside>, bool)
    decreases fuel, cs, params.len() - k,
{
    if k >= params.len() {
        (acc, s, tr, true)
    } else if params[k as int].child_index >= cs.len() {
        replay_gather(cs, params, k + 1, acc, s, b, names, fuel, tr)
    } else {
        let (o, s1, tr1, ok1) = replay_child(cs[params[k as int].child_index as int], s, b, names, fuel, tr);
        let acc1 = match o {
            None => acc,
            Some(out) => assigned(params[k as int].role, output_expr(Some(out)), data_of(Some(out)), acc),
        };
        let (a2, s2, tr2, ok2) = replay_gather(cs, params, k + 1, acc1, s1, b, names, fuel, tr1);
        (a2, s2, tr2, ok1 && ok2)
    }
}

/// Evaluating `e` from the state `s`, given the outside events `seg` that
/// it recorded, gives the value `r` (Unknown when it has none) and the state
/// `t`, uses exactly the events of `seg`, and each of them is the one the
/// evaluation makes at that point.
pub open spec fn evaluates_to(e: Expr, s: EvalState, b: Map<u64, PolicyValue>, names: Set<Seq<char>>, fuel: nat, seg: Seq<Outside>, r: PolicyValue, t: EvalState) -> bool {
    let (v, t2, rest, ok) = replay(e, s, b, names, fuel, seg);
    &&& r == value_or_unknown(v)
    &&& t == t2
    &&& rest.len() == 0
    &&& ok
}

/// Expressions without function nodes (custom operators allowed).
pub open spec fn fn_free(e: Expr) -> bool
    decreases e,
{
    match e {
        Expr::Logic { children, .. } => forall|j: int| 0 <= j < children@.len() ==> fn_free(#[trigger] children@[j]),
        Expr::Fn { .. } => false,
        _ => true,
    }
}

/// Every custom-operator event of `tr` gave what `comb` gives for its node
/// and inputs.
pub open spec fn combines_by(tr: Seq<Outside>, comb: spec_fn(u64, Seq<PolicyValue>) -> PolicyValue) -> bool {
    forall|i: int| 0 <= i < tr.len() ==> (#[trigger] tr[i] matches Outside::Combine { node, inputs, output }
        ==> output == comb(node, inputs))
}

/// `rest` is what is left of `tr` after some of its first events.
pub open spec fn suffix_of(rest: Seq<Outside>, tr: Seq<Outside>) -> bool {
    rest.len() <= tr.len() && rest == tr.skip(tr.len() - rest.len())
}

/// The value of an expression without function nodes under the bindings
/// `b`, with no cache, its custom operators answering as `comb` does: a
/// binding reads its bound value (Unknown when unbound); a logic node takes
/// the values of its children in order, stops at the first Deny under And and
/// at the first Allow under Or, and otherwise combines them (a custom
/// operator by `comb`).
pub open spec fn value_with(e: Expr, b: Map<u64, PolicyValue>, comb: spec_fn(u64, Seq<PolicyValue>) -> PolicyValue) -> PolicyValue
    decreases e, 0nat,
{
    match e {
        Expr::Literal(v) => v,
        Expr::Binding(id) => cached_value(b, id.0),
        Expr::Logic { id, op, children } => logic_value_with(id.0, op, children@, 0, Seq::empty(), b, comb),
        Expr::Fn { .. } => PolicyValue::Unknown,
    }
}

/// `value_with` of a logic node from its child `i` on.
pub open spec fn logic_value_with(id: u64, op: LogicOp, cs: Seq<Expr>, i: nat, collected: Seq<PolicyValue>, b: Map<u64, PolicyValue>, comb: spec_fn(u64, Seq<PolicyValue>) -> PolicyValue) -> PolicyValue
    decreases cs, cs.len() - i,
{
    if i >= cs.len() {
        if op is Custom { comb(id, collected) } else { op.builtin_combine(collected) }
    } else {
        let v = value_with(cs[i as int], b, comb);
        if op is And && v == PolicyValue::Deny {
            PolicyValue::Deny
        } else if op is Or && v == PolicyValue::Allow {
            PolicyValue::Allow
        } else {
            logic_value_with(id, op, cs, i + 1, collected.push(v), b, comb)
        }
    }
}

/// Every value the cache `c` holds for a node of `e` is that node's
/// `value_with`.
pub open spec fn cache_agrees_with(e: Expr, c: Map<u64, PolicyValue>, b: Map<u64, PolicyValue>, comb: spec_fn(u64, Seq<PolicyValue>) -> PolicyValue) -> bool
    decreases e,
{
    match e {
        Expr::Literal(_) => true,
        Expr::Binding(id) => c.contains_key(id.0) ==> c[id.0] == value_with(e, b, comb),
        Expr::Logic { id, children, .. } => {
            &&& c.contains_key(id.0) ==> c[id.0] == value_with(e, b, comb)
            &&& forall|j: int| 0 <= j < children@.len() ==> cache_agrees_with(#[trigger] children@[j], c, b, comb)
        },
        Expr::Fn { .. } => true,
    }
}

proof fn lemma_combines_suffix(rest: Seq<Outside>, tr: Seq<Outside>, comb: spec_fn(u64, Seq<PolicyValue>) -> PolicyValue)
    requires
        combines_by(tr, comb),
        suffix_of(rest, tr),
    ensures
        combines_by(rest, comb),
{
    assert forall|i: int| 0 <= i < rest.len() implies (#[trigger] rest[i] matches Outside::Combine { node, inputs, output }
        ==> output == comb(node, inputs)) by {
        assert(rest[i] == tr[tr.len() - rest.len() + i]);
    }
}

proof fn lemma_agrees_with_frame(e: Expr, c: Map<u64, PolicyValue>, c2: Map<u64, PolicyValue>, b: Map<u64, PolicyValue>, comb: spec_fn(u64, Seq<PolicyValue>) -> PolicyValue)
    requires
        cache_agrees_with(e, c, b, comb),
        forall|k: u64| has_id(e, k) ==> (#[trigger] c2.contains_key(k) ==> c.contains_key(k) && c2[k] == c[k]),
    ensures
        cache_agrees_with(e, c2, b, comb),
    decreases e,
{
    if let Expr::Logic { id, children, .. } = e {
        assert forall|j: int| 0 <= j < children@.len() implies cache_agrees_with(#[trigger] children@[j], c2, b, comb) by {
            assert forall|k: u64| has_id(children@[j], k) implies (#[trigger] c2.contains_key(k) ==> c.contains_key(k) && c2[k] == c[k]) by {
                assert(has_id(e, k));
            }
            lemma_agrees_with_frame(children@[j], c, c2, b, comb);
        }
    }
}

/// Replaying an expression without function nodes caches nothing under an
/// id that no node of it has, and leaves a suffix of the events.
proof fn lemma_replay_frame(e: Expr, s: EvalState, b: Map<u64, PolicyValue>, names: Set<Seq<char>>, fuel: nat, tr: Seq<Outside>, k: u64)
    requires
        fn_free(e),
    ensures
        suffix_of(replay(e, s, b, names, fuel, tr).2, tr),
        !has_id(e, k) ==> replay(e, s, b, names, fuel, tr).1.cache.contains_key(k) == s.cache.contains_key(k),
        !has_id(e, k) && s.cache.contains_key(k) ==> replay(e, s, b, names, fuel, tr).1.cache[k] == s.cache[k],
    decreases e, 0nat,
{
    assert(tr.skip(0) == tr);
    match e {
        Expr::Logic { id, op, children } => {
            if !s.cache.contains_key(id.0) {
                assert forall|j: int| 0 <= j < children@.len() implies fn_free(#[trigger] children@[j]) by {}
                if !has_id(e, k) {
                    assert forall|j: int| 0 <= j < children@.len() implies !has_id(#[trigger] children@[j], k) by {}
                }
                lemma_replay_logic_frame(id.0, op, children@, 0, Seq::empty(), s, b, names, fuel, tr, k, !has_id(e, k));
            }
        },
        _ => {},
    }
}

proof fn lemma_replay_logic_frame(id: u64, op: LogicOp, cs: Seq<Expr>, i: nat, collected: Seq<PolicyValue>, s: EvalState, b: Map<u64, PolicyValue>, names: Set<Seq<char>>, fuel: nat, tr: Seq<Outside>, k: u64, apart: bool)
    requires
        forall|j: int| 0 <= j < cs.len() ==> fn_free(#[trigger] cs[j]),
        apart ==> id != k,
        apart ==> forall|j: int| 0 <= j < cs.len() ==> !has_id(#[trigger] cs[j], k),
    ensures
        suffix_of(replay_logic(id, op, cs, i, collected, s, b, names, fuel, tr).2, tr),
        apart ==> replay_logic(id, op, cs, i, collected, s, b, names, fuel, tr).1.cache.contains_key(k) == s.cache.contains_key(k),
        apart && s.cache.contains_key(k) ==> replay_logic(id, op, cs, i, collected, s, b, names, fuel, tr).1.cache[k] == s.cache[k],
    decreases cs, cs.len() - i,
{
    assert(tr.skip(0) == tr);
    if i < cs.len() {
        let (v0, s1, tr1, ok1) = replay(cs[i as int], s, b, names, fuel, tr);
        let v = value_or_unknown(v0);
        lemma_replay_frame(cs[i as int], s, b, names, fuel, tr, k);
        if !(op is And && v == PolicyValue::Deny) && !(op is Or && v == PolicyValue::Allow) {
            lemma_replay_logic_frame(id, op, cs, i + 1, collected.push(v), s1, b, names, fuel, tr1, k, apart);
            let rest = replay_logic(id, op, cs, i + 1, collected.push(v), s1, b, names, fuel, tr1).2;
            assert(rest =~= tr.skip(tr.len() - rest.len()));
        }
    } else if op is Custom && tr.len() > 0 {
        assert(tr.drop_first() =~= tr.skip(tr.len() - tr.drop_first().len()));
    }
}

/// The cache never changes a result, with custom operators too: replaying
/// an expression without function nodes, in which every node has an id of
/// its own, from a cache that agrees with `value_with`, with custom-operator
/// events that gave what `comb` gives, yields `value_with` and leaves a cache
/// that still agrees.
pub proof fn lemma_replay_agrees(e: Expr, s: EvalState, b: Map<u64, PolicyValue>, names: Set<Seq<char>>, fuel: nat, tr: Seq<Outside>, comb: spec_fn(u64, Seq<PolicyValue>) -> PolicyValue)
    requires
        fn_free(e),
        ids_distinct(e),
        cache_agrees_with(e, s.cache, b, comb),
        combines_by(tr, comb),
        replay(e, s, b, names, fuel, tr).3,
    ensures
        replay(e, s, b, names, fuel, tr).0 == Some(value_with(e, b, comb)),
        cache_agrees_with(e, replay(e, s, b, names, fuel, tr).1.cache, b, comb),
    decreases e, 0nat,
{
    if let Expr::Logic { id, op, children } = e {
        if !s.cache.contains_key(id.0) {
            lemma_replay_logic_agrees(id.0, op, children@, 0, Seq::empty(), s, b, names, fuel, tr, comb);
        }
    }
}

proof fn lemma_replay_logic_agrees(id: u64, op: LogicOp, cs: Seq<Expr>, i: nat, collected: Seq<PolicyValue>, s: EvalState, b: Map<u64, PolicyValue>, names: Set<Seq<char>>, fuel: nat, tr: Seq<Outside>, comb: spec_fn(u64, Seq<PolicyValue>) -> PolicyValue)
    requires
        forall|j: int| 0 <= j < cs.len() ==> fn_free(#[trigger] cs[j]),
        forall|j: int| 0 <= j < cs.len() ==> !has_id(#[trigger] cs[j], id) && ids_distinct(cs[j]),
        forall|x: int, j: int, k: u64| 0 <= x < j < cs.len() ==> !(#[trigger] has_id(cs[x], k) && #[trigger] has_id(cs[j], k)),
        forall|j: int| 0 <= j < cs.len() ==> cache_agrees_with(#[trigger] cs[j], s.cache, b, comb),
        combines_by(tr, comb),
        replay_logic(id, op, cs, i, collected, s, b, names, fuel, tr).3,
    ensures
        replay_logic(id, op, cs, i, collected, s, b, names, fuel, tr).0 == Some(logic_value_with(id, op, cs, i, collected, b, comb)),
        forall|j: int| 0 <= j < cs.len() ==> cache_agrees_with(#[trigger] cs[j], replay_logic(id, op, cs, i, collected, s, b, names, fuel, tr).1.cache, b, comb),
        cached_value(replay_logic(id, op, cs, i, collected, s, b, names, fuel, tr).1.cache, id)
            == value_or_unknown(replay_logic(id, op, cs, i, collected, s, b, names, fuel, tr).0),
    decreases cs, cs.len() - i,
{
    let (r, t, rest, ok) = replay_logic(id, op, cs, i, collected, s, b, names, fuel, tr);
    if i < cs.len() {
        let (v0, s1, tr1, ok1) = replay(cs[i as int], s, b, names, fuel, tr);
        let v = value_or_unknown(v0);
        lemma_replay_agrees(cs[i as int], s, b, names, fuel, tr, comb);
        lemma_replay_frame(cs[i as int], s, b, names, fuel, tr, id);
        lemma_combines_suffix(tr1, tr, comb);
        assert forall|j: int| 0 <= j < cs.len() implies cache_agrees_with(#[trigger] cs[j], s1.cache, b, comb) by {
            if j != i {
                assert forall|k: u64| has_id(cs[j], k) implies (#[trigger] s1.cache.contains_key(k) ==> s.cache.contains_key(k) && s1.cache[k] == s.cache[k]) by {
                    if j < i {
                        assert(!(has_id(cs[j], k) && has_id(cs[i as int], k)));
                    } else {
                        assert(!(has_id(cs[i as int], k) && has_id(cs[j], k)));
                    }
                    lemma_replay_frame(cs[i as int], s, b, names, fuel, tr, k);
                }
                lemma_agrees_with_frame(cs[j], s.cache, s1.cache, b, comb);
            }
        }
        if !(op is And && v == PolicyValue::Deny) && !(op is Or && v == PolicyValue::Allow) {
            lemma_replay_logic_agrees(id, op, cs, i + 1, collected.push(v), s1, b, names, fuel, tr1, comb);
        } else {
            assert forall|j: int| 0 <= j < cs.len() implies cache_agrees_with(#[trigger] cs[j], t.cache, b, comb) by {
                assert forall|k: u64| has_id(cs[j], k) implies (#[trigger] t.cache.contains_key(k) ==> s1.cache.contains_key(k) && t.cache[k] == s1.cache[k]) by {}
                lemma_agrees_with_frame(cs[j], s1.cache, t.cache, b, comb);
            }
        }
    } else {
        if op is Custom {
            assert(tr.len() > 0);
            assert(tr[0] matches Outside::Combine { node, inputs, output } ==> output == comb(node, inputs));
        }
        assert forall|j: int| 0 <= j < cs.len() implies cache_agrees_with(#[trigger] cs[j], t.cache, b, comb) by {
            assert forall|k: u64| has_id(cs[j], k) implies (#[trigger] t.cache.contains_key(k) ==> s.cache.contains_key(k) && t.cache[k] == s.cache[k]) by {}
            lemma_agrees_with_frame(cs[j], s.cache, t.cache, b, comb);
        }
    }
}

// ── Agreement with a fresh evaluation, function nodes included ───────────

/// Every outside event of `tr` is the answer that `call` (for a function,
/// given the calling node, the name and the arguments) and `comb` (for a
/// custom operator, given its node and inputs) give: what deterministic
/// outside code would answer.
pub open spec fn answered_by(
    tr: Seq<Outside>,
    call: spec_fn(u64, Seq<char>, (Option<Expr>, Option<Data>)) -> Option<FnOutput>,
    comb: spec_fn(u64, Seq<PolicyValue>) -> PolicyValue,
) -> bool {
    forall|i: int| 0 <= i < tr.len() ==> match #[trigger] tr[i] {
        Outside::Call(c) => c.output == call(c.node, c.name, (c.ast, c.data)),
        Outside::Combine { node, inputs, output } => output == comb(node, inputs),
    }
}

/// The value of `e` evaluated afresh, with no cache, outside code answering
/// as `call` and `comb` do (`replay` with an empty cache and those answers).
pub open spec fn fresh(
    e: Expr, b: Map<u64, PolicyValue>, fuel: nat,
    call: spec_fn(u64, Seq<char>, (Option<Expr>, Option<Data>)) -> Option<FnOutput>,
    comb: spec_fn(u64, Seq<PolicyValue>) -> PolicyValue,
) -> Option<PolicyValue>
    decreases fuel, e, 0nat,
{
    match e {
        Expr::Literal(v) => Some(v),
        Expr::Binding(id) => Some(cached_value(b, id.0)),
        Expr::Logic { id, op, children } => fresh_logic(id.0, op, children@, 0, Seq::empty(), b, fuel, call, comb),
        Expr::Fn { id, fn_id, children, params } => {
            let args = fresh_gather(children@, params@, 0, (None, None), b, fuel, call, comb);
            match output_expr(call(id.0, fn_id.0@, args)) {
                None => None,
                Some(e2) => if fuel == 0 || !well_formed(e2) {
                    None
                } else {
                    Some(value_or_unknown(fresh(e2, b, (fuel - 1) as nat, call, comb)))
                },
            }
        },
    }
}

pub open spec fn fresh_logic(
    id: u64, op: LogicOp, cs: Seq<Expr>, i: nat, collected: Seq<PolicyValue>, b: Map<u64, PolicyValue>, fuel: nat,
    call: spec_fn(u64, Seq<char>, (Option<Expr>, Option<Data>)) -> Option<FnOutput>,
    comb: spec_fn(u64, Seq<PolicyValue>) -> PolicyValue,
) -> Option<PolicyValue>
    decreases fuel, cs, cs.len() - i,
{
    if i >= cs.len() {
        Some(if op is Custom { comb(id, collected) } else { op.builtin_combine(collected) })
    } else {
        let v = value_or_unknown(fresh(cs[i as int], b, fuel, call, comb));
        if op is And && v == PolicyValue::Deny {
            Some(v)
        } else if op is Or && v == PolicyValue::Allow {
            Some(v)
        } else {
            fresh_logic(id, op, cs, i + 1, collected.push(v), b, fuel, call, comb)
        }
    }
}

pub open spec fn fresh_child(
    e: Expr, b: Map<u64, PolicyValue>, fuel: nat,
    call: spec_fn(u64, Seq<char>, (Option<Expr>, Option<Data>)) -> Option<FnOutput>,
    comb: spec_fn(u64, Seq<PolicyValue>) -> PolicyValue,
) -> Option<FnOutput>
    decreases fuel, e, 1nat,
{
    match e {
        Expr::Fn { id, fn_id, children, params } =>
            call(id.0, fn_id.0@, fresh_gather(children@, params@, 0, (None, None), b, fuel, call, comb)),
        _ => Some(FnOutput::Ast(Expr::Literal(value_or_unknown(fresh(e, b, fuel, call, comb))))),
    }
}

pub open spec fn fresh_gather(
    cs: Seq<Expr>, params: Seq<ParamBinding>, k: nat, acc: (Option<Expr>, Option<Data>), b: Map<u64, PolicyValue>, fuel: nat,
    call: spec_fn(u64, Seq<char>, (Option<Expr>, Option<Data>)) -> Option<FnOutput>,
    comb: spec_fn(u64, Seq<PolicyValue>) -> PolicyValue,
) -> (Option<Expr>, Option<Data>)
    decreases fuel, cs, params.len() - k,
{
    if k >= params.len() {
        acc
    } else if params[k as int].child_index >= cs.len() {
        fresh_gather(cs, params, k + 1, acc, b, fuel, call, comb)
    } else {
        let o = fresh_child(cs[params[k as int].child_index as int], b, fuel, call, comb);
        let acc1 = match o {
            None => acc,
            Some(out) => assigned(params[k as int].role, output_expr(Some(out)), data_of(Some(out)), acc),
        };
        fresh_gather(cs, params, k + 1, acc1, b, fuel, call, comb)
    }
}

/// The expression a function node evaluates afresh after its call: the AST
/// its answer holds, when there is fuel left and it is well formed.
pub open spec fn fresh_output(
    id: u64, name: Seq<char>, children: Seq<Expr>, params: Seq<ParamBinding>, b: Map<u64, PolicyValue>, fuel: nat,
    call: spec_fn(u64, Seq<char>, (Option<Expr>, Option<Data>)) -> Option<FnOutput>,
    comb: spec_fn(u64, Seq<PolicyValue>) -> PolicyValue,
) -> Option<Expr> {
    match output_expr(call(id, name, fresh_gather(children, params, 0, (None, None), b, fuel, call, comb))) {
        Some(e2) => if fuel == 0 || !well_formed(e2) { None } else { Some(e2) },
        None => None,
    }
}

/// Whether evaluating `e` afresh may cache under the id `k`: a node of `e`,
/// or of an expression a function node of `e` evaluates, has that id.
pub open spec fn reach(
    e: Expr, k: u64, b: Map<u64, PolicyValue>, fuel: nat,
    call: spec_fn(u64, Seq<char>, (Option<Expr>, Option<Data>)) -> Option<FnOutput>,
    comb: spec_fn(u64, Seq<PolicyValue>) -> PolicyValue,
) -> bool
    decreases fuel, e, 0nat,
{
    match e {
        Expr::Binding(id) => id.0 == k,
        Expr::Literal(_) => false,
        Expr::Logic { id, children, .. } => id.0 == k
            || exists|j: int| 0 <= j < children@.len() && reach(#[trigger] children@[j], k, b, fuel, call, comb),
        Expr::Fn { id, fn_id, children, params } => id.0 == k
            || (exists|j: int| 0 <= j < children@.len() && reach_child(#[trigger] children@[j], k, b, fuel, call, comb))
            || (fuel > 0 && match fresh_output(id.0, fn_id.0@, children@, params@, b, fuel, call, comb) {
                Some(e2) => reach(e2, k, b, (fuel - 1) as nat, call, comb),
                None => false,
            }),
    }
}

/// `reach` for a node evaluated as a function output: a function node is
/// only called (its own id is not cached, its AST is not evaluated).
pub open spec fn reach_child(
    e: Expr, k: u64, b: Map<u64, PolicyValue>, fuel: nat,
    call: spec_fn(u64, Seq<char>, (Option<Expr>, Option<Data>)) -> Option<FnOutput>,
    comb: spec_fn(u64, Seq<PolicyValue>) -> PolicyValue,
) -> bool
    decreases fuel, e, 1nat,
{
    match e {
        Expr::Fn { children, .. } => exists|j: int| 0 <= j < children@.len() && reach_child(#[trigger] children@[j], k, b, fuel, call, comb),
        _ => reach(e, k, b, fuel, call, comb),
    }
}

/// Every value the cache `c` holds for a node that evaluating `e` afresh
/// reaches is that node's fresh value.
pub open spec fn agrees(
    e: Expr, c: Map<u64, PolicyValue>, b: Map<u64, PolicyValue>, fuel: nat,
    call: spec_fn(u64, Seq<char>, (Option<Expr>, Option<Data>)) -> Option<FnOutput>,
    comb: spec_fn(u64, Seq<PolicyValue>) -> PolicyValue,
) -> bool
    decreases fuel, e, 0nat,
{
    match e {
        Expr::Literal(_) => true,
        Expr::Binding(id) => c.contains_key(id.0) ==> Some(c[id.0]) == fresh(e, b, fuel, call, comb),
        Expr::Logic { id, children, .. } => {
            &&& c.contains_key(id.0) ==> Some(c[id.0]) == fresh(e, b, fuel, call, comb)
            &&& forall|j: int| 0 <= j < children@.len() ==> agrees(#[trigger] children@[j], c, b, fuel, call, comb)
        },
        Expr::Fn { id, fn_id, children, params } => {
            &&& c.contains_key(id.0) ==> Some(c[id.0]) == fresh(e, b, fuel, call, comb)
            &&& forall|j: int| 0 <= j < children@.len() ==> agrees_child(#[trigger] children@[j], c, b, fuel, call, comb)
            &&& (fuel > 0 ==> match fresh_output(id.0, fn_id.0@, children@, params@, b, fuel, call, comb) {
                Some(e2) => agrees(e2, c, b, (fuel - 1) as nat, call, comb),
                None => true,
            })
        },
    }
}

pub open spec fn agrees_child(
    e: Expr, c: Map<u64, PolicyValue>, b: Map<u64, PolicyValue>, fuel: nat,
    call: spec_fn(u64, Seq<char>, (Option<Expr>, Option<Data>)) -> Option<FnOutput>,
    comb: spec_fn(u64, Seq<PolicyValue>) -> PolicyValue,
) -> bool
    decreases fuel, e, 1nat,
{
    match e {
        Expr::Fn { children, .. } => forall|j: int| 0 <= j < children@.len() ==> agrees_child(#[trigger] children@[j], c, b, fuel, call, comb),
        _ => agrees(e, c, b, fuel, call, comb),
    }
}

/// Distinct ids along a fresh evaluation: no node's id is reached again
/// below it (through its children, or the expression a function node
/// evaluates), and no two of its children (and, for a function node, its
/// children and the expression it evaluates) reach a common id.
pub open spec fn distinct(
    e: Expr, b: Map<u64, PolicyValue>, fuel: nat,
    call: spec_fn(u64, Seq<char>, (Option<Expr>, Option<Data>)) -> Option<FnOutput>,
    comb: spec_fn(u64, Seq<PolicyValue>) -> PolicyValue,
) -> bool
    decreases fuel, e, 0nat,
{
    match e {
        Expr::Logic { id, children, .. } => {
            &&& forall|j: int| 0 <= j < children@.len() ==> !reach(#[trigger] children@[j], id.0, b, fuel, call, comb)
                && distinct(children@[j], b, fuel, call, comb)
            &&& forall|x: int, j: int, k: u64| 0 <= x < j < children@.len()
                ==> !(#[trigger] reach(children@[x], k, b, fuel, call, comb) && #[trigger] reach(children@[j], k, b, fuel, call, comb))
        },
        Expr::Fn { id, fn_id, children, params } => {
            &&& forall|j: int| 0 <= j < children@.len() ==> !reach_child(#[trigger] children@[j], id.0, b, fuel, call, comb)
                && distinct_child(children@[j], b, fuel, call, comb)
            &&& forall|x: int, j: int, k: u64| 0 <= x < j < children@.len()
                ==> !(#[trigger] reach_child(children@[x], k, b, fuel, call, comb) && #[trigger] reach_child(children@[j], k, b, fuel, call, comb))
            &&& (fuel > 0 ==> match fresh_output(id.0, fn_id.0@, children@, params@, b, fuel, call, comb) {
                Some(e2) => {
                    &&& !reach(e2, id.0, b, (fuel - 1) as nat, call, comb)
                    &&& distinct(e2, b, (fuel - 1) as nat, call, comb)
                    &&& forall|j: int, k: u64| 0 <= j < children@.len()
                        ==> !(#[trigger] reach_child(children@[j], k, b, fuel, call, comb) && reach(e2, k, b, (fuel - 1) as nat, call, comb))
                },
                None => true,
            })
        },
        _ => true,
    }
}

pub open spec fn distinct_child(
    e: Expr, b: Map<u64, PolicyValue>, fuel: nat,
    call: spec_fn(u64, Seq<char>, (Option<Expr>, Option<Data>)) -> Option<FnOutput>,
    comb: spec_fn(u64, Seq<PolicyValue>) -> PolicyValue,
) -> bool
    decreases fuel, e, 1nat,
{
    match e {
        Expr::Fn { children, .. } => {
            &&& forall|j: int| 0 <= j < children@.len() ==> distinct_child(#[trigger] children@[j], b, fuel, call, comb)
            &&& forall|x: int, j: int, k: u64| 0 <= x < j < children@.len()
                ==> !(#[trigger] reach_child(children@[x], k, b, fuel, call, comb) && #[trigger] reach_child(children@[j], k, b, fuel, call, comb))
        },
        _ => distinct(e, b, fuel, call, comb),
    }
}

proof fn lemma_suffix_trans(a: Seq<Outside>, b: Seq<Outside>, c: Seq<Outside>)
    requires
        suffix_of(a, b),
        suffix_of(b, c),
    ensures
        suffix_of(a, c),
{
    assert(a =~= c.skip(c.len() - a.len()));
}

proof fn lemma_suffix_drop_first(tr: Seq<Outside>)
    requires
        tr.len() > 0,
    ensures
        suffix_of(tr.drop_first(), tr),
        suffix_of(tr, tr),
{
    assert(tr.drop_first() =~= tr.skip(tr.len() - tr.drop_first().len()));
    assert(tr =~= tr.skip(0));
}

proof fn lemma_answered_suffix(
    rest: Seq<Outside>, tr: Seq<Outside>,
    call: spec_fn(u64, Seq<char>, (Option<Expr>, Option<Data>)) -> Option<FnOutput>,
    comb: spec_fn(u64, Seq<PolicyValue>) -> PolicyValue,
)
    requires
        answered_by(tr, call, comb),
        suffix_of(rest, tr),
    ensures
        answered_by(rest, call, comb),
{
    assert forall|i: int| 0 <= i < rest.len() implies match #[trigger] rest[i] {
        Outside::Call(c) => c.output == call(c.node, c.name, (c.ast, c.data)),
        Outside::Combine { node, inputs, output } => output == comb(node, inputs),
    } by {
        assert(rest[i] == tr[tr.len() - rest.len() + i]);
    }
}

proof fn lemma_fresh_agrees_frame(
    e: Expr, c: Map<u64, PolicyValue>, c2: Map<u64, PolicyValue>, b: Map<u64, PolicyValue>, fuel: nat,
    call: spec_fn(u64, Seq<char>, (Option<Expr>, Option<Data>)) -> Option<FnOutput>,
    comb: spec_fn(u64, Seq<PolicyValue>) -> PolicyValue,
)
    requires
        agrees(e, c, b, fuel, call, comb),
        forall|k: u64| reach(e, k, b, fuel, call, comb) ==> (#[trigger] c2.contains_key(k) ==> c.contains_key(k) && c2[k] == c[k]),
    ensures
        agrees(e, c2, b, fuel, call, comb),
    decreases fuel, e, 0nat,
{
    match e {
        Expr::Binding(id) => {
            assert(reach(e, id.0, b, fuel, call, comb));
        },
        Expr::Logic { id, children, .. } => {
            assert(reach(e, id.0, b, fuel, call, comb));
            assert forall|j: int| 0 <= j < children@.len() implies agrees(#[trigger] children@[j], c2, b, fuel, call, comb) by {
                assert forall|k: u64| reach(children@[j], k, b, fuel, call, comb) implies
                    (#[trigger] c2.contains_key(k) ==> c.contains_key(k) && c2[k] == c[k]) by {
                    assert(reach(e, k, b, fuel, call, comb));
                }
                lemma_fresh_agrees_frame(children@[j], c, c2, b, fuel, call, comb);
            }
        },
        Expr::Fn { id, fn_id, children, params } => {
            assert(reach(e, id.0, b, fuel, call, comb));
            assert forall|j: int| 0 <= j < children@.len() implies agrees_child(#[trigger] children@[j], c2, b, fuel, call, comb) by {
                assert forall|k: u64| reach_child(children@[j], k, b, fuel, call, comb) implies
                    (#[trigger] c2.contains_key(k) ==> c.contains_key(k) && c2[k] == c[k]) by {
                    assert(reach(e, k, b, fuel, call, comb));
                }
                lemma_fresh_agrees_child_frame(children@[j], c, c2, b, fuel, call, comb);
            }
            if fuel > 0 {
                if let Some(e2) = fresh_output(id.0, fn_id.0@, children@, params@, b, fuel, call, comb) {
                    assert forall|k: u64| reach(e2, k, b, (fuel - 1) as nat, call, comb) implies
                        (#[trigger] c2.contains_key(k) ==> c.contains_key(k) && c2[k] == c[k]) by {
                        assert(reach(e, k, b, fuel, call, comb));
                    }
                    lemma_fresh_agrees_frame(e2, c, c2, b, (fuel - 1) as nat, call, comb);
                }
            }
        },
        _ => {},
    }
}

proof fn lemma_fresh_agrees_child_frame(
    e: Expr, c: Map<u64, PolicyValue>, c2: Map<u64, PolicyValue>, b: Map<u64, PolicyValue>, fuel: nat,
    call: spec_fn(u64, Seq<char>, (Option<Expr>, Option<Data>)) -> Option<FnOutput>,
    comb: spec_fn(u64, Seq<PolicyValue>) -> PolicyValue,
)
    requires
        agrees_child(e, c, b, fuel, call, comb),
        forall|k: u64| reach_child(e, k, b, fuel, call, comb) ==> (#[trigger] c2.contains_key(k) ==> c.contains_key(k) && c2[k] == c[k]),
    ensures
        agrees_child(e, c2, b, fuel, call, comb),
    decreases fuel, e, 1nat,
{
    match e {
        Expr::Fn { children, .. } => {
            assert forall|j: int| 0 <= j < children@.len() implies agrees_child(#[trigger] children@[j], c2, b, fuel, call, comb) by {
                assert forall|k: u64| reach_child(children@[j], k, b, fuel, call, comb) implies
                    (#[trigger] c2.contains_key(k) ==> c.contains_key(k) && c2[k] == c[k]) by {
                    assert(reach_child(e, k, b, fuel, call, comb));
                }
                lemma_fresh_agrees_child_frame(children@[j], c, c2, b, fuel, call, comb);
            }
        },
        _ => {
            lemma_fresh_agrees_frame(e, c, c2, b, fuel, call, comb);
        },
    }
}

/// The cache `c2` has what `c` has under the id `k`.
pub open spec fn keeps(c: Map<u64, PolicyValue>, c2: Map<u64, PolicyValue>, k: u64) -> bool {
    &&& c2.contains_key(k) == c.contains_key(k)
    &&& c.contains_key(k) ==> c2[k] == c[k]
}

/// No expression of `cs` reaches the id `k`.
pub open spec fn none_reach(cs: Seq<Expr>, k: u64, b: Map<u64, PolicyValue>, fuel: nat, call: spec_fn(u64, Seq<char>, (Option<Expr>, Option<Data>)) -> Option<FnOutput>, comb: spec_fn(u64, Seq<PolicyValue>) -> PolicyValue) -> bool {
    forall|j: int| 0 <= j < cs.len() ==> !reach(#[trigger] cs[j], k, b, fuel, call, comb)
}

/// No expression of `cs` reaches the id `k` as a function output.
pub open spec fn none_reach_child(cs: Seq<Expr>, k: u64, b: Map<u64, PolicyValue>, fuel: nat, call: spec_fn(u64, Seq<char>, (Option<Expr>, Option<Data>)) -> Option<FnOutput>, comb: spec_fn(u64, Seq<PolicyValue>) -> PolicyValue) -> bool {
    forall|j: int| 0 <= j < cs.len() ==> !reach_child(#[trigger] cs[j], k, b, fuel, call, comb)
}

/// The cache never changes a result, for every expression: replaying `e`
/// from a cache without Unknown that agrees with fresh values, when outside
/// code answered as `call` and `comb` do (deterministic outside code) and
/// ids stay distinct along the evaluation, gives the fresh value and leaves
/// a cache that still agrees; it caches nothing under an id it does not
/// reach.
pub proof fn lemma_replay_fresh(
    e: Expr, s: EvalState, b: Map<u64, PolicyValue>, names: Set<Seq<char>>, fuel: nat, tr: Seq<Outside>,
    call: spec_fn(u64, Seq<char>, (Option<Expr>, Option<Data>)) -> Option<FnOutput>,
    comb: spec_fn(u64, Seq<PolicyValue>) -> PolicyValue,
)
    requires
        distinct(e, b, fuel, call, comb),
        agrees(e, s.cache, b, fuel, call, comb),
        no_unknown(s.cache),
        answered_by(tr, call, comb),
        replay(e, s, b, names, fuel, tr).3,
    ensures
        replay(e, s, b, names, fuel, tr).0 == fresh(e, b, fuel, call, comb),
        agrees(e, replay(e, s, b, names, fuel, tr).1.cache, b, fuel, call, comb),
        no_unknown(replay(e, s, b, names, fuel, tr).1.cache),
        suffix_of(replay(e, s, b, names, fuel, tr).2, tr),
        forall|k: u64| !reach(e, k, b, fuel, call, comb) ==> #[trigger] keeps(s.cache, replay(e, s, b, names, fuel, tr).1.cache, k),
    decreases fuel, e, 0nat,
{
    assert(tr =~= tr.skip(0));
    let (r, t, rest, ok) = replay(e, s, b, names, fuel, tr);
    match e {
        Expr::Literal(_) => {},
        Expr::Binding(id) => {},
        Expr::Logic { id, op, children } => {
            if !s.cache.contains_key(id.0) {
                let cs = children@;
                assert forall|j: int| 0 <= j < cs.len() implies !reach(#[trigger] cs[j], id.0, b, fuel, call, comb)
                    && distinct(cs[j], b, fuel, call, comb) && agrees(cs[j], s.cache, b, fuel, call, comb) by {}
                lemma_replay_logic_fresh(id.0, op, cs, 0, Seq::empty(), s, b, names, fuel, tr, call, comb);
                assert forall|k: u64| !reach(e, k, b, fuel, call, comb) implies #[trigger] keeps(s.cache, t.cache, k) by {
                    assert(none_reach(cs, k, b, fuel, call, comb));
                }
            }
        },
        Expr::Fn { id, fn_id, children, params } => {
            if !s.cache.contains_key(id.0) {
                let cs = children@;
                let ps = params@;
                let name = fn_id.0@;
                let (args, s1, tr1, ok1) = replay_gather(cs, ps, 0, (None, None), s, b, names, fuel, tr);
                let (output, tr2, ok2) = replay_call(id.0, name, args, names, tr1);
                assert forall|j: int| 0 <= j < cs.len() implies distinct_child(#[trigger] cs[j], b, fuel, call, comb)
                    && agrees_child(cs[j], s.cache, b, fuel, call, comb) by {}
                lemma_replay_gather_fresh(cs, ps, 0, (None, None), s, b, names, fuel, tr, call, comb);
                lemma_answered_suffix(tr1, tr, call, comb);
                assert(output == call(id.0, name, args));
                lemma_suffix_drop_first(tr1);
                lemma_suffix_trans(tr2, tr1, tr);
                assert(none_reach_child(cs, id.0, b, fuel, call, comb));
                assert(keeps(s.cache, s1.cache, id.0));
                match output_expr(output) {
                    None => {
                        assert forall|k: u64| !reach(e, k, b, fuel, call, comb) implies #[trigger] keeps(s.cache, t.cache, k) by {
                            assert(none_reach_child(cs, k, b, fuel, call, comb));
                        }
                    },
                    Some(e2) => {
                        if fuel == 0 || !well_formed(e2) {
                            assert forall|k: u64| !reach(e, k, b, fuel, call, comb) implies #[trigger] keeps(s.cache, t.cache, k) by {
                                assert(none_reach_child(cs, k, b, fuel, call, comb));
                            }
                        } else {
                            let f1 = (fuel - 1) as nat;
                            assert(fresh_output(id.0, name, cs, ps, b, fuel, call, comb) == Some(e2));
                            let (v, s3, tr3, ok3) = replay(e2, s1, b, names, f1, tr2);
                            assert forall|k: u64| reach(e2, k, b, f1, call, comb) implies
                                (#[trigger] s1.cache.contains_key(k) ==> s.cache.contains_key(k) && s1.cache[k] == s.cache[k]) by {
                                assert forall|j: int| 0 <= j < cs.len() implies !reach_child(#[trigger] cs[j], k, b, fuel, call, comb) by {}
                                assert(keeps(s.cache, s1.cache, k));
                            }
                            lemma_fresh_agrees_frame(e2, s.cache, s1.cache, b, f1, call, comb);
                            lemma_answered_suffix(tr2, tr, call, comb);
                            lemma_replay_fresh(e2, s1, b, names, f1, tr2, call, comb);
                            lemma_suffix_trans(tr3, tr2, tr);
                            let val = value_or_unknown(v);
                            assert(t == state_after_set(s3, id.0, val));
                            assert forall|j: int| 0 <= j < cs.len() implies agrees_child(#[trigger] cs[j], t.cache, b, fuel, call, comb) by {
                                assert forall|k: u64| reach_child(cs[j], k, b, fuel, call, comb) implies
                                    (#[trigger] t.cache.contains_key(k) ==> s1.cache.contains_key(k) && t.cache[k] == s1.cache[k]) by {
                                    assert(!reach(e2, k, b, f1, call, comb));
                                    assert(keeps(s1.cache, s3.cache, k));
                                }
                                lemma_fresh_agrees_child_frame(cs[j], s1.cache, t.cache, b, fuel, call, comb);
                            }
                            assert forall|k: u64| reach(e2, k, b, f1, call, comb) implies
                                (#[trigger] t.cache.contains_key(k) ==> s3.cache.contains_key(k) && t.cache[k] == s3.cache[k]) by {}
                            lemma_fresh_agrees_frame(e2, s3.cache, t.cache, b, f1, call, comb);
                            assert forall|k: u64| !reach(e, k, b, fuel, call, comb) implies #[trigger] keeps(s.cache, t.cache, k) by {
                                assert(none_reach_child(cs, k, b, fuel, call, comb));
                                assert(keeps(s.cache, s1.cache, k));
                                assert(!reach(e2, k, b, f1, call, comb));
                                assert(keeps(s1.cache, s3.cache, k));
                            }
                        }
                    },
                }
            }
        },
    }
}

proof fn lemma_replay_logic_fresh(
    id: u64, op: LogicOp, cs: Seq<Expr>, i: nat, collected: Seq<PolicyValue>, s: EvalState,
    b: Map<u64, PolicyValue>, names: Set<Seq<char>>, fuel: nat, tr: Seq<Outside>,
    call: spec_fn(u64, Seq<char>, (Option<Expr>, Option<Data>)) -> Option<FnOutput>,
    comb: spec_fn(u64, Seq<PolicyValue>) -> PolicyValue,
)
    requires
        forall|j: int| 0 <= j < cs.len() ==> !reach(#[trigger] cs[j], id, b, fuel, call, comb)
            && distinct(cs[j], b, fuel, call, comb) && agrees(cs[j], s.cache, b, fuel, call, comb),
        forall|x: int, j: int, k: u64| 0 <= x < j < cs.len()
            ==> !(#[trigger] reach(cs[x], k, b, fuel, call, comb) && #[trigger] reach(cs[j], k, b, fuel, call, comb)),
        no_unknown(s.cache),
        answered_by(tr, call, comb),
        replay_logic(id, op, cs, i, collected, s, b, names, fuel, tr).3,
    ensures
        replay_logic(id, op, cs, i, collected, s, b, names, fuel, tr).0 == fresh_logic(id, op, cs, i, collected, b, fuel, call, comb),
        forall|j: int| 0 <= j < cs.len() ==> agrees(#[trigger] cs[j], replay_logic(id, op, cs, i, collected, s, b, names, fuel, tr).1.cache, b, fuel, call, comb),
        cached_value(replay_logic(id, op, cs, i, collected, s, b, names, fuel, tr).1.cache, id)
            == value_or_unknown(replay_logic(id, op, cs, i, collected, s, b, names, fuel, tr).0),
        no_unknown(replay_logic(id, op, cs, i, collected, s, b, names, fuel, tr).1.cache),
        suffix_of(replay_logic(id, op, cs, i, collected, s, b, names, fuel, tr).2, tr),
        forall|k: u64| k != id && none_reach(cs, k, b, fuel, call, comb) ==>
            #[trigger] keeps(s.cache, replay_logic(id, op, cs, i, collected, s, b, names, fuel, tr).1.cache, k),
    decreases fuel, cs, cs.len() - i,
{
    assert(tr =~= tr.skip(0));
    let (r, t, rest, ok) = replay_logic(id, op, cs, i, collected, s, b, names, fuel, tr);
    if i < cs.len() {
        let (v0, s1, tr1, ok1) = replay(cs[i as int], s, b, names, fuel, tr);
        let v = value_or_unknown(v0);
        lemma_replay_fresh(cs[i as int], s, b, names, fuel, tr, call, comb);
        lemma_answered_suffix(tr1, tr, call, comb);
        assert(!reach(cs[i as int], id, b, fuel, call, comb));
        assert(keeps(s.cache, s1.cache, id));
        assert forall|j: int| 0 <= j < cs.len() implies agrees(#[trigger] cs[j], s1.cache, b, fuel, call, comb) by {
            if j != i {
                assert forall|k: u64| reach(cs[j], k, b, fuel, call, comb) implies
                    (#[trigger] s1.cache.contains_key(k) ==> s.cache.contains_key(k) && s1.cache[k] == s.cache[k]) by {
                    if j < i {
                        assert(!(reach(cs[j], k, b, fuel, call, comb) && reach(cs[i as int], k, b, fuel, call, comb)));
                    } else {
                        assert(!(reach(cs[i as int], k, b, fuel, call, comb) && reach(cs[j], k, b, fuel, call, comb)));
                    }
                    assert(keeps(s.cache, s1.cache, k));
                }
                lemma_fresh_agrees_frame(cs[j], s.cache, s1.cache, b, fuel, call, comb);
            }
        }
        if !(op is And && v == PolicyValue::Deny) && !(op is Or && v == PolicyValue::Allow) {
            lemma_replay_logic_fresh(id, op, cs, i + 1, collected.push(v), s1, b, names, fuel, tr1, call, comb);
            lemma_suffix_trans(rest, tr1, tr);
            assert forall|k: u64| k != id && none_reach(cs, k, b, fuel, call, comb) implies #[trigger] keeps(s.cache, t.cache, k) by {
                assert(!reach(cs[i as int], k, b, fuel, call, comb));
                assert(keeps(s.cache, s1.cache, k));
                assert(keeps(s1.cache, t.cache, k));
            }
        } else {
            assert forall|j: int| 0 <= j < cs.len() implies agrees(#[trigger] cs[j], t.cache, b, fuel, call, comb) by {
                assert forall|k: u64| reach(cs[j], k, b, fuel, call, comb) implies
                    (#[trigger] t.cache.contains_key(k) ==> s1.cache.contains_key(k) && t.cache[k] == s1.cache[k]) by {}
                lemma_fresh_agrees_frame(cs[j], s1.cache, t.cache, b, fuel, call, comb);
            }
            assert forall|k: u64| k != id && none_reach(cs, k, b, fuel, call, comb) implies #[trigger] keeps(s.cache, t.cache, k) by {
                assert(!reach(cs[i as int], k, b, fuel, call, comb));
                assert(keeps(s.cache, s1.cache, k));
            }
        }
    } else {
        if op is Custom {
            assert(tr.len() > 0);
            lemma_suffix_drop_first(tr);
            assert(match tr[0] {
                Outside::Call(c) => c.output == call(c.node, c.name, (c.ast, c.data)),
                Outside::Combine { node, inputs, output } => output == comb(node, inputs),
            });
        }
        assert forall|j: int| 0 <= j < cs.len() implies agrees(#[trigger] cs[j], t.cache, b, fuel, call, comb) by {
            assert forall|k: u64| reach(cs[j], k, b, fuel, call, comb) implies
                (#[trigger] t.cache.contains_key(k) ==> s.cache.contains_key(k) && t.cache[k] == s.cache[k]) by {}
            lemma_fresh_agrees_frame(cs[j], s.cache, t.cache, b, fuel, call, comb);
        }
    }
}

proof fn lemma_replay_child_fresh(
    e: Expr, s: EvalState, b: Map<u64, PolicyValue>, names: Set<Seq<char>>, fuel: nat, tr: Seq<Outside>,
    call: spec_fn(u64, Seq<char>, (Option<Expr>, Option<Data>)) -> Option<FnOutput>,
    comb: spec_fn(u64, Seq<PolicyValue>) -> PolicyValue,
)
    requires
        distinct_child(e, b, fuel, call, comb),
        agrees_child(e, s.cache, b, fuel, call, comb),
        no_unknown(s.cache),
        answered_by(tr, call, comb),
        replay_child(e, s, b, names, fuel, tr).3,
    ensures
        replay_child(e, s, b, names, fuel, tr).0 == fresh_child(e, b, fuel, call, comb),
        agrees_child(e, replay_child(e, s, b, names, fuel, tr).1.cache, b, fuel, call, comb),
        no_unknown(replay_child(e, s, b, names, fuel, tr).1.cache),
        suffix_of(replay_child(e, s, b, names, fuel, tr).2, tr),
        forall|k: u64| !reach_child(e, k, b, fuel, call, comb) ==> #[trigger] keeps(s.cache, replay_child(e, s, b, names, fuel, tr).1.cache, k),
    decreases fuel, e, 1nat,
{
    match e {
        Expr::Fn { id, fn_id, children, params } => {
            let cs = children@;
            let (args, s1, tr1, ok1) = replay_gather(cs, params@, 0, (None, None), s, b, names, fuel, tr);
            assert forall|j: int| 0 <= j < cs.len() implies distinct_child(#[trigger] cs[j], b, fuel, call, comb)
                && agrees_child(cs[j], s.cache, b, fuel, call, comb) by {}
            lemma_replay_gather_fresh(cs, params@, 0, (None, None), s, b, names, fuel, tr, call, comb);
            lemma_answered_suffix(tr1, tr, call, comb);
            lemma_suffix_drop_first(tr1);
            lemma_suffix_trans(tr1.drop_first(), tr1, tr);
            assert forall|k: u64| !reach_child(e, k, b, fuel, call, comb) implies #[trigger] keeps(s.cache, s1.cache, k) by {
                assert(none_reach_child(cs, k, b, fuel, call, comb));
            }
        },
        _ => {
            lemma_replay_fresh(e, s, b, names, fuel, tr, call, comb);
        },
    }
}

proof fn lemma_replay_gather_fresh(
    cs: Seq<Expr>, params: Seq<ParamBinding>, k: nat, acc: (Option<Expr>, Option<Data>), s: EvalState,
    b: Map<u64, PolicyValue>, names: Set<Seq<char>>, fuel: nat, tr: Seq<Outside>,
    call: spec_fn(u64, Seq<char>, (Option<Expr>, Option<Data>)) -> Option<FnOutput>,
    comb: spec_fn(u64, Seq<PolicyValue>) -> PolicyValue,
)
    requires
        forall|j: int| 0 <= j < cs.len() ==> distinct_child(#[trigger] cs[j], b, fuel, call, comb)
            && agrees_child(cs[j], s.cache, b, fuel, call, comb),
        forall|x: int, j: int, q: u64| 0 <= x < j < cs.len()
            ==> !(#[trigger] reach_child(cs[x], q, b, fuel, call, comb) && #[trigger] reach_child(cs[j], q, b, fuel, call, comb)),
        no_unknown(s.cache),
        answered_by(tr, call, comb),
        replay_gather(cs, params, k, acc, s, b, names, fuel, tr).3,
    ensures
        replay_gather(cs, params, k, acc, s, b, names, fuel, tr).0 == fresh_gather(cs, params, k, acc, b, fuel, call, comb),
        forall|j: int| 0 <= j < cs.len() ==> agrees_child(#[trigger] cs[j], replay_gather(cs, params, k, acc, s, b, names, fuel, tr).1.cache, b, fuel, call, comb),
        no_unknown(replay_gather(cs, params, k, acc, s, b, names, fuel, tr).1.cache),
        suffix_of(replay_gather(cs, params, k, acc, s, b, names, fuel, tr).2, tr),
        forall|q: u64| none_reach_child(cs, q, b, fuel, call, comb) ==>
            #[trigger] keeps(s.cache, replay_gather(cs, params, k, acc, s, b, names, fuel, tr).1.cache, q),
    decreases fuel, cs, params.len() - k,
{
    assert(tr =~= tr.skip(0));
    if k < params.len() {
        if params[k as int].child_index >= cs.len() {
            lemma_replay_gather_fresh(cs, params, k + 1, acc, s, b, names, fuel, tr, call, comb);
        } else {
            let ci = params[k as int].child_index as int;
            let (o, s1, tr1, ok1) = replay_child(cs[ci], s, b, names, fuel, tr);
            lemma_replay_child_fresh(cs[ci], s, b, names, fuel, tr, call, comb);
            lemma_answered_suffix(tr1, tr, call, comb);
            assert forall|j: int| 0 <= j < cs.len() implies agrees_child(#[trigger] cs[j], s1.cache, b, fuel, call, comb) by {
                if j != ci {
                    assert forall|q: u64| reach_child(cs[j], q, b, fuel, call, comb) implies
                        (#[trigger] s1.cache.contains_key(q) ==> s.cache.contains_key(q) && s1.cache[q] == s.cache[q]) by {
                        if j < ci {
                            assert(!(reach_child(cs[j], q, b, fuel, call, comb) && reach_child(cs[ci], q, b, fuel, call, comb)));
                        } else {
                            assert(!(reach_child(cs[ci], q, b, fuel, call, comb) && reach_child(cs[j], q, b, fuel, call, comb)));
                        }
                        assert(keeps(s.cache, s1.cache, q));
                    }
                    lemma_fresh_agrees_child_frame(cs[j], s.cache, s1.cache, b, fuel, call, comb);
                }
            }
            let acc1 = match o {
                None => acc,
                Some(out) => assigned(params[k as int].role, output_expr(Some(out)), data_of(Some(out)), acc),
            };
            lemma_replay_gather_fresh(cs, params, k + 1, acc1, s1, b, names, fuel, tr1, call, comb);
            let (a2, s2, rest, ok2) = replay_gather(cs, params, k + 1, acc1, s1, b, names, fuel, tr1);
            lemma_suffix_trans(rest, tr1, tr);
            assert forall|q: u64| none_reach_child(cs, q, b, fuel, call, comb) implies #[trigger] keeps(s.cache, s2.cache, q) by {
                assert(!reach_child(cs[ci], q, b, fuel, call, comb));
                assert(keeps(s.cache, s1.cache, q));
                assert(keeps(s1.cache, s2.cache, q));
            }
        }
    }
}

// ── Re-evaluation after a binding changes ────────────────────────────────

/// Whether evaluating `e` afresh reads the binding `k`: a binding node of
/// `e`, or of an expression a function node of `e` evaluates, is `k`.
pub open spec fn reads(
    e: Expr, k: u64, b: Map<u64, PolicyValue>, fuel: nat,
    call: spec_fn(u64, Seq<char>, (Option<Expr>, Option<Data>)) -> Option<FnOutput>,
    comb: spec_fn(u64, Seq<PolicyValue>) -> PolicyValue,
) -> bool
    decreases fuel, e, 0nat,
{
    match e {
        Expr::Binding(id) => id.0 == k,
        Expr::Literal(_) => false,
        Expr::Logic { children, .. } =>
            exists|j: int| 0 <= j < children@.len() && reads(#[trigger] children@[j], k, b, fuel, call, comb),
        Expr::Fn { id, fn_id, children, params } =>
            (exists|j: int| 0 <= j < children@.len() && reads_child(#[trigger] children@[j], k, b, fuel, call, comb))
            || (fuel > 0 && match fresh_output(id.0, fn_id.0@, children@, params@, b, fuel, call, comb) {
                Some(e2) => reads(e2, k, b, (fuel - 1) as nat, call, comb),
                None => false,
            }),
    }
}

/// `reads` for a node evaluated as a function output.
pub open spec fn reads_child(
    e: Expr, k: u64, b: Map<u64, PolicyValue>, fuel: nat,
    call: spec_fn(u64, Seq<char>, (Option<Expr>, Option<Data>)) -> Option<FnOutput>,
    comb: spec_fn(u64, Seq<PolicyValue>) -> PolicyValue,
) -> bool
    decreases fuel, e, 1nat,
{
    match e {
        Expr::Fn { children, .. } =>
            exists|j: int| 0 <= j < children@.len() && reads_child(#[trigger] children@[j], k, b, fuel, call, comb),
        _ => reads(e, k, b, fuel, call, comb),
    }
}

/// Function outputs that changing the binding `k` cannot leave stale: for
/// each function node of `e` (outside what function nodes evaluate), the
/// expression it evaluates under `b2` does not read `k`, and it is the one it
/// evaluated under `b1` or it reaches no id the cache `c` holds.
pub open spec fn outputs_fresh(
    e: Expr, k: u64, c: Map<u64, PolicyValue>, b1: Map<u64, PolicyValue>, b2: Map<u64, PolicyValue>, fuel: nat,
    call: spec_fn(u64, Seq<char>, (Option<Expr>, Option<Data>)) -> Option<FnOutput>,
    comb: spec_fn(u64, Seq<PolicyValue>) -> PolicyValue,
) -> bool
    decreases e, 0nat,
{
    match e {
        Expr::Logic { children, .. } =>
            forall|j: int| 0 <= j < children@.len() ==> outputs_fresh(#[trigger] children@[j], k, c, b1, b2, fuel, call, comb),
        Expr::Fn { id, fn_id, children, params } => {
            &&& forall|j: int| 0 <= j < children@.len() ==> outputs_fresh_child(#[trigger] children@[j], k, c, b1, b2, fuel, call, comb)
            &&& (fuel > 0 ==> match fresh_output(id.0, fn_id.0@, children@, params@, b2, fuel, call, comb) {
                Some(e2) => {
                    &&& !reads(e2, k, b2, (fuel - 1) as nat, call, comb)
                    &&& (fresh_output(id.0, fn_id.0@, children@, params@, b1, fuel, call, comb) == Some(e2)
                        || forall|x: u64| reach(e2, x, b2, (fuel - 1) as nat, call, comb) ==> !(#[trigger] c.contains_key(x)))
                },
                None => true,
            })
        },
        _ => true,
    }
}

/// `outputs_fresh` for a node evaluated as a function output.
pub open spec fn outputs_fresh_child(
    e: Expr, k: u64, c: Map<u64, PolicyValue>, b1: Map<u64, PolicyValue>, b2: Map<u64, PolicyValue>, fuel: nat,
    call: spec_fn(u64, Seq<char>, (Option<Expr>, Option<Data>)) -> Option<FnOutput>,
    comb: spec_fn(u64, Seq<PolicyValue>) -> PolicyValue,
) -> bool
    decreases e, 1nat,
{
    match e {
        Expr::Fn { children, .. } =>
            forall|j: int| 0 <= j < children@.len() ==> outputs_fresh_child(#[trigger] children@[j], k, c, b1, b2, fuel, call, comb),
        _ => outputs_fresh(e, k, c, b1, b2, fuel, call, comb),
    }
}

/// Two sets of bindings that give every node but `k` the same value.
pub open spec fn same_but(b1: Map<u64, PolicyValue>, b2: Map<u64, PolicyValue>, k: u64) -> bool {
    forall|x: u64| x != k ==> #[trigger] cached_value(b1, x) == cached_value(b2, x)
}

proof fn lemma_fresh_logic_same(
    id: u64, op: LogicOp, cs: Seq<Expr>, i: nat, collected: Seq<PolicyValue>,
    b1: Map<u64, PolicyValue>, b2: Map<u64, PolicyValue>, fuel: nat,
    call: spec_fn(u64, Seq<char>, (Option<Expr>, Option<Data>)) -> Option<FnOutput>,
    comb: spec_fn(u64, Seq<PolicyValue>) -> PolicyValue,
)
    requires
        forall|j: int| 0 <= j < cs.len() ==> fresh(#[trigger] cs[j], b1, fuel, call, comb) == fresh(cs[j], b2, fuel, call, comb),
    ensures
        fresh_logic(id, op, cs, i, collected, b1, fuel, call, comb) == fresh_logic(id, op, cs, i, collected, b2, fuel, call, comb),
    decreases cs.len() - i,
{
    if i < cs.len() {
        let v = value_or_unknown(fresh(cs[i as int], b1, fuel, call, comb));
        lemma_fresh_logic_same(id, op, cs, i + 1, collected.push(v), b1, b2, fuel, call, comb);
    }
}

proof fn lemma_fresh_gather_same(
    cs: Seq<Expr>, params: Seq<ParamBinding>, k: nat, acc: (Option<Expr>, Option<Data>),
    b1: Map<u64, PolicyValue>, b2: Map<u64, PolicyValue>, fuel: nat,
    call: spec_fn(u64, Seq<char>, (Option<Expr>, Option<Data>)) -> Option<FnOutput>,
    comb: spec_fn(u64, Seq<PolicyValue>) -> PolicyValue,
)
    requires
        forall|j: int| 0 <= j < cs.len() ==> fresh_child(#[trigger] cs[j], b1, fuel, call, comb) == fresh_child(cs[j], b2, fuel, call, comb),
    ensures
        fresh_gather(cs, params, k, acc, b1, fuel, call, comb) == fresh_gather(cs, params, k, acc, b2, fuel, call, comb),
    decreases params.len() - k,
{
    if k < params.len() {
        if params[k as int].child_index >= cs.len() {
            lemma_fresh_gather_same(cs, params, k + 1, acc, b1, b2, fuel, call, comb);
        } else {
            let o = fresh_child(cs[params[k as int].child_index as int], b1, fuel, call, comb);
            let acc1 = match o {
                None => acc,
                Some(out) => assigned(params[k as int].role, output_expr(Some(out)), data_of(Some(out)), acc),
            };
            lemma_fresh_gather_same(cs, params, k + 1, acc1, b1, b2, fuel, call, comb);
        }
    }
}

/// What does not read the binding `k` evaluates alike under bindings that
/// differ at `k` alone, and a cache that agrees under the first agrees under
/// the second.
proof fn lemma_fresh_same(
    e: Expr, c: Map<u64, PolicyValue>, k: u64, b1: Map<u64, PolicyValue>, b2: Map<u64, PolicyValue>, fuel: nat,
    call: spec_fn(u64, Seq<char>, (Option<Expr>, Option<Data>)) -> Option<FnOutput>,
    comb: spec_fn(u64, Seq<PolicyValue>) -> PolicyValue,
)
    requires
        !reads(e, k, b2, fuel, call, comb),
        same_but(b1, b2, k),
    ensures
        fresh(e, b1, fuel, call, comb) == fresh(e, b2, fuel, call, comb),
        agrees(e, c, b1, fuel, call, comb) ==> agrees(e, c, b2, fuel, call, comb),
    decreases fuel, e, 0nat,
{
    match e {
        Expr::Binding(id) => {
            assert(cached_value(b1, id.0) == cached_value(b2, id.0));
        },
        Expr::Literal(_) => {},
        Expr::Logic { id, op, children } => {
            let cs = children@;
            assert forall|j: int| 0 <= j < cs.len() implies
                fresh(#[trigger] cs[j], b1, fuel, call, comb) == fresh(cs[j], b2, fuel, call, comb)
                && (agrees(cs[j], c, b1, fuel, call, comb) ==> agrees(cs[j], c, b2, fuel, call, comb)) by {
                lemma_fresh_same(cs[j], c, k, b1, b2, fuel, call, comb);
            }
            lemma_fresh_logic_same(id.0, op, cs, 0, Seq::empty(), b1, b2, fuel, call, comb);
        },
        Expr::Fn { id, fn_id, children, params } => {
            let cs = children@;
            let ps = params@;
            assert forall|j: int| 0 <= j < cs.len() implies
                fresh_child(#[trigger] cs[j], b1, fuel, call, comb) == fresh_child(cs[j], b2, fuel, call, comb)
                && (agrees_child(cs[j], c, b1, fuel, call, comb) ==> agrees_child(cs[j], c, b2, fuel, call, comb)) by {
                lemma_fresh_child_same(cs[j], c, k, b1, b2, fuel, call, comb);
            }
            lemma_fresh_gather_same(cs, ps, 0, (None, None), b1, b2, fuel, call, comb);
            assert(fresh_output(id.0, fn_id.0@, cs, ps, b1, fuel, call, comb) == fresh_output(id.0, fn_id.0@, cs, ps, b2, fuel, call, comb));
            match output_expr(call(id.0, fn_id.0@, fresh_gather(cs, ps, 0, (None, None), b2, fuel, call, comb))) {
                Some(e2) => {
                    if fuel > 0 && well_formed(e2) {
                        lemma_fresh_same(e2, c, k, b1, b2, (fuel - 1) as nat, call, comb);
                    }
                },
                None => {},
            }
        },
    }
}

proof fn lemma_fresh_child_same(
    e: Expr, c: Map<u64, PolicyValue>, k: u64, b1: Map<u64, PolicyValue>, b2: Map<u64, PolicyValue>, fuel: nat,
    call: spec_fn(u64, Seq<char>, (Option<Expr>, Option<Data>)) -> Option<FnOutput>,
    comb: spec_fn(u64, Seq<PolicyValue>) -> PolicyValue,
)
    requires
        !reads_child(e, k, b2, fuel, call, comb),
        same_but(b1, b2, k),
    ensures
        fresh_child(e, b1, fuel, call, comb) == fresh_child(e, b2, fuel, call, comb),
        agrees_child(e, c, b1, fuel, call, comb) ==> agrees_child(e, c, b2, fuel, call, comb),
    decreases fuel, e, 1nat,
{
    match e {
        Expr::Fn { id, fn_id, children, params } => {
            let cs = children@;
            assert forall|j: int| 0 <= j < cs.len() implies
                fresh_child(#[trigger] cs[j], b1, fuel, call, comb) == fresh_child(cs[j], b2, fuel, call, comb)
                && (agrees_child(cs[j], c, b1, fuel, call, comb) ==> agrees_child(cs[j], c, b2, fuel, call, comb)) by {
                lemma_fresh_child_same(cs[j], c, k, b1, b2, fuel, call, comb);
            }
            lemma_fresh_gather_same(cs, params@, 0, (None, None), b1, b2, fuel, call, comb);
        },
        _ => {
            lemma_fresh_same(e, c, k, b1, b2, fuel, call, comb);
        },
    }
}


proof fn lemma_fn_chain_children(cs: Seq<Expr>, i: nat, k: u64, j: int)
    requires
        i <= j < cs.len(),
    ensures
        fn_chain(cs[j], k).0 ==> fn_chain_children(cs, i, k).0,
        forall|x: u64| fn_chain(cs[j], k).1.contains(x) ==> #[trigger] fn_chain_children(cs, i, k).1.contains(x),
    decreases cs.len() - i,
{
    let (hit, ids) = fn_chain(cs[i as int], k);
    let (hit2, ids2) = fn_chain_children(cs, i + 1, k);
    if i < j {
        lemma_fn_chain_children(cs, i + 1, k, j);
        assert forall|x: u64| fn_chain(cs[j], k).1.contains(x) implies #[trigger] fn_chain_children(cs, i, k).1.contains(x) by {
            lemma_concat_contains(ids, ids2, x);
        }
    } else {
        assert forall|x: u64| fn_chain(cs[j], k).1.contains(x) implies #[trigger] fn_chain_children(cs, i, k).1.contains(x) by {
            lemma_concat_contains(ids, ids2, x);
        }
    }
}

/// A node that reads the binding `k`, where no function output reads it, is
/// found by the structural search for `k`.
proof fn lemma_reads_found(
    e: Expr, k: u64, c: Map<u64, PolicyValue>, b1: Map<u64, PolicyValue>, b2: Map<u64, PolicyValue>, fuel: nat,
    call: spec_fn(u64, Seq<char>, (Option<Expr>, Option<Data>)) -> Option<FnOutput>,
    comb: spec_fn(u64, Seq<PolicyValue>) -> PolicyValue,
)
    requires
        reads(e, k, b2, fuel, call, comb),
        outputs_fresh(e, k, c, b1, b2, fuel, call, comb),
    ensures
        fn_chain(e, k).0,
    decreases e, 0nat,
{
    match e {
        Expr::Logic { id, children, .. } => {
            let j = choose|j: int| 0 <= j < children@.len() && reads(#[trigger] children@[j], k, b2, fuel, call, comb);
            lemma_reads_found(children@[j], k, c, b1, b2, fuel, call, comb);
            lemma_fn_chain_children(children@, 0, k, j);
        },
        Expr::Fn { id, fn_id, children, params } => {
            if exists|j: int| 0 <= j < children@.len() && reads_child(#[trigger] children@[j], k, b2, fuel, call, comb) {
                let j = choose|j: int| 0 <= j < children@.len() && reads_child(#[trigger] children@[j], k, b2, fuel, call, comb);
                lemma_reads_found_child(children@[j], k, c, b1, b2, fuel, call, comb);
                lemma_fn_chain_children(children@, 0, k, j);
            }
        },
        _ => {},
    }
}

proof fn lemma_reads_found_child(
    e: Expr, k: u64, c: Map<u64, PolicyValue>, b1: Map<u64, PolicyValue>, b2: Map<u64, PolicyValue>, fuel: nat,
    call: spec_fn(u64, Seq<char>, (Option<Expr>, Option<Data>)) -> Option<FnOutput>,
    comb: spec_fn(u64, Seq<PolicyValue>) -> PolicyValue,
)
    requires
        reads_child(e, k, b2, fuel, call, comb),
        outputs_fresh_child(e, k, c, b1, b2, fuel, call, comb),
    ensures
        fn_chain(e, k).0,
    decreases e, 1nat,
{
    match e {
        Expr::Fn { id, children, .. } => {
            let j = choose|j: int| 0 <= j < children@.len() && reads_child(#[trigger] children@[j], k, b2, fuel, call, comb);
            lemma_reads_found_child(children@[j], k, c, b1, b2, fuel, call, comb);
            lemma_fn_chain_children(children@, 0, k, j);
        },
        _ => {
            lemma_reads_found(e, k, c, b1, b2, fuel, call, comb);
        },
    }
}

/// The ids the structural search for `k` finds in a child of a logic or
/// function node are found in the node too.
proof fn lemma_fn_chain_child_ids(e: Expr, k: u64, j: int)
    requires
        e matches Expr::Logic { children, .. } ==> 0 <= j < children@.len(),
        e matches Expr::Fn { children, .. } ==> 0 <= j < children@.len(),
    ensures
        e matches Expr::Logic { children, .. } ==> forall|x: u64|
            fn_chain(children@[j], k).1.contains(x) ==> #[trigger] fn_chain(e, k).1.contains(x),
        e matches Expr::Fn { children, .. } ==> forall|x: u64|
            fn_chain(children@[j], k).1.contains(x) ==> #[trigger] fn_chain(e, k).1.contains(x),
{
    match e {
        Expr::Logic { id, children, .. } => {
            lemma_fn_chain_children(children@, 0, k, j);
            let (hit, ids) = fn_chain_children(children@, 0, k);
            assert forall|x: u64| fn_chain(children@[j], k).1.contains(x) implies #[trigger] fn_chain(e, k).1.contains(x) by {
                if hit {
                    lemma_concat_contains(ids, seq![id.0], x);
                    assert(ids.push(id.0) =~= ids + seq![id.0]);
                }
            }
        },
        Expr::Fn { id, children, .. } => {
            lemma_fn_chain_children(children@, 0, k, j);
            let (hit, ids) = fn_chain_children(children@, 0, k);
            assert forall|x: u64| fn_chain(children@[j], k).1.contains(x) implies #[trigger] fn_chain(e, k).1.contains(x) by {
                if hit || id.0 == k {
                    lemma_concat_contains(ids, seq![id.0], x);
                    assert(ids.push(id.0) =~= ids + seq![id.0]);
                }
            }
        },
        _ => {},
    }
}

/// What invalidating ids leaves of a cache: entries it had, none of the ids.
proof fn lemma_invalidate_all_keeps(s: EvalState, ids: Seq<u64>)
    ensures
        forall|x: u64| #[trigger] state_after_invalidate_all(s, ids).cache.contains_key(x) ==> {
            &&& s.cache.contains_key(x)
            &&& state_after_invalidate_all(s, ids).cache[x] == s.cache[x]
            &&& !ids.contains(x)
        },
    decreases ids.len(),
{
    if ids.len() > 0 {
        lemma_invalidate_all_keeps(s, ids.drop_last());
        let u = state_after_invalidate_all(s, ids.drop_last());
        let t = state_after_invalidate_all(s, ids);
        assert(t == state_after_invalidate(u, ids.last()));
        assert forall|x: u64| #[trigger] t.cache.contains_key(x) implies {
            &&& s.cache.contains_key(x)
            &&& t.cache[x] == s.cache[x]
            &&& !ids.contains(x)
        } by {
            assert(u.cache.contains_key(x) && t.cache[x] == u.cache[x] && x != ids.last());
            assert(!ids.drop_last().contains(x));
            if ids.contains(x) {
                let i = choose|i: int| 0 <= i < ids.len() && ids[i] == x;
                if i < ids.len() - 1 {
                    assert(ids.drop_last()[i] == x);
                }
            }
        }
    }
}

/// After invalidating every structural ancestor of the binding `k` and `k`
/// itself, a cache that agreed with fresh values under `b1` agrees under
/// `b2`, when `b1` and `b2` differ at `k` alone and no function output is
/// left stale.
proof fn lemma_invalidated_agrees(
    e: Expr, c: Map<u64, PolicyValue>, c2: Map<u64, PolicyValue>, k: u64,
    b1: Map<u64, PolicyValue>, b2: Map<u64, PolicyValue>, fuel: nat,
    call: spec_fn(u64, Seq<char>, (Option<Expr>, Option<Data>)) -> Option<FnOutput>,
    comb: spec_fn(u64, Seq<PolicyValue>) -> PolicyValue,
)
    requires
        agrees(e, c, b1, fuel, call, comb),
        forall|x: u64| #[trigger] c2.contains_key(x) ==> c.contains_key(x) && c2[x] == c[x],
        !c2.contains_key(k),
        forall|x: u64| fn_chain(e, k).1.contains(x) ==> !(#[trigger] c2.contains_key(x)),
        outputs_fresh(e, k, c, b1, b2, fuel, call, comb),
        same_but(b1, b2, k),
    ensures
        agrees(e, c2, b2, fuel, call, comb),
    decreases e, 0nat,
{
    if !reads(e, k, b2, fuel, call, comb) {
        lemma_fresh_agrees_frame(e, c, c2, b1, fuel, call, comb);
        lemma_fresh_same(e, c2, k, b1, b2, fuel, call, comb);
    } else {
        match e {
            Expr::Logic { id, children, .. } => {
                lemma_reads_found(e, k, c, b1, b2, fuel, call, comb);
                let (hit, ids) = fn_chain_children(children@, 0, k);
                assert(ids.push(id.0)[ids.len() as int] == id.0);
                assert(fn_chain(e, k).1.contains(id.0));
                assert forall|j: int| 0 <= j < children@.len() implies agrees(#[trigger] children@[j], c2, b2, fuel, call, comb) by {
                    lemma_fn_chain_child_ids(e, k, j);
                    lemma_invalidated_agrees(children@[j], c, c2, k, b1, b2, fuel, call, comb);
                }
            },
            Expr::Fn { id, fn_id, children, params } => {
                lemma_reads_found(e, k, c, b1, b2, fuel, call, comb);
                let (hit, ids) = fn_chain_children(children@, 0, k);
                assert(ids.push(id.0)[ids.len() as int] == id.0);
                assert(fn_chain(e, k).1.contains(id.0));
                assert forall|j: int| 0 <= j < children@.len() implies agrees_child(#[trigger] children@[j], c2, b2, fuel, call, comb) by {
                    lemma_fn_chain_child_ids(e, k, j);
                    lemma_invalidated_agrees_child(children@[j], c, c2, k, b1, b2, fuel, call, comb);
                }
                if fuel > 0 {
                    let f1 = (fuel - 1) as nat;
                    if let Some(e2) = fresh_output(id.0, fn_id.0@, children@, params@, b2, fuel, call, comb) {
                        if fresh_output(id.0, fn_id.0@, children@, params@, b1, fuel, call, comb) == Some(e2) {
                            lemma_fresh_agrees_frame(e2, c, c2, b1, f1, call, comb);
                            lemma_fresh_same(e2, c2, k, b1, b2, f1, call, comb);
                        } else {
                            lemma_agrees_empty(e2, b2, f1, call, comb);
                            assert forall|x: u64| reach(e2, x, b2, f1, call, comb) implies
                                (#[trigger] c2.contains_key(x) ==> Map::<u64, PolicyValue>::empty().contains_key(x)
                                    && c2[x] == Map::<u64, PolicyValue>::empty()[x]) by {
                                assert(!c.contains_key(x));
                            }
                            lemma_fresh_agrees_frame(e2, Map::empty(), c2, b2, f1, call, comb);
                        }
                    }
                }
            },
            _ => {},
        }
    }
}

proof fn lemma_invalidated_agrees_child(
    e: Expr, c: Map<u64, PolicyValue>, c2: Map<u64, PolicyValue>, k: u64,
    b1: Map<u64, PolicyValue>, b2: Map<u64, PolicyValue>, fuel: nat,
    call: spec_fn(u64, Seq<char>, (Option<Expr>, Option<Data>)) -> Option<FnOutput>,
    comb: spec_fn(u64, Seq<PolicyValue>) -> PolicyValue,
)
    requires
        agrees_child(e, c, b1, fuel, call, comb),
        forall|x: u64| #[trigger] c2.contains_key(x) ==> c.contains_key(x) && c2[x] == c[x],
        !c2.contains_key(k),
        forall|x: u64| fn_chain(e, k).1.contains(x) ==> !(#[trigger] c2.contains_key(x)),
        outputs_fresh_child(e, k, c, b1, b2, fuel, call, comb),
        same_but(b1, b2, k),
    ensures
        agrees_child(e, c2, b2, fuel, call, comb),
    decreases e, 1nat,
{
    match e {
        Expr::Fn { children, .. } => {
            assert forall|j: int| 0 <= j < children@.len() implies agrees_child(#[trigger] children@[j], c2, b2, fuel, call, comb) by {
                lemma_fn_chain_child_ids(e, k, j);
                lemma_invalidated_agrees_child(children@[j], c, c2, k, b1, b2, fuel, call, comb);
            }
        },
        _ => {
            lemma_invalidated_agrees(e, c, c2, k, b1, b2, fuel, call, comb);
        },
    }
}

/// An empty cache agrees with every fresh evaluation.
pub proof fn lemma_agrees_empty(
    e: Expr, b: Map<u64, PolicyValue>, fuel: nat,
    call: spec_fn(u64, Seq<char>, (Option<Expr>, Option<Data>)) -> Option<FnOutput>,
    comb: spec_fn(u64, Seq<PolicyValue>) -> PolicyValue,
)
    ensures
        agrees(e, Map::empty(), b, fuel, call, comb),
    decreases fuel, e, 0nat,
{
    match e {
        Expr::Logic { children, .. } => {
            assert forall|j: int| 0 <= j < children@.len() implies agrees(#[trigger] children@[j], Map::empty(), b, fuel, call, comb) by {
                lemma_agrees_empty(children@[j], b, fuel, call, comb);
            }
        },
        Expr::Fn { id, fn_id, children, params } => {
            assert forall|j: int| 0 <= j < children@.len() implies agrees_child(#[trigger] children@[j], Map::empty(), b, fuel, call, comb) by {
                lemma_agrees_child_empty(children@[j], b, fuel, call, comb);
            }
            if fuel > 0 {
                if let Some(e2) = fresh_output(id.0, fn_id.0@, children@, params@, b, fuel, call, comb) {
                    lemma_agrees_empty(e2, b, (fuel - 1) as nat, call, comb);
                }
            }
        },
        _ => {},
    }
}

proof fn lemma_agrees_child_empty(
    e: Expr, b: Map<u64, PolicyValue>, fuel: nat,
    call: spec_fn(u64, Seq<char>, (Option<Expr>, Option<Data>)) -> Option<FnOutput>,
    comb: spec_fn(u64, Seq<PolicyValue>) -> PolicyValue,
)
    ensures
        agrees_child(e, Map::empty(), b, fuel, call, comb),
    decreases fuel, e, 1nat,
{
    match e {
        Expr::Fn { children, .. } => {
            assert forall|j: int| 0 <= j < children@.len() implies agrees_child(#[trigger] children@[j], Map::empty(), b, fuel, call, comb) by {
                lemma_agrees_child_empty(children@[j], b, fuel, call, comb);
            }
        },
        _ => {
            lemma_agrees_empty(e, b, fuel, call, comb);
        },
    }
}

/// Re-evaluation, stated over replays and fresh values: after evaluating
/// `e` under `b1` and invalidating what `invalidate_and_reeval` invalidates
/// for `k`, evaluating under `b2` gives the fresh value under `b2`, as
/// evaluating from an empty cache does (premises as in
/// `lemma_reeval_is_fresh_evaluation`).
proof fn lemma_reeval_matches_fresh(
    e: Expr, s: EvalState, g: Map<u64, Seq<u64>>, k: u64,
    b1: Map<u64, PolicyValue>, b2: Map<u64, PolicyValue>, names: Set<Seq<char>>, fuel: nat,
    tr1: Seq<Outside>, tr2: Seq<Outside>, s3: EvalState, tr3: Seq<Outside>,
    call: spec_fn(u64, Seq<char>, (Option<Expr>, Option<Data>)) -> Option<FnOutput>,
    comb: spec_fn(u64, Seq<PolicyValue>) -> PolicyValue,
)
    requires
        agrees(e, s.cache, b1, fuel, call, comb),
        no_unknown(s.cache),
        distinct(e, b1, fuel, call, comb),
        answered_by(tr1, call, comb),
        replay(e, s, b1, names, fuel, tr1).3,
        same_but(b1, b2, k),
        outputs_fresh(e, k, replay(e, s, b1, names, fuel, tr1).1.cache, b1, b2, fuel, call, comb),
        distinct(e, b2, fuel, call, comb),
        answered_by(tr2, call, comb),
        replay(e, state_after_invalidate_all(replay(e, s, b1, names, fuel, tr1).1,
            logic_ancestor_ids(g, k) + seq![k] + fn_chain(e, k).1), b2, names, fuel, tr2).3,
        s3.cache == Map::<u64, PolicyValue>::empty(),
        answered_by(tr3, call, comb),
        replay(e, s3, b2, names, fuel, tr3).3,
    ensures
        replay(e, state_after_invalidate_all(replay(e, s, b1, names, fuel, tr1).1,
            logic_ancestor_ids(g, k) + seq![k] + fn_chain(e, k).1), b2, names, fuel, tr2).0
            == fresh(e, b2, fuel, call, comb),
        replay(e, s3, b2, names, fuel, tr3).0 == fresh(e, b2, fuel, call, comb),
{
    let t = replay(e, s, b1, names, fuel, tr1).1;
    lemma_replay_fresh(e, s, b1, names, fuel, tr1, call, comb);
    let ids = logic_ancestor_ids(g, k) + seq![k] + fn_chain(e, k).1;
    let inv = state_after_invalidate_all(t, ids);
    lemma_invalidate_all_keeps(t, ids);
    assert(ids[logic_ancestor_ids(g, k).len() as int] == k);
    assert forall|x: u64| fn_chain(e, k).1.contains(x) implies !(#[trigger] inv.cache.contains_key(x)) by {
        let i = choose|i: int| 0 <= i < fn_chain(e, k).1.len() && fn_chain(e, k).1[i] == x;
        assert(ids[logic_ancestor_ids(g, k).len() + 1 + i] == x);
    }
    lemma_invalidated_agrees(e, t.cache, inv.cache, k, b1, b2, fuel, call, comb);
    lemma_replay_fresh(e, inv, b2, names, fuel, tr2, call, comb);
    lemma_agrees_empty(e, b2, fuel, call, comb);
    lemma_replay_fresh(e, s3, b2, names, fuel, tr3, call, comb);
}

/// Re-evaluation after a binding changes agrees with a fresh evaluation:
/// evaluate `e` from the state `s` under the bindings `b1` (giving `r1` and
/// the state `t1`), invalidate what `invalidate_and_reeval` invalidates for
/// the changed binding `k` (its logic ancestors in the dependency graph `g`,
/// `k` itself, and its structural ancestors) and evaluate again under `b2`,
/// which differs from `b1` at `k` alone (giving `r2`): `r2` is what a new
/// graph evaluating `e` under `b2` from an empty cache returns (`r3`). The
/// cache of `s` must agree with fresh values under `b1` (an empty cache
/// does, see `lemma_agrees_empty`); outside code must answer
/// deterministically (`call` and `comb` answered every outside event of the
/// three evaluations); ids stay distinct along the evaluations; and no
/// function output is left stale (`outputs_fresh`): what a function node
/// evaluates under `b2` does not read `k`, and is what it evaluated under
/// `b1` or reaches no id cached in `t1`. Without that last premise the law
/// fails: a function whose arguments change may return an expression whose
/// node ids were cached for another expression, and those entries are not
/// invalidated.
pub proof fn lemma_reeval_is_fresh_evaluation(
    e: Expr, s: EvalState, g: Map<u64, Seq<u64>>, k: u64,
    b1: Map<u64, PolicyValue>, b2: Map<u64, PolicyValue>, names: Set<Seq<char>>, fuel: nat,
    tr1: Seq<Outside>, r1: PolicyValue, t1: EvalState,
    tr2: Seq<Outside>, r2: PolicyValue, t2: EvalState,
    s3: EvalState, tr3: Seq<Outside>, r3: PolicyValue, t3: EvalState,
    call: spec_fn(u64, Seq<char>, (Option<Expr>, Option<Data>)) -> Option<FnOutput>,
    comb: spec_fn(u64, Seq<PolicyValue>) -> PolicyValue,
)
    requires
        agrees(e, s.cache, b1, fuel, call, comb),
        no_unknown(s.cache),
        distinct(e, b1, fuel, call, comb),
        distinct(e, b2, fuel, call, comb),
        same_but(b1, b2, k),
        outputs_fresh(e, k, t1.cache, b1, b2, fuel, call, comb),
        answered_by(tr1, call, comb),
        answered_by(tr2, call, comb),
        answered_by(tr3, call, comb),
        evaluates_to(e, s, b1, names, fuel, tr1, r1, t1),
        evaluates_to(e, state_after_invalidate_all(t1, logic_ancestor_ids(g, k) + seq![k] + fn_chain(e, k).1),
            b2, names, fuel, tr2, r2, t2),
        s3.cache == Map::<u64, PolicyValue>::empty(),
        evaluates_to(e, s3, b2, names, fuel, tr3, r3, t3),
    ensures
        r2 == r3,
        r3 == value_or_unknown(fresh(e, b2, fuel, call, comb)),
{
    lemma_reeval_matches_fresh(e, s, g, k, b1, b2, names, fuel, tr1, tr2, s3, tr3, call, comb);
}

/// The data part of a function output.
pub open spec fn data_of(output: Option<FnOutput>) -> Option<Data> {
    match output {
        Some(FnOutput::Data(d)) => Some(d),
        Some(FnOutput::Both(_, d)) => Some(d),
        _ => None,
    }
}

pub fn fn_output_expr(output: Option<FnOutput>) -> (r: Option<Expr>)
    ensures
        r == output_expr(output),
{
    match output {
        None => None,
        Some(FnOutput::Data(_)) => None,
        Some(FnOutput::Ast(e)) => Some(e),
        Some(FnOutput::Both(e, _)) => Some(e),
    }
}

/// The parameters after routing the parts `e` and `d` by `role` to `acc`.
pub open spec fn assigned(role: ParamRole, e: Option<Expr>, d: Option<Data>, acc: (Option<Expr>, Option<Data>)) -> (Option<Expr>, Option<Data>) {
    match role {
        ParamRole::Ast => (e, acc.1),
        ParamRole::DataOnly => (acc.0, d),
        ParamRole::Both => (
            if acc.0.is_none() { e } else { acc.0 },
            if acc.1.is_none() { d } else { acc.1 },
        ),
    }
}

/// Every child is self-contained and no function node, so the arguments of
/// a function node depend on the library alone.
pub open spec fn plain_children(children: Seq<Expr>) -> bool {
    forall|i: int| 0 <= i < children.len() ==> !(#[trigger] children[i] is Fn) && self_contained(children[i])
}

/// The arguments that the bindings `params[k..]` gather after `acc`, from
/// the state `s`, over plain children: each binding whose child exists
/// evaluates that child and routes `Ast(Literal(value))` by its role.
pub open spec fn gathered(children: Seq<Expr>, params: Seq<ParamBinding>, k: int, acc: (Option<Expr>, Option<Data>), s: EvalState, b: Map<u64, PolicyValue>) -> ((Option<Expr>, Option<Data>), EvalState)
    decreases params.len() - k,
{
    if k < 0 || k >= params.len() {
        (acc, s)
    } else if params[k].child_index >= children.len() {
        gathered(children, params, k + 1, acc, s, b)
    } else {
        let (v, s1) = eval_spec(children[params[k].child_index as int], s, b);
        gathered(children, params, k + 1, assigned(params[k].role, Some(Expr::Literal(v)), None, acc), s1, b)
    }
}

/// Routes a child's output parts to the function's parameters by role:
/// `Ast` takes the expression part, `DataOnly` the data part, and `Both`
/// fills whichever parameter is still empty.
pub fn assign_param(
    role: ParamRole,
    expr_part: Option<Expr>,
    data_part: Option<Data>,
    ast_input: &mut Option<Expr>,
    data_input: &mut Option<Data>,
)
    ensures
        match role {
            ParamRole::Ast => *final(ast_input) == expr_part && *final(data_input) == *old(data_input),
            ParamRole::DataOnly => *final(ast_input) == *old(ast_input) && *final(data_input) == data_part,
            ParamRole::Both => {
                &&& *final(ast_input) == (if old(ast_input).is_none() { expr_part } else { *old(ast_input) })
                &&& *final(data_input) == (if old(data_input).is_none() { data_part } else { *old(data_input) })
            },
        },
{
    match role {
        ParamRole::Ast => {
            *ast_input = expr_part;
        },
        ParamRole::DataOnly => {
            *data_input = data_part;
        },
        ParamRole::Both => {
            if ast_input.is_none() {
                *ast_input = expr_part;
            }
            if data_input.is_none() {
                *data_input = data_part;
            }
        },
    }
}

/// Depth of nested dynamic expansions (an `Fn` node's output evaluated in
/// turn) after which evaluation stops: far beyond any stack.
pub const EXPANSION_LIMIT: u64 = 0xffff_ffff_ffff_ffff;

// ─────────────────────────────────────────────────────────────
// Evaluator
// ─────────────────────────────────────────────────────────────

pub struct Evaluator {
    pub root: Expr,
    pub evaluated: EvaluatedExpr,
    pub dep_graph: DependencyGraph,
}

impl Evaluator {
    pub fn new(root: Expr, dep_graph: DependencyGraph) -> (r: Self)
        ensures
            r.root == root,
            r.dep_graph == dep_graph,
            r.evaluated.state().cache == Map::<u64, PolicyValue>::empty(),
            r.evaluated.state().log == Seq::<Diff>::empty(),
            replays_history(r.evaluated.state()),
    {
        Evaluator { root, evaluated: EvaluatedExpr::new(), dep_graph }
    }

    /// Evaluates the root; Unknown when the root yields no value.
    pub fn eval(&mut self, ctx: &EvalContext) -> (r: PolicyValue)
        requires
            well_formed(old(self).root),
        ensures
            final(self).root == old(self).root,
            final(self).dep_graph == old(self).dep_graph,
            evolves(old(self).evaluated.state(), final(self).evaluated.state()),
            self_contained(old(self).root) ==> {
                &&& r == eval_spec(old(self).root, old(self).evaluated.state(), ctx.bindings@).0
                &&& final(self).evaluated.state() == eval_spec(old(self).root, old(self).evaluated.state(), ctx.bindings@).1
            },
            old(self).root.spec_node_id() matches Some(id) ==> (old(self).evaluated.state().cache.contains_key(id.0) ==> {
                &&& r == old(self).evaluated.state().cache[id.0]
                &&& final(self).evaluated.state() == old(self).evaluated.state()
            }),
            old(self).root matches Expr::Fn { id, fn_id, children, params } ==> (!old(self).evaluated.state().cache.contains_key(id.0) ==>
                fn_root_result(id.0, fn_id.0@, registered_names(ctx.functions), children@, params@, old(self).evaluated.state(),
                    ctx.bindings@, EXPANSION_LIMIT as nat, r, final(self).evaluated.state(), final(self).evaluated.calls())),
            calls_grow(old(self).evaluated.calls(), final(self).evaluated.calls()),
            trace_grows(old(self).evaluated.trace(), final(self).evaluated.trace()),
            evaluates_to(old(self).root, old(self).evaluated.state(), ctx.bindings@, registered_names(ctx.functions),
                EXPANSION_LIMIT as nat, added(old(self).evaluated.trace(), final(self).evaluated.trace()), r, final(self).evaluated.state()),
            replays_history(final(self).evaluated.state()),
    {
        let ghost s0 = self.evaluated.state();
        let ghost t0 = self.evaluated.trace();
        let ro = Self::eval_expr(&mut self.evaluated, &self.root, ctx, EXPANSION_LIMIT);
        let ghost root = self.root;
        proof {
            let seg = added(t0, self.evaluated.trace());
            assert(seg + Seq::<Outside>::empty() =~= seg);
            assert(replay(root, s0, ctx.bindings@, registered_names(ctx.functions), EXPANSION_LIMIT as nat, seg + Seq::<Outside>::empty())
                == (ro, self.evaluated.state(), Seq::<Outside>::empty(), true));
            if let Expr::Fn { id, fn_id, children, params } = root {
                if !s0.cache.contains_key(id.0) {
                    assert(fn_node_eval(id.0, fn_id.0@, registered_names(ctx.functions), children@, params@, s0, ctx.bindings@,
                        EXPANSION_LIMIT as nat, ro, self.evaluated.state(), self.evaluated.calls()));
                }
            }
        }
        proof {
            use_type_invariant(&self.evaluated);
        }
        match ro {
            Some(v) => v,
            None => PolicyValue::Unknown,
        }
    }

    /// Invalidates what depends on `changed_id` and evaluates again: its
    /// Logic chain ancestors (from the dependency graph), the node itself, and
    /// the structural ancestors found by searching the AST.
    pub fn invalidate_and_reeval(&mut self, changed_id: NodeId, ctx: &EvalContext) -> (r: PolicyValue)
        requires
            well_formed(old(self).root),
            exists|n: nat| chains_bounded(old(self).dep_graph.parent_map(), changed_id.0, n),
        ensures
            final(self).root == old(self).root,
            final(self).dep_graph == old(self).dep_graph,
            ({
                let invalidated = state_after_invalidate_all(
                    old(self).evaluated.state(),
                    logic_ancestor_ids(old(self).dep_graph.parent_map(), changed_id.0)
                        + seq![changed_id.0]
                        + fn_chain(old(self).root, changed_id.0).1,
                );
                &&& evolves(invalidated, final(self).evaluated.state())
                &&& self_contained(old(self).root) ==> {
                    &&& r == eval_spec(old(self).root, invalidated, ctx.bindings@).0
                    &&& final(self).evaluated.state() == eval_spec(old(self).root, invalidated, ctx.bindings@).1
                }
                &&& old(self).root.spec_node_id() matches Some(id) ==> (invalidated.cache.contains_key(id.0) ==> {
                    &&& r == invalidated.cache[id.0]
                    &&& final(self).evaluated.state() == invalidated
                })
                &&& old(self).root matches Expr::Fn { id, fn_id, children, params } ==> (!invalidated.cache.contains_key(id.0) ==>
                    fn_root_result(id.0, fn_id.0@, registered_names(ctx.functions), children@, params@, invalidated, ctx.bindings@,
                        EXPANSION_LIMIT as nat, r, final(self).evaluated.state(), final(self).evaluated.calls()))
            }),
            evolves(old(self).evaluated.state(), final(self).evaluated.state()),
            calls_grow(old(self).evaluated.calls(), final(self).evaluated.calls()),
            trace_grows(old(self).evaluated.trace(), final(self).evaluated.trace()),
            evaluates_to(old(self).root, state_after_invalidate_all(
                    old(self).evaluated.state(),
                    logic_ancestor_ids(old(self).dep_graph.parent_map(), changed_id.0)
                        + seq![changed_id.0]
                        + fn_chain(old(self).root, changed_id.0).1,
                ), ctx.bindings@, registered_names(ctx.functions),
                EXPANSION_LIMIT as nat, added(old(self).evaluated.trace(), final(self).evaluated.trace()), r, final(self).evaluated.state()),
            replays_history(final(self).evaluated.state()),
    {
        let ghost s0 = self.evaluated.state();
        let ghost anc = logic_ancestor_ids(self.dep_graph.parent_map(), changed_id.0);
        let ancestors = self.dep_graph.logic_ancestors(changed_id);
        let mut i: usize = 0;
        proof {
            lemma_evolves_refl(s0);
            assert(anc.take(0) =~= Seq::<u64>::empty());
        }
        while i < ancestors.len()
            invariant
                i <= ancestors@.len(),
                ancestors@.len() == anc.len(),
                forall|j: int| 0 <= j < ancestors@.len() ==> #[trigger] ancestors@[j].0 == anc[j],
                self.evaluated.state() == state_after_invalidate_all(s0, anc.take(i as int)),
                evolves(s0, self.evaluated.state()),
                self.evaluated.calls() == old(self).evaluated.calls(),
                self.evaluated.trace() == old(self).evaluated.trace(),
                self.root == old(self).root,
                self.dep_graph == old(self).dep_graph,
            decreases ancestors@.len() - i,
        {
            let ghost before = self.evaluated.state();
            self.evaluated.invalidate(&ancestors[i]);
            proof {
                assert(anc.take(i + 1).drop_last() == anc.take(i as int));
                assert(anc.take(i + 1).last() == anc[i as int]);
                lemma_invalidate_evolves(before, anc[i as int]);
                lemma_evolves_trans(s0, before, self.evaluated.state());
            }
            i = i + 1;
        }
        let ghost before = self.evaluated.state();
        self.evaluated.invalidate(&changed_id);
        proof {
            assert(anc.take(i as int) == anc);
            let ids1 = anc + seq![changed_id.0];
            assert(ids1.drop_last() == anc);
            assert(ids1.last() == changed_id.0);
            lemma_invalidate_evolves(before, changed_id.0);
            lemma_evolves_trans(s0, before, self.evaluated.state());
        }
        let ghost mid = self.evaluated.state();
        let _ = Self::invalidate_fn_chain(&mut self.evaluated, &self.root, changed_id);
        proof {
            lemma_invalidate_all_concat(s0, anc + seq![changed_id.0], fn_chain(self.root, changed_id.0).1);
            lemma_evolves_trans(s0, mid, self.evaluated.state());
        }
        let ghost invalidated = self.evaluated.state();
        let r = self.eval(ctx);
        proof {
            lemma_evolves_trans(s0, invalidated, self.evaluated.state());
        }
        r
    }

    /// Invalidates the structural ancestors of `target` in `expr` (searching
    /// every child of every node); returns whether `target` was found.
    fn invalidate_fn_chain(ev: &mut EvaluatedExpr, expr: &Expr, target: NodeId) -> (r: bool)
        ensures
            r == fn_chain(*expr, target.0).0,
            final(ev).state() == state_after_invalidate_all(old(ev).state(), fn_chain(*expr, target.0).1),
            evolves(old(ev).state(), final(ev).state()),
            final(ev).calls() == old(ev).calls(),
            final(ev).trace() == old(ev).trace(),
        decreases expr, 0nat,
    {
        match expr {
            Expr::Binding(id) => {
                proof {
                    lemma_evolves_refl(ev.state());
                }
                id.0 == target.0
            },
            Expr::Literal(_) => {
                proof {
                    lemma_evolves_refl(ev.state());
                }
                false
            },
            Expr::Logic { id, children, .. } => {
                let ghost s0 = ev.state();
                let hit = Self::invalidate_fn_chain_children(ev, children, 0, target);
                let ghost s1 = ev.state();
                if hit {
                    ev.invalidate(id);
                    proof {
                        let ids = fn_chain_children(children@, 0, target.0).1;
                        assert(ids.push(id.0).drop_last() == ids);
                        lemma_invalidate_evolves(s1, id.0);
                        lemma_evolves_trans(s0, s1, ev.state());
                    }
                }
                hit
            },
            Expr::Fn { id, children, .. } => {
                let ghost s0 = ev.state();
                let child_hit = Self::invalidate_fn_chain_children(ev, children, 0, target);
                let hit = child_hit || id.0 == target.0;
                let ghost s1 = ev.state();
                if hit {
                    ev.invalidate(id);
                    proof {
                        let ids = fn_chain_children(children@, 0, target.0).1;
                        assert(ids.push(id.0).drop_last() == ids);
                        lemma_invalidate_evolves(s1, id.0);
                        lemma_evolves_trans(s0, s1, ev.state());
                    }
                }
                hit
            },
        }
    }

    fn invalidate_fn_chain_children(ev: &mut EvaluatedExpr, cs: &Vec<Expr>, i: usize, target: NodeId) -> (r: bool)
        requires
            i <= cs@.len(),
        ensures
            r == fn_chain_children(cs@, i as nat, target.0).0,
            final(ev).state() == state_after_invalidate_all(old(ev).state(), fn_chain_children(cs@, i as nat, target.0).1),
            evolves(old(ev).state(), final(ev).state()),
            final(ev).calls() == old(ev).calls(),
            final(ev).trace() == old(ev).trace(),
        decreases cs, cs@.len() - i,
    {
        if i >= cs.len() {
            proof {
                lemma_evolves_refl(ev.state());
            }
            return false;
        }
        let ghost s0 = ev.state();
        proof {
            assert(decreases_to!(cs => cs@[i as int]));
        }
        let hit = Self::invalidate_fn_chain(ev, &cs[i], target);
        let ghost s1 = ev.state();
        let hit2 = Self::invalidate_fn_chain_children(ev, cs, i + 1, target);
        proof {
            lemma_invalidate_all_concat(s0, fn_chain(cs@[i as int], target.0).1,
                fn_chain_children(cs@, (i + 1) as nat, target.0).1);
            lemma_evolves_trans(s0, s1, ev.state());
        }
        hit || hit2
    }

    /// Evaluates a node. Cache hits return at once; an And stops at the first
    /// Deny and an Or at the first Allow, other logic operators see every
    /// child; a function node gathers its parameters by their
    /// bindings, calls the function and evaluates the AST it returns.
    fn eval_expr(ev: &mut EvaluatedExpr, expr: &Expr, ctx: &EvalContext, fuel: u64) -> (r: Option<PolicyValue>)
        requires
            well_formed(*expr),
        ensures
            evolves(old(ev).state(), final(ev).state()),
            self_contained(*expr) ==> {
                &&& r == Some(eval_spec(*expr, old(ev).state(), ctx.bindings@).0)
                &&& final(ev).state() == eval_spec(*expr, old(ev).state(), ctx.bindings@).1
            },
            expr.spec_node_id() matches Some(id) ==> (old(ev).state().cache.contains_key(id.0) ==> {
                &&& r == Some(old(ev).state().cache[id.0])
                &&& final(ev).state() == old(ev).state()
            }),
            expr.spec_node_id() matches Some(id) ==> (r matches Some(v) ==> cached_value(final(ev).state().cache, id.0) == v),
            *expr matches Expr::Fn { id, fn_id, children, params } ==> (!old(ev).state().cache.contains_key(id.0) ==>
                fn_node_eval(id.0, fn_id.0@, registered_names(ctx.functions), children@, params@, old(ev).state(), ctx.bindings@,
                    fuel as nat, r, final(ev).state(), final(ev).calls())),
            calls_grow(old(ev).calls(), final(ev).calls()),
            self_contained(*expr) ==> final(ev).calls() == old(ev).calls(),
            trace_grows(old(ev).trace(), final(ev).trace()),
            forall|fut: Seq<Outside>| #[trigger] replay(*expr, old(ev).state(), ctx.bindings@, registered_names(ctx.functions),
                fuel as nat, added(old(ev).trace(), final(ev).trace()) + fut) == (r, final(ev).state(), fut, true),
        decreases fuel, expr, 0nat,
    {
        let ghost t0 = ev.trace();
        let ghost nm = registered_names(ctx.functions);
        proof {
            assert forall|fut: Seq<Outside>| added(t0, t0) + fut == fut by {
                lemma_added_none(t0, fut);
            }
            lemma_added_none(t0, Seq::empty());
        }
        match expr {
            Expr::Literal(v) => {
                proof {
                    lemma_evolves_refl(ev.state());
                }
                Some(*v)
            },
            Expr::Binding(id) => {
                match ev.get(id) {
                    Some(cached) => {
                        proof {
                            lemma_evolves_refl(ev.state());
                        }
                        return Some(cached);
                    },
                    None => {},
                }
                let val = match ctx.bindings.get(&id.0) {
                    Some(v) => *v,
                    None => PolicyValue::Unknown,
                };
                proof {
                    lemma_set_evolves(ev.state(), id.0, val);
                }
                ev.set(*id, val);
                Some(val)
            },
            Expr::Logic { id, op, children } => {
                match ev.get(id) {
                    Some(cached) => {
                        proof {
                            lemma_evolves_refl(ev.state());
                        }
                        return Some(cached);
                    },
                    None => {},
                }
                let ghost s0 = ev.state();
                let ghost b = ctx.bindings@;
                let mut collected: Vec<PolicyValue> = Vec::new();
                let mut i: usize = 0;
                proof {
                    lemma_evolves_refl(s0);
                }
                while i < children.len()
                    invariant
                        i <= children@.len(),
                        collected@.len() == i,
                        well_formed(*expr),
                        *expr == (Expr::Logic { id: *id, op: *op, children: *children }),
                        b == ctx.bindings@,
                        nm == registered_names(ctx.functions),
                        evolves(s0, ev.state()),
                        s0 == old(ev).state(),
                        t0 == old(ev).trace(),
                        !s0.cache.contains_key(id.0),
                        calls_grow(old(ev).calls(), ev.calls()),
                        self_contained(*expr) ==> ev.calls() == old(ev).calls(),
                        self_contained(*expr) ==> eval_logic_spec(id.0, *op, children@, 0, Seq::empty(), s0, b)
                            == eval_logic_spec(id.0, *op, children@, i as nat, collected@, ev.state(), b),
                        trace_grows(t0, ev.trace()),
                        forall|fut: Seq<Outside>| #[trigger] replay_logic(id.0, *op, children@, 0, Seq::empty(), s0, b, nm, fuel as nat,
                            added(t0, ev.trace()) + fut)
                            == replay_logic(id.0, *op, children@, i as nat, collected@, ev.state(), b, nm, fuel as nat, fut),
                    decreases children@.len() - i,
                {
                    let ghost si = ev.state();
                    let ghost ti = ev.trace();
                    let ghost ci = collected@;
                    proof {
                        assert(well_formed(children@[i as int]));
                        assert(decreases_to!(*expr => children@[i as int]));
                        if self_contained(*expr) {
                            assert(self_contained(children@[i as int]));
                        }
                    }
                    let vo = Self::eval_expr(ev, &children[i], ctx, fuel);
                    let v = match vo {
                        Some(v) => v,
                        None => PolicyValue::Unknown,
                    };
                    let ghost s1 = ev.state();
                    let ghost t1 = ev.trace();
                    proof {
                        lemma_evolves_trans(s0, si, ev.state());
                        lemma_added_chain(t0, ti, t1);
                        assert forall|fut: Seq<Outside>| #[trigger] replay_logic(id.0, *op, children@, 0, Seq::empty(), s0, b, nm, fuel as nat,
                            added(t0, t1) + fut)
                            == replay_logic(id.0, *op, children@, i as nat, ci, si, b, nm, fuel as nat, added(ti, t1) + fut) by {
                            lemma_concat_assoc(added(t0, ti), added(ti, t1), fut);
                            assert(replay(children@[i as int], si, b, nm, fuel as nat, added(ti, t1) + fut) == (vo, s1, fut, true));
                        }
                    }
                    let stop = match op {
                        LogicOp::And => v == PolicyValue::Deny,
                        LogicOp::Or => v == PolicyValue::Allow,
                        _ => false,
                    };
                    if stop {
                        proof {
                            lemma_set_evolves(s1, id.0, v);
                            lemma_evolves_trans(s0, s1, state_after_set(s1, id.0, v));
                        }
                        ev.set(*id, v);
                        proof {
                            assert forall|fut: Seq<Outside>| #[trigger] replay(*expr, s0, b, nm, fuel as nat, added(t0, t1) + fut)
                                == (Some(v), ev.state(), fut, true) by {
                                assert(replay(children@[i as int], si, b, nm, fuel as nat, added(ti, t1) + fut) == (vo, s1, fut, true));
                                assert(replay_logic(id.0, *op, children@, 0, Seq::empty(), s0, b, nm, fuel as nat, added(t0, t1) + fut)
                                    == replay_logic(id.0, *op, children@, i as nat, ci, si, b, nm, fuel as nat, added(ti, t1) + fut));
                            }
                        }
                        return Some(v);
                    }
                    collected.push(v);
                    i = i + 1;
                    proof {
                        assert forall|fut: Seq<Outside>| #[trigger] replay_logic(id.0, *op, children@, 0, Seq::empty(), s0, b, nm, fuel as nat,
                            added(t0, ev.trace()) + fut)
                            == replay_logic(id.0, *op, children@, i as nat, collected@, ev.state(), b, nm, fuel as nat, fut) by {
                            assert(replay(children@[(i - 1) as int], si, b, nm, fuel as nat, added(ti, t1) + fut) == (vo, s1, fut, true));
                            assert(replay_logic(id.0, *op, children@, 0, Seq::empty(), s0, b, nm, fuel as nat, added(t0, t1) + fut)
                                == replay_logic(id.0, *op, children@, (i - 1) as nat, ci, si, b, nm, fuel as nat, added(ti, t1) + fut));
                            assert(collected@ == ci.push(v));
                        }
                    }
                }
                let result = op.combine(collected.as_slice());
                let ghost s1 = ev.state();
                let ghost tn = ev.trace();
                let ghost cn = collected@;
                proof {
                    lemma_set_evolves(s1, id.0, result);
                    lemma_evolves_trans(s0, s1, state_after_set(s1, id.0, result));
                }
                ev.set(*id, result);
                if let LogicOp::Custom(_) = op {
                    let ghost event = Outside::Combine { node: id.0, inputs: cn, output: result };
                    proof {
                        use_type_invariant(&*ev);
                    }
                    ev.trace = Ghost(ev.trace@.push(event));
                    proof {
                        assert forall|fut: Seq<Outside>| #[trigger] replay(*expr, s0, b, nm, fuel as nat, added(t0, ev.trace()) + fut)
                            == (Some(result), ev.state(), fut, true) by {
                            lemma_added_push(t0, tn, event, fut);
                            assert(replay_logic(id.0, *op, children@, 0, Seq::empty(), s0, b, nm, fuel as nat, added(t0, tn) + (seq![event] + fut))
                                == replay_logic(id.0, *op, children@, i as nat, cn, s1, b, nm, fuel as nat, seq![event] + fut));
                            assert((seq![event] + fut)[0] == event);
                            assert((seq![event] + fut).drop_first() =~= fut);
                        }
                        lemma_added_push(t0, tn, event, Seq::empty());
                    }
                } else {
                    proof {
                        assert forall|fut: Seq<Outside>| #[trigger] replay(*expr, s0, b, nm, fuel as nat, added(t0, ev.trace()) + fut)
                            == (Some(result), ev.state(), fut, true) by {
                            assert(replay_logic(id.0, *op, children@, 0, Seq::empty(), s0, b, nm, fuel as nat, added(t0, tn) + fut)
                                == replay_logic(id.0, *op, children@, i as nat, cn, s1, b, nm, fuel as nat, fut));
                        }
                    }
                }
                Some(result)
            },
            Expr::Fn { id, fn_id, children, params } => {
                match ev.get(id) {
                    Some(cached) => {
                        proof {
                            lemma_evolves_refl(ev.state());
                        }
                        return Some(cached);
                    },
                    None => {},
                }
                let ghost s0 = ev.state();
                let ghost b = ctx.bindings@;
                proof {
                    assert(decreases_to!(*expr => *children));
                }
                let (ast_input, data_input) = Self::collect_params(ev, children, params, ctx, fuel);
                let output = ctx.call_fn(fn_id, ast_input.as_ref(), data_input.as_ref());
                let ghost s1 = ev.state();
                let ghost tp = ev.trace();
                let ghost out = output;
                let ghost call = call_of(id.0, fn_id.0@, (ast_input, data_input), out);
                let ghost at = ev.calls().len();
                proof {
                    use_type_invariant(&*ev);
                }
                ev.calls = Ghost(ev.calls@.push(call));
                ev.trace = Ghost(ev.trace@.push(Outside::Call(call)));
                let ghost tc = ev.trace();
                proof {
                    assert(ev.calls()[at as int] == call);
                    assert forall|fut: Seq<Outside>| #[trigger] replay_gather(children@, params@, 0, (None, None), s0, b, nm, fuel as nat,
                        added(t0, tc) + fut) == ((ast_input, data_input), s1, seq![Outside::Call(call)] + fut, true)
                        && replay_call(id.0, fn_id.0@, (ast_input, data_input), nm, seq![Outside::Call(call)] + fut) == (out, fut, true) by {
                        lemma_added_push(t0, tp, Outside::Call(call), fut);
                        assert(replay_gather(children@, params@, 0, (None, None), s0, b, nm, fuel as nat,
                            added(t0, tp) + (seq![Outside::Call(call)] + fut)) == ((ast_input, data_input), s1, seq![Outside::Call(call)] + fut, true));
                        assert((seq![Outside::Call(call)] + fut)[0] == Outside::Call(call));
                        assert((seq![Outside::Call(call)] + fut).drop_first() =~= fut);
                    }
                    lemma_added_push(t0, tp, Outside::Call(call), Seq::empty());
                }
                match fn_output_expr(output) {
                    None => {
                        proof {
                            assert(ev.calls().contains(call));
                            assert(fn_node_result(id.0, out, s1, ctx.bindings@, fuel as nat, None, ev.state()));
                            assert forall|fut: Seq<Outside>| #[trigger] replay(*expr, s0, b, nm, fuel as nat, added(t0, tc) + fut)
                                == (None::<PolicyValue>, s1, fut, true) by {
                                assert(replay_gather(children@, params@, 0, (None, None), s0, b, nm, fuel as nat,
                                    added(t0, tc) + fut) == ((ast_input, data_input), s1, seq![Outside::Call(call)] + fut, true));
                            }
                        }
                        None
                    },
                    Some(new_expr) => {
                        if fuel == 0 || !is_well_formed(&new_expr) {
                            proof {
                                assert(ev.calls().contains(call));
                                assert(fn_node_result(id.0, out, s1, ctx.bindings@, fuel as nat, None, ev.state()));
                                assert forall|fut: Seq<Outside>| #[trigger] replay(*expr, s0, b, nm, fuel as nat, added(t0, tc) + fut)
                                    == (None::<PolicyValue>, s1, fut, true) by {
                                    assert(replay_gather(children@, params@, 0, (None, None), s0, b, nm, fuel as nat,
                                        added(t0, tc) + fut) == ((ast_input, data_input), s1, seq![Outside::Call(call)] + fut, true));
                                }
                            }
                            return None;
                        }
                        let vo = Self::eval_expr(ev, &new_expr, ctx, fuel - 1);
                        let val = match vo {
                            Some(v) => v,
                            None => PolicyValue::Unknown,
                        };
                        let ghost s2 = ev.state();
                        let ghost te = ev.trace();
                        proof {
                            lemma_evolves_trans(s0, s1, s2);
                            lemma_set_evolves(s2, id.0, val);
                            lemma_evolves_trans(s0, s2, state_after_set(s2, id.0, val));
                            lemma_evolves_trans(s1, s2, state_after_set(s2, id.0, val));
                        }
                        ev.set(*id, val);
                        proof {
                            assert(ev.calls()[at as int] == call);
                            assert(ev.calls().contains(call));
                            assert(fn_node_result(id.0, out, s1, ctx.bindings@, fuel as nat, Some(val), ev.state()));
                            lemma_added_chain(t0, tc, te);
                            assert forall|fut: Seq<Outside>| #[trigger] replay(*expr, s0, b, nm, fuel as nat, added(t0, te) + fut)
                                == (Some(val), ev.state(), fut, true) by {
                                lemma_concat_assoc(added(t0, tc), added(tc, te), fut);
                                assert(replay_gather(children@, params@, 0, (None, None), s0, b, nm, fuel as nat,
                                    added(t0, tc) + (added(tc, te) + fut)) == ((ast_input, data_input), s1, seq![Outside::Call(call)] + (added(tc, te) + fut), true));
                                assert(replay_call(id.0, fn_id.0@, (ast_input, data_input), nm, seq![Outside::Call(call)] + (added(tc, te) + fut))
                                    == (out, added(tc, te) + fut, true));
                                assert(replay(new_expr, s1, b, nm, (fuel - 1) as nat, added(tc, te) + fut) == (vo, s2, fut, true));
                            }
                        }
                        Some(val)
                    },
                }
            },
        }
    }

    /// Gathers the `ast` and `data` arguments of a function node: for each
    /// parameter binding whose child exists, the child's output parts go to
    /// the parameters its role names.
    fn collect_params(
        ev: &mut EvaluatedExpr,
        children: &Vec<Expr>,
        params: &Vec<ParamBinding>,
        ctx: &EvalContext,
        fuel: u64,
    ) -> (r: (Option<Expr>, Option<Data>))
        requires
            forall|i: int| 0 <= i < children@.len() ==> well_formed(#[trigger] children@[i]),
        ensures
            evolves(old(ev).state(), final(ev).state()),
            plain_children(children@) ==> {
                &&& r == gathered(children@, params@, 0, (None, None), old(ev).state(), ctx.bindings@).0
                &&& final(ev).state() == gathered(children@, params@, 0, (None, None), old(ev).state(), ctx.bindings@).1
            },
            calls_grow(old(ev).calls(), final(ev).calls()),
            trace_grows(old(ev).trace(), final(ev).trace()),
            forall|fut: Seq<Outside>| #[trigger] replay_gather(children@, params@, 0, (None, None), old(ev).state(), ctx.bindings@,
                registered_names(ctx.functions), fuel as nat, added(old(ev).trace(), final(ev).trace()) + fut)
                == (r, final(ev).state(), fut, true),
        decreases fuel, children, 0nat,
    {
        let mut ast_input: Option<Expr> = None;
        let mut data_input: Option<Data> = None;
        let ghost s0 = ev.state();
        let ghost b = ctx.bindings@;
        let ghost nm = registered_names(ctx.functions);
        let ghost t0 = ev.trace();
        proof {
            lemma_evolves_refl(s0);
            assert forall|fut: Seq<Outside>| added(t0, t0) + fut == fut by {
                lemma_added_none(t0, fut);
            }
            lemma_added_none(t0, Seq::empty());
        }
        let mut k: usize = 0;
        while k < params.len()
            invariant
                k <= params@.len(),
                evolves(s0, ev.state()),
                s0 == old(ev).state(),
                b == ctx.bindings@,
                calls_grow(old(ev).calls(), ev.calls()),
                forall|i: int| 0 <= i < children@.len() ==> well_formed(#[trigger] children@[i]),
                plain_children(children@) ==> gathered(children@, params@, k as int, (ast_input, data_input), ev.state(), b)
                    == gathered(children@, params@, 0, (None, None), s0, b),
                nm == registered_names(ctx.functions),
                t0 == old(ev).trace(),
                trace_grows(t0, ev.trace()),
                forall|fut: Seq<Outside>| #[trigger] replay_gather(children@, params@, 0, (None, None), s0, b, nm, fuel as nat,
                    added(t0, ev.trace()) + fut)
                    == replay_gather(children@, params@, k as nat, (ast_input, data_input), ev.state(), b, nm, fuel as nat, fut),
            decreases params@.len() - k,
        {
            let binding = params[k];
            let ghost k0 = k;
            let ghost si = ev.state();
            let ghost ti = ev.trace();
            let ghost acc = (ast_input, data_input);
            k = k + 1;
            if binding.child_index >= children.len() {
                proof {
                    assert forall|fut: Seq<Outside>| #[trigger] replay_gather(children@, params@, 0, (None, None), s0, b, nm, fuel as nat,
                        added(t0, ti) + fut)
                        == replay_gather(children@, params@, k as nat, acc, si, b, nm, fuel as nat, fut) by {
                        assert(replay_gather(children@, params@, 0, (None, None), s0, b, nm, fuel as nat, added(t0, ti) + fut)
                            == replay_gather(children@, params@, k0 as nat, acc, si, b, nm, fuel as nat, fut));
                    }
                }
                continue;
            }
            proof {
                assert(decreases_to!(children => children@[binding.child_index as int]));
            }
            let output = Self::eval_child_as_fn_output(ev, &children[binding.child_index], ctx, fuel);
            let ghost s1 = ev.state();
            let ghost t1 = ev.trace();
            let ghost o = output;
            proof {
                lemma_evolves_trans(s0, si, ev.state());
                lemma_added_chain(t0, ti, t1);
                if plain_children(children@) {
                    assert(!(children@[binding.child_index as int] is Fn));
                }
            }
            match output {
                None => {},
                Some(out) => {
                    let (expr_part, data_part) = out.into_parts();
                    assign_param(binding.role, expr_part, data_part, &mut ast_input, &mut data_input);
                },
            }
            proof {
                let acc1 = match o {
                    None => acc,
                    Some(out) => assigned(binding.role, output_expr(Some(out)), data_of(Some(out)), acc),
                };
                assert((ast_input, data_input) == acc1);
                assert forall|fut: Seq<Outside>| #[trigger] replay_gather(children@, params@, 0, (None, None), s0, b, nm, fuel as nat,
                    added(t0, t1) + fut)
                    == replay_gather(children@, params@, k as nat, (ast_input, data_input), s1, b, nm, fuel as nat, fut) by {
                    lemma_concat_assoc(added(t0, ti), added(ti, t1), fut);
                    assert(replay_gather(children@, params@, 0, (None, None), s0, b, nm, fuel as nat, added(t0, ti) + (added(ti, t1) + fut))
                        == replay_gather(children@, params@, k0 as nat, acc, si, b, nm, fuel as nat, added(ti, t1) + fut));
                    assert(replay_child(children@[binding.child_index as int], si, b, nm, fuel as nat, added(ti, t1) + fut)
                        == (o, s1, fut, true));
                    assert(params@[k0 as int] == binding);
                }
            }
        }
        proof {
            assert forall|fut: Seq<Outside>| #[trigger] replay_gather(children@, params@, 0, (None, None), s0, b, nm, fuel as nat,
                added(t0, ev.trace()) + fut) == ((ast_input, data_input), ev.state(), fut, true) by {
                assert(replay_gather(children@, params@, 0, (None, None), s0, b, nm, fuel as nat, added(t0, ev.trace()) + fut)
                    == replay_gather(children@, params@, k as nat, (ast_input, data_input), ev.state(), b, nm, fuel as nat, fut));
            }
        }
        (ast_input, data_input)
    }

    /// Evaluates a node as a function output: a function node yields what its
    /// function returns; any other node is evaluated and wrapped as
    /// `Ast(Literal(value))`.
    fn eval_child_as_fn_output(ev: &mut EvaluatedExpr, expr: &Expr, ctx: &EvalContext, fuel: u64) -> (r: Option<FnOutput>)
        requires
            well_formed(*expr),
        ensures
            evolves(old(ev).state(), final(ev).state()),
            !(*expr is Fn) && self_contained(*expr) ==> {
                &&& r == Some(FnOutput::Ast(Expr::Literal(eval_spec(*expr, old(ev).state(), ctx.bindings@).0)))
                &&& final(ev).state() == eval_spec(*expr, old(ev).state(), ctx.bindings@).1
            },
            *expr matches Expr::Fn { id, fn_id, children, params } ==> exists|args: (Option<Expr>, Option<Data>)|
                #[trigger] final(ev).calls().contains(call_of(id.0, fn_id.0@, args, r))
                && (r is Some <==> registered_names(ctx.functions).contains(fn_id.0@))
                && (plain_children(children@) ==> (args, final(ev).state())
                    == gathered(children@, params@, 0, (None, None), old(ev).state(), ctx.bindings@)),
            calls_grow(old(ev).calls(), final(ev).calls()),
            trace_grows(old(ev).trace(), final(ev).trace()),
            forall|fut: Seq<Outside>| #[trigger] replay_child(*expr, old(ev).state(), ctx.bindings@, registered_names(ctx.functions),
                fuel as nat, added(old(ev).trace(), final(ev).trace()) + fut) == (r, final(ev).state(), fut, true),
        decreases fuel, expr, 1nat,
    {
        let ghost t0 = ev.trace();
        let ghost s0 = ev.state();
        let ghost b = ctx.bindings@;
        let ghost nm = registered_names(ctx.functions);
        match expr {
            Expr::Fn { id, fn_id, children, params } => {
                proof {
                    assert(decreases_to!(*expr => *children));
                }
                let (ast_input, data_input) = Self::collect_params(ev, children, params, ctx, fuel);
                let output = ctx.call_fn(fn_id, ast_input.as_ref(), data_input.as_ref());
                let ghost s1 = ev.state();
                let ghost tp = ev.trace();
                let ghost call = call_of(id.0, fn_id.0@, (ast_input, data_input), output);
                let ghost at = ev.calls().len();
                proof {
                    use_type_invariant(&*ev);
                }
                ev.calls = Ghost(ev.calls@.push(call));
                ev.trace = Ghost(ev.trace@.push(Outside::Call(call)));
                proof {
                    assert(ev.calls()[at as int] == call);
                    assert(ev.calls().contains(call));
                    assert forall|fut: Seq<Outside>| #[trigger] replay_child(*expr, s0, b, nm, fuel as nat, added(t0, ev.trace()) + fut)
                        == (output, s1, fut, true) by {
                        lemma_added_push(t0, tp, Outside::Call(call), fut);
                        assert(replay_gather(children@, params@, 0, (None, None), s0, b, nm, fuel as nat,
                            added(t0, tp) + (seq![Outside::Call(call)] + fut)) == ((ast_input, data_input), s1, seq![Outside::Call(call)] + fut, true));
                        assert((seq![Outside::Call(call)] + fut)[0] == Outside::Call(call));
                        assert((seq![Outside::Call(call)] + fut).drop_first() =~= fut);
                    }
                    lemma_added_push(t0, tp, Outside::Call(call), Seq::empty());
                }
                output
            },
            _ => {
                let vo = Self::eval_expr(ev, expr, ctx, fuel);
                let val = match vo {
                    Some(v) => v,
                    None => PolicyValue::Unknown,
                };
                proof {
                    assert forall|fut: Seq<Outside>| #[trigger] replay_child(*expr, s0, b, nm, fuel as nat, added(t0, ev.trace()) + fut)
                        == (Some(FnOutput::Ast(Expr::Literal(val))), ev.state(), fut, true) by {
                        assert(replay(*expr, s0, b, nm, fuel as nat, added(t0, ev.trace()) + fut) == (vo, ev.state(), fut, true));
                    }
                }
                Some(FnOutput::Ast(Expr::Literal(val)))
            },
        }
    }
}

proof fn lemma_added_chain(a: Seq<Outside>, b: Seq<Outside>, c: Seq<Outside>)
    requires
        trace_grows(a, b),
        trace_grows(b, c),
    ensures
        trace_grows(a, c),
        added(a, c) == added(a, b) + added(b, c),
{
    assert(c.take(a.len() as int) =~= c.take(b.len() as int).take(a.len() as int));
    assert(b =~= b.take(a.len() as int) + b.skip(a.len() as int));
    assert(c =~= c.take(b.len() as int) + c.skip(b.len() as int));
    assert(added(a, c) =~= added(a, b) + added(b, c));
}

proof fn lemma_added_push(a: Seq<Outside>, b: Seq<Outside>, x: Outside, fut: Seq<Outside>)
    requires
        trace_grows(a, b),
    ensures
        trace_grows(a, b.push(x)),
        trace_grows(b, b.push(x)),
        added(a, b.push(x)) + fut == added(a, b) + (seq![x] + fut),
        added(b, b.push(x)) == seq![x],
{
    assert(b.push(x).take(a.len() as int) =~= b.take(a.len() as int));
    assert(b.push(x).take(b.len() as int) =~= b);
    assert(added(a, b.push(x)) + fut =~= added(a, b) + (seq![x] + fut));
    assert(added(b, b.push(x)) =~= seq![x]);
}

proof fn lemma_added_none(a: Seq<Outside>, fut: Seq<Outside>)
    ensures
        trace_grows(a, a),
        added(a, a) + fut == fut,
{
    assert(a.take(a.len() as int) =~= a);
    assert(added(a, a) + fut =~= fut);
}

proof fn lemma_concat_assoc(x: Seq<Outside>, y: Seq<Outside>, z: Seq<Outside>)
    ensures
        (x + y) + z == x + (y + z),
{
    assert((x + y) + z =~= x + (y + z));
}

proof fn lemma_invalidate_all_concat(s: EvalState, a: Seq<u64>, b: Seq<u64>)
    ensures
        state_after_invalidate_all(s, a + b) == state_after_invalidate_all(state_after_invalidate_all(s, a), b),
    decreases b.len(),
{
    if b.len() == 0 {
        assert(a + b == a);
    } else {
        assert((a + b).drop_last() == a + b.drop_last());
        assert((a + b).last() == b.last());
        lemma_invalidate_all_concat(s, a, b.drop_last());
    }
}

// ─────────────────────────────────────────────────────────────
// PolicyGraph / DataGraph
// ─────────────────────────────────────────────────────────────

/// A graph whose output is a PolicyValue.
pub struct PolicyGraph {
    pub evaluator: Evaluator,
}

impl PolicyGraph {
    pub fn new(root: Expr, dep_graph: DependencyGraph) -> (r: Self)
        ensures
            r.evaluator.root == root,
            r.evaluator.dep_graph == dep_graph,
            r.evaluator.evaluated.state().cache == Map::<u64, PolicyValue>::empty(),
            r.evaluator.evaluated.state().log == Seq::<Diff>::empty(),
            replays_history(r.evaluator.evaluated.state()),
    {
        PolicyGraph { evaluator: Evaluator::new(root, dep_graph) }
    }

    pub fn evaluate(&mut self, ctx: &EvalContext) -> (r: PolicyValue)
        requires
            well_formed(old(self).evaluator.root),
        ensures
            final(self).evaluator.root == old(self).evaluator.root,
            final(self).evaluator.dep_graph == old(self).evaluator.dep_graph,
            evolves(old(self).evaluator.evaluated.state(), final(self).evaluator.evaluated.state()),
            self_contained(old(self).evaluator.root) ==> {
                &&& r == eval_spec(old(self).evaluator.root, old(self).evaluator.evaluated.state(), ctx.bindings@).0
                &&& final(self).evaluator.evaluated.state()
                    == eval_spec(old(self).evaluator.root, old(self).evaluator.evaluated.state(), ctx.bindings@).1
            },
            old(self).evaluator.root.spec_node_id() matches Some(id) ==> (old(self).evaluator.evaluated.state().cache.contains_key(id.0) ==> {
                &&& r == old(self).evaluator.evaluated.state().cache[id.0]
                &&& final(self).evaluator.evaluated.state() == old(self).evaluator.evaluated.state()
            }),
            old(self).evaluator.root matches Expr::Fn { id, fn_id, children, params } ==> (!old(self).evaluator.evaluated.state().cache.contains_key(id.0) ==>
                fn_root_result(id.0, fn_id.0@, registered_names(ctx.functions), children@, params@, old(self).evaluator.evaluated.state(),
                    ctx.bindings@, EXPANSION_LIMIT as nat, r, final(self).evaluator.evaluated.state(), final(self).evaluator.evaluated.calls())),
            calls_grow(old(self).evaluator.evaluated.calls(), final(self).evaluator.evaluated.calls()),
            trace_grows(old(self).evaluator.evaluated.trace(), final(self).evaluator.evaluated.trace()),
            evaluates_to(old(self).evaluator.root, old(self).evaluator.evaluated.state(), ctx.bindings@, registered_names(ctx.functions),
                EXPANSION_LIMIT as nat, added(old(self).evaluator.evaluated.trace(), final(self).evaluator.evaluated.trace()),
                r, final(self).evaluator.evaluated.state()),
            replays_history(final(self).evaluator.evaluated.state()),
    {
        self.evaluator.eval(ctx)
    }

    pub fn invalidate_and_reeval(&mut self, changed_id: NodeId, ctx: &EvalContext) -> (r: PolicyValue)
        requires
            well_formed(old(self).evaluator.root),
            exists|n: nat| chains_bounded(old(self).evaluator.dep_graph.parent_map(), changed_id.0, n),
        ensures
            final(self).evaluator.root == old(self).evaluator.root,
            final(self).evaluator.dep_graph == old(self).evaluator.dep_graph,
            ({
                let invalidated = state_after_invalidate_all(
                    old(self).evaluator.evaluated.state(),
                    logic_ancestor_ids(old(self).evaluator.dep_graph.parent_map(), changed_id.0)
                        + seq![changed_id.0]
                        + fn_chain(old(self).evaluator.root, changed_id.0).1,
                );
                &&& evolves(invalidated, final(self).evaluator.evaluated.state())
                &&& self_contained(old(self).evaluator.root) ==> {
                    &&& r == eval_spec(old(self).evaluator.root, invalidated, ctx.bindings@).0
                    &&& final(self).evaluator.evaluated.state()
                        == eval_spec(old(self).evaluator.root, invalidated, ctx.bindings@).1
                }
                &&& old(self).evaluator.root.spec_node_id() matches Some(id) ==> (invalidated.cache.contains_key(id.0) ==> {
                    &&& r == invalidated.cache[id.0]
                    &&& final(self).evaluator.evaluated.state() == invalidated
                })
                &&& old(self).evaluator.root matches Expr::Fn { id, fn_id, children, params } ==> (!invalidated.cache.contains_key(id.0) ==>
                    fn_root_result(id.0, fn_id.0@, registered_names(ctx.functions), children@, params@, invalidated, ctx.bindings@,
                        EXPANSION_LIMIT as nat, r, final(self).evaluator.evaluated.state(), final(self).evaluator.evaluated.calls()))
            }),
            evolves(old(self).evaluator.evaluated.state(), final(self).evaluator.evaluated.state()),
            calls_grow(old(self).evaluator.evaluated.calls(), final(self).evaluator.evaluated.calls()),
            trace_grows(old(self).evaluator.evaluated.trace(), final(self).evaluator.evaluated.trace()),
            evaluates_to(old(self).evaluator.root, state_after_invalidate_all(
                    old(self).evaluator.evaluated.state(),
                    logic_ancestor_ids(old(self).evaluator.dep_graph.parent_map(), changed_id.0)
                        + seq![changed_id.0]
                        + fn_chain(old(self).evaluator.root, changed_id.0).1,
                ), ctx.bindings@, registered_names(ctx.functions),
                EXPANSION_LIMIT as nat, added(old(self).evaluator.evaluated.trace(), final(self).evaluator.evaluated.trace()),
                r, final(self).evaluator.evaluated.state()),
            replays_history(final(self).evaluator.evaluated.state()),
    {
        self.evaluator.invalidate_and_reeval(changed_id, ctx)
    }

    pub fn audit(&self) -> (r: &[Diff])
        ensures
            r@ == self.evaluator.evaluated.state().log,
    {
        AuditComponent::audit(&self.evaluator.evaluated)
    }

    pub fn rollback(&mut self, steps: usize)
        ensures
            final(self).evaluator.root == old(self).evaluator.root,
            final(self).evaluator.dep_graph == old(self).evaluator.dep_graph,
            final(self).evaluator.evaluated.state().log == old(self).evaluator.evaluated.state().log.take(
                rollback_start(old(self).evaluator.evaluated.state().log.len(), steps as nat) as int),
            final(self).evaluator.evaluated.state().cache == undo(old(self).evaluator.evaluated.state().cache,
                old(self).evaluator.evaluated.state().log.skip(
                    rollback_start(old(self).evaluator.evaluated.state().log.len(), steps as nat) as int)),
            replays_history(final(self).evaluator.evaluated.state()),
            final(self).evaluator.evaluated.trace() == old(self).evaluator.evaluated.trace(),
    {
        AuditComponent::rollback(&mut self.evaluator.evaluated, steps);
    }
}

/// A graph whose output is Data, interpreted by the caller.
pub struct DataGraph {
    pub evaluator: Evaluator,
}

impl DataGraph {
    pub fn new(root: Expr, dep_graph: DependencyGraph) -> (r: Self)
        ensures
            r.evaluator.root == root,
            r.evaluator.dep_graph == dep_graph,
            r.evaluator.evaluated.state().cache == Map::<u64, PolicyValue>::empty(),
            r.evaluator.evaluated.state().log == Seq::<Diff>::empty(),
            replays_history(r.evaluator.evaluated.state()),
    {
        DataGraph { evaluator: Evaluator::new(root, dep_graph) }
    }

    /// Evaluates the root as a function output and returns its data part; a
    /// root that is not a function node has none.
    pub fn evaluate(&mut self, ctx: &EvalContext) -> (r: Option<Data>)
        requires
            well_formed(old(self).evaluator.root),
        ensures
            final(self).evaluator.root == old(self).evaluator.root,
            final(self).evaluator.dep_graph == old(self).evaluator.dep_graph,
            evolves(old(self).evaluator.evaluated.state(), final(self).evaluator.evaluated.state()),
            !(old(self).evaluator.root is Fn) && self_contained(old(self).evaluator.root) ==> {
                &&& r.is_none()
                &&& final(self).evaluator.evaluated.state()
                    == eval_spec(old(self).evaluator.root, old(self).evaluator.evaluated.state(), ctx.bindings@).1
            },
            old(self).evaluator.root matches Expr::Fn { id, fn_id, children, params } ==> exists|args: (Option<Expr>, Option<Data>), output: Option<FnOutput>|
                #[trigger] final(self).evaluator.evaluated.calls().contains(call_of(id.0, fn_id.0@, args, output))
                && r == data_of(output)
                && (output is Some <==> registered_names(ctx.functions).contains(fn_id.0@))
                && (plain_children(children@) ==> (args, final(self).evaluator.evaluated.state())
                    == gathered(children@, params@, 0, (None, None), old(self).evaluator.evaluated.state(), ctx.bindings@)),
            old(self).evaluator.root matches Expr::Fn { fn_id, .. } ==> (!registered_names(ctx.functions).contains(fn_id.0@) ==> r is None),
            calls_grow(old(self).evaluator.evaluated.calls(), final(self).evaluator.evaluated.calls()),
            trace_grows(old(self).evaluator.evaluated.trace(), final(self).evaluator.evaluated.trace()),
            ({
                let (o, t, rest, ok) = replay_child(old(self).evaluator.root, old(self).evaluator.evaluated.state(), ctx.bindings@,
                    registered_names(ctx.functions), EXPANSION_LIMIT as nat,
                    added(old(self).evaluator.evaluated.trace(), final(self).evaluator.evaluated.trace()));
                &&& r == data_of(o)
                &&& final(self).evaluator.evaluated.state() == t
                &&& rest.len() == 0
                &&& ok
            }),
            replays_history(final(self).evaluator.evaluated.state()),
    {
        let ghost t0 = self.evaluator.evaluated.trace();
        let ghost s0 = self.evaluator.evaluated.state();
        let output = Evaluator::eval_child_as_fn_output(
            &mut self.evaluator.evaluated,
            &self.evaluator.root,
            ctx,
            EXPANSION_LIMIT,
        );
        let ghost o = output;
        let ghost root = self.evaluator.root;
        proof {
            let seg = added(t0, self.evaluator.evaluated.trace());
            assert(seg + Seq::<Outside>::empty() =~= seg);
            assert(replay_child(root, s0, ctx.bindings@, registered_names(ctx.functions), EXPANSION_LIMIT as nat,
                seg + Seq::<Outside>::empty()) == (o, self.evaluator.evaluated.state(), Seq::<Outside>::empty(), true));
            if let Expr::Fn { id, fn_id, children, params } = root {
                let args = choose|args: (Option<Expr>, Option<Data>)|
                    #[trigger] self.evaluator.evaluated.calls().contains(call_of(id.0, fn_id.0@, args, o))
                    && (o is Some <==> registered_names(ctx.functions).contains(fn_id.0@))
                    && (plain_children(children@) ==> (args, self.evaluator.evaluated.state())
                        == gathered(children@, params@, 0, (None, None), old(self).evaluator.evaluated.state(), ctx.bindings@));
                assert(self.evaluator.evaluated.calls().contains(call_of(id.0, fn_id.0@, args, o)));
            }
            use_type_invariant(&self.evaluator.evaluated);
        }
        match output {
            None => None,
            Some(out) => {
                let (_, data) = out.into_parts();
                data
            },
        }
    }
}

} // verus!
