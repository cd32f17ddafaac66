//! A persistent (immutable, structurally shared) vector: a radix tree with
//! 32-way branching whose nodes are shared through `Arc` between versions.

use vstd::prelude::*;
use std::sync::Arc;
use vstd::std_specs::cmp::PartialEqSpec;
use vstd::std_specs::cmp::OrdSpec;

verus! {

/// Branching factor of the tree.
pub const NODE_CAPACITY: usize = 32;

/// Elements covered by one child of a branch at `level` (32 to the `level`):
/// a node at level `l` holds at most `span(l + 1)` elements.
pub open spec fn span(level: nat) -> nat
    decreases level,
{
    if level == 0 {
        1
    } else {
        32 * span((level - 1) as nat)
    }
}

/// Shares the value behind an `Arc` (calls `Arc::clone`): the clone points to
/// the same value.
#[verifier::external_body]
pub(crate) fn share<X>(a: &Arc<X>) -> (r: Arc<X>)
    ensures
        r == *a,
{
    a.clone()
}

/// Tree node. A leaf holds 1..=32 values; a branch at level `l >= 1` holds
/// 1..=32 children at level `l - 1`, all of them full but the last.
#[derive(Debug)]
enum Node<T> {
    Branch(BranchNode<T>),
    Leaf(LeafNode<T>),
}

#[derive(Debug)]
struct BranchNode<T> {
    children: Vec<Arc<Node<T>>>,
    level: usize,
}

#[derive(Debug)]
struct LeafNode<T> {
    values: Vec<Arc<T>>,
}

/// Level of a node: 0 for leaves.
spec fn level_of<T>(n: Node<T>) -> nat {
    match n {
        Node::Branch(b) => b.level as nat,
        Node::Leaf(_) => 0,
    }
}

/// The values a node holds, in index order.
spec fn elems<T>(n: Node<T>) -> Seq<Arc<T>>
    decreases n, 0nat,
{
    match n {
        Node::Leaf(l) => l.values@,
        Node::Branch(b) => elems_of_children(b.children@, b.children@.len()),
    }
}

/// The values of the first `k` children, in index order.
spec fn elems_of_children<T>(cs: Seq<Arc<Node<T>>>, k: nat) -> Seq<Arc<T>>
    decreases cs, k,
{
    if k == 0 || k > cs.len() {
        Seq::empty()
    } else {
        elems_of_children(cs, (k - 1) as nat) + elems(*cs[k - 1])
    }
}

/// The node invariant.
spec fn node_wf<T>(n: Node<T>) -> bool
    decreases n,
{
    match n {
        Node::Leaf(l) => 1 <= l.values@.len() <= 32,
        Node::Branch(b) => {
            &&& 1 <= b.level
            &&& 1 <= b.children@.len() <= 32
            &&& forall|i: int| 0 <= i < b.children@.len() ==> {
                &&& node_wf(*#[trigger] b.children@[i])
                &&& level_of(*b.children@[i]) == b.level - 1
                &&& i < b.children@.len() - 1 ==> elems(*b.children@[i]).len() == span(b.level as nat)
            }
        },
    }
}

proof fn lemma_span_pos(l: nat)
    ensures
        span(l) >= 1,
    decreases l,
{
    if l > 0 {
        lemma_span_pos((l - 1) as nat);
    }
}

/// The first `k` children, each full, hold `k * s` values, and value
/// `q * s + r` is value `r` of child `q`.
proof fn lemma_full_children<T>(cs: Seq<Arc<Node<T>>>, k: nat, s: nat)
    requires
        k <= cs.len(),
        forall|i: int| 0 <= i < k ==> elems(*#[trigger] cs[i]).len() == s,
    ensures
        elems_of_children(cs, k).len() == k * s,
        forall|q: int, r: int| 0 <= q < k && 0 <= r < s ==>
            elems_of_children(cs, k)[q * s + r] == elems(*cs[q])[r],
    decreases k,
{
    if k > 0 {
        lemma_full_children(cs, (k - 1) as nat, s);
        let prev = elems_of_children(cs, (k - 1) as nat);
        assert(elems(*cs[k - 1]).len() == s);
        assert(elems_of_children(cs, k) == prev + elems(*cs[k - 1]));
        assert(prev.len() == (k - 1) * s);
        assert(k * s == (k - 1) * s + s) by (nonlinear_arith);
        assert forall|q: int, r: int| 0 <= q < k && 0 <= r < s implies
            elems_of_children(cs, k)[q * s + r] == elems(*cs[q])[r] by {
            if q < k - 1 {
                assert(q * s + r < (k - 1) * s) by (nonlinear_arith)
                    requires q < k - 1, 0 <= r < s, 0 <= q;
            } else {
                assert(q * s == (k - 1) * s);
            }
        }
        assert(elems_of_children(cs, k).len() == k * s);
    } else {
        assert(elems_of_children(cs, k).len() == 0);
        assert(k * s == 0);
    }
}

/// A valid node holds between 1 and `span(level + 1)` values.
proof fn lemma_node_len<T>(n: Node<T>)
    requires
        node_wf(n),
    ensures
        1 <= elems(n).len() <= span(level_of(n) + 1),
    decreases n,
{
    match n {
        Node::Leaf(l) => {
            assert(span(0) == 1);
            assert(span(1) == 32);
        },
        Node::Branch(b) => {
            let cs = b.children@;
            let k = cs.len();
            let s = span(b.level as nat);
            lemma_full_children(cs, (k - 1) as nat, s);
            let last = *cs[k - 1];
            assert(node_wf(last));
            lemma_node_len(last);
            assert(elems(n) == elems_of_children(cs, (k - 1) as nat) + elems(last));
            assert(level_of(last) + 1 == b.level);
            assert(span(level_of(n) + 1) == 32 * s);
            assert((k - 1) * s + s <= 32 * s) by (nonlinear_arith)
                requires k <= 32;
            lemma_span_pos(s as nat);
        },
    }
}

/// `lemma_node_len` for a node behind a shared pointer.
proof fn lemma_root_len<T>(r: &Arc<Node<T>>)
    requires
        node_wf(**r),
    ensures
        1 <= elems(**r).len() <= span(level_of(**r) + 1),
{
    let n = **r;
    lemma_node_len(n);
}

impl<T> Node<T> {
    fn level(&self) -> (r: usize)
        ensures
            r == level_of(*self),
    {
        match self {
            Node::Branch(b) => b.level,
            Node::Leaf(_) => 0,
        }
    }

    fn length(&self) -> (r: usize)
        ensures
            r == node_len(*self),
    {
        match self {
            Node::Branch(b) => b.children.len(),
            Node::Leaf(l) => l.values.len(),
        }
    }

    fn is_leaf(&self) -> (r: bool)
        ensures
            r == (*self is Leaf),
    {
        match self {
            Node::Leaf(_) => true,
            _ => false,
        }
    }

    fn is_branch(&self) -> (r: bool)
        ensures
            r == (*self is Branch),
    {
        !self.is_leaf()
    }

    /// Values covered by one child: 32 to the node's level (1 for a leaf).
    fn child_span(&self) -> (r: usize)
        requires
            span(level_of(*self)) <= usize::MAX,
        ensures
            r == span(level_of(*self)),
    {
        let level = self.level();
        let mut s: usize = 1;
        let mut i: usize = 0;
        while i < level
            invariant
                i <= level,
                level == level_of(*self),
                s == span(i as nat),
                span(level as nat) <= usize::MAX,
            decreases level - i,
        {
            proof {
                lemma_span_mono((i + 1) as nat, level as nat);
            }
            s = s * 32;
            i = i + 1;
        }
        s
    }

    /// The value at `index`.
    fn get(&self, index: usize) -> (r: Option<Arc<T>>)
        requires
            node_wf(*self),
            span(level_of(*self)) <= usize::MAX,
            index < elems(*self).len(),
        ensures
            r == Some(elems(*self)[index as int]),
        decreases self,
    {
        match self {
            Node::Leaf(leaf) => Some(share(&leaf.values[index])),
            Node::Branch(branch) => {
                let child_span = self.child_span();
                proof {
                    lemma_span_pos(level_of(*self));
                }
                let child = index / child_span;
                let rest = index % child_span;
                proof {
                    lemma_locate(*branch, index as int);
                    let c = *branch.children@[child as int];
                    assert(decreases_to!(*self => c));
                    lemma_span_mono(level_of(c), branch.level as nat);
                }
                branch.children[child].get(rest)
            },
        }
    }
}

/// 32 to the `l` exceeds `l`.
proof fn lemma_span_exceeds(l: nat)
    ensures
        span(l) > l,
    decreases l,
{
    if l > 0 {
        lemma_span_exceeds((l - 1) as nat);
    }
}

proof fn lemma_span_mono(a: nat, b: nat)
    requires
        a <= b,
    ensures
        span(a) <= span(b),
    decreases b,
{
    if a < b {
        lemma_span_mono(a, (b - 1) as nat);
        lemma_span_pos((b - 1) as nat);
    }
}


/// The first `n` items of `v`, shared.
fn copy_prefix<X>(v: &Vec<Arc<X>>, n: usize) -> (r: Vec<Arc<X>>)
    requires
        n <= v@.len(),
    ensures
        r@ == v@.take(n as int),
{
    let mut r: Vec<Arc<X>> = Vec::new();
    let mut i: usize = 0;
    while i < n
        invariant
            i <= n <= v@.len(),
            r@ == v@.take(i as int),
        decreases n - i,
    {
        r.push(share(&v[i]));
        proof {
            assert(v@.take(i + 1) == v@.take(i as int).push(v@[i as int]));
        }
        i = i + 1;
    }
    r
}

/// `v` with item `idx` replaced by `x`.
fn copy_replacing<X>(v: &Vec<Arc<X>>, idx: usize, x: Arc<X>) -> (r: Vec<Arc<X>>)
    requires
        idx < v@.len(),
    ensures
        r@ == v@.update(idx as int, x),
{
    let mut r: Vec<Arc<X>> = copy_prefix(v, idx);
    r.push(x);
    let mut i: usize = r.len();
    proof {
        assert(r@ =~= v@.update(idx as int, x).take(i as int));
    }
    while i < v.len()
        invariant
            idx < i <= v@.len(),
            r@ == v@.update(idx as int, x).take(i as int),
        decreases v@.len() - i,
    {
        r.push(share(&v[i]));
        proof {
            assert(v@.update(idx as int, x).take(i + 1) == v@.update(idx as int, x).take(i as int).push(v@[i as int]));
        }
        i = i + 1;
    }
    proof {
        assert(v@.update(idx as int, x).take(i as int) == v@.update(idx as int, x));
    }
    r
}

/// Children that agree below `j` give the same values below `j`.
proof fn lemma_children_prefix<T>(cs: Seq<Arc<Node<T>>>, ds: Seq<Arc<Node<T>>>, j: nat)
    requires
        j <= cs.len(),
        j <= ds.len(),
        forall|i: int| 0 <= i < j ==> cs[i] == ds[i],
    ensures
        elems_of_children(cs, j) == elems_of_children(ds, j),
    decreases j,
{
    if j > 0 {
        lemma_children_prefix(cs, ds, (j - 1) as nat);
    }
}

/// The values of fewer children are a prefix of the values of more.
proof fn lemma_children_take<T>(cs: Seq<Arc<Node<T>>>, j: nat, k: nat)
    requires
        j <= k <= cs.len(),
    ensures
        elems_of_children(cs, j).len() <= elems_of_children(cs, k).len(),
        elems_of_children(cs, j) == elems_of_children(cs, k).take(elems_of_children(cs, j).len() as int),
    decreases k,
{
    if j < k {
        lemma_children_take(cs, j, (k - 1) as nat);
        let a = elems_of_children(cs, (k - 1) as nat);
        assert(elems_of_children(cs, k) == a + elems(*cs[k - 1]));
        assert((a + elems(*cs[k - 1])).take(elems_of_children(cs, j).len() as int)
            =~= a.take(elems_of_children(cs, j).len() as int));
    } else {
        assert(elems_of_children(cs, k).take(elems_of_children(cs, k).len() as int) == elems_of_children(cs, k));
    }
}

/// Replacing child `q` by one whose values differ at `r` changes the
/// concatenation at the offset of `r`.
proof fn lemma_children_update<T>(cs: Seq<Arc<Node<T>>>, q: nat, c: Arc<Node<T>>, r: nat, v: Arc<T>, k: nat)
    requires
        q < k <= cs.len(),
        r < elems(*cs[q as int]).len(),
        elems(*c) == elems(*cs[q as int]).update(r as int, v),
    ensures
        elems_of_children(cs.update(q as int, c), k)
            == elems_of_children(cs, k).update((elems_of_children(cs, q).len() + r) as int, v),
    decreases k,
{
    let ds = cs.update(q as int, c);
    lemma_children_take(cs, q + 1, k);
    assert(elems_of_children(cs, q + 1) == elems_of_children(cs, q) + elems(*cs[q as int]));
    if k == q + 1 {
        lemma_children_prefix(cs, ds, q);
        assert(elems_of_children(ds, k) == elems_of_children(ds, q) + elems(*c));
        assert(elems_of_children(ds, k) =~= elems_of_children(cs, k).update((elems_of_children(cs, q).len() + r) as int, v));
    } else {
        lemma_children_update(cs, q, c, r, v, (k - 1) as nat);
        lemma_children_take(cs, q + 1, (k - 1) as nat);
        assert(elems_of_children(cs, q + 1) == elems_of_children(cs, q) + elems(*cs[q as int]));
        assert(elems_of_children(ds, k) == elems_of_children(ds, (k - 1) as nat) + elems(*cs[k - 1]));
        assert(elems_of_children(ds, k) =~= elems_of_children(cs, k).update((elems_of_children(cs, q).len() + r) as int, v));
    }
}

/// A branch's values: its full children, then its last child.
proof fn lemma_branch_layout<T>(b: BranchNode<T>)
    requires
        node_wf(Node::Branch(b)),
    ensures
        ({
            let cs = b.children@;
            let k = cs.len();
            let s = span(b.level as nat);
            &&& elems(Node::Branch(b)) == elems_of_children(cs, (k - 1) as nat) + elems(*cs[k - 1])
            &&& elems_of_children(cs, (k - 1) as nat).len() == (k - 1) * s
            &&& node_wf(*cs[k - 1])
            &&& level_of(*cs[k - 1]) + 1 == b.level
            &&& 1 <= elems(*cs[k - 1]).len() <= s
            &&& s >= 1
            &&& span((b.level + 1) as nat) == 32 * s
        }),
{
    let cs = b.children@;
    let k = cs.len();
    let s = span(b.level as nat);
    lemma_span_pos(b.level as nat);
    lemma_full_children(cs, (k - 1) as nat, s);
    let last = *cs[k - 1];
    assert(node_wf(last));
    lemma_node_len(last);
}

/// A node with one value at `level`.
fn singleton<T>(level: usize, value: Arc<T>) -> (r: Arc<Node<T>>)
    ensures
        node_wf(*r),
        level_of(*r) == level,
        elems(*r) == seq![value],
    decreases level,
{
    if level == 0 {
        let mut values: Vec<Arc<T>> = Vec::new();
        values.push(value);
        return Arc::new(Node::Leaf(LeafNode { values }));
    }
    let child = singleton(level - 1, value);
    let mut children: Vec<Arc<Node<T>>> = Vec::new();
    children.push(child);
    let r = Node::Branch(BranchNode { children, level });
    proof {
        assert(children@[0] == child);
        assert(elems_of_children(children@, 0) == Seq::<Arc<T>>::empty());
        assert(elems(r) =~= seq![value]);
    }
    Arc::new(r)
}

enum PushResult<T> {
    Update(Arc<Node<T>>),
    Full,
}

impl<T> PushResult<T> {
    fn is_full(&self) -> (r: bool)
        ensures
            r == (*self is Full),
    {
        match self {
            PushResult::Full => true,
            _ => false,
        }
    }

    fn is_update(&self) -> (r: bool)
        ensures
            r == (*self is Update),
    {
        !self.is_full()
    }
}

enum PopResult<T> {
    Update(Arc<Node<T>>),
    Empty,
}

enum TruncateResult<T> {
    Node(Arc<Node<T>>),
    Empty,
}

enum ReplaceChildResult<T> {
    InvalidIndex,
    NotBranch,
    InvalidLevel,
    ReplacedNode(Arc<Node<T>>),
}

impl<T> ReplaceChildResult<T> {
    fn unwrap(self) -> (r: Arc<Node<T>>)
        requires
            self is ReplacedNode,
        ensures
            self == ReplaceChildResult::ReplacedNode(r),
    {
        match self {
            ReplaceChildResult::ReplacedNode(node) => node,
            _ => vstd::pervasive::unreached(),
        }
    }
}

enum AppendChildResult<T> {
    Full,
    NotBranch,
    InvalidLevel,
    AppendNode(Arc<Node<T>>),
}

impl<T> AppendChildResult<T> {
    fn unwrap(self) -> (r: Arc<Node<T>>)
        requires
            self is AppendNode,
        ensures
            self == AppendChildResult::AppendNode(r),
    {
        match self {
            AppendChildResult::AppendNode(node) => node,
            _ => vstd::pervasive::unreached(),
        }
    }
}


/// Where value `index` of a branch lives: in child `index / s` at offset
/// `index % s`, where `s` is the span of one child.
proof fn lemma_locate<T>(b: BranchNode<T>, index: int)
    requires
        node_wf(Node::Branch(b)),
        0 <= index,
    ensures
        ({
            let cs = b.children@;
            let k = cs.len() as int;
            let s = span(b.level as nat) as int;
            let q = index / s;
            let r = index % s;
            &&& s >= 1
            &&& 0 <= q
            &&& 0 <= r < s
            &&& index == q * s + r
            &&& (index < elems(Node::Branch(b)).len() <==> (q < k && r < elems(*cs[q]).len()))
            &&& (index < elems(Node::Branch(b)).len() ==> elems(Node::Branch(b))[index] == elems(*cs[q])[r])
            &&& (q < k - 1 ==> r < elems(*cs[q]).len())
            &&& (q < k ==> elems_of_children(cs, q as nat).len() == q * s)
        }),
{
    let cs = b.children@;
    let k = cs.len() as int;
    let s = span(b.level as nat) as int;
    lemma_branch_layout(b);
    let q = index / s;
    let r = index % s;
    assert(index == s * q + r && 0 <= r < s) by {
        vstd::arithmetic::div_mod::lemma_fundamental_div_mod(index, s);
    }
    assert(index == q * s + r) by (nonlinear_arith)
        requires index == s * q + r;
    assert(0 <= q) by (nonlinear_arith)
        requires index == q * s + r, 0 <= index, r < s, s >= 1;
    let full = elems_of_children(cs, (k - 1) as nat);
    lemma_full_children(cs, (k - 1) as nat, s as nat);
    if q < k - 1 {
        assert(index < (k - 1) * s) by (nonlinear_arith)
            requires q < k - 1, 0 <= r < s, 0 <= q, index == q * s + r;
        assert(full[q * s + r] == elems(*cs[q])[r]);
        assert(elems(*cs[q]).len() == s);
    } else if q == k - 1 {
        assert(q * s == (k - 1) * s);
    } else {
        assert(q * s >= k * s) by (nonlinear_arith)
            requires q >= k, s >= 1;
        assert(k * s == (k - 1) * s + s) by (nonlinear_arith);
    }
    if q < k {
        assert forall|i: int| 0 <= i < q implies elems(*#[trigger] cs[i]).len() == s by {
            assert(node_wf(*cs[i]));
        }
        lemma_full_children(cs, q as nat, s as nat);
    }
}

/// Children that hold the same number of values as before, in a branch whose
/// other facts are unchanged, keep the branch valid.
proof fn lemma_branch_wf_update<T>(b: BranchNode<T>, q: int, c: Arc<Node<T>>, nb: BranchNode<T>)
    requires
        node_wf(Node::Branch(b)),
        0 <= q < b.children@.len(),
        node_wf(*c),
        level_of(*c) == b.level - 1,
        q < b.children@.len() - 1 ==> elems(*c).len() == span(b.level as nat),
        nb.level == b.level,
        nb.children@ == b.children@.update(q, c),
    ensures
        node_wf(Node::Branch(nb)),
{
    let cs = nb.children@;
    assert forall|i: int| 0 <= i < cs.len() implies {
        &&& node_wf(*#[trigger] cs[i])
        &&& level_of(*cs[i]) == nb.level - 1
        &&& i < cs.len() - 1 ==> elems(*cs[i]).len() == span(nb.level as nat)
    } by {
        if i != q {
            assert(cs[i] == b.children@[i]);
        }
    }
}

/// The values of the first `j + 1` children.
proof fn lemma_children_step<T>(cs: Seq<Arc<Node<T>>>, j: nat)
    requires
        j < cs.len(),
    ensures
        elems_of_children(cs, j + 1) == elems_of_children(cs, j) + elems(*cs[j as int]),
{
}

impl<T> Node<T> {
    /// A copy of this node with value `index` replaced by `value`, or `None`
    /// where `index` is out of range.
    fn set(&self, index: usize, value: Arc<T>) -> (r: Option<Arc<Node<T>>>)
        requires
            node_wf(*self),
            span(level_of(*self)) <= usize::MAX,
        ensures
            r is Some <==> index < elems(*self).len(),
            r matches Some(n) ==> {
                &&& node_wf(*n)
                &&& level_of(*n) == level_of(*self)
                &&& elems(*n) == elems(*self).update(index as int, value)
            },
        decreases self,
    {
        match self {
            Node::Leaf(leaf) => {
                if index >= leaf.values.len() {
                    return None;
                }
                let values = copy_replacing(&leaf.values, index, value);
                Some(Arc::new(Node::Leaf(LeafNode { values })))
            },
            Node::Branch(branch) => {
                let child_span = self.child_span();
                proof {
                    lemma_span_pos(level_of(*self));
                    lemma_locate(*branch, index as int);
                }
                let child = index / child_span;
                let rest = index % child_span;
                if child >= branch.children.len() {
                    return None;
                }
                proof {
                    let c = *branch.children@[child as int];
                    assert(node_wf(c));
                    assert(decreases_to!(*self => c));
                    lemma_span_mono(level_of(c), branch.level as nat);
                }
                let new_child = match branch.children[child].set(rest, value) {
                    Some(c) => c,
                    None => {
                        return None;
                    },
                };
                let children = copy_replacing(&branch.children, child, new_child);
                let nb = BranchNode { children, level: branch.level };
                proof {
                    let cs = branch.children@;
                    lemma_branch_wf_update(*branch, child as int, new_child, nb);
                    lemma_children_update(cs, child as nat, new_child, rest as nat, value, cs.len());
                }
                Some(Arc::new(Node::Branch(nb)))
            },
        }
    }

    /// A copy of this branch with child `index` replaced.
    fn replace_child(&self, index: usize, child: Arc<Node<T>>) -> (r: ReplaceChildResult<T>)
        requires
            node_wf(*self),
        ensures
            index >= node_len(*self) ==> r is InvalidIndex,
            index < node_len(*self) && *self is Leaf ==> r is NotBranch,
            index < node_len(*self) && *self is Branch && level_of(*self) - 1 != level_of(*child)
                ==> r is InvalidLevel,
            index < node_len(*self) && *self is Branch && level_of(*self) - 1 == level_of(*child)
                ==> (r matches ReplaceChildResult::ReplacedNode(n) && *n is Branch
                    && level_of(*n) == level_of(*self)
                    && children_of(*n) == children_of(*self).update(index as int, child)),
    {
        if index >= self.length() {
            return ReplaceChildResult::InvalidIndex;
        }
        match self {
            Node::Leaf(_) => ReplaceChildResult::NotBranch,
            Node::Branch(branch) => {
                if branch.level - 1 != child.level() {
                    return ReplaceChildResult::InvalidLevel;
                }
                let children = copy_replacing(&branch.children, index, child);
                ReplaceChildResult::ReplacedNode(
                    Arc::new(Node::Branch(BranchNode { children, level: branch.level })),
                )
            },
        }
    }

    /// A copy of this branch with `child` added after its last child.
    fn append_child(&self, child: Arc<Node<T>>) -> (r: AppendChildResult<T>)
        requires
            node_wf(*self),
        ensures
            node_len(*self) == NODE_CAPACITY ==> r is Full,
            node_len(*self) != NODE_CAPACITY && *self is Leaf ==> r is NotBranch,
            node_len(*self) != NODE_CAPACITY && *self is Branch && level_of(*self) - 1 != level_of(*child)
                ==> r is InvalidLevel,
            node_len(*self) != NODE_CAPACITY && *self is Branch && level_of(*self) - 1 == level_of(*child)
                ==> (r matches AppendChildResult::AppendNode(n) && *n is Branch
                    && level_of(*n) == level_of(*self)
                    && children_of(*n) == children_of(*self).push(child)),
    {
        if self.length() == NODE_CAPACITY {
            return AppendChildResult::Full;
        }
        match self {
            Node::Leaf(_) => AppendChildResult::NotBranch,
            Node::Branch(branch) => {
                if branch.level - 1 != child.level() {
                    return AppendChildResult::InvalidLevel;
                }
                let mut children = copy_prefix(&branch.children, branch.children.len());
                children.push(child);
                proof {
                    assert(branch.children@.take(branch.children@.len() as int) == branch.children@);
                }
                AppendChildResult::AppendNode(
                    Arc::new(Node::Branch(BranchNode { children, level: branch.level })),
                )
            },
        }
    }
}

/// Number of children of a branch, or of values of a leaf.
spec fn node_len<T>(n: Node<T>) -> nat {
    match n {
        Node::Branch(b) => b.children@.len(),
        Node::Leaf(l) => l.values@.len(),
    }
}

/// The children of a branch (none for a leaf).
spec fn children_of<T>(n: Node<T>) -> Seq<Arc<Node<T>>> {
    match n {
        Node::Branch(b) => b.children@,
        Node::Leaf(_) => Seq::empty(),
    }
}


/// The branch of a node that is a branch.
spec fn branch_of<T>(n: Arc<Node<T>>) -> BranchNode<T> {
    match *n {
        Node::Branch(b) => b,
        Node::Leaf(_) => arbitrary(),
    }
}

/// The first `j` children of a valid branch, `j >= 1`, form a valid branch.
proof fn lemma_branch_wf_prefix<T>(b: BranchNode<T>, j: int, nb: BranchNode<T>)
    requires
        node_wf(Node::Branch(b)),
        1 <= j <= b.children@.len(),
        nb.level == b.level,
        nb.children@ == b.children@.take(j),
    ensures
        node_wf(Node::Branch(nb)),
{
    let cs = nb.children@;
    assert forall|i: int| 0 <= i < cs.len() implies {
        &&& node_wf(*#[trigger] cs[i])
        &&& level_of(*cs[i]) == nb.level - 1
        &&& i < cs.len() - 1 ==> elems(*cs[i]).len() == span(nb.level as nat)
    } by {
        assert(cs[i] == b.children@[i]);
    }
}

/// Full children of a valid branch followed by one more valid child form a
/// valid branch.
proof fn lemma_branch_wf_push<T>(b: BranchNode<T>, j: int, c: Arc<Node<T>>, nb: BranchNode<T>)
    requires
        node_wf(Node::Branch(b)),
        0 <= j <= b.children@.len(),
        j + 1 <= 32,
        forall|i: int| 0 <= i < j ==> elems(*#[trigger] b.children@[i]).len() == span(b.level as nat),
        node_wf(*c),
        level_of(*c) == b.level - 1,
        nb.level == b.level,
        nb.children@ == b.children@.take(j).push(c),
    ensures
        node_wf(Node::Branch(nb)),
{
    let cs = nb.children@;
    assert forall|i: int| 0 <= i < cs.len() implies {
        &&& node_wf(*#[trigger] cs[i])
        &&& level_of(*cs[i]) == nb.level - 1
        &&& i < cs.len() - 1 ==> elems(*cs[i]).len() == span(nb.level as nat)
    } by {
        if i < j {
            assert(cs[i] == b.children@[i]);
        }
    }
}

/// The values of the first `j` children followed by `c`.
proof fn lemma_children_push<T>(cs: Seq<Arc<Node<T>>>, j: nat, c: Arc<Node<T>>)
    requires
        j <= cs.len(),
    ensures
        elems_of_children(cs.take(j as int), j) == elems_of_children(cs, j),
        elems_of_children(cs.take(j as int).push(c), j + 1) == elems_of_children(cs, j) + elems(*c),
{
    let ds = cs.take(j as int).push(c);
    lemma_children_prefix(cs, cs.take(j as int), j);
    lemma_children_prefix(cs, ds, j);
    lemma_children_step(ds, j);
}

impl<T> Node<T> {
    /// This node with `value` added after its last value, or `Full` where the
    /// node already holds all the values its level allows.
    fn try_push(&self, value: Arc<T>) -> (r: PushResult<T>)
        requires
            node_wf(*self),
            span(level_of(*self)) <= usize::MAX,
        ensures
            r is Full <==> elems(*self).len() == span(level_of(*self) + 1),
            r matches PushResult::Update(n) ==> {
                &&& node_wf(*n)
                &&& level_of(*n) == level_of(*self)
                &&& elems(*n) == elems(*self).push(value)
            },
        decreases self,
    {
        match self {
            Node::Leaf(leaf) => {
                proof {
                    assert(span(0) == 1);
                    assert(span(1) == 32);
                }
                if leaf.values.len() == NODE_CAPACITY {
                    PushResult::Full
                } else {
                    let mut values = copy_prefix(&leaf.values, leaf.values.len());
                    values.push(value);
                    proof {
                        assert(leaf.values@.take(leaf.values@.len() as int) == leaf.values@);
                    }
                    PushResult::Update(Arc::new(Node::Leaf(LeafNode { values })))
                }
            },
            Node::Branch(branch) => {
                let last = branch.children.len() - 1;
                let ghost cs = branch.children@;
                let ghost k = cs.len();
                let ghost s = span(branch.level as nat);
                proof {
                    lemma_branch_layout(*branch);
                    let c = *cs[last as int];
                    assert(decreases_to!(*self => c));
                    lemma_span_mono(level_of(c), branch.level as nat);
                }
                match branch.children[last].try_push(share(&value)) {
                    PushResult::Update(updated) => {
                        let replaced = self.replace_child(last, updated).unwrap();
                        let ghost nb = branch_of(replaced);
                        proof {
                            assert(Node::Branch(nb) == *replaced);
                            lemma_branch_wf_update(*branch, last as int, updated, nb);
                            lemma_children_push(cs, (k - 1) as nat, updated);
                            lemma_children_push(cs, (k - 1) as nat, cs[k - 1]);
                            assert(cs.take(k - 1).push(updated) == nb.children@);
                            assert(cs.take(k - 1).push(cs[k - 1]) == cs);
                            assert((k - 1) * s + elems(*cs[k - 1]).len() < 32 * s) by (nonlinear_arith)
                                requires k <= 32, elems(*cs[k - 1]).len() < s;
                        }
                        PushResult::Update(replaced)
                    },
                    PushResult::Full => {
                        proof {
                            assert((k - 1) * s + s == k * s) by (nonlinear_arith);
                            assert(k * s == 32 * s <==> k == 32) by (nonlinear_arith)
                                requires s >= 1;
                        }
                        if branch.children.len() == NODE_CAPACITY {
                            PushResult::Full
                        } else {
                            let single = singleton(branch.level - 1, value);
                            let appended = self.append_child(single).unwrap();
                            let ghost nb = branch_of(appended);
                            proof {
                                assert(Node::Branch(nb) == *appended);
                                assert(cs.take(k as int) == cs);
                                assert forall|i: int| 0 <= i < k implies elems(*#[trigger] cs[i]).len() == s by {
                                    assert(node_wf(*cs[i]));
                                }
                                lemma_branch_wf_push(*branch, k as int, single, nb);
                                lemma_children_push(cs, k, single);
                                lemma_full_children(cs, k, s);
                                assert(k * s != 32 * s);
                            }
                            PushResult::Update(appended)
                        }
                    },
                }
            },
        }
    }
}


impl<T> Node<T> {
    /// This node without its last value, or `Empty` where that was its only
    /// value.
    fn pop(&self) -> (r: PopResult<T>)
        requires
            node_wf(*self),
        ensures
            r is Empty <==> elems(*self).len() == 1,
            r matches PopResult::Update(n) ==> {
                &&& node_wf(*n)
                &&& level_of(*n) == level_of(*self)
                &&& elems(*n) == elems(*self).drop_last()
            },
        decreases self,
    {
        match self {
            Node::Leaf(leaf) => {
                if leaf.values.len() == 1 {
                    return PopResult::Empty;
                }
                let values = copy_prefix(&leaf.values, leaf.values.len() - 1);
                PopResult::Update(Arc::new(Node::Leaf(LeafNode { values })))
            },
            Node::Branch(branch) => {
                let last = branch.children.len() - 1;
                let ghost cs = branch.children@;
                let ghost k = cs.len();
                let ghost s = span(branch.level as nat);
                proof {
                    lemma_branch_layout(*branch);
                    let c = *cs[last as int];
                    assert(decreases_to!(*self => c));
                    lemma_children_push(cs, (k - 1) as nat, cs[k - 1]);
                    assert(cs.take(k - 1).push(cs[k - 1]) == cs);
                    assert((k - 1) * s >= k - 1) by (nonlinear_arith)
                        requires s >= 1, k >= 1;
                }
                match branch.children[last].pop() {
                    PopResult::Update(new_child) => {
                        let children = copy_replacing(&branch.children, last, new_child);
                        let nb = BranchNode { children, level: branch.level };
                        proof {
                            lemma_branch_wf_update(*branch, last as int, new_child, nb);
                            lemma_children_push(cs, (k - 1) as nat, new_child);
                            assert(cs.take(k - 1).push(new_child) == nb.children@);
                            let p = elems_of_children(cs, (k - 1) as nat);
                            let lc = *cs[k - 1];
                            let l = elems(lc);
                            assert((p + l).drop_last() == p + l.drop_last());
                        }
                        PopResult::Update(Arc::new(Node::Branch(nb)))
                    },
                    PopResult::Empty => {
                        let children = copy_prefix(&branch.children, last);
                        if children.len() == 0 {
                            return PopResult::Empty;
                        }
                        let nb = BranchNode { children, level: branch.level };
                        proof {
                            lemma_branch_wf_prefix(*branch, last as int, nb);
                            let p = elems_of_children(cs, (k - 1) as nat);
                            let lc = *cs[k - 1];
                            let l = elems(lc);
                            assert((p + l).drop_last() == p);
                        }
                        PopResult::Update(Arc::new(Node::Branch(nb)))
                    },
                }
            },
        }
    }

    /// This node cut down to its first `len` values, or `Empty` for none.
    fn truncate(&self, len: usize) -> (r: TruncateResult<T>)
        requires
            node_wf(*self),
            span(level_of(*self)) <= usize::MAX,
            len <= elems(*self).len(),
        ensures
            r is Empty <==> len == 0,
            r matches TruncateResult::Node(n) ==> {
                &&& node_wf(*n)
                &&& level_of(*n) == level_of(*self)
                &&& elems(*n) == elems(*self).take(len as int)
            },
        decreases self,
    {
        match self {
            Node::Leaf(leaf) => {
                if len == 0 {
                    return TruncateResult::Empty;
                }
                let values = copy_prefix(&leaf.values, len);
                TruncateResult::Node(Arc::new(Node::Leaf(LeafNode { values })))
            },
            Node::Branch(branch) => {
                let span = self.child_span();
                let ghost cs = branch.children@;
                let ghost k = cs.len() as int;
                let ghost e = elems(*self);
                proof {
                    lemma_span_pos(level_of(*self));
                    lemma_branch_layout(*branch);
                    lemma_locate(*branch, len as int);
                }
                let child_index = len / span;
                let child_len = len % span;
                let ghost ci = child_index as int;
                let ghost cl = child_len as int;
                let ghost s = span as int;
                proof {
                    assert(ci * s <= len);
                    assert((k - 1) * s + s == k * s) by (nonlinear_arith);
                    assert(ci <= k) by (nonlinear_arith)
                        requires ci * s <= k * s, s >= 1;
                    if cl != 0 {
                        assert(ci < k) by (nonlinear_arith)
                            requires ci * s + cl <= k * s, cl > 0, s >= 1, ci <= k;
                    }
                    if ci < k {
                        lemma_children_take(cs, ci as nat, k as nat);
                    } else {
                        assert(elems_of_children(cs, k as nat) == e);
                        assert(e.take(len as int) == e);
                    }
                }
                let mut children = copy_prefix(&branch.children, child_index);
                proof {
                    lemma_children_push(cs, ci as nat, cs[0]);
                }
                if child_len != 0 {
                    proof {
                        let c = *cs[ci];
                        assert(node_wf(c));
                        assert(decreases_to!(*self => c));
                        lemma_span_mono(level_of(c), branch.level as nat);
                        lemma_children_step(cs, ci as nat);
                        lemma_children_take(cs, (ci + 1) as nat, k as nat);
                    }
                    match branch.children[child_index].truncate(child_len) {
                        TruncateResult::Empty => {},
                        TruncateResult::Node(new_child) => {
                            proof {
                                lemma_children_push(cs, ci as nat, new_child);
                                assert forall|i: int| 0 <= i < ci implies elems(*#[trigger] cs[i]).len() == s by {
                                    assert(node_wf(*cs[i]));
                                }
                                let pre = elems_of_children(cs, ci as nat);
                                let cn = *cs[ci];
                                let c = elems(cn);
                                assert(e.take(len as int) == (pre + c).take(len as int));
                                assert((pre + c).take(len as int) == pre + c.take(cl));
                            }
                            children.push(new_child);
                        },
                    }
                }
                if children.len() == 0 {
                    return TruncateResult::Empty;
                }
                let nb = BranchNode { children, level: branch.level };
                proof {
                    if cl == 0 {
                        lemma_branch_wf_prefix(*branch, ci, nb);
                    } else {
                        lemma_branch_wf_push(*branch, ci, nb.children@[ci], nb);
                    }
                }
                TruncateResult::Node(Arc::new(Node::Branch(nb)))
            },
        }
    }
}


/// An immutable vector: every operation returns a new version and leaves the
/// one it was called on as it was; versions share their unchanged nodes.
#[derive(Debug)]
pub struct PersistentVector<T> {
    root: Option<Arc<Node<T>>>,
    size: usize,
    height: usize,
}

impl<T> View for PersistentVector<T> {
    type V = Seq<Arc<T>>;

    /// The values, in index order.
    closed spec fn view(&self) -> Seq<Arc<T>> {
        match self.root {
            Some(r) => elems(*r),
            None => Seq::empty(),
        }
    }
}

impl<T> PersistentVector<T> {
    /// An empty vector has no root and height 0; otherwise the root is a
    /// valid node at level `height` holding `size` values.
    #[verifier::type_invariant]
    spec fn inv(&self) -> bool {
        match self.root {
            None => self.size == 0 && self.height == 0,
            Some(r) => {
                &&& node_wf(*r)
                &&& level_of(*r) == self.height
                &&& elems(*r).len() == self.size
                &&& span(self.height as nat) <= usize::MAX
            },
        }
    }

    /// Height of the tree: the level of its root (0 when empty).
    pub closed spec fn tree_height(&self) -> nat {
        self.height as nat
    }

    /// The height after pushing onto a vector of `len` values at height `h`:
    /// the tree grows by one level when its root is full.
    pub open spec fn height_after_push(len: nat, h: nat) -> nat {
        if len == 0 {
            0
        } else if len == span(h + 1) {
            h + 1
        } else {
            h
        }
    }

    pub fn new() -> (r: Self)
        ensures
            r@ == Seq::<Arc<T>>::empty(),
            r.tree_height() == 0,
    {
        PersistentVector { root: None, size: 0, height: 0 }
    }

    pub fn len(&self) -> (r: usize)
        ensures
            r == self@.len(),
    {
        proof {
            use_type_invariant(self);
        }
        self.size
    }

    pub fn height(&self) -> (r: usize)
        ensures
            r == self.tree_height(),
    {
        self.height
    }

    /// 32 to the height of the tree.
    pub fn capacity(&self) -> (r: usize)
        ensures
            r == span(self.tree_height()),
    {
        proof {
            use_type_invariant(self);
        }
        let mut c: usize = 1;
        let mut i: usize = 0;
        while i < self.height
            invariant
                i <= self.height,
                c == span(i as nat),
                span(self.height as nat) <= usize::MAX,
            decreases self.height - i,
        {
            proof {
                lemma_span_mono((i + 1) as nat, self.height as nat);
            }
            c = c * NODE_CAPACITY;
            i = i + 1;
        }
        c
    }

    pub fn is_empty(&self) -> (r: bool)
        ensures
            r == (self@.len() == 0),
    {
        proof {
            use_type_invariant(self);
        }
        self.size == 0
    }

    pub fn first(&self) -> (r: Option<Arc<T>>)
        ensures
            r == (if self@.len() > 0 { Some(self@[0]) } else { None }),
    {
        self.get(0)
    }

    pub fn last(&self) -> (r: Option<Arc<T>>)
        ensures
            r == (if self@.len() > 0 { Some(self@.last()) } else { None }),
    {
        if self.is_empty() {
            return None;
        }
        self.get(self.len() - 1)
    }

    /// The value at `index`, or `None` past the end.
    pub fn get(&self, index: usize) -> (r: Option<Arc<T>>)
        ensures
            r == value_at(self@, index as int),
    {
        proof {
            use_type_invariant(self);
        }
        if index >= self.size {
            return None;
        }
        match &self.root {
            Some(root) => root.get(index),
            None => None,
        }
    }

    /// A copy with value `index` replaced by `value`; on an empty vector,
    /// index 0 gives a vector of that one value.
    pub fn set(&self, index: usize, value: T) -> (r: Result<Self, String>)
        ensures
            r is Ok <==> (index < self@.len() || (self@.len() == 0 && index == 0)),
            r matches Ok(v) ==> {
                &&& replaced(self@, index as int, value, v@)
                &&& v.tree_height() == self.tree_height()
            },
            r matches Err(e) ==> e@ == "invalid index. check to index"@,
    {
        proof {
            use_type_invariant(self);
        }
        match &self.root {
            None => {
                if index == 0 {
                    let root = singleton(0, Arc::new(value));
                    proof {
                        assert(span(0) == 1);
                    }
                    return Ok(PersistentVector { root: Some(root), size: 1, height: 0 });
                }
            },
            Some(root) => {
                proof {
                    lemma_root_len(root);
                }
                if index < self.size {
                    let new_root = root.set(index, Arc::new(value));
                    match new_root {
                        Some(r) => {
                            return Ok(PersistentVector { root: Some(r), size: self.size, height: self.height });
                        },
                        None => {},
                    }
                }
            },
        }
        Err("invalid index. check to index".to_owned())
    }

    /// A copy with value `index` replaced by `f` applied to it.
    pub fn update<F>(&self, index: usize, f: F) -> (r: Result<Self, String>)
        where
            F: FnOnce(&T) -> T,
        requires
            index < self@.len() ==> f.requires((&*self@[index as int],)),
        ensures
            r is Ok <==> index < self@.len(),
            r matches Ok(v) ==> {
                &&& v@.len() == self@.len()
                &&& f.ensures((&*self@[index as int],), *v@[index as int])
                &&& forall|j: int| 0 <= j < self@.len() && j != index ==> v@[j] == self@[j]
                &&& v.tree_height() == self.tree_height()
            },
            r matches Err(e) ==> e@ == "invalid index"@,
    {
        proof {
            use_type_invariant(self);
        }
        let old = match self.get(index) {
            Some(old) => old,
            None => {
                return Err("invalid index".to_owned());
            },
        };
        let new_value = Arc::new(f(&*old));
        let root = match &self.root {
            Some(root) => root,
            None => {
                return Err("empty vector".to_owned());
            },
        };
        let root = match root.set(index, new_value) {
            Some(root) => root,
            None => {
                return Err("set failed".to_owned());
            },
        };
        Ok(PersistentVector { root: Some(root), size: self.size, height: self.height })
    }

    /// A copy without the last value, or `None` when empty.
    pub fn pop(&self) -> (r: Option<Self>)
        ensures
            r is None <==> self@.len() == 0,
            r matches Some(v) ==> {
                &&& v@ == self@.drop_last()
                &&& v.tree_height() == (if self@.len() == 1 { 0 } else { self.tree_height() })
            },
    {
        proof {
            use_type_invariant(self);
        }
        if self.size == 0 {
            return None;
        }
        let root = match &self.root {
            Some(root) => root,
            None => {
                return None;
            },
        };
        match root.pop() {
            PopResult::Empty => Some(Self::new()),
            PopResult::Update(new_root) => {
                let height = new_root.level();
                Some(PersistentVector { root: Some(new_root), size: self.size - 1, height })
            },
        }
    }

    /// A copy of the first `len` values.
    pub fn truncate(&self, len: usize) -> (r: Self)
        requires
            len <= self@.len(),
        ensures
            r@ == self@.take(len as int),
            r.tree_height() == (if len == 0 { 0 } else { self.tree_height() }),
    {
        proof {
            use_type_invariant(self);
        }
        if len == 0 {
            return Self::new();
        }
        if len == self.size {
            proof {
                assert(self@.take(len as int) == self@);
            }
            return self.clone();
        }
        let root = match &self.root {
            Some(root) => root,
            None => {
                return Self::new();
            },
        };
        match root.truncate(len) {
            TruncateResult::Empty => Self::new(),
            TruncateResult::Node(new_root) => {
                let height = new_root.level();
                PersistentVector { root: Some(new_root), size: len, height }
            },
        }
    }

    /// An empty vector.
    pub fn clear(&self) -> (r: Self)
        ensures
            r@ == Seq::<Arc<T>>::empty(),
            r.tree_height() == 0,
    {
        Self::new()
    }

    /// A copy with `value` added at the end.
    pub fn push(&self, value: Arc<T>) -> (r: Self)
        requires
            self@.len() < usize::MAX,
        ensures
            r@ == self@.push(value),
            r.tree_height() == Self::height_after_push(self@.len(), self.tree_height()),
    {
        proof {
            use_type_invariant(self);
        }
        match &self.root {
            None => {
                let root = singleton(0, value);
                proof {
                    assert(span(0) == 1);
                }
                PersistentVector { root: Some(root), size: 1, height: 0 }
            },
            Some(root) => {
                proof {
                    lemma_root_len(root);
                }
                match root.try_push(share(&value)) {
                    PushResult::Update(new_root) => {
                        PersistentVector { root: Some(new_root), size: self.size + 1, height: self.height }
                    },
                    PushResult::Full => {
                        proof {
                            lemma_span_exceeds((self.height + 1) as nat);
                        }
                        let new_child = singleton(self.height, value);
                        let mut children: Vec<Arc<Node<T>>> = Vec::new();
                        children.push(share(root));
                        children.push(new_child);
                        let branch = BranchNode { children, level: self.height + 1 };
                        proof {
                            let cs = branch.children@;
                            assert(cs[0] == *root);
                            assert(cs[1] == new_child);
                            assert(node_wf(*cs[0]));
                            assert(node_wf(*cs[1]));
                            assert(span((self.height + 1) as nat) == self.size);
                            lemma_children_step(cs, 0);
                            lemma_children_step(cs, 1);
                            assert(elems(Node::Branch(branch)) == elems_of_children(cs, 2));
                            assert(elems_of_children(cs, 0) == Seq::<Arc<T>>::empty());
                            assert(elems(Node::Branch(branch)) =~= self@.push(value));
                        }
                        PersistentVector {
                            root: Some(Arc::new(Node::Branch(branch))),
                            size: self.size + 1,
                            height: self.height + 1,
                        }
                    },
                }
            },
        }
    }

    /// A copy with `value` inserted before value `index`.
    pub fn insert(&self, index: usize, value: T) -> (r: Self)
        requires
            index <= self@.len(),
            self@.len() < usize::MAX,
        ensures
            r@ == self@.insert(index as int, r@[index as int]),
            *r@[index as int] == value,
    {
        let n = self.len();
        let value = Arc::new(value);
        let mut result = Self::new();
        let mut i: usize = 0;
        while i < index
            invariant
                i <= index <= n == self@.len(),
                n < usize::MAX,
                result@ == self@.take(i as int),
            decreases index - i,
        {
            match self.get(i) {
                Some(v) => {
                    result = result.push(v);
                },
                None => {},
            }
            proof {
                assert(self@.take(i + 1) == self@.take(i as int).push(self@[i as int]));
            }
            i = i + 1;
        }
        result = result.push(share(&value));
        while i < n
            invariant
                index <= i <= n == self@.len(),
                n < usize::MAX,
                result@ == self@.take(index as int).push(value) + self@.subrange(index as int, i as int),
            decreases n - i,
        {
            match self.get(i) {
                Some(v) => {
                    result = result.push(v);
                },
                None => {},
            }
            proof {
                assert(self@.subrange(index as int, i + 1) == self@.subrange(index as int, i as int).push(self@[i as int]));
            }
            i = i + 1;
        }
        proof {
            assert(result@ =~= self@.insert(index as int, value));
        }
        result
    }

    /// A copy without value `index`.
    pub fn remove(&self, index: usize) -> (r: Self)
        requires
            index < self@.len(),
        ensures
            r@ == self@.remove(index as int),
    {
        let n = self.len();
        let mut result = Self::new();
        let mut i: usize = 0;
        while i < n
            invariant
                index < n == self@.len(),
                i <= n,
                result@ == (if i <= index { self@.take(i as int) } else { self@.take(i as int).remove(index as int) }),
            decreases n - i,
        {
            if i != index {
                match self.get(i) {
                    Some(v) => {
                        result = result.push(v);
                    },
                    None => {},
                }
            }
            proof {
                assert(self@.take(i + 1) == self@.take(i as int).push(self@[i as int]));
                if i > index {
                    assert(self@.take(i + 1).remove(index as int) == self@.take(i as int).remove(index as int).push(self@[i as int]));
                } else if i == index {
                    assert(self@.take(i + 1).remove(index as int) == self@.take(i as int));
                }
            }
            i = i + 1;
        }
        proof {
            assert(self@.take(n as int) == self@);
        }
        result
    }

    /// An iterator over the values, from either end.
    pub fn iter(&self) -> (r: Iter<T>)
        ensures
            r@ == self@,
    {
        let vector = self.clone();
        let back = vector.len();
        proof {
            assert(vector@.subrange(0, back as int) == vector@);
        }
        Iter { vector, front: 0, back }
    }

    /// Whether some value equals `value`.
    pub fn contains(&self, value: &T) -> (r: bool)
        where
            T: PartialEq,
        ensures
            T::obeys_eq_spec() ==> (r <==> exists|i: int| 0 <= i < self@.len() && (*self@[i]).eq_spec(value)),
    {
        let n = self.len();
        let mut i: usize = 0;
        while i < n
            invariant
                i <= n == self@.len(),
                T::obeys_eq_spec() ==> forall|j: int| 0 <= j < i ==> !(*self@[j]).eq_spec(value),
            decreases n - i,
        {
            match self.get(i) {
                Some(item) => {
                    let x: &T = &*item;
                    if x.eq(value) {
                        return true;
                    }
                },
                None => {},
            }
            i = i + 1;
        }
        false
    }

    /// The values in order, shared.
    fn values(&self) -> (r: Vec<Arc<T>>)
        ensures
            r@ == self@,
    {
        let mut r: Vec<Arc<T>> = Vec::new();
        let n = self.len();
        let mut i: usize = 0;
        while i < n
            invariant
                i <= n == self@.len(),
                r@ == self@.take(i as int),
            decreases n - i,
        {
            match self.get(i) {
                Some(v) => r.push(v),
                None => {},
            }
            proof {
                assert(self@.take(i + 1) == self@.take(i as int).push(self@[i as int]));
            }
            i = i + 1;
        }
        proof {
            assert(self@.take(n as int) == self@);
        }
        r
    }

    /// A vector of `values`, pushed in order onto an empty one.
    fn from_values(values: Vec<Arc<T>>) -> (r: Self)
        ensures
            r@ == values@,
    {
        let mut r = Self::new();
        let mut i: usize = 0;
        while i < values.len()
            invariant
                i <= values@.len(),
                r@ == values@.take(i as int),
            decreases values@.len() - i,
        {
            r = r.push(share(&values[i]));
            proof {
                assert(values@.take(i + 1) == values@.take(i as int).push(values@[i as int]));
            }
            i = i + 1;
        }
        proof {
            assert(values@.take(values@.len() as int) == values@);
        }
        r
    }

    /// This vector followed by the values of `other`.
    pub fn append(&self, other: &Self) -> (r: Self)
        requires
            self@.len() + other@.len() <= usize::MAX,
        ensures
            r@ == self@ + other@,
    {
        let mut result = self.clone();
        let n = other.len();
        let mut i: usize = 0;
        while i < n
            invariant
                i <= n == other@.len(),
                self@.len() + other@.len() <= usize::MAX,
                result@ == self@ + other@.take(i as int),
            decreases n - i,
        {
            match other.get(i) {
                Some(v) => {
                    result = result.push(v);
                },
                None => {},
            }
            proof {
                assert(other@.take(i + 1) == other@.take(i as int).push(other@[i as int]));
            }
            i = i + 1;
        }
        proof {
            assert(other@.take(n as int) == other@);
        }
        result
    }

    /// This vector followed by `values`.
    pub fn extend(&self, values: Vec<T>) -> (r: Self)
        requires
            self@.len() + values@.len() <= usize::MAX,
        ensures
            r@.len() == self@.len() + values@.len(),
            r@.take(self@.len() as int) == self@,
            forall|j: int| 0 <= j < values@.len() ==> *r@[self@.len() + j] == values@[j],
    {
        let mut result = self.clone();
        let ghost vs = values@;
        for v in it: values.into_iter()
            invariant
                self@.len() + vs.len() <= usize::MAX,
                it.seq() == vs,
                result@.len() == self@.len() + it.index(),
                result@.take(self@.len() as int) == self@,
                forall|j: int| 0 <= j < it.index() ==> *#[trigger] result@[self@.len() + j] == vs[j],
        {
            let ghost before = result@;
            result = result.push(Arc::new(v));
            proof {
                assert(result@.take(self@.len() as int) == before.take(self@.len() as int));
            }
        }
        result
    }

}


/// The value at `index`, as `get` reads it.
pub open spec fn value_at<T>(values: Seq<Arc<T>>, index: int) -> Option<Arc<T>> {
    if 0 <= index < values.len() {
        Some(values[index])
    } else {
        None
    }
}

/// `after` is `before` with the value at `index` replaced by `value`, as
/// `set` writes it (on an empty vector, the one value at index 0).
pub open spec fn replaced<T>(before: Seq<Arc<T>>, index: int, value: T, after: Seq<Arc<T>>) -> bool {
    &&& after.len() == (if before.len() == 0 { 1 } else { before.len() })
    &&& *after[index] == value
    &&& forall|j: int| 0 <= j < before.len() && j != index ==> after[j] == before[j]
}

/// Reading the index just written gives the value written; every other
/// index reads as before.
pub proof fn lemma_get_after_set<T>(before: Seq<Arc<T>>, index: int, value: T, after: Seq<Arc<T>>, other: int)
    requires
        0 <= index < before.len() || (before.len() == 0 && index == 0),
        replaced(before, index, value, after),
        other != index,
    ensures
        value_at(after, index) matches Some(a) && *a == value,
        value_at(after, other) == value_at(before, other),
{
}

/// Popping a vector that was just pushed gives back the values it had, and
/// the pushed value was its last.
pub proof fn lemma_pop_undoes_push<T>(values: Seq<Arc<T>>, value: Arc<T>)
    ensures
        values.push(value).drop_last() == values,
        values.push(value).last() == value,
{
    assert(values.push(value).drop_last() =~= values);
}

/// Removing the value just inserted at an index gives back the values the
/// vector had.
pub proof fn lemma_remove_undoes_insert<T>(values: Seq<Arc<T>>, index: int, value: Arc<T>)
    requires
        0 <= index <= values.len(),
    ensures
        values.insert(index, value).remove(index) == values,
{
    assert(values.insert(index, value).remove(index) =~= values);
}

/// Appending keeps the first vector as a prefix and the second as the rest.
pub proof fn lemma_append_parts<T>(first: Seq<Arc<T>>, second: Seq<Arc<T>>)
    ensures
        (first + second).take(first.len() as int) == first,
        (first + second).skip(first.len() as int) == second,
{
    assert((first + second).take(first.len() as int) =~= first);
    assert((first + second).skip(first.len() as int) =~= second);
}

/// `values` after pushing each of `more`, in order.
pub open spec fn pushed_all<T>(values: Seq<Arc<T>>, more: Seq<Arc<T>>) -> Seq<Arc<T>>
    decreases more.len(),
{
    if more.len() == 0 {
        values
    } else {
        pushed_all(values, more.drop_last()).push(more.last())
    }
}

/// Pushing a sequence of values one by one appends them: each index reads
/// the value pushed there, and indexes past the last push read nothing.
pub proof fn lemma_get_after_pushes<T>(values: Seq<Arc<T>>, more: Seq<Arc<T>>, i: int)
    ensures
        pushed_all(values, more) == values + more,
        value_at(pushed_all(values, more), i) == (if 0 <= i < values.len() {
            Some(values[i])
        } else if values.len() <= i < values.len() + more.len() {
            Some(more[i - values.len()])
        } else {
            None
        }),
    decreases more.len(),
{
    if more.len() > 0 {
        lemma_get_after_pushes(values, more.drop_last(), i);
        assert(values + more =~= (values + more.drop_last()).push(more.last()));
    } else {
        assert(values + more =~= values);
    }
}

/// How many of `steps` take from the front (`true`); the others take from
/// the back.
pub open spec fn front_steps(steps: Seq<bool>) -> nat
    decreases steps.len(),
{
    if steps.len() == 0 {
        0
    } else {
        front_steps(steps.drop_last()) + (if steps.last() { 1nat } else { 0nat })
    }
}

/// What an iterator over `values` has left after `steps`, each a `next`
/// (`true`) or a `next_back` (`false`), as their contracts say.
pub open spec fn after_steps<T>(values: Seq<Arc<T>>, steps: Seq<bool>) -> Seq<Arc<T>>
    decreases steps.len(),
{
    if steps.len() == 0 {
        values
    } else {
        let left = after_steps(values, steps.drop_last());
        if left.len() == 0 {
            left
        } else if steps.last() {
            left.drop_first()
        } else {
            left.drop_last()
        }
    }
}

/// Mixing `next` and `next_back`: after any order of calls, no more than
/// there are values, what is left is the values between those taken from
/// the front and those taken from the back, so the next call from the front
/// gives the first value not yet taken from the front, and from the back the
/// last one not yet taken from the back; no value is handed out twice.
pub proof fn lemma_mixed_ends<T>(values: Seq<Arc<T>>, steps: Seq<bool>)
    requires
        steps.len() <= values.len(),
    ensures
        front_steps(steps) <= steps.len(),
        after_steps(values, steps) == values.subrange(front_steps(steps) as int, values.len() - (steps.len() - front_steps(steps))),
        steps.len() < values.len() ==> {
            &&& after_steps(values, steps)[0] == values[front_steps(steps) as int]
            &&& after_steps(values, steps).last() == values[values.len() - 1 - (steps.len() - front_steps(steps))]
        },
    decreases steps.len(),
{
    if steps.len() > 0 {
        lemma_mixed_ends(values, steps.drop_last());
        let f = front_steps(steps.drop_last()) as int;
        let b = steps.drop_last().len() - f;
        let left = after_steps(values, steps.drop_last());
        assert(left.len() == values.len() - f - b);
        if steps.last() {
            assert(left.drop_first() =~= values.subrange(f + 1, values.len() - b));
        } else {
            assert(left.drop_last() =~= values.subrange(f, values.len() - b - 1));
        }
    } else {
        assert(values.subrange(0, values.len() as int) =~= values);
    }
}

/// One operation on a vector: push a value, write the value at an index
/// (what `set` does), or pop the last value.
pub enum VecOp<T> {
    Push(T),
    Write(int, T),
    Pop,
}

/// The values a vector points to.
pub open spec fn values_of<T>(s: Seq<Arc<T>>) -> Seq<T> {
    Seq::new(s.len(), |i: int| *s[i])
}

/// What a `Vec` of `v` becomes under `op`: push appends; set overwrites an
/// index in range (on an empty vector, index 0 makes the one value) and is
/// refused elsewhere; pop drops the last value and leaves an empty vector.
pub open spec fn vec_model<T>(v: Seq<T>, op: VecOp<T>) -> Seq<T> {
    match op {
        VecOp::Push(x) => v.push(x),
        VecOp::Write(i, x) => if 0 <= i < v.len() {
            v.update(i, x)
        } else if v.len() == 0 && i == 0 {
            seq![x]
        } else {
            v
        },
        VecOp::Pop => if v.len() == 0 { v } else { v.drop_last() },
    }
}

/// `vec_model` of each of `ops` in order.
pub open spec fn vec_model_all<T>(v: Seq<T>, ops: Seq<VecOp<T>>) -> Seq<T>
    decreases ops.len(),
{
    if ops.len() == 0 {
        v
    } else {
        vec_model(vec_model_all(v, ops.drop_last()), ops.last())
    }
}

/// The persistent vector `s` becomes `t` under `op`, as the contracts of
/// `push`, `set` and `pop` say (a refused `set` or a `pop` of an empty
/// vector keeps `s`).
pub open spec fn vector_step<T>(s: Seq<Arc<T>>, op: VecOp<T>, t: Seq<Arc<T>>) -> bool {
    match op {
        VecOp::Push(x) => t.len() == s.len() + 1 && t.take(s.len() as int) == s && *t[s.len() as int] == x,
        VecOp::Write(i, x) => if 0 <= i < s.len() || (s.len() == 0 && i == 0) { replaced(s, i, x, t) } else { t == s },
        VecOp::Pop => if s.len() == 0 { t == s } else { t == s.drop_last() },
    }
}

/// A persistent vector behaves as a `Vec` under any mix of push, set and
/// pop: if `states` are the vectors that `ops` lead through from
/// `states[0]`, the values of the last are what a `Vec` of the values of the
/// first becomes.
pub proof fn lemma_vector_is_vec<T>(states: Seq<Seq<Arc<T>>>, ops: Seq<VecOp<T>>)
    requires
        states.len() == ops.len() + 1,
        forall|k: int| 0 <= k < ops.len() ==> vector_step(states[k], #[trigger] ops[k], states[k + 1]),
    ensures
        values_of(states.last()) == vec_model_all(values_of(states[0]), ops),
    decreases ops.len(),
{
    if ops.len() > 0 {
        let n = ops.len() - 1;
        assert forall|k: int| 0 <= k < ops.drop_last().len() implies
            vector_step(states.drop_last()[k], #[trigger] ops.drop_last()[k], states.drop_last()[k + 1]) by {
            assert(ops.drop_last()[k] == ops[k]);
            assert(vector_step(states[k], ops[k], states[k + 1]));
        }
        lemma_vector_is_vec(states.drop_last(), ops.drop_last());
        assert(states.drop_last().last() == states[n]);
        assert(states.drop_last()[0] == states[0]);
        let a = states[n];
        let b = states[n + 1];
        assert(vector_step(a, ops[n], b));
        assert(ops.last() == ops[n]);
        match ops[n] {
            VecOp::Push(x) => {
                assert forall|i: int| 0 <= i < a.len() implies b[i] == a[i] by {
                    assert(b.take(a.len() as int)[i] == b[i]);
                }
                assert(values_of(b) =~= values_of(a).push(x));
            },
            VecOp::Write(i, x) => {
                if 0 <= i < a.len() {
                    assert(values_of(b) =~= values_of(a).update(i, x));
                } else if a.len() == 0 && i == 0 {
                    assert(values_of(b) =~= seq![x]);
                }
            },
            VecOp::Pop => {
                if a.len() > 0 {
                    assert(values_of(b) =~= values_of(a).drop_last());
                }
            },
        }
    }
}

/// Two vectors are equal when they have the same length and equal values at
/// each index, whatever the shape of their trees.
impl<T: PartialEq> PartialEq for PersistentVector<T> {
    fn eq(&self, other: &Self) -> (r: bool) {
        let n = self.len();
        if n != other.len() {
            return false;
        }
        let mut i: usize = 0;
        while i < n
            invariant
                i <= n == self@.len() == other@.len(),
                T::obeys_eq_spec() ==> forall|j: int| 0 <= j < i ==> (*self@[j]).eq_spec(&*other@[j]),
            decreases n - i,
        {
            match (self.get(i), other.get(i)) {
                (Some(a), Some(b)) => {
                    let x: &T = &*a;
                    let y: &T = &*b;
                    if !x.eq(y) {
                        return false;
                    }
                },
                _ => {},
            }
            i = i + 1;
        }
        true
    }
}

impl<T: PartialEq> vstd::std_specs::cmp::PartialEqSpecImpl for PersistentVector<T> {
    open spec fn obeys_eq_spec() -> bool {
        T::obeys_eq_spec()
    }

    open spec fn eq_spec(&self, other: &Self) -> bool {
        &&& self@.len() == other@.len()
        &&& forall|i: int| 0 <= i < self@.len() ==> (*self@[i]).eq_spec(&*other@[i])
    }
}

impl<T> Clone for PersistentVector<T> {
    /// Another handle on the same version: the root is shared.
    fn clone(&self) -> (r: Self)
        ensures
            r == *self,
            r@ == self@,
            r.tree_height() == self.tree_height(),
    {
        proof {
            use_type_invariant(self);
        }
        let root = match &self.root {
            Some(root) => Some(share(root)),
            None => None,
        };
        PersistentVector { root, size: self.size, height: self.height }
    }
}


/// A cursor over a version of a vector: the values between `front` and `back`
/// are those not yet handed out.
pub struct Iter<T> {
    vector: PersistentVector<T>,
    front: usize,
    back: usize,
}

impl<T> View for Iter<T> {
    type V = Seq<Arc<T>>;

    /// The values not yet handed out, in order.
    closed spec fn view(&self) -> Seq<Arc<T>> {
        self.vector@.subrange(self.front as int, self.back as int)
    }
}

impl<T> Iter<T> {
    #[verifier::type_invariant]
    spec fn inv(&self) -> bool {
        self.front <= self.back <= self.vector@.len()
    }

    /// The next value from the front.
    pub fn next(&mut self) -> (r: Option<Arc<T>>)
        ensures
            old(self)@.len() == 0 ==> r is None && final(self)@ == old(self)@,
            old(self)@.len() > 0 ==> r == Some(old(self)@[0]) && final(self)@ == old(self)@.drop_first(),
    {
        proof {
            use_type_invariant(&*self);
        }
        if self.front == self.back {
            return None;
        }
        let value = self.vector.get(self.front);
        self.front = self.front + 1;
        proof {
            assert(self@ =~= old(self)@.drop_first());
        }
        value
    }

    /// The next value from the back.
    pub fn next_back(&mut self) -> (r: Option<Arc<T>>)
        ensures
            old(self)@.len() == 0 ==> r is None && final(self)@ == old(self)@,
            old(self)@.len() > 0 ==> r == Some(old(self)@.last()) && final(self)@ == old(self)@.drop_last(),
    {
        proof {
            use_type_invariant(&*self);
        }
        if self.front == self.back {
            return None;
        }
        self.back = self.back - 1;
        let value = self.vector.get(self.back);
        proof {
            assert(self@ =~= old(self)@.drop_last());
        }
        value
    }

    /// How many values are left.
    pub fn len(&self) -> (r: usize)
        ensures
            r == self@.len(),
    {
        proof {
            use_type_invariant(self);
        }
        self.back - self.front
    }
}


/// `T`'s `Ord` is a total order: `cmp` gives `cmp_spec`, which is dual
/// (`a < b` exactly when `b > a`) and transitive.
pub open spec fn total_order<T: Ord>() -> bool {
    &&& T::obeys_cmp_spec()
    &&& forall|a: T, b: T|
        #![trigger a.cmp_spec(&b), b.cmp_spec(&a)]
        (a.cmp_spec(&b) == std::cmp::Ordering::Less) <==> (b.cmp_spec(&a) == std::cmp::Ordering::Greater)
    &&& forall|a: T, b: T, c: T|
        #![trigger a.cmp_spec(&b), b.cmp_spec(&c), a.cmp_spec(&c)]
        a.cmp_spec(&b) != std::cmp::Ordering::Greater && b.cmp_spec(&c) != std::cmp::Ordering::Greater
            ==> a.cmp_spec(&c) != std::cmp::Ordering::Greater
}

/// `compare` accepts every pair, answers each pair one way, and its answers
/// form a total order: dual and transitive.
pub open spec fn compares_totally<T, F: FnMut(&T, &T) -> std::cmp::Ordering>(compare: F) -> bool {
    &&& forall|a: T, b: T| #[trigger] compare.requires((&a, &b))
    &&& forall|a: T, b: T, o1: std::cmp::Ordering, o2: std::cmp::Ordering|
        #![trigger compare.ensures((&a, &b), o1), compare.ensures((&a, &b), o2)]
        compare.ensures((&a, &b), o1) && compare.ensures((&a, &b), o2) ==> o1 == o2
    &&& forall|a: T, b: T, o1: std::cmp::Ordering, o2: std::cmp::Ordering|
        #![trigger compare.ensures((&a, &b), o1), compare.ensures((&b, &a), o2)]
        compare.ensures((&a, &b), o1) && compare.ensures((&b, &a), o2)
            ==> ((o1 == std::cmp::Ordering::Less) <==> (o2 == std::cmp::Ordering::Greater))
    &&& forall|a: T, b: T, c: T, o1: std::cmp::Ordering, o2: std::cmp::Ordering, o3: std::cmp::Ordering|
        #![trigger compare.ensures((&a, &b), o1), compare.ensures((&b, &c), o2), compare.ensures((&a, &c), o3)]
        compare.ensures((&a, &b), o1) && compare.ensures((&b, &c), o2) && compare.ensures((&a, &c), o3)
            && o1 != std::cmp::Ordering::Greater && o2 != std::cmp::Ordering::Greater
            ==> o3 != std::cmp::Ordering::Greater
}

/// `key` accepts every value and gives each value one key, and the keys'
/// `Ord` is a total order.
pub open spec fn keys_totally<T, K: Ord, F: FnMut(&T) -> K>(key: F) -> bool {
    &&& forall|a: T| #[trigger] key.requires((&a,))
    &&& forall|a: T, k1: K, k2: K|
        #![trigger key.ensures((&a,), k1), key.ensures((&a,), k2)]
        key.ensures((&a,), k1) && key.ensures((&a,), k2) ==> k1 == k2
    &&& total_order::<K>()
}

/// Value `i` of `after` is value `p[i]` of `before`, and no value of
/// `before` is used twice.
pub open spec fn placed_by<T>(before: Seq<T>, after: Seq<T>, p: Seq<int>) -> bool {
    &&& p.len() == before.len()
    &&& after.len() == before.len()
    &&& forall|i: int| 0 <= i < p.len() ==> 0 <= #[trigger] p[i] < before.len() && after[i] == before[p[i]]
    &&& forall|i: int, j: int| 0 <= i < j < p.len() ==> p[i] != p[j]
}

/// `s` is in nondecreasing order by `T`'s ordering.
pub open spec fn nondecreasing<T: Ord>(s: Seq<Arc<T>>) -> bool {
    forall|i: int, j: int| 0 <= i < j < s.len() ==> (*s[i]).cmp_spec(&*s[j]) != std::cmp::Ordering::Greater
}

/// `after` is `before` rearranged so that values `T`'s order calls equal
/// keep their order.
pub open spec fn stable<T: Ord>(before: Seq<Arc<T>>, after: Seq<Arc<T>>) -> bool {
    exists|p: Seq<int>| #[trigger] placed_by(before, after, p)
        && forall|i: int, j: int| 0 <= i < j < after.len() && (*after[i]).cmp_spec(&*after[j]) == std::cmp::Ordering::Equal
            ==> #[trigger] p[i] < #[trigger] p[j]
}

/// No value of `s` comes after a later one by `compare`.
pub open spec fn sorted_by<T, F: FnMut(&T, &T) -> std::cmp::Ordering>(compare: F, s: Seq<Arc<T>>) -> bool {
    forall|i: int, j: int, o: std::cmp::Ordering| 0 <= i < j < s.len() && #[trigger] compare.ensures((&*s[i], &*s[j]), o)
        ==> o != std::cmp::Ordering::Greater
}

/// `after` is `before` rearranged so that values `compare` calls equal keep
/// their order.
pub open spec fn stable_by<T, F: FnMut(&T, &T) -> std::cmp::Ordering>(compare: F, before: Seq<Arc<T>>, after: Seq<Arc<T>>) -> bool {
    exists|p: Seq<int>| #[trigger] placed_by(before, after, p)
        && forall|i: int, j: int| 0 <= i < j < after.len() && compare.ensures((&*after[i], &*after[j]), std::cmp::Ordering::Equal)
            ==> #[trigger] p[i] < #[trigger] p[j]
}

/// No value of `s` has a key after that of a later one.
pub open spec fn sorted_by_key<T, K: Ord, F: FnMut(&T) -> K>(key: F, s: Seq<Arc<T>>) -> bool {
    forall|i: int, j: int, k1: K, k2: K|
        #![trigger key.ensures((&*s[i],), k1), key.ensures((&*s[j],), k2)]
        0 <= i < j < s.len() && key.ensures((&*s[i],), k1) && key.ensures((&*s[j],), k2)
            ==> k1.cmp_spec(&k2) != std::cmp::Ordering::Greater
}

/// `after` is `before` rearranged so that values with equal keys keep their
/// order.
pub open spec fn stable_by_key<T, K: Ord, F: FnMut(&T) -> K>(key: F, before: Seq<Arc<T>>, after: Seq<Arc<T>>) -> bool {
    exists|p: Seq<int>| #[trigger] placed_by(before, after, p)
        && forall|i: int, j: int, k1: K, k2: K|
            #![trigger key.ensures((&*after[i],), k1), key.ensures((&*after[j],), k2)]
            0 <= i < j < after.len() && key.ensures((&*after[i],), k1) && key.ensures((&*after[j],), k2)
                && k1.cmp_spec(&k2) == std::cmp::Ordering::Equal
            ==> p[i] < p[j]
}

/// Calls `<[Arc<T>]>::sort`, std's stable sort by `T`'s `Ord` (through
/// `Arc`'s `Ord`, which compares the values pointed to). Under a total order,
/// which std needs (it may panic otherwise), the values stay the same, each
/// as often, come out in nondecreasing order, and equal values keep their
/// order.
#[verifier::external_body]
fn sort_values<T: Ord>(values: &mut Vec<Arc<T>>)
    requires
        total_order::<T>(),
    ensures
        final(values)@.to_multiset() == old(values)@.to_multiset(),
        nondecreasing(final(values)@),
        stable(old(values)@, final(values)@),
{
    values.sort();
}

/// Calls `<[Arc<T>]>::sort_unstable`. Under a total order, which std needs,
/// the values stay the same, each as often, and come out in nondecreasing
/// order by `T`'s `Ord`.
#[verifier::external_body]
fn sort_values_unstable<T: Ord>(values: &mut Vec<Arc<T>>)
    requires
        total_order::<T>(),
    ensures
        final(values)@.to_multiset() == old(values)@.to_multiset(),
        nondecreasing(final(values)@),
{
    values.sort_unstable();
}

/// Calls `<[Arc<T>]>::sort_by` with `compare` on the values pointed to.
/// Under a `compare` that accepts every pair and orders totally, which std
/// needs, the values stay the same, each as often, none comes after a later
/// one by `compare`, and values `compare` calls equal keep their order.
#[verifier::external_body]
fn sort_values_by<T, F>(values: &mut Vec<Arc<T>>, compare: F)
    where
        F: FnMut(&T, &T) -> std::cmp::Ordering,
    requires
        compares_totally(compare),
    ensures
        final(values)@.to_multiset() == old(values)@.to_multiset(),
        sorted_by(compare, final(values)@),
        stable_by(compare, old(values)@, final(values)@),
{
    let mut compare = compare;
    values.sort_by(|a, b| compare(a, b));
}

/// Calls `<[Arc<T>]>::sort_unstable_by` with `compare` on the values
/// pointed to. Under a `compare` that accepts every pair and orders totally,
/// the values stay the same, each as often, and none comes after a later one
/// by `compare`.
#[verifier::external_body]
fn sort_values_unstable_by<T, F>(values: &mut Vec<Arc<T>>, compare: F)
    where
        F: FnMut(&T, &T) -> std::cmp::Ordering,
    requires
        compares_totally(compare),
    ensures
        final(values)@.to_multiset() == old(values)@.to_multiset(),
        sorted_by(compare, final(values)@),
{
    let mut compare = compare;
    values.sort_unstable_by(|a, b| compare(a, b));
}

/// Calls `<[Arc<T>]>::sort_by_key` with `key` on the values pointed to.
/// Under a `key` that accepts every value, gives each one key, and keys
/// that are totally ordered, the values stay the same, each as often, come
/// out by nondecreasing key, and values with equal keys keep their order.
#[verifier::external_body]
fn sort_values_by_key<T, K, F>(values: &mut Vec<Arc<T>>, key: F)
    where
        F: FnMut(&T) -> K,
        K: Ord,
    requires
        keys_totally(key),
    ensures
        final(values)@.to_multiset() == old(values)@.to_multiset(),
        sorted_by_key(key, final(values)@),
        stable_by_key(key, old(values)@, final(values)@),
{
    let mut key = key;
    values.sort_by_key(|a| key(a));
}

/// Calls `<[Arc<T>]>::sort_unstable_by_key` with `key` on the values
/// pointed to. Under the same premise as the stable one, the values stay the
/// same, each as often, and come out by nondecreasing key.
#[verifier::external_body]
fn sort_values_unstable_by_key<T, K, F>(values: &mut Vec<Arc<T>>, key: F)
    where
        F: FnMut(&T) -> K,
        K: Ord,
    requires
        keys_totally(key),
    ensures
        final(values)@.to_multiset() == old(values)@.to_multiset(),
        sorted_by_key(key, final(values)@),
{
    let mut key = key;
    values.sort_unstable_by_key(|a| key(a));
}

/// Calls `<[Arc<T>]>::sort_by_cached_key` with `key` on the values pointed
/// to, which computes each key once and sorts stably. Under the same premise
/// as `sort_by_key`, the values stay the same, each as often, come out by
/// nondecreasing key, and values with equal keys keep their order.
#[verifier::external_body]
fn sort_values_by_cached_key<T, K, F>(values: &mut Vec<Arc<T>>, key: F)
    where
        F: FnMut(&T) -> K,
        K: Ord,
    requires
        keys_totally(key),
    ensures
        final(values)@.to_multiset() == old(values)@.to_multiset(),
        sorted_by_key(key, final(values)@),
        stable_by_key(key, old(values)@, final(values)@),
{
    let mut key = key;
    values.sort_by_cached_key(|a| key(a));
}

impl<T> PersistentVector<T> {
    /// The values sorted by `T`'s order; equal values keep their order.
    /// `T`'s `Ord` must be a total order.
    pub fn sort(&self) -> (r: Self)
        where
            T: Ord,
        requires
            total_order::<T>(),
        ensures
            r@.to_multiset() == self@.to_multiset(),
            nondecreasing(r@),
            stable(self@, r@),
    {
        let mut values = self.values();
        sort_values(&mut values);
        Self::from_values(values)
    }

    /// The values sorted by `T`'s order; equal values may change places.
    pub fn sort_unstable(&self) -> (r: Self)
        where
            T: Ord,
        requires
            total_order::<T>(),
        ensures
            r@.to_multiset() == self@.to_multiset(),
            nondecreasing(r@),
    {
        let mut values = self.values();
        sort_values_unstable(&mut values);
        Self::from_values(values)
    }

    /// The values sorted by `compare`, stably. `compare` must accept every
    /// pair and order totally.
    pub fn sort_by<F>(&self, compare: F) -> (r: Self)
        where
            F: FnMut(&T, &T) -> std::cmp::Ordering,
        requires
            compares_totally(compare),
        ensures
            r@.to_multiset() == self@.to_multiset(),
            sorted_by(compare, r@),
            stable_by(compare, self@, r@),
    {
        let mut values = self.values();
        sort_values_by(&mut values, compare);
        Self::from_values(values)
    }

    /// The values sorted by `compare`; equal values may change places.
    pub fn sort_unstable_by<F>(&self, compare: F) -> (r: Self)
        where
            F: FnMut(&T, &T) -> std::cmp::Ordering,
        requires
            compares_totally(compare),
        ensures
            r@.to_multiset() == self@.to_multiset(),
            sorted_by(compare, r@),
    {
        let mut values = self.values();
        sort_values_unstable_by(&mut values, compare);
        Self::from_values(values)
    }

    /// The values sorted by the key `f` gives them, stably.
    pub fn sort_by_key<K, F>(&self, f: F) -> (r: Self)
        where
            F: FnMut(&T) -> K,
            K: Ord,
        requires
            keys_totally(f),
        ensures
            r@.to_multiset() == self@.to_multiset(),
            sorted_by_key(f, r@),
            stable_by_key(f, self@, r@),
    {
        let mut values = self.values();
        sort_values_by_key(&mut values, f);
        Self::from_values(values)
    }

    /// The values sorted by the key `f` gives them; equal keys may change
    /// places.
    pub fn sort_unstable_by_key<K, F>(&self, f: F) -> (r: Self)
        where
            F: FnMut(&T) -> K,
            K: Ord,
        requires
            keys_totally(f),
        ensures
            r@.to_multiset() == self@.to_multiset(),
            sorted_by_key(f, r@),
    {
        let mut values = self.values();
        sort_values_unstable_by_key(&mut values, f);
        Self::from_values(values)
    }

    /// The values sorted by the key `f` gives them, each key computed once;
    /// stable.
    pub fn sort_by_cached_key<K, F>(&self, f: F) -> (r: Self)
        where
            F: FnMut(&T) -> K,
            K: Ord,
        requires
            keys_totally(f),
        ensures
            r@.to_multiset() == self@.to_multiset(),
            sorted_by_key(f, r@),
            stable_by_key(f, self@, r@),
    {
        let mut values = self.values();
        sort_values_by_cached_key(&mut values, f);
        Self::from_values(values)
    }

    /// The values sorted by the key `f` gives them, each key computed once.
    /// A stable order is one the unstable sort may give, so the stable
    /// cached sort serves.
    pub fn sort_unstable_by_cached_key<K, F>(&self, f: F) -> (r: Self)
        where
            F: FnMut(&T) -> K,
            K: Ord,
        requires
            keys_totally(f),
        ensures
            r@.to_multiset() == self@.to_multiset(),
            sorted_by_key(f, r@),
    {
        let mut values = self.values();
        sort_values_by_cached_key(&mut values, f);
        Self::from_values(values)
    }
}
} // verus!
