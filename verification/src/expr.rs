use vstd::prelude::*;
use crate::sort::{SortKey, sort_by_key, sorted_by_key};

verus! {

/// The operator of a node of a tensor graph. The operators that the driver
/// tells apart have a variant each; every other operator is `Other` with a
/// code of its own, so that nodes of different operators never compare equal.
#[derive(Clone, Copy, PartialEq, Eq, Structural, Debug)]
pub enum Op {
    Input,
    Ewadd,
    Ewsub,
    Ewmul,
    Ewmax,
    Ewmin,
    Relu,
    Concat,
    Split,
    Split0,
    Split1,
    Noop,
    Var,
    Num(i32),
    Other(u32),
}

/// One node of an expression or an e-class: an operator, its children (node
/// indices in an expression, class ids in an e-graph) and, for `Var`, its
/// name.
#[derive(Debug)]
pub struct Node {
    pub op: Op,
    pub children: Vec<usize>,
    pub label: Vec<char>,
}

pub struct NodeView {
    pub op: Op,
    pub children: Seq<usize>,
    pub label: Seq<char>,
}

impl View for Node {
    type V = NodeView;

    open spec fn view(&self) -> NodeView {
        NodeView { op: self.op, children: self.children@, label: self.label@ }
    }
}

/// A node with the same operator and label as `n` and the given children.
pub open spec fn with_children(n: NodeView, children: Seq<usize>) -> NodeView {
    NodeView { op: n.op, children, label: n.label }
}

/// Whether the operator is one of the elementwise (piecewise-linear) ones that
/// a rule may hold to be grounded.
pub open spec fn is_elementwise(op: Op) -> bool {
    ||| op == Op::Ewadd
    ||| op == Op::Ewsub
    ||| op == Op::Ewmax
    ||| op == Op::Ewmin
    ||| op == Op::Ewmul
    ||| op == Op::Relu
}

pub fn elementwise(op: Op) -> (r: bool)
    ensures
        r == is_elementwise(op),
{
    match op {
        Op::Ewadd | Op::Ewsub | Op::Ewmax | Op::Ewmin | Op::Ewmul | Op::Relu => true,
        _ => false,
    }
}

pub fn copy_children(c: &Vec<usize>) -> (r: Vec<usize>)
    ensures
        r@ == c@,
{
    let mut r: Vec<usize> = Vec::new();
    let mut i: usize = 0;
    while i < c.len()
        invariant
            i <= c.len(),
            r@ == c@.take(i as int),
        decreases c.len() - i,
    {
        r.push(c[i]);
        i = i + 1;
        assert(r@ =~= c@.take(i as int));
    }
    assert(c@.take(i as int) =~= c@);
    r
}

pub fn copy_chars(c: &Vec<char>) -> (r: Vec<char>)
    ensures
        r@ == c@,
{
    let mut r: Vec<char> = Vec::new();
    let mut i: usize = 0;
    while i < c.len()
        invariant
            i <= c.len(),
            r@ == c@.take(i as int),
        decreases c.len() - i,
    {
        r.push(c[i]);
        i = i + 1;
        assert(r@ =~= c@.take(i as int));
    }
    assert(c@.take(i as int) =~= c@);
    r
}

impl Node {
    pub fn copy(&self) -> (r: Node)
        ensures
            r@ == self@,
    {
        Node { op: self.op, children: copy_children(&self.children), label: copy_chars(&self.label) }
    }
}

pub fn seq_eq_usize(a: &Vec<usize>, b: &Vec<usize>) -> (r: bool)
    ensures
        r == (a@ == b@),
{
    if a.len() != b.len() {
        return false;
    }
    let mut i: usize = 0;
    while i < a.len()
        invariant
            i <= a.len() == b.len(),
            forall|k: int| 0 <= k < i ==> a@[k] == b@[k],
        decreases a.len() - i,
    {
        if a[i] != b[i] {
            return false;
        }
        i = i + 1;
    }
    assert(a@ =~= b@);
    true
}

pub fn seq_eq_char(a: &Vec<char>, b: &Vec<char>) -> (r: bool)
    ensures
        r == (a@ == b@),
{
    if a.len() != b.len() {
        return false;
    }
    let mut i: usize = 0;
    while i < a.len()
        invariant
            i <= a.len() == b.len(),
            forall|k: int| 0 <= k < i ==> a@[k] == b@[k],
        decreases a.len() - i,
    {
        if a[i] != b[i] {
            return false;
        }
        i = i + 1;
    }
    assert(a@ =~= b@);
    true
}

/// Whether two nodes are the same node.
pub fn node_eq(a: &Node, b: &Node) -> (r: bool)
    ensures
        r == (a@ == b@),
{
    a.op == b.op && seq_eq_usize(&a.children, &b.children) && seq_eq_char(&a.label, &b.label)
}

/// An expression: a list of nodes in which each child comes before its parent.
pub open spec fn expr_wf(e: Seq<Node>) -> bool {
    forall|i: int, k: int|
        0 <= i < e.len() && 0 <= k < e[i].children@.len() ==> #[trigger] e[i].children@[k] < i
}

/// The two children of node `i` when it is an `op` node of two children.
pub open spec fn binary(e: Seq<Node>, i: int, op: Op) -> bool {
    &&& 0 <= i < e.len()
    &&& e[i].op == op
    &&& e[i].children@.len() == 2
    &&& e[i].children@[0] < i
    &&& e[i].children@[1] < i
}

/// The leaves of the tree of `ewmax` nodes rooted at node `i`, left to right.
pub open spec fn max_leaves(e: Seq<Node>, i: int) -> Seq<usize>
    decreases i,
{
    if binary(e, i, Op::Ewmax) && 0 <= e[i].children@[0] && 0 <= e[i].children@[1] {
        max_leaves(e, e[i].children@[0] as int) + max_leaves(e, e[i].children@[1] as int)
    } else {
        seq![i as usize]
    }
}

/// The roots of the subtrees that hang below the tree of `ewmin` nodes rooted
/// at node `i`, left to right.
pub open spec fn min_groups(e: Seq<Node>, i: int) -> Seq<usize>
    decreases i,
{
    if binary(e, i, Op::Ewmin) && 0 <= e[i].children@[0] && 0 <= e[i].children@[1] {
        min_groups(e, e[i].children@[0] as int) + min_groups(e, e[i].children@[1] as int)
    } else {
        seq![i as usize]
    }
}

fn is_binary(e: &Vec<Node>, i: usize, op: Op) -> (r: bool)
    requires
        i < e.len(),
    ensures
        r == binary(e@, i as int, op),
{
    e[i].op == op && e[i].children.len() == 2 && e[i].children[0] < i && e[i].children[1] < i
}

/// The leaves of the `ewmax` tree rooted at node `i`.
pub fn collect_max_leaves(nodes: &Vec<Node>, i: usize, out: &mut Vec<usize>)
    requires
        i < nodes.len(),
    ensures
        final(out)@ == old(out)@ + max_leaves(nodes@, i as int),
    decreases i,
{
    if is_binary(nodes, i, Op::Ewmax) {
        let a = nodes[i].children[0];
        let b = nodes[i].children[1];
        collect_max_leaves(nodes, a, out);
        collect_max_leaves(nodes, b, out);
        assert(final(out)@ =~= old(out)@ + max_leaves(nodes@, i as int));
    } else {
        out.push(i);
        assert(final(out)@ =~= old(out)@ + max_leaves(nodes@, i as int));
    }
}

fn collect_min_groups(nodes: &Vec<Node>, i: usize, out: &mut Vec<usize>)
    requires
        i < nodes.len(),
    ensures
        final(out)@ == old(out)@ + min_groups(nodes@, i as int),
    decreases i,
{
    if is_binary(nodes, i, Op::Ewmin) {
        let a = nodes[i].children[0];
        let b = nodes[i].children[1];
        collect_min_groups(nodes, a, out);
        collect_min_groups(nodes, b, out);
        assert(final(out)@ =~= old(out)@ + min_groups(nodes@, i as int));
    } else {
        out.push(i);
        assert(final(out)@ =~= old(out)@ + min_groups(nodes@, i as int));
    }
}

impl SortKey for usize {
    open spec fn key_le(self, other: Self) -> bool {
        self <= other
    }

    proof fn lemma_key_total(a: Self, b: Self) {
    }

    proof fn lemma_key_trans(a: Self, b: Self, c: Self) {
    }

    fn key_le_exec(&self, other: &Self) -> (r: bool) {
        *self <= *other
    }
}

/// The groups of an expression whose last node is the root of an `ewmin`
/// tree over `ewmax` trees: the roots of the groups in ascending order, and
/// for each of them the leaves of its `ewmax` tree.
pub fn min_max_groups(nodes: &Vec<Node>) -> (r: (Vec<usize>, Vec<Vec<usize>>))
    requires
        nodes.len() > 0,
    ensures
        sorted_by_key(r.0@),
        r.0@.to_multiset() == min_groups(nodes@, nodes.len() - 1).to_multiset(),
        r.1.len() == r.0.len(),
        forall|k: int| 0 <= k < r.0.len() ==> #[trigger] r.0@[k] < nodes.len(),
        forall|k: int| 0 <= k < r.0.len() ==> #[trigger] r.1@[k]@ == max_leaves(nodes@, r.0@[k] as int),
{
    let mut roots: Vec<usize> = Vec::new();
    collect_min_groups(nodes, nodes.len() - 1, &mut roots);
    assert(roots@ =~= min_groups(nodes@, nodes.len() - 1));
    proof {
        lemma_min_groups_bounded(nodes@, nodes.len() - 1);
    }
    let ghost unsorted = roots@;
    sort_by_key(&mut roots);
    proof {
        assert forall|k: int| 0 <= k < roots.len() implies roots@[k] < nodes.len() by {
            broadcast use vstd::seq_lib::group_to_multiset_ensures;

            assert(roots@.contains(roots@[k]));
            assert(unsorted.to_multiset().count(roots@[k]) > 0);
        }
    }
    let mut groups: Vec<Vec<usize>> = Vec::new();
    let mut k: usize = 0;
    while k < roots.len()
        invariant
            k <= roots.len(),
            groups.len() == k,
            forall|q: int| 0 <= q < roots.len() ==> roots@[q] < nodes.len(),
            forall|q: int|
                0 <= q < k ==> #[trigger] groups@[q]@ == max_leaves(nodes@, roots@[q] as int),
        decreases roots.len() - k,
    {
        let mut leaves: Vec<usize> = Vec::new();
        collect_max_leaves(nodes, roots[k], &mut leaves);
        assert(leaves@ =~= max_leaves(nodes@, roots@[k as int] as int));
        groups.push(leaves);
        k = k + 1;
    }
    (roots, groups)
}

pub proof fn lemma_min_groups_bounded(e: Seq<Node>, i: int)
    requires
        0 <= i < e.len(),
    ensures
        forall|k: int|
            0 <= k < min_groups(e, i).len() ==> #[trigger] min_groups(e, i)[k] < e.len(),
    decreases i,
{
    if binary(e, i, Op::Ewmin) && 0 <= e[i].children@[0] && 0 <= e[i].children@[1] {
        lemma_min_groups_bounded(e, e[i].children@[0] as int);
        lemma_min_groups_bounded(e, e[i].children@[1] as int);
        let a = min_groups(e, e[i].children@[0] as int);
        assert forall|k: int|
            0 <= k < min_groups(e, i).len() implies #[trigger] min_groups(e, i)[k] < e.len() by {
            if k < a.len() {
                assert(min_groups(e, i)[k] == a[k]);
            } else {
                assert(min_groups(e, i)[k] == min_groups(e, e[i].children@[1] as int)[k
                    - a.len()]);
            }
        }
    }
}

/// How many nodes of `e` have an operator for which `p` holds.
pub open spec fn count_ops(e: Seq<Node>, p: spec_fn(Op) -> bool) -> nat
    decreases e.len(),
{
    if e.len() == 0 {
        0
    } else {
        count_ops(e.drop_last(), p) + if p(e.last().op) {
            1nat
        } else {
            0nat
        }
    }
}

pub open spec fn is_concat(op: Op) -> bool {
    op == Op::Concat
}

pub open spec fn is_split(op: Op) -> bool {
    op == Op::Split || op == Op::Split0 || op == Op::Split1
}

/// The number of `concat` nodes and of `split`, `split_0` and `split_1` nodes of
/// an extracted expression. These operators enter an e-graph only through a
/// multi-pattern fusion rule, so either count being positive marks the
/// expression as fused.
pub fn fusion_counts(e: &Vec<Node>) -> (r: (usize, usize))
    ensures
        r.0 == count_ops(e@, |op: Op| is_concat(op)),
        r.1 == count_ops(e@, |op: Op| is_split(op)),
{
    let mut concat: usize = 0;
    let mut split: usize = 0;
    let mut i: usize = 0;
    while i < e.len()
        invariant
            i <= e.len(),
            concat == count_ops(e@.take(i as int), |op: Op| is_concat(op)),
            split == count_ops(e@.take(i as int), |op: Op| is_split(op)),
            concat <= i,
            split <= i,
        decreases e.len() - i,
    {
        assert(e@.take(i + 1).drop_last() =~= e@.take(i as int));
        match e[i].op {
            Op::Concat => {
                concat = concat + 1;
            },
            Op::Split | Op::Split0 | Op::Split1 => {
                split = split + 1;
            },
            _ => {},
        }
        i = i + 1;
    }
    assert(e@.take(i as int) =~= e@);
    (concat, split)
}

} // verus!

verus! {

pub proof fn lemma_max_leaves_bounded(e: Seq<Node>, i: int)
    requires
        0 <= i < e.len(),
    ensures
        forall|k: int| 0 <= k < max_leaves(e, i).len() ==> #[trigger] max_leaves(e, i)[k] < e.len(),
    decreases i,
{
    if binary(e, i, Op::Ewmax) && 0 <= e[i].children@[0] && 0 <= e[i].children@[1] {
        lemma_max_leaves_bounded(e, e[i].children@[0] as int);
        lemma_max_leaves_bounded(e, e[i].children@[1] as int);
        let a = max_leaves(e, e[i].children@[0] as int);
        assert forall|k: int| 0 <= k < max_leaves(e, i).len() implies #[trigger] max_leaves(e, i)[k] < e.len() by {
            if k < a.len() {
                assert(max_leaves(e, i)[k] == a[k]);
            } else {
                assert(max_leaves(e, i)[k] == max_leaves(e, e[i].children@[1] as int)[k - a.len()]);
            }
        }
    }
}

pub proof fn lemma_max_leaves_nonempty(e: Seq<Node>, i: int)
    ensures
        max_leaves(e, i).len() >= 1,
    decreases i,
{
    if binary(e, i, Op::Ewmax) && 0 <= e[i].children@[0] && 0 <= e[i].children@[1] {
        lemma_max_leaves_nonempty(e, e[i].children@[0] as int);
    }
}

} // verus!
