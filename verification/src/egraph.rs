use vstd::prelude::*;
use crate::expr::{Node, NodeView, Op, with_children, node_eq, expr_wf};

verus! {

/// An e-class: its (canonical) id and the nodes it holds, whose children are
/// canonical class ids.
pub struct EClass {
    pub id: usize,
    pub nodes: Vec<Node>,
}

/// What the driver reads of a saturated e-graph: its classes, the canonical id
/// of every id (`canon[id]`, the union-find), and the nodes that the cycle
/// filter has blacklisted (with canonical children).
pub struct EGraph {
    pub classes: Vec<EClass>,
    pub canon: Vec<usize>,
    pub blacklist: Vec<Node>,
}

/// A node of the given operator over two children.
pub open spec fn pair_node(op: Op, a: usize, b: usize) -> NodeView {
    NodeView { op, children: seq![a, b], label: Seq::empty() }
}

pub fn make_pair(op: Op, a: usize, b: usize) -> (r: Node)
    ensures
        r@ == pair_node(op, a, b),
{
    let mut children: Vec<usize> = Vec::new();
    children.push(a);
    children.push(b);
    let r = Node { op, children, label: Vec::new() };
    assert(r@.children =~= seq![a, b]);
    assert(r@.label =~= Seq::<char>::empty());
    r
}

impl EGraph {
    /// The canonical id of `id`.
    pub open spec fn find_spec(self, id: int) -> usize {
        self.canon@[id]
    }

    pub open spec fn valid_id(self, id: int) -> bool {
        0 <= id < self.canon@.len()
    }

    /// Every child of `n` is an id of the e-graph.
    pub open spec fn valid_node(self, n: NodeView) -> bool {
        forall|k: int| 0 <= k < n.children.len() ==> self.valid_id(#[trigger] n.children[k] as int)
    }

    /// `n` with each child replaced by its canonical id.
    pub open spec fn canonical(self, n: NodeView) -> NodeView {
        with_children(n, n.children.map_values(|c: usize| self.canon@[c as int]))
    }

    /// Class `id` holds node `n`.
    pub open spec fn holds(self, n: NodeView, id: usize) -> bool {
        exists|i: int, k: int|
            0 <= i < self.classes@.len() && 0 <= k < self.classes@[i].nodes@.len()
                && self.classes@[i].id == id && #[trigger] self.classes@[i].nodes@[k]@ == n
    }

    /// The e-graph invariants: `canon` maps each id to a canonical id, each
    /// class id is canonical and belongs to one class only, and no node is
    /// held by two classes (the hash-cons).
    pub open spec fn wf(self) -> bool {
        &&& forall|i: int|
            0 <= i < self.canon@.len() ==> #[trigger] self.canon@[i] < self.canon@.len()
                && self.canon@[self.canon@[i] as int] == self.canon@[i]
        &&& forall|i: int|
            0 <= i < self.classes@.len() ==> #[trigger] self.classes@[i].id < self.canon@.len()
                && self.canon@[self.classes@[i].id as int] == self.classes@[i].id
        &&& forall|i: int, j: int|
            0 <= i < j < self.classes@.len() ==> #[trigger] self.classes@[i].id
                != #[trigger] self.classes@[j].id
        &&& forall|i: int, k: int, q: int|
            0 <= i < self.classes@.len() && 0 <= k < self.classes@[i].nodes@.len() && 0 <= q
                < self.classes@[i].nodes@[k].children@.len() ==> #[trigger] self.classes@[i].nodes@[k].children@[q]
                < self.canon@.len()
        &&& forall|i1: int, k1: int, i2: int, k2: int|
            0 <= i1 < self.classes@.len() && 0 <= k1 < self.classes@[i1].nodes@.len() && 0 <= i2
                < self.classes@.len() && 0 <= k2 < self.classes@[i2].nodes@.len()
                && #[trigger] self.classes@[i1].nodes@[k1]@ == #[trigger] self.classes@[i2].nodes@[k2]@
                ==> self.classes@[i1].id == self.classes@[i2].id
    }

    /// The class that holds `n` once its children are made canonical, as
    /// `EGraph::lookup` finds it.
    pub open spec fn lookup_spec(self, n: NodeView) -> Option<usize> {
        let c = self.canonical(n);
        if exists|id: usize| self.holds(c, id) {
            Some(choose|id: usize| self.holds(c, id))
        } else {
            None
        }
    }

    /// Whether the cycle filter has blacklisted `n` (with canonical children).
    pub open spec fn blacklisted_spec(self, n: NodeView) -> bool {
        exists|k: int| 0 <= k < self.blacklist@.len() && #[trigger] self.blacklist@[k]@ == self.canonical(n)
    }

    pub proof fn lemma_lookup_valid(self, n: NodeView)
        requires
            self.wf(),
        ensures
            self.lookup_spec(n) matches Some(id) ==> self.valid_id(id as int) && self.canon@[id as int] == id,
    {
        let c = self.canonical(n);
        if exists|id: usize| self.holds(c, id) {
            let id = choose|id: usize| self.holds(c, id);
            let (i, k) = choose|i: int, k: int|
                0 <= i < self.classes@.len() && 0 <= k < self.classes@[i].nodes@.len()
                    && self.classes@[i].id == id && #[trigger] self.classes@[i].nodes@[k]@ == c;
            assert(self.classes@[i].id < self.canon@.len());
        }
    }

    /// The canonical id of `id` (`EGraph::find`).
    pub fn find(&self, id: usize) -> (r: usize)
        requires
            self.valid_id(id as int),
        ensures
            r == self.find_spec(id as int),
    {
        self.canon[id]
    }

    /// `n` with canonical children.
    pub fn canonicalize(&self, n: &Node) -> (r: Node)
        requires
            self.valid_node(n@),
        ensures
            r@ == self.canonical(n@),
    {
        let mut children: Vec<usize> = Vec::new();
        let mut i: usize = 0;
        while i < n.children.len()
            invariant
                i <= n.children.len(),
                self.valid_node(n@),
                children@ == n@.children.take(i as int).map_values(|c: usize| self.canon@[c as int]),
            decreases n.children.len() - i,
        {
            assert(self.valid_id(n@.children[i as int] as int));
            children.push(self.canon[n.children[i]]);
            i = i + 1;
            assert(children@ =~= n@.children.take(i as int).map_values(
                |c: usize| self.canon@[c as int],
            ));
        }
        assert(n@.children.take(i as int) =~= n@.children);
        let r = Node { op: n.op, children, label: crate::expr::copy_chars(&n.label) };
        r
    }

    /// The class that holds `n` (`EGraph::lookup`), or `None`.
    pub fn lookup(&self, n: &Node) -> (r: Option<usize>)
        requires
            self.wf(),
            self.valid_node(n@),
        ensures
            r == self.lookup_spec(n@),
    {
        let c = self.canonicalize(n);
        let mut i: usize = 0;
        while i < self.classes.len()
            invariant
                i <= self.classes.len(),
                self.wf(),
                c@ == self.canonical(n@),
                forall|i2: int, k2: int|
                    0 <= i2 < i && 0 <= k2 < self.classes@[i2].nodes@.len()
                        ==> #[trigger] self.classes@[i2].nodes@[k2]@ != c@,
            decreases self.classes.len() - i,
        {
            let mut k: usize = 0;
            while k < self.classes[i].nodes.len()
                invariant
                    i < self.classes.len(),
                    self.wf(),
                    c@ == self.canonical(n@),
                    k <= self.classes@[i as int].nodes@.len(),
                    forall|k2: int| 0 <= k2 < k ==> #[trigger] self.classes@[i as int].nodes@[k2]@ != c@,
                decreases self.classes@[i as int].nodes@.len() - k,
            {
                if node_eq(&self.classes[i].nodes[k], &c) {
                    let id = self.classes[i].id;
                    proof {
                        assert(self.holds(c@, id));
                        let other = choose|id2: usize| self.holds(c@, id2);
                        let (i2, k2) = choose|i2: int, k2: int|
                            0 <= i2 < self.classes@.len() && 0 <= k2 < self.classes@[i2].nodes@.len()
                                && self.classes@[i2].id == other && #[trigger] self.classes@[i2].nodes@[k2]@ == c@;
                        assert(self.classes@[i as int].nodes@[k as int]@ == self.classes@[i2].nodes@[k2]@);
                        assert(other == id);
                        assert(self.lookup_spec(n@) == Some(other));
                    }
                    return Some(id);
                }
                k = k + 1;
            }
            i = i + 1;
        }
        None
    }

    /// Whether `n`, with canonical children, is on the blacklist.
    pub fn is_blacklisted(&self, n: &Node) -> (r: bool)
        requires
            self.valid_node(n@),
        ensures
            r == self.blacklisted_spec(n@),
    {
        let c = self.canonicalize(n);
        let mut k: usize = 0;
        while k < self.blacklist.len()
            invariant
                k <= self.blacklist.len(),
                c@ == self.canonical(n@),
                forall|k2: int| 0 <= k2 < k ==> #[trigger] self.blacklist@[k2]@ != c@,
            decreases self.blacklist.len() - k,
        {
            if node_eq(&self.blacklist[k], &c) {
                return true;
            }
            k = k + 1;
        }
        false
    }
}

} // verus!

verus! {

/// The number of children of the nodes of `ns`.
pub open spec fn node_edges(ns: Seq<Node>) -> nat
    decreases ns.len(),
{
    if ns.len() == 0 {
        0
    } else {
        node_edges(ns.drop_last()) + ns.last().children@.len()
    }
}

/// The number of nodes of the classes of `cs`.
pub open spec fn total_nodes(cs: Seq<EClass>) -> nat
    decreases cs.len(),
{
    if cs.len() == 0 {
        0
    } else {
        total_nodes(cs.drop_last()) + cs.last().nodes@.len()
    }
}

/// The number of children of all nodes of the classes of `cs`.
pub open spec fn total_edges(cs: Seq<EClass>) -> nat
    decreases cs.len(),
{
    if cs.len() == 0 {
        0
    } else {
        total_edges(cs.drop_last()) + node_edges(cs.last().nodes@)
    }
}

proof fn lemma_node_edges_prefix(ns: Seq<Node>, i: int)
    requires
        0 <= i <= ns.len(),
    ensures
        node_edges(ns.take(i)) <= node_edges(ns),
    decreases ns.len(),
{
    if i < ns.len() {
        assert(ns.drop_last().take(i) =~= ns.take(i));
        lemma_node_edges_prefix(ns.drop_last(), i);
    } else {
        assert(ns.take(i) =~= ns);
    }
}

proof fn lemma_totals_prefix(cs: Seq<EClass>, i: int)
    requires
        0 <= i <= cs.len(),
    ensures
        total_nodes(cs.take(i)) <= total_nodes(cs),
        total_edges(cs.take(i)) <= total_edges(cs),
    decreases cs.len(),
{
    if i < cs.len() {
        assert(cs.drop_last().take(i) =~= cs.take(i));
        lemma_totals_prefix(cs.drop_last(), i);
    } else {
        assert(cs.take(i) =~= cs);
    }
}

/// Counts over the classes of an e-graph. The node count is that of the nodes
/// the classes hold; an e-graph's hash-cons, which may keep entries that
/// unions made stale, can be larger.
pub struct GraphStats {
    /// Total number of nodes held by the classes.
    pub class_nodes: usize,
    /// Number of classes.
    pub classes: usize,
    /// Total number of edges (children of a node).
    pub edges: usize,
}

/// A node of operator `noop` over two children.
pub open spec fn is_noop_pair(n: NodeView) -> bool {
    n.op == Op::Noop && n.children.len() == 2
}

impl EGraph {
    /// The number of nodes held by the classes, of classes and of edges.
    pub fn stats(&self) -> (r: GraphStats)
        requires
            total_nodes(self.classes@) <= usize::MAX,
            total_edges(self.classes@) <= usize::MAX,
        ensures
            r.class_nodes == total_nodes(self.classes@),
            r.classes == self.classes@.len(),
            r.edges == total_edges(self.classes@),
    {
        let mut enodes: usize = 0;
        let mut edges: usize = 0;
        let mut i: usize = 0;
        while i < self.classes.len()
            invariant
                i <= self.classes.len(),
                total_nodes(self.classes@) <= usize::MAX,
                total_edges(self.classes@) <= usize::MAX,
                enodes == total_nodes(self.classes@.take(i as int)),
                edges == total_edges(self.classes@.take(i as int)),
            decreases self.classes.len() - i,
        {
            assert(self.classes@.take(i + 1).drop_last() =~= self.classes@.take(i as int));
            proof {
                lemma_totals_prefix(self.classes@, i + 1);
            }
            let ghost base = edges;
            let mut k: usize = 0;
            while k < self.classes[i].nodes.len()
                invariant
                    i < self.classes.len(),
                    k <= self.classes@[i as int].nodes@.len(),
                    base + node_edges(self.classes@[i as int].nodes@) <= usize::MAX,
                    edges == base + node_edges(self.classes@[i as int].nodes@.take(k as int)),
                decreases self.classes@[i as int].nodes@.len() - k,
            {
                let ghost ns = self.classes@[i as int].nodes@;
                assert(ns.take(k + 1).drop_last() =~= ns.take(k as int));
                proof {
                    lemma_node_edges_prefix(ns, k + 1);
                }
                edges = edges + self.classes[i].nodes[k].children.len();
                k = k + 1;
            }
            assert(self.classes@[i as int].nodes@.take(k as int) =~= self.classes@[i as int].nodes@);
            enodes = enodes + self.classes[i].nodes.len();
            i = i + 1;
        }
        assert(self.classes@.take(i as int) =~= self.classes@);
        GraphStats { class_nodes: enodes, classes: self.classes.len(), edges }
    }

    /// The first `noop` node of the class of `root`, in the class's order:
    /// whether its two children are in the same class. `None` if the class
    /// has no such node.
    pub fn root_sides_merged(&self, root: usize) -> (r: Option<bool>)
        requires
            self.wf(),
            self.valid_id(root as int),
        ensures
            r is Some <==> exists|i: int, k: int|
                0 <= i < self.classes@.len() && 0 <= k < self.classes@[i].nodes@.len()
                    && self.classes@[i].id == self.canon@[root as int]
                    && #[trigger] is_noop_pair(self.classes@[i].nodes@[k]@),
            r matches Some(b) ==> exists|i: int, k: int|
                0 <= i < self.classes@.len() && 0 <= k < self.classes@[i].nodes@.len()
                    && self.classes@[i].id == self.canon@[root as int]
                    && #[trigger] is_noop_pair(self.classes@[i].nodes@[k]@) && (forall|k2: int|
                    0 <= k2 < k ==> !is_noop_pair(#[trigger] self.classes@[i].nodes@[k2]@)) && b == (
                self.canon@[self.classes@[i].nodes@[k].children@[0] as int]
                    == self.canon@[self.classes@[i].nodes@[k].children@[1] as int]),
    {
        let c = self.canon[root];
        let mut i: usize = 0;
        while i < self.classes.len()
            invariant
                i <= self.classes.len(),
                self.wf(),
                c == self.canon@[root as int],
                forall|i2: int| 0 <= i2 < i ==> #[trigger] self.classes@[i2].id != c,
            decreases self.classes.len() - i,
        {
            if self.classes[i].id == c {
                let mut k: usize = 0;
                while k < self.classes[i].nodes.len()
                    invariant
                        i < self.classes.len(),
                        self.wf(),
                        self.classes@[i as int].id == c,
                        c == self.canon@[root as int],
                        k <= self.classes@[i as int].nodes@.len(),
                        forall|k2: int|
                            0 <= k2 < k ==> !is_noop_pair(#[trigger] self.classes@[i as int].nodes@[k2]@),
                    decreases self.classes@[i as int].nodes@.len() - k,
                {
                    let n = &self.classes[i].nodes[k];
                    if n.op == Op::Noop && n.children.len() == 2 {
                        assert(self.classes@[i as int].nodes@[k as int].children@[0] < self.canon@.len());
                        assert(self.classes@[i as int].nodes@[k as int].children@[1] < self.canon@.len());
                        let merged = self.canon[n.children[0]] == self.canon[n.children[1]];
                        assert(is_noop_pair(self.classes@[i as int].nodes@[k as int]@));
                        return Some(merged);
                    }
                    k = k + 1;
                }
                proof {
                    assert forall|i2: int, k2: int|
                        0 <= i2 < self.classes@.len() && 0 <= k2 < self.classes@[i2].nodes@.len()
                            && self.classes@[i2].id == c implies !#[trigger] is_noop_pair(
                        self.classes@[i2].nodes@[k2]@,
                    ) by {
                        if i2 != i {
                            if i2 < i {
                                assert(self.classes@[i2].id != self.classes@[i as int].id);
                            } else {
                                assert(self.classes@[i as int].id != self.classes@[i2].id);
                            }
                        }
                    }
                }
                return None;
            }
            i = i + 1;
        }
        None
    }
}

} // verus!
