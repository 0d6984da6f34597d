use vstd::prelude::*;
use crate::expr::{Node, NodeView, Op, with_children, expr_wf, min_groups, max_leaves};
use crate::sort::sorted_by_key;
use crate::egraph::{EGraph, pair_node, make_pair};

verus! {

/// The classes of the nodes of an expression that was added to `g`: node `k`
/// with its children replaced by the classes of the earlier nodes, looked up in
/// `g`; `None` once a node is not in `g`.
pub open spec fn expr_classes(g: EGraph, e: Seq<Node>, k: nat) -> Option<Seq<usize>>
    decreases k,
{
    if k == 0 {
        Some(Seq::empty())
    } else {
        match expr_classes(g, e, (k - 1) as nat) {
            Some(ids) => {
                let n = with_children(
                    e[k - 1]@,
                    e[k - 1]@.children.map_values(|c: usize| ids[c as int]),
                );
                match g.lookup_spec(n) {
                    Some(id) => Some(ids.push(id)),
                    None => None,
                }
            },
            None => None,
        }
    }
}

pub proof fn lemma_expr_classes_valid(g: EGraph, e: Seq<Node>, k: nat)
    requires
        g.wf(),
    ensures
        expr_classes(g, e, k) matches Some(ids) ==> ids.len() == k && forall|q: int|
            0 <= q < ids.len() ==> g.valid_id(#[trigger] ids[q] as int) && g.canon@[ids[q] as int] == ids[q],
    decreases k,
{
    if k > 0 {
        lemma_expr_classes_valid(g, e, (k - 1) as nat);
        match expr_classes(g, e, (k - 1) as nat) {
            Some(ids) => {
                let n = with_children(
                    e[k - 1]@,
                    e[k - 1]@.children.map_values(|c: usize| ids[c as int]),
                );
                g.lemma_lookup_valid(n);
            },
            None => {},
        }
    }
}

proof fn lemma_expr_classes_stay_none(g: EGraph, e: Seq<Node>, j: nat, k: nat)
    requires
        j <= k,
        expr_classes(g, e, j) is None,
    ensures
        expr_classes(g, e, k) is None,
    decreases k - j,
{
    if j < k {
        lemma_expr_classes_stay_none(g, e, j, (k - 1) as nat);
    }
}

/// The class of each node of `e`, looked up in `g` after the classes of its
/// children, or `None` if some node is not in `g`.
pub fn expr_class_ids(g: &EGraph, e: &Vec<Node>) -> (r: Option<Vec<usize>>)
    requires
        g.wf(),
        expr_wf(e@),
    ensures
        match r {
            Some(ids) => expr_classes(*g, e@, e.len() as nat) == Some(ids@),
            None => expr_classes(*g, e@, e.len() as nat) is None,
        },
{
    let mut ids: Vec<usize> = Vec::new();
    let mut i: usize = 0;
    while i < e.len()
        invariant
            i <= e.len(),
            g.wf(),
            expr_wf(e@),
            expr_classes(*g, e@, i as nat) == Some(ids@),
        decreases e.len() - i,
    {
        proof {
            lemma_expr_classes_valid(*g, e@, i as nat);
        }
        let mut children: Vec<usize> = Vec::new();
        let mut q: usize = 0;
        while q < e[i].children.len()
            invariant
                i < e.len(),
                q <= e@[i as int].children@.len(),
                expr_wf(e@),
                ids.len() == i,
                forall|p: int| 0 <= p < ids.len() ==> g.valid_id(#[trigger] ids@[p] as int),
                children@ == e@[i as int].children@.take(q as int).map_values(
                    |c: usize| ids@[c as int],
                ),
            decreases e@[i as int].children@.len() - q,
        {
            let c = e[i].children[q];
            assert(c < i);
            children.push(ids[c]);
            q = q + 1;
            assert(children@ =~= e@[i as int].children@.take(q as int).map_values(
                |c: usize| ids@[c as int],
            ));
        }
        assert(e@[i as int].children@.take(q as int) =~= e@[i as int].children@);
        let node = Node { op: e[i].op, children, label: crate::expr::copy_chars(&e[i].label) };
        assert(g.valid_node(node@));
        match g.lookup(&node) {
            Some(id) => {
                ids.push(id);
            },
            None => {
                proof {
                    assert(expr_classes(*g, e@, (i + 1) as nat) is None);
                    lemma_expr_classes_stay_none(*g, e@, (i + 1) as nat, e.len() as nat);
                }
                return None;
            },
        }
        i = i + 1;
    }
    Some(ids)
}

/// The class of the left-deep `ewmax` chain over the first `k + 1` leaves,
/// in their order, or `None` if the e-graph lacks one of its nodes.
pub open spec fn chain_acc(g: EGraph, leaves: Seq<usize>, k: nat) -> Option<usize>
    decreases k,
{
    if k == 0 {
        Some(leaves[0])
    } else {
        match chain_acc(g, leaves, (k - 1) as nat) {
            Some(a) => g.lookup_spec(pair_node(Op::Ewmax, a, leaves[k as int])),
            None => None,
        }
    }
}

/// The node that joins leaf `j` to the chain is blacklisted.
pub open spec fn link_blacklisted(g: EGraph, leaves: Seq<usize>, j: nat) -> bool {
    match chain_acc(g, leaves, (j - 1) as nat) {
        Some(a) => g.blacklisted_spec(pair_node(Op::Ewmax, a, leaves[j as int])),
        None => false,
    }
}

/// Some node of the chain up to leaf `k` is blacklisted.
pub open spec fn chain_blacklisted(g: EGraph, leaves: Seq<usize>, k: nat) -> bool {
    exists|j: nat| 1 <= j <= k && #[trigger] link_blacklisted(g, leaves, j)
}

/// What the natural-order chain of a group came to.
pub enum ChainOutcome {
    /// The node that joins leaf `depth` to the chain is not in the e-graph.
    Breaks { depth: usize },
    /// The whole chain is in the e-graph, as class `class`; `blacklisted` says
    /// whether one of its nodes is blacklisted.
    Present { class: usize, blacklisted: bool },
}

pub open spec fn all_valid(g: EGraph, s: Seq<usize>) -> bool {
    forall|q: int| 0 <= q < s.len() ==> g.valid_id(#[trigger] s[q] as int)
}

proof fn lemma_chain_valid(g: EGraph, leaves: Seq<usize>, k: nat)
    requires
        g.wf(),
        all_valid(g, leaves),
        k < leaves.len(),
    ensures
        chain_acc(g, leaves, k) matches Some(a) ==> g.valid_id(a as int),
    decreases k,
{
    if k > 0 {
        lemma_chain_valid(g, leaves, (k - 1) as nat);
        if let Some(a) = chain_acc(g, leaves, (k - 1) as nat) {
            g.lemma_lookup_valid(pair_node(Op::Ewmax, a, leaves[k as int]));
        }
    }
}

proof fn lemma_chain_stays_broken(g: EGraph, leaves: Seq<usize>, j: nat, k: nat)
    requires
        j <= k,
        chain_acc(g, leaves, j) is None,
    ensures
        chain_acc(g, leaves, k) is None,
    decreases k - j,
{
    if j < k {
        lemma_chain_stays_broken(g, leaves, j, (k - 1) as nat);
    }
}

/// Follows the left-deep `ewmax` chain over the leaves of a group in their
/// natural order: where it breaks, or the class it reaches and whether one of
/// its nodes is blacklisted.
pub fn natural_chain(g: &EGraph, leaves: &Vec<usize>) -> (r: ChainOutcome)
    requires
        g.wf(),
        leaves.len() >= 1,
        all_valid(*g, leaves@),
    ensures
        match r {
            ChainOutcome::Breaks { depth } => 1 <= depth < leaves.len() && chain_acc(
                *g,
                leaves@,
                (depth - 1) as nat,
            ) is Some && chain_acc(*g, leaves@, depth as nat) is None,
            ChainOutcome::Present { class, blacklisted } => chain_acc(
                *g,
                leaves@,
                (leaves.len() - 1) as nat,
            ) == Some(class) && blacklisted == chain_blacklisted(
                *g,
                leaves@,
                (leaves.len() - 1) as nat,
            ),
        },
        r is Breaks <==> chain_acc(*g, leaves@, (leaves.len() - 1) as nat) is None,
{
    let mut acc = leaves[0];
    let mut bl = false;
    let mut k: usize = 1;
    while k < leaves.len()
        invariant
            1 <= k <= leaves.len(),
            g.wf(),
            all_valid(*g, leaves@),
            chain_acc(*g, leaves@, (k - 1) as nat) == Some(acc),
            g.valid_id(acc as int),
            bl == chain_blacklisted(*g, leaves@, (k - 1) as nat),
        decreases leaves.len() - k,
    {
        let node = make_pair(Op::Ewmax, acc, leaves[k]);
        assert(g.valid_node(node@)) by {
            assert(node@.children[0] == acc);
            assert(node@.children[1] == leaves@[k as int]);
        }
        let b = g.is_blacklisted(&node);
        proof {
            assert(link_blacklisted(*g, leaves@, k as nat) == b);
            if b {
                assert(chain_blacklisted(*g, leaves@, k as nat));
            }
            if chain_blacklisted(*g, leaves@, k as nat) && !b {
                let j = choose|j: nat| 1 <= j <= k && #[trigger] link_blacklisted(*g, leaves@, j);
                if j < k {
                    assert(chain_blacklisted(*g, leaves@, (k - 1) as nat));
                }
            }
        }
        if b {
            bl = true;
        }
        match g.lookup(&node) {
            Some(id) => {
                proof {
                    g.lemma_lookup_valid(node@);
                }
                acc = id;
            },
            None => {
                proof {
                    lemma_chain_stays_broken(*g, leaves@, k as nat, (leaves.len() - 1) as nat);
                }
                return ChainOutcome::Breaks { depth: k };
            },
        }
        k = k + 1;
    }
    ChainOutcome::Present { class: acc, blacklisted: bl }
}

/// The outer `ewmin` over the chains of the first two groups, in either order
/// of its operands: whether the e-graph holds it, and if so whether its class
/// is that of the root.
pub open spec fn outer_min_spec(g: EGraph, a: usize, b: usize, root: usize) -> Option<bool> {
    match g.lookup_spec(pair_node(Op::Ewmin, a, b)) {
        Some(id) => Some(g.canon@[id as int] == g.canon@[root as int]),
        None => match g.lookup_spec(pair_node(Op::Ewmin, b, a)) {
            Some(id) => Some(g.canon@[id as int] == g.canon@[root as int]),
            None => None,
        },
    }
}

pub fn outer_min(g: &EGraph, a: usize, b: usize, root: usize) -> (r: Option<bool>)
    requires
        g.wf(),
        g.valid_id(a as int),
        g.valid_id(b as int),
        g.valid_id(root as int),
    ensures
        r == outer_min_spec(*g, a, b, root),
{
    let n1 = make_pair(Op::Ewmin, a, b);
    assert(g.valid_node(n1@)) by {
        assert(n1@.children[0] == a && n1@.children[1] == b);
    }
    let found = match g.lookup(&n1) {
        Some(id) => Some(id),
        None => {
            let n2 = make_pair(Op::Ewmin, b, a);
            assert(g.valid_node(n2@)) by {
                assert(n2@.children[0] == b && n2@.children[1] == a);
            }
            g.lookup(&n2)
        },
    };
    match found {
        Some(id) => {
            proof {
                g.lemma_lookup_valid(pair_node(Op::Ewmin, a, b));
                g.lemma_lookup_valid(pair_node(Op::Ewmin, b, a));
            }
            Some(g.find(id) == g.find(root))
        },
        None => None,
    }
}

} // verus!

verus! {

pub open spec fn has_bit(mask: u32, j: u32) -> bool {
    mask & (1u32 << j) != 0u32
}

pub open spec fn without_bit(mask: u32, j: u32) -> u32 {
    mask & !(1u32 << j)
}

pub proof fn lemma_without_bit_smaller(mask: u32, j: u32) by (bit_vector)
    requires
        j < 32,
        mask & (1u32 << j) != 0u32,
    ensures
        mask & !(1u32 << j) < mask,
{
}

pub proof fn lemma_shift_injective(a: u32, b: u32) by (bit_vector)
    requires
        a < 32,
        b < 32,
        (1u32 << a) == (1u32 << b),
    ensures
        a == b,
{
}

proof fn lemma_full_mask(m: u32) by (bit_vector)
    requires
        1 <= m <= 16,
    ensures
        2 <= (1u32 << m) <= 65536,
{
}

/// The mask with one bit for each of `m` leaves.
pub open spec fn full_mask(m: nat) -> u32 {
    ((1u32 << (m as u32)) - 1) as u32
}

/// The canonical class of leaf `j`.
pub open spec fn leaf_class(g: EGraph, leaves: Seq<usize>, j: int) -> usize {
    g.canon@[leaves[j] as int]
}

/// The classes of `ewmax` nodes that join a class of `from` and `leaf`, in
/// either order of the operands.
pub open spec fn grow(g: EGraph, from: Set<usize>, leaf: usize) -> Set<usize> {
    Set::new(
        |r: usize|
            exists|id: usize|
                #![trigger from.contains(id)]
                from.contains(id) && (g.lookup_spec(pair_node(Op::Ewmax, id, leaf)) == Some(r)
                    || g.lookup_spec(pair_node(Op::Ewmax, leaf, id)) == Some(r)),
    )
}

pub open spec fn is_single(m: nat, mask: u32) -> bool {
    exists|j: u32| j < m && mask == (1u32 << j)
}

/// The classes reachable over exactly the leaves of `mask`, given those of
/// every smaller mask in `tbl`: the leaf itself for a single leaf, else every
/// class that joins a chain over the mask without some leaf `j` to leaf `j`.
pub open spec fn reach_entry(g: EGraph, leaves: Seq<usize>, tbl: Seq<Set<usize>>, mask: u32) -> Set<
    usize,
> {
    if mask == 0 {
        Set::empty()
    } else if is_single(leaves.len(), mask) {
        let j = choose|j: u32| j < leaves.len() && mask == (1u32 << j);
        Set::empty().insert(leaf_class(g, leaves, j as int))
    } else {
        Set::new(
            |r: usize|
                exists|j: u32|
                    #![trigger has_bit(mask, j)]
                    j < leaves.len() && has_bit(mask, j) && grow(
                        g,
                        tbl[without_bit(mask, j) as int],
                        leaf_class(g, leaves, j as int),
                    ).contains(r),
        )
    }
}

/// The entries of the masks below `n`.
pub open spec fn reach_table(g: EGraph, leaves: Seq<usize>, n: nat) -> Seq<Set<usize>>
    decreases n,
{
    if n == 0 {
        Seq::empty()
    } else {
        let t = reach_table(g, leaves, (n - 1) as nat);
        t.push(reach_entry(g, leaves, t, (n - 1) as u32))
    }
}

/// The classes realizable as some left-deep `ewmax` chain over exactly the
/// leaves of `mask`, in any order.
pub open spec fn chain_classes(g: EGraph, leaves: Seq<usize>, mask: u32) -> Set<usize> {
    reach_table(g, leaves, mask as nat + 1)[mask as int]
}

pub fn vec_contains(v: &Vec<usize>, x: usize) -> (r: bool)
    ensures
        r == v@.contains(x),
{
    let mut i: usize = 0;
    while i < v.len()
        invariant
            i <= v.len(),
            forall|k: int| 0 <= k < i ==> v@[k] != x,
        decreases v.len() - i,
    {
        if v[i] == x {
            assert(v@[i as int] == x);
            return true;
        }
        i = i + 1;
    }
    false
}

/// Adds to `acc` the class that holds `n`, if there is one and `acc` lacks it.
fn add_lookup(g: &EGraph, acc: &mut Vec<usize>, n: &Node)
    requires
        g.wf(),
        g.valid_node(n@),
        all_valid(*g, old(acc)@),
        old(acc)@.no_duplicates(),
    ensures
        all_valid(*g, final(acc)@),
        final(acc)@.no_duplicates(),
        forall|r: usize|
            #![trigger final(acc)@.contains(r)]
            final(acc)@.contains(r) <==> (old(acc)@.contains(r) || g.lookup_spec(n@) == Some(r)),
{
    match g.lookup(n) {
        Some(r) => {
            proof {
                g.lemma_lookup_valid(n@);
            }
            if !vec_contains(acc, r) {
                let ghost prev = acc@;
                acc.push(r);
                proof {
                    assert forall|a: int, b: int| 0 <= a < b < acc@.len() implies acc@[a] != acc@[b] by {
                        if b == acc@.len() - 1 {
                            assert(prev.contains(prev[a]));
                        }
                    }
                    assert forall|r2: usize|
                        #![trigger acc@.contains(r2)]
                        acc@.contains(r2) <==> (prev.contains(r2) || r2 == r) by {
                        if acc@.contains(r2) && r2 != r {
                            let k = choose|k: int| 0 <= k < acc@.len() && acc@[k] == r2;
                            assert(prev[k] == r2);
                        }
                        if prev.contains(r2) {
                            let k = choose|k: int| 0 <= k < prev.len() && prev[k] == r2;
                            assert(acc@[k] == r2);
                        }
                        if r2 == r {
                            assert(acc@[acc@.len() - 1] == r);
                        }
                    }
                }
            }
        },
        None => {},
    }
}

/// Adds to `acc` each class of `grow(g, s, leaf)` that it lacks, where `from`
/// lists the classes of `s`.
fn grow_into(
    g: &EGraph,
    acc: &mut Vec<usize>,
    from: &Vec<usize>,
    leaf: usize,
    Ghost(s): Ghost<Set<usize>>,
)
    requires
        g.wf(),
        g.valid_id(leaf as int),
        all_valid(*g, from@),
        all_valid(*g, old(acc)@),
        old(acc)@.no_duplicates(),
        forall|id: usize| from@.contains(id) <==> s.contains(id),
    ensures
        all_valid(*g, final(acc)@),
        final(acc)@.no_duplicates(),
        forall|r: usize|
            #![trigger final(acc)@.contains(r)]
            final(acc)@.contains(r) <==> (old(acc)@.contains(r) || grow(*g, s, leaf).contains(r)),
{
    let ghost start = acc@;
    let mut q: usize = 0;
    while q < from.len()
        invariant
            q <= from.len(),
            g.wf(),
            g.valid_id(leaf as int),
            all_valid(*g, from@),
            all_valid(*g, acc@),
            acc@.no_duplicates(),
            forall|r: usize|
                #![trigger acc@.contains(r)]
                acc@.contains(r) <==> (start.contains(r) || exists|p: int|
                    0 <= p < q && (g.lookup_spec(pair_node(Op::Ewmax, from@[p], leaf)) == Some(r)
                        || g.lookup_spec(pair_node(Op::Ewmax, leaf, from@[p])) == Some(r))),
        decreases from.len() - q,
    {
        let id = from[q];
        assert(g.valid_id(from@[q as int] as int));
        let ghost before = acc@;
        let n1 = make_pair(Op::Ewmax, id, leaf);
        assert(g.valid_node(n1@)) by {
            assert(n1@.children[0] == id && n1@.children[1] == leaf);
        }
        add_lookup(g, acc, &n1);
        let n2 = make_pair(Op::Ewmax, leaf, id);
        assert(g.valid_node(n2@)) by {
            assert(n2@.children[0] == leaf && n2@.children[1] == id);
        }
        add_lookup(g, acc, &n2);
        q = q + 1;
        proof {
            assert forall|r: usize|
                #![trigger acc@.contains(r)]
                acc@.contains(r) <==> (start.contains(r) || exists|p: int|
                    0 <= p < q && (g.lookup_spec(pair_node(Op::Ewmax, from@[p], leaf)) == Some(r)
                        || g.lookup_spec(pair_node(Op::Ewmax, leaf, from@[p])) == Some(r))) by {
                if acc@.contains(r) && !before.contains(r) {
                    assert(from@[q - 1] == id);
                }
            }
        }
    }
    assert forall|r: usize|
        #![trigger final(acc)@.contains(r)]
        final(acc)@.contains(r) <==> (old(acc)@.contains(r) || grow(*g, s, leaf).contains(r)) by {
        if grow(*g, s, leaf).contains(r) {
            let id = choose|id: usize|
                s.contains(id) && (g.lookup_spec(pair_node(Op::Ewmax, id, leaf)) == Some(r)
                    || g.lookup_spec(pair_node(Op::Ewmax, leaf, id)) == Some(r));
            assert(from@.contains(id));
            let p = choose|p: int| 0 <= p < from@.len() && from@[p] == id;
        }
        if final(acc)@.contains(r) && !old(acc)@.contains(r) {
            let p = choose|p: int|
                0 <= p < q && (g.lookup_spec(pair_node(Op::Ewmax, from@[p], leaf)) == Some(r)
                    || g.lookup_spec(pair_node(Op::Ewmax, leaf, from@[p])) == Some(r));
            assert(from@.contains(from@[p]));
            assert(s.contains(from@[p]));
        }
    }
}

} // verus!

verus! {

pub proof fn lemma_reach_table_len(g: EGraph, leaves: Seq<usize>, n: nat)
    ensures
        reach_table(g, leaves, n).len() == n,
    decreases n,
{
    if n > 0 {
        lemma_reach_table_len(g, leaves, (n - 1) as nat);
    }
}

pub open spec fn same_set(v: Seq<usize>, s: Set<usize>) -> bool {
    forall|r: usize| #![trigger v.contains(r)] #![trigger s.contains(r)] v.contains(r) <==> s.contains(r)
}


/// The classes of the entry of `mask`, given the entries of the smaller masks.
fn entry_exec(
    g: &EGraph,
    leaves: &Vec<usize>,
    table: &Vec<Vec<usize>>,
    mask: u32,
    mu: u32,
    full: u32,
    Ghost(t): Ghost<Seq<Set<usize>>>,
) -> (acc: Vec<usize>)
    requires
        1 <= mask <= full <= 65535,
        1 <= mu <= 16,
        mu == leaves.len(),
        g.wf(),
        all_valid(*g, leaves@),
        table.len() == mask,
        t.len() == mask,
        forall|k: int|
            0 <= k < mask ==> #[trigger] table@[k]@.no_duplicates() && all_valid(*g, table@[k]@)
                && same_set(table@[k]@, t[k]),
    ensures
        acc@.no_duplicates(),
        all_valid(*g, acc@),
        same_set(acc@, reach_entry(*g, leaves@, t, mask)),
{
    let m = leaves.len();
    let mut j: u32 = 0;
    while j < mu && mask != (1u32 << j)
        invariant
            j <= mu <= 16,
            forall|j2: u32| j2 < j ==> mask != (1u32 << j2),
        decreases mu - j,
    {
        j = j + 1;
    }
    let mut acc: Vec<usize> = Vec::new();
    if j < mu {
        let leaf = g.find(leaves[j as usize]);
        acc.push(leaf);
        proof {
            assert(is_single(leaves.len() as nat, mask));
            assert(g.valid_id(leaves@[j as int] as int));
            assert forall|r: usize|
                #![trigger acc@.contains(r)]
                acc@.contains(r) <==> reach_entry(*g, leaves@, t, mask).contains(r) by {
                let j2 = choose|j2: u32| j2 < leaves.len() && mask == (1u32 << j2);
                lemma_shift_injective(j, j2);
                assert(reach_entry(*g, leaves@, t, mask) == Set::<usize>::empty().insert(leaf));
                if acc@.contains(r) {
                    assert(acc@[0] == r);
                }
                if r == leaf {
                    assert(acc@[0] == r);
                }
            }
            assert(acc@.no_duplicates());
        }
    } else {
        assert(!is_single(leaves.len() as nat, mask));
        assert forall|k: int|
            0 <= k < mask implies #[trigger] table@[k]@.no_duplicates() && all_valid(
                *g,
                table@[k]@,
            ) && same_set(table@[k]@, t[k]) by {}
        let mut jj: u32 = 0;
        while jj < mu
            invariant
                jj <= mu <= 16,
                1 <= mask <= full <= 65535,
                m == leaves.len(),
                mu == m,
                g.wf(),
                all_valid(*g, leaves@),
                table.len() == mask,
                t.len() == mask,
                forall|k: int|
                    0 <= k < mask ==> #[trigger] table@[k]@.no_duplicates() && all_valid(
                        *g,
                        table@[k]@,
                    ) && same_set(table@[k]@, t[k]),
                all_valid(*g, acc@),
                acc@.no_duplicates(),
                forall|r: usize|
                    #![trigger acc@.contains(r)]
                    acc@.contains(r) <==> exists|j2: u32|
                        #![trigger has_bit(mask, j2)]
                        j2 < jj && has_bit(mask, j2) && grow(
                            *g,
                            t[without_bit(mask, j2) as int],
                            leaf_class(*g, leaves@, j2 as int),
                        ).contains(r),
            decreases mu - jj,
        {
            let ghost before = acc@;
            if mask & (1u32 << jj) != 0 {
                let sub = mask & !(1u32 << jj);
                proof {
                    lemma_without_bit_smaller(mask, jj);
                }
                assert(g.valid_id(leaves@[jj as int] as int));
                let leaf = g.find(leaves[jj as usize]);
                assert(sub < mask);
                assert(table@[sub as int]@.no_duplicates());
                grow_into(g, &mut acc, &table[sub as usize], leaf, Ghost(t[sub as int]));
                proof {
                    assert forall|r: usize|
                        #![trigger acc@.contains(r)]
                        acc@.contains(r) <==> exists|j2: u32|
                            #![trigger has_bit(mask, j2)]
                            j2 < jj + 1 && has_bit(mask, j2) && grow(
                                *g,
                                t[without_bit(mask, j2) as int],
                                leaf_class(*g, leaves@, j2 as int),
                            ).contains(r) by {
                        if acc@.contains(r) && !before.contains(r) {
                            assert(has_bit(mask, jj));
                        }
                    }
                }
            } else {
                proof {
                    assert forall|r: usize|
                        #![trigger acc@.contains(r)]
                        acc@.contains(r) <==> exists|j2: u32|
                            #![trigger has_bit(mask, j2)]
                            j2 < jj + 1 && has_bit(mask, j2) && grow(
                                *g,
                                t[without_bit(mask, j2) as int],
                                leaf_class(*g, leaves@, j2 as int),
                            ).contains(r) by {
                        if exists|j2: u32|
                            #![trigger has_bit(mask, j2)]
                            j2 < jj + 1 && has_bit(mask, j2) && grow(
                                *g,
                                t[without_bit(mask, j2) as int],
                                leaf_class(*g, leaves@, j2 as int),
                            ).contains(r) {
                            let j2 = choose|j2: u32|
                                #![trigger has_bit(mask, j2)]
                                j2 < jj + 1 && has_bit(mask, j2) && grow(
                                    *g,
                                    t[without_bit(mask, j2) as int],
                                    leaf_class(*g, leaves@, j2 as int),
                                ).contains(r);
                            assert(j2 != jj);
                        }
                    }
                }
            }
            jj = jj + 1;
        }
        proof {
            assert forall|r: usize|
                #![trigger acc@.contains(r)]
                acc@.contains(r) <==> reach_entry(*g, leaves@, t, mask).contains(r) by {
            }
        }
    }
    acc
}

/// The order-independent subset closure of a group: the classes realizable as
/// some left-deep `ewmax` chain over all of its leaves, in any order. `None`
/// for a group with no leaf or more than 16 leaves, which is not closed.
pub fn subset_closure(g: &EGraph, leaves: &Vec<usize>) -> (r: Option<Vec<usize>>)
    requires
        g.wf(),
        all_valid(*g, leaves@),
    ensures
        r is None <==> (leaves.len() == 0 || leaves.len() > 16),
        r matches Some(ids) ==> ids@.no_duplicates() && same_set(
            ids@,
            chain_classes(*g, leaves@, full_mask(leaves.len() as nat)),
        ),
{
    let m = leaves.len();
    if m == 0 || m > 16 {
        return None;
    }
    let mu = m as u32;
    proof {
        lemma_full_mask(mu);
    }
    let full: u32 = (1u32 << mu) - 1;
    assert(full == full_mask(leaves.len() as nat));
    let mut table: Vec<Vec<usize>> = Vec::new();
    table.push(Vec::new());
    proof {
        assert(reach_table(*g, leaves@, 0) == Seq::<Set<usize>>::empty());
        assert(reach_table(*g, leaves@, 1)[0] == Set::<usize>::empty());
        lemma_reach_table_len(*g, leaves@, 1);
        assert(same_set(table@[0]@, reach_table(*g, leaves@, 1)[0]));
    }
    let mut mask: u32 = 1;
    while mask <= full
        invariant
            1 <= mask <= full + 1,
            1 <= full <= 65535,
            m == leaves.len(),
            mu == m,
            1 <= mu <= 16,
            full == full_mask(leaves.len() as nat),
            g.wf(),
            all_valid(*g, leaves@),
            table.len() == mask,
            reach_table(*g, leaves@, mask as nat).len() == mask,
            forall|k: int|
                0 <= k < mask ==> #[trigger] table@[k]@.no_duplicates() && all_valid(
                    *g,
                    table@[k]@,
                ) && same_set(table@[k]@, reach_table(*g, leaves@, mask as nat)[k]),
        decreases full + 1 - mask,
    {
        let ghost t = reach_table(*g, leaves@, mask as nat);
        assert forall|k: int|
            0 <= k < mask implies #[trigger] table@[k]@.no_duplicates() && all_valid(
                *g,
                table@[k]@,
            ) && same_set(table@[k]@, t[k]) by {}
        let acc = entry_exec(g, leaves, &table, mask, mu, full, Ghost(t));
        let ghost accv = acc@;
        let ghost old_table = table@;
        table.push(acc);
        proof {
            lemma_reach_table_len(*g, leaves@, (mask + 1) as nat);
            let t2 = reach_table(*g, leaves@, (mask + 1) as nat);
            assert(t2 == t.push(reach_entry(*g, leaves@, t, mask)));
            assert forall|k: int|
                0 <= k < mask + 1 implies #[trigger] table@[k]@.no_duplicates() && all_valid(
                    *g,
                    table@[k]@,
                ) && same_set(table@[k]@, t2[k]) by {
                if k < mask {
                    assert(table@[k] == old_table[k]);
                    assert(t2[k] == t[k]);
                } else {
                    assert(table@[k]@ == accv);
                    assert(t2[k] == reach_entry(*g, leaves@, t, mask));
                }
            }
        }
        mask = mask + 1;
    }
    let r = crate::expr::copy_children(&table[full as usize]);
    proof {
        assert(table@[full as int]@.no_duplicates());
    }
    Some(r)
}

} // verus!

verus! {

/// What `natural_chain` states of its outcome.
pub open spec fn chain_outcome_ok(g: EGraph, leaves: Seq<usize>, r: ChainOutcome) -> bool {
    match r {
        ChainOutcome::Breaks { depth } => 1 <= depth < leaves.len() && chain_acc(
            g,
            leaves,
            (depth - 1) as nat,
        ) is Some && chain_acc(g, leaves, depth as nat) is None,
        ChainOutcome::Present { class, blacklisted } => chain_acc(
            g,
            leaves,
            (leaves.len() - 1) as nat,
        ) == Some(class) && blacklisted == chain_blacklisted(g, leaves, (leaves.len() - 1) as nat),
    }
}

/// What `subset_closure` states of its outcome.
pub open spec fn closure_ok(g: EGraph, leaves: Seq<usize>, r: Option<Vec<usize>>) -> bool {
    &&& (r is None <==> (leaves.len() == 0 || leaves.len() > 16))
    &&& (r matches Some(ids) ==> ids@.no_duplicates() && same_set(
        ids@,
        chain_classes(g, leaves, full_mask(leaves.len() as nat)),
    ))
}

/// The diagnosis of one group of the start graph.
pub struct GroupReport {
    /// The classes of the leaves of its `ewmax` tree, in order.
    pub leaves: Vec<usize>,
    pub chain: ChainOutcome,
    /// The classes of every left-deep chain over all its leaves, in any
    /// order; `None` when the group is not closed (no leaf or over 16).
    pub closure: Option<Vec<usize>>,
}

/// The reachability diagnosis of a min-of-max start graph in a saturated
/// e-graph.
pub struct ChainReport {
    pub groups: Vec<GroupReport>,
    /// For two groups or more whose natural chains are all present: whether
    /// the outer `ewmin` over the first two is in the e-graph (`None` if not),
    /// and if so whether it is in the class of the root.
    pub outer: Option<Option<bool>>,
}

pub open spec fn map_ids(ids: Seq<usize>, nodes: Seq<usize>) -> Seq<usize> {
    nodes.map_values(|i: usize| ids[i as int])
}

pub open spec fn all_present(r: Seq<GroupReport>) -> bool {
    forall|k: int| 0 <= k < r.len() ==> (#[trigger] r[k]).chain is Present
}

/// Runs the reachability diagnosis of `start` (an `ewmin` tree over `ewmax`
/// trees, its root last) in the saturated `g`: the class of each node of
/// `start`, the groups below the `ewmin` tree (roots in ascending order), and
/// for each group its natural-order chain and its subset closure; then the
/// outer minimum. `None` if some node of `start` is not in `g`.
pub fn query_chain(g: &EGraph, start: &Vec<Node>) -> (r: Option<ChainReport>)
    requires
        g.wf(),
        expr_wf(start@),
        start.len() > 0,
    ensures
        r is None <==> expr_classes(*g, start@, start.len() as nat) is None,
        r matches Some(rep) ==> {
            let ids = expr_classes(*g, start@, start.len() as nat)->Some_0;
            &&& rep.groups.len() == min_groups(start@, start.len() - 1).len()
            &&& exists|roots: Seq<usize>|
                {
                    &&& sorted_by_key(roots)
                    &&& roots.to_multiset() == min_groups(start@, start.len() - 1).to_multiset()
                    &&& roots.len() == rep.groups.len()
                    &&& forall|k: int|
                        0 <= k < rep.groups.len() ==> {
                            let gr = #[trigger] rep.groups@[k];
                            &&& roots[k] < start.len()
                            &&& gr.leaves@ == map_ids(ids, max_leaves(start@, roots[k] as int))
                            &&& chain_outcome_ok(*g, gr.leaves@, gr.chain)
                            &&& closure_ok(*g, gr.leaves@, gr.closure)
                        }
                }
            &&& rep.outer == if rep.groups.len() >= 2 && all_present(rep.groups@) {
                Some(
                    outer_min_spec(
                        *g,
                        rep.groups@[0].chain->class,
                        rep.groups@[1].chain->class,
                        ids[start.len() - 1],
                    ),
                )
            } else {
                None
            }
        },
{
    let ids = match expr_class_ids(g, start) {
        Some(ids) => ids,
        None => {
            return None;
        },
    };
    proof {
        lemma_expr_classes_valid(*g, start@, start.len() as nat);
    }
    let (roots, groups) = crate::expr::min_max_groups(start);
    let mut reports: Vec<GroupReport> = Vec::new();
    let mut all_ok = true;
    let mut k: usize = 0;
    while k < groups.len()
        invariant
            k <= groups.len() == roots.len(),
            ids.len() == start.len(),
            g.wf(),
            forall|q: int| 0 <= q < ids.len() ==> g.valid_id(#[trigger] ids@[q] as int),
            forall|q: int| 0 <= q < roots.len() ==> #[trigger] roots@[q] < start.len(),
            forall|q: int|
                0 <= q < roots.len() ==> #[trigger] groups@[q]@ == max_leaves(start@, roots@[q] as int),
            reports.len() == k,
            forall|q: int| 0 <= q < k ==> all_valid(*g, (#[trigger] reports@[q]).leaves@) && reports@[q].leaves@.len() >= 1,
            all_ok == all_present(reports@),
            forall|q: int|
                0 <= q < k ==> {
                    let gr = #[trigger] reports@[q];
                    &&& gr.leaves@ == map_ids(ids@, max_leaves(start@, roots@[q] as int))
                    &&& chain_outcome_ok(*g, gr.leaves@, gr.chain)
                    &&& closure_ok(*g, gr.leaves@, gr.closure)
                },
        decreases groups.len() - k,
    {
        proof {
            crate::expr::lemma_max_leaves_bounded(start@, roots@[k as int] as int);
        }
        let mut leaves: Vec<usize> = Vec::new();
        let mut j: usize = 0;
        while j < groups[k].len()
            invariant
                k < groups.len(),
                j <= groups@[k as int]@.len(),
                ids.len() == start.len(),
                forall|q: int| 0 <= q < groups@[k as int]@.len() ==> #[trigger] groups@[k as int]@[q] < start.len(),
                leaves@ == map_ids(ids@, groups@[k as int]@.take(j as int)),
            decreases groups@[k as int]@.len() - j,
        {
            leaves.push(ids[groups[k][j]]);
            j = j + 1;
            assert(leaves@ =~= map_ids(ids@, groups@[k as int]@.take(j as int)));
        }
        assert(groups@[k as int]@.take(j as int) =~= groups@[k as int]@);
        assert(all_valid(*g, leaves@)) by {
            assert forall|q: int| 0 <= q < leaves@.len() implies g.valid_id(#[trigger] leaves@[q] as int) by {
                assert(leaves@[q] == ids@[groups@[k as int]@[q] as int]);
            }
        }
        proof {
            crate::expr::lemma_max_leaves_nonempty(start@, roots@[k as int] as int);
        }
        let chain = natural_chain(g, &leaves);
        let closure = subset_closure(g, &leaves);
        let present = match chain {
            ChainOutcome::Present { .. } => true,
            ChainOutcome::Breaks { .. } => false,
        };
        let ghost old_reports = reports@;
        reports.push(GroupReport { leaves, chain, closure });
        proof {
            assert forall|q: int| 0 <= q < k + 1 implies {
                let gr = #[trigger] reports@[q];
                &&& gr.leaves@ == map_ids(ids@, max_leaves(start@, roots@[q] as int))
                &&& chain_outcome_ok(*g, gr.leaves@, gr.chain)
                &&& closure_ok(*g, gr.leaves@, gr.closure)
            } by {
                if q < k {
                    assert(reports@[q] == old_reports[q]);
                }
            }
            assert forall|q: int| 0 <= q < k + 1 implies all_valid(*g, (#[trigger] reports@[q]).leaves@) && reports@[q].leaves@.len() >= 1 by {
                if q < k {
                    assert(reports@[q] == old_reports[q]);
                }
            }
            if all_ok && !present {
                assert(!(reports@[k as int].chain is Present));
            }
            if !all_ok {
                let q = choose|q: int| 0 <= q < old_reports.len() && !((#[trigger] old_reports[q]).chain is Present);
                assert(reports@[q] == old_reports[q]);
            }
            if all_ok && present {
                assert forall|q: int| 0 <= q < reports@.len() implies (#[trigger] reports@[q]).chain is Present by {
                    if q < k {
                        assert(reports@[q] == old_reports[q]);
                    }
                }
            }
        }
        all_ok = all_ok && present;
        k = k + 1;
    }
    let root = ids[start.len() - 1];
    let outer = if reports.len() >= 2 && all_ok {
        let a = match reports[0].chain {
            ChainOutcome::Present { class, .. } => class,
            ChainOutcome::Breaks { .. } => 0,
        };
        let b = match reports[1].chain {
            ChainOutcome::Present { class, .. } => class,
            ChainOutcome::Breaks { .. } => 0,
        };
        proof {
            let l0 = reports@[0].leaves@;
            let l1 = reports@[1].leaves@;
            lemma_chain_valid(*g, l0, (l0.len() - 1) as nat);
            lemma_chain_valid(*g, l1, (l1.len() - 1) as nat);
        }
        Some(outer_min(g, a, b, root))
    } else {
        None
    };
    let rep = ChainReport { groups: reports, outer };
    proof {
        broadcast use vstd::seq_lib::group_to_multiset_ensures;

        assert(roots@.len() == groups.len());
        assert(roots@.to_multiset().len() == min_groups(start@, start.len() - 1).to_multiset().len());
        assert(forall|k: int|
            0 <= k < rep.groups.len() ==> {
                let gr = #[trigger] rep.groups@[k];
                &&& roots@[k] < start.len()
                &&& gr.leaves@ == map_ids(ids@, max_leaves(start@, roots@[k] as int))
                &&& chain_outcome_ok(*g, gr.leaves@, gr.chain)
                &&& closure_ok(*g, gr.leaves@, gr.closure)
            });
    }
    Some(rep)
}

} // verus!
