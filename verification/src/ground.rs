use vstd::prelude::*;
use crate::expr::{Node, NodeView, Op, with_children, is_elementwise, elementwise, copy_chars};
use crate::text::{decimal, signed_decimal, push_decimal, push_signed_decimal};

verus! {

/// A node of a rule's pattern: a pattern variable, or an operator node whose
/// children are earlier pattern nodes.
pub enum PatNode {
    Var(Vec<char>),
    ENode(Node),
}

pub enum PatView {
    Var(Seq<char>),
    ENode(NodeView),
}

impl View for PatNode {
    type V = PatView;

    open spec fn view(&self) -> PatView {
        match self {
            PatNode::Var(name) => PatView::Var(name@),
            PatNode::ENode(n) => PatView::ENode(n@),
        }
    }
}

/// A pattern variable bound to the node that grounds it.
pub struct VarBinding {
    pub name: Vec<char>,
    pub id: usize,
}

pub open spec fn node_views(e: Seq<Node>) -> Seq<NodeView> {
    e.map_values(|n: Node| n@)
}

pub open spec fn binding_views(v: Seq<VarBinding>) -> Seq<(Seq<char>, usize)> {
    v.map_values(|b: VarBinding| (b.name@, b.id))
}

/// A pattern is well formed when each child of an operator node comes before it.
pub open spec fn pattern_wf(p: Seq<PatNode>) -> bool {
    forall|i: int, k: int|
        0 <= i < p.len() && p[i]@ is ENode && 0 <= k < p[i]@->ENode_0.children.len()
            ==> #[trigger] p[i]@->ENode_0.children[k] < i
}

/// The node bound to `name`, the first binding of that name.
pub open spec fn var_lookup(vars: Seq<(Seq<char>, usize)>, name: Seq<char>) -> Option<usize>
    decreases vars.len(),
{
    if vars.len() == 0 {
        None
    } else if vars[0].0 == name {
        Some(vars[0].1)
    } else {
        var_lookup(vars.drop_first(), name)
    }
}

/// The name of the input that grounds the `n`-th variable: `rv{n}@{d}_{d}`,
/// an input of shape `d` by `d`.
pub open spec fn fresh_name(n: nat, d: int) -> Seq<char> {
    seq!['r', 'v'] + decimal(n) + seq!['@'] + signed_decimal(d) + seq!['_'] + signed_decimal(d)
}

/// Where grounding a pattern stands: the expression built so far, the
/// variable bindings, the node that grounds each pattern node so far, and
/// whether a node that cannot be grounded was met.
pub struct GroundState {
    pub expr: Seq<NodeView>,
    pub vars: Seq<(Seq<char>, usize)>,
    pub ids: Seq<usize>,
    pub failed: bool,
}

pub open spec fn var_node(name: Seq<char>) -> NodeView {
    NodeView { op: Op::Var, children: Seq::empty(), label: name }
}

pub open spec fn input_node(name_id: usize) -> NodeView {
    NodeView { op: Op::Input, children: seq![name_id], label: Seq::empty() }
}

/// Grounds one more pattern node. A variable seen before grounds to the same
/// input; a new one to a fresh `input` over a fresh name. An elementwise
/// node is copied over the grounded children; any other operator fails.
pub open spec fn ground_step(st: GroundState, p: PatView, d: int) -> GroundState {
    if st.failed {
        st
    } else {
        match p {
            PatView::Var(name) => match var_lookup(st.vars, name) {
                Some(id) => GroundState { ids: st.ids.push(id), ..st },
                None => {
                    let name_id = st.expr.len() as usize;
                    let inp = (st.expr.len() + 1) as usize;
                    GroundState {
                        expr: st.expr.push(var_node(fresh_name(st.vars.len(), d))).push(
                            input_node(name_id),
                        ),
                        vars: st.vars.push((name, inp)),
                        ids: st.ids.push(inp),
                        failed: false,
                    }
                },
            },
            PatView::ENode(m) => if is_elementwise(m.op) {
                GroundState {
                    expr: st.expr.push(
                        with_children(m, m.children.map_values(|c: usize| st.ids[c as int])),
                    ),
                    ids: st.ids.push(st.expr.len() as usize),
                    ..st
                }
            } else {
                GroundState { failed: true, ..st }
            },
        }
    }
}

/// The state after grounding the first `k` nodes of `p`.
pub open spec fn ground_run(p: Seq<PatView>, st: GroundState, d: int, k: nat) -> GroundState
    decreases k,
{
    if k == 0 {
        st
    } else {
        ground_step(ground_run(p, st, d, (k - 1) as nat), p[k - 1], d)
    }
}

pub open spec fn pat_views(p: Seq<PatNode>) -> Seq<PatView> {
    p.map_values(|n: PatNode| n@)
}

/// A pattern node that no grounding handles: an operator that is not
/// elementwise.
pub open spec fn blocks_grounding(p: PatView) -> bool {
    p matches PatView::ENode(m) && !is_elementwise(m.op)
}

pub proof fn lemma_run_fails_iff(p: Seq<PatView>, st: GroundState, d: int, k: nat)
    requires
        !st.failed,
        k <= p.len(),
    ensures
        ground_run(p, st, d, k).failed <==> exists|i: int| 0 <= i < k && #[trigger] blocks_grounding(p[i]),
        !ground_run(p, st, d, k).failed ==> ground_run(p, st, d, k).ids.len() == st.ids.len() + k,
    decreases k,
{
    if k > 0 {
        lemma_run_fails_iff(p, st, d, (k - 1) as nat);
        let prev = ground_run(p, st, d, (k - 1) as nat);
        assert(ground_run(p, st, d, k) == ground_step(prev, p[k - 1], d));
        if exists|i: int| 0 <= i < k && #[trigger] blocks_grounding(p[i]) {
            let i = choose|i: int| 0 <= i < k && #[trigger] blocks_grounding(p[i]);
            if i < k - 1 {
                assert(prev.failed);
            } else {
                assert(blocks_grounding(p[k - 1]));
            }
        }
        if ground_run(p, st, d, k).failed {
            if !prev.failed {
                assert(blocks_grounding(p[k - 1]));
            }
        }
    }
}

fn lookup_var(vars: &Vec<VarBinding>, name: &Vec<char>) -> (r: Option<usize>)
    ensures
        r == var_lookup(binding_views(vars@), name@),
{
    let mut i: usize = 0;
    assert(binding_views(vars@).skip(0) =~= binding_views(vars@));
    while i < vars.len()
        invariant
            i <= vars.len(),
            var_lookup(binding_views(vars@), name@) == var_lookup(
                binding_views(vars@).skip(i as int),
                name@,
            ),
        decreases vars.len() - i,
    {
        let ghost rest = binding_views(vars@).skip(i as int);
        assert(rest[0] == (vars@[i as int].name@, vars@[i as int].id));
        assert(rest.drop_first() =~= binding_views(vars@).skip(i + 1));
        if crate::expr::seq_eq_char(&vars[i].name, name) {
            return Some(vars[i].id);
        }
        i = i + 1;
    }
    assert(binding_views(vars@).skip(i as int) =~= Seq::<(Seq<char>, usize)>::empty());
    None
}

fn make_fresh_name(n: usize, d: i32) -> (r: Vec<char>)
    ensures
        r@ == fresh_name(n as nat, d as int),
{
    let mut r: Vec<char> = Vec::new();
    r.push('r');
    r.push('v');
    push_decimal(&mut r, n as u64);
    r.push('@');
    push_signed_decimal(&mut r, d as i64);
    r.push('_');
    push_signed_decimal(&mut r, d as i64);
    assert(r@ =~= fresh_name(n as nat, d as int));
    r
}

/// Grounds one side of a rule into `expr`: each pattern variable becomes an
/// input of shape `d` by `d` over a fresh name (shared with the other side
/// through `vars`), and each operator node is copied over its grounded
/// children. Returns the node that grounds the pattern's root, or `None` as
/// soon as the pattern holds an operator that is not elementwise (what was
/// added up to that node stays in `expr` and `vars`).
pub fn ground_side(ast: &Vec<PatNode>, expr: &mut Vec<Node>, vars: &mut Vec<VarBinding>, d: i32) -> (r:
    Option<usize>)
    requires
        ast.len() > 0,
        pattern_wf(ast@),
        old(expr).len() + 2 * ast.len() <= usize::MAX,
        forall|k: int| 0 <= k < old(vars).len() ==> #[trigger] old(vars)@[k].id < old(expr).len(),
    ensures
        ({
            let st = ground_run(
                pat_views(ast@),
                GroundState {
                    expr: node_views(old(expr)@),
                    vars: binding_views(old(vars)@),
                    ids: Seq::empty(),
                    failed: false,
                },
                d as int,
                ast.len() as nat,
            );
            &&& node_views(final(expr)@) == st.expr
            &&& binding_views(final(vars)@) == st.vars
            &&& r == if st.failed {
                None
            } else {
                Some(st.ids.last())
            }
        }),
        r is None <==> exists|i: int| 0 <= i < ast.len() && #[trigger] blocks_grounding(ast@[i]@),
        r matches Some(id) ==> id < final(expr).len(),
        final(expr).len() <= old(expr).len() + 2 * ast.len(),
        forall|k: int| 0 <= k < final(vars).len() ==> #[trigger] final(vars)@[k].id < final(expr).len(),
{
    let ghost st0 = GroundState {
        expr: node_views(expr@),
        vars: binding_views(vars@),
        ids: Seq::empty(),
        failed: false,
    };
    let ghost pv = pat_views(ast@);
    proof {
        lemma_run_fails_iff(pv, st0, d as int, ast.len() as nat);
        assert forall|i: int| 0 <= i < ast.len() implies #[trigger] blocks_grounding(ast@[i]@)
            == blocks_grounding(pv[i]) by {}
    }
    let ghost start_len = expr.len();
    let mut ids: Vec<usize> = Vec::new();
    let mut i: usize = 0;
    while i < ast.len()
        invariant
            i <= ast.len(),
            pv == pat_views(ast@),
            st0 == (GroundState {
                expr: node_views(old(expr)@),
                vars: binding_views(old(vars)@),
                ids: Seq::empty(),
                failed: false,
            }),
            pattern_wf(ast@),
            start_len + 2 * ast.len() <= usize::MAX,
            start_len == old(expr).len(),
            expr.len() <= start_len + 2 * i,
            !ground_run(pv, st0, d as int, i as nat).failed,
            node_views(expr@) == ground_run(pv, st0, d as int, i as nat).expr,
            binding_views(vars@) == ground_run(pv, st0, d as int, i as nat).vars,
            ids@ == ground_run(pv, st0, d as int, i as nat).ids,
            ids.len() == i,
            forall|q: int| 0 <= q < ids.len() ==> #[trigger] ids@[q] < expr.len(),
            forall|k: int| 0 <= k < vars.len() ==> #[trigger] vars@[k].id < expr.len(),
        decreases ast.len() - i,
    {
        let ghost st = ground_run(pv, st0, d as int, i as nat);
        let ghost old_expr = expr@;
        let ghost old_vars = vars@;
        assert(pv[i as int] == ast@[i as int]@);
        assert(ground_run(pv, st0, d as int, (i + 1) as nat) == ground_step(st, pv[i as int], d as int));
        match &ast[i] {
            PatNode::Var(sym) => {
                match lookup_var(vars, sym) {
                    Some(id) => {
                        proof {
                            lemma_var_lookup_in(binding_views(vars@), sym@);
                            let k = choose|k: int| 0 <= k < vars@.len() && binding_views(vars@)[k].1 == id;
                            assert(vars@[k].id == id);
                        }
                        ids.push(id);
                    },
                    None => {
                        let name = make_fresh_name(vars.len(), d);
                        let name_id = expr.len();
                        expr.push(Node { op: Op::Var, children: Vec::new(), label: name });
                        let mut ch: Vec<usize> = Vec::new();
                        ch.push(name_id);
                        expr.push(Node { op: Op::Input, children: ch, label: Vec::new() });
                        let inp = name_id + 1;
                        vars.push(VarBinding { name: copy_chars(sym), id: inp });
                        ids.push(inp);
                        proof {
                            assert(expr@[name_id as int]@ == var_node(fresh_name(st.vars.len(), d as int)));
                            assert(expr@[inp as int]@.children =~= seq![name_id]);
                            assert(expr@[inp as int]@ == input_node(name_id));
                            assert(node_views(expr@) =~= st.expr.push(var_node(fresh_name(st.vars.len(), d as int))).push(
                                input_node(name_id)));
                            assert(binding_views(vars@) =~= st.vars.push((sym@, inp)));
                            assert forall|k: int| 0 <= k < vars.len() implies #[trigger] vars@[k].id < expr.len() by {
                                if k < old_vars.len() {
                                    assert(vars@[k] == old_vars[k]);
                                }
                            }
                        }
                    },
                }
            },
            PatNode::ENode(m) => {
                if !elementwise(m.op) {
                    proof {
                        assert(ast@[i as int]@ == PatView::ENode(m@));
                        assert(blocks_grounding(ast@[i as int]@));
                        assert(ground_run(pv, st0, d as int, (i + 1) as nat) == GroundState { failed: true, ..st });
                        assert(ground_run(pv, st0, d as int, (i + 1) as nat).failed);
                        lemma_stays_failed(pv, st0, d as int, (i + 1) as nat, ast.len() as nat);
                        let fin = ground_run(pv, st0, d as int, ast.len() as nat);
                        assert(fin.failed && fin.expr == node_views(expr@) && fin.vars == binding_views(vars@));
                        assert(st0 == GroundState {
                            expr: node_views(old(expr)@),
                            vars: binding_views(old(vars)@),
                            ids: Seq::empty(),
                            failed: false,
                        });
                    }
                    return None;
                }
                assert forall|k: int| 0 <= k < m.children@.len() implies #[trigger] m.children@[k] < i by {
                    assert(ast@[i as int]@->ENode_0.children[k] < i);
                }
                let mut ch: Vec<usize> = Vec::new();
                let mut q: usize = 0;
                while q < m.children.len()
                    invariant
                        q <= m.children.len(),
                        ids.len() == i,
                        forall|k: int| 0 <= k < m.children@.len() ==> #[trigger] m.children@[k] < i,
                        ch@ == m.children@.take(q as int).map_values(|c: usize| ids@[c as int]),
                    decreases m.children.len() - q,
                {
                    ch.push(ids[m.children[q]]);
                    q = q + 1;
                    assert(ch@ =~= m.children@.take(q as int).map_values(|c: usize| ids@[c as int]));
                }
                assert(m.children@.take(q as int) =~= m.children@);
                let id = expr.len();
                expr.push(Node { op: m.op, children: ch, label: copy_chars(&m.label) });
                ids.push(id);
                proof {
                    assert(expr@[id as int]@ == with_children(m@, m@.children.map_values(|c: usize| st.ids[c as int])));
                    assert(node_views(expr@) =~= st.expr.push(with_children(m@, m@.children.map_values(|c: usize| st.ids[c as int]))));
                    assert(binding_views(vars@) =~= st.vars);
                }
            },
        }
        i = i + 1;
    }
    Some(ids[ids.len() - 1])
}

proof fn lemma_stays_failed(p: Seq<PatView>, st: GroundState, d: int, j: nat, k: nat)
    requires
        j <= k,
        ground_run(p, st, d, j).failed,
    ensures
        ground_run(p, st, d, k) == ground_run(p, st, d, j),
    decreases k - j,
{
    if j < k {
        lemma_stays_failed(p, st, d, j, (k - 1) as nat);
    }
}

proof fn lemma_var_lookup_in(vars: Seq<(Seq<char>, usize)>, name: Seq<char>)
    ensures
        var_lookup(vars, name) matches Some(id) ==> exists|k: int| 0 <= k < vars.len() && vars[k].1 == id,
    decreases vars.len(),
{
    if vars.len() > 0 && vars[0].0 != name {
        lemma_var_lookup_in(vars.drop_first(), name);
        if let Some(id) = var_lookup(vars, name) {
            let k = choose|k: int| 0 <= k < vars.drop_first().len() && vars.drop_first()[k].1 == id;
            assert(vars[k + 1].1 == id);
        }
    }
    if vars.len() > 0 && vars[0].0 == name {
        assert(vars[0].1 == vars[0].1);
    }
}

} // verus!
