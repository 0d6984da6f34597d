use vstd::prelude::*;
use vstd::relations::{sorted_by, total_ordering};
use crate::text::{trim, trim_start, trim_end, is_white_space, decimal, digit_char, views};
use crate::rules::{trimmed_lines_spec, not_empty};
use crate::names::lex_le;
use crate::sort::{SortKey, sorted_by_key};
use crate::egraph::EGraph;
use crate::chain::{
    outer_min_spec, chain_acc, chain_classes, full_mask, reach_table, reach_entry, is_single, has_bit,
    without_bit, leaf_class, grow, lemma_reach_table_len, lemma_shift_injective,
};
use crate::egraph::pair_node;
use crate::expr::Op;
use crate::ground::{PatView, GroundState, ground_run, ground_step, var_lookup, lemma_run_fails_iff, blocks_grounding};
use crate::prune::Pruner;
use crate::chain::{ChainOutcome, chain_outcome_ok, lemma_without_bit_smaller};
use crate::egraph::{EClass, node_edges, total_edges, total_nodes};
use crate::expr::Node;
use crate::extract::{IlpOptions, ilp_args_spec, flag_if, option_arg};

verus! {

proof fn lemma_trim_end_prefix(s: Seq<char>)
    ensures
        trim_end(s).len() <= s.len(),
        trim_end(s) == s.take(trim_end(s).len() as int),
        trim_end(s).len() == 0 || !is_white_space(trim_end(s).last()),
    decreases s.len(),
{
    if s.len() > 0 && is_white_space(s.last()) {
        lemma_trim_end_prefix(s.drop_last());
        assert(s.drop_last().take(trim_end(s).len() as int) =~= s.take(trim_end(s).len() as int));
    } else {
        assert(s.take(s.len() as int) =~= s);
    }
}

proof fn lemma_trim_start_result(s: Seq<char>)
    ensures
        trim_start(s).len() == 0 || !is_white_space(trim_start(s)[0]),
    decreases s.len(),
{
    if s.len() > 0 && is_white_space(s[0]) {
        lemma_trim_start_result(s.drop_first());
    }
}

/// Trimming a trimmed line changes nothing.
pub proof fn law_trim_idempotent(s: Seq<char>)
    ensures
        trim(trim(s)) == trim(s),
{
    let u = trim_start(s);
    let v = trim_end(u);
    lemma_trim_start_result(s);
    lemma_trim_end_prefix(u);
    assert(trim_start(v) == v) by {
        if v.len() > 0 {
            assert(v[0] == u[0]);
        }
    }
    assert(trim_end(v) == v);
}

/// Every line that the rule-file reader hands out is non-empty and has no
/// white space at either end.
pub proof fn law_rule_lines_trimmed(text: Seq<char>, k: int)
    requires
        0 <= k < trimmed_lines_spec(text).len(),
    ensures
        trimmed_lines_spec(text)[k].len() > 0,
        trim(trimmed_lines_spec(text)[k]) == trimmed_lines_spec(text)[k],
{
    broadcast use vstd::seq_lib::group_filter_ensures;

    let pieces = crate::text::split(text, '\n').map_values(|l: Seq<char>| trim(l));
    let l = trimmed_lines_spec(text)[k];
    assert(not_empty(l));
    assert(pieces.filter(|l: Seq<char>| not_empty(l)).contains(l));
    pieces.lemma_filter_contains_rev(|l: Seq<char>| not_empty(l), l);
    let q = choose|q: int| 0 <= q < pieces.len() && pieces[q] == l;
    law_trim_idempotent(crate::text::split(text, '\n')[q]);
}

proof fn lemma_decimal_len(n: nat)
    ensures
        decimal(n).len() >= 1,
        n >= 10 ==> decimal(n).len() >= 2,
    decreases n,
{
    if n >= 10 {
        lemma_decimal_len(n / 10);
    }
}

/// Distinct numbers have distinct decimal texts (so keying by the text of a
/// guid is keying by the guid).
pub proof fn law_decimal_injective(a: nat, b: nat)
    requires
        decimal(a) == decimal(b),
    ensures
        a == b,
    decreases a,
{
    lemma_decimal_len(a);
    lemma_decimal_len(b);
    if a < 10 && b < 10 {
        assert(decimal(a)[0] == digit_char(a));
        assert(decimal(b)[0] == digit_char(b));
    } else if a >= 10 && b >= 10 {
        assert(decimal(a).drop_last() == decimal(a / 10));
        assert(decimal(b).drop_last() == decimal(b / 10));
        law_decimal_injective(a / 10, b / 10);
        assert(digit_char(a % 10) == decimal(a).last());
        assert(digit_char(b % 10) == decimal(b).last());
    } else {
        assert(decimal(a).len() != decimal(b).len());
    }
}

proof fn lemma_lex_antisymmetric(a: Seq<char>, b: Seq<char>)
    requires
        lex_le(a, b),
        lex_le(b, a),
    ensures
        a == b,
    decreases a.len(),
{
    if a.len() > 0 && b.len() > 0 {
        assert(a[0] == b[0]);
        assert(lex_le(a.drop_first(), b.drop_first()));
        assert(lex_le(b.drop_first(), a.drop_first()));
        lemma_lex_antisymmetric(a.drop_first(), b.drop_first());
        assert(a =~= seq![a[0]] + a.drop_first());
        assert(b =~= seq![b[0]] + b.drop_first());
    } else {
        assert(a.len() == 0 && b.len() == 0);
        assert(a =~= b);
    }
}

proof fn lemma_lex_total_ordering()
    ensures
        total_ordering(|a: Seq<char>, b: Seq<char>| lex_le(a, b)),
{
    assert forall|x: Seq<char>| #[trigger] lex_le(x, x) by {
        lemma_lex_refl(x);
    }
    assert forall|x: Seq<char>, y: Seq<char>| #[trigger] lex_le(x, y) && #[trigger] lex_le(y, x) implies x == y by {
        lemma_lex_antisymmetric(x, y);
    }
    assert forall|x: Seq<char>, y: Seq<char>, z: Seq<char>| #[trigger] lex_le(x, y) && #[trigger] lex_le(y, z) implies lex_le(x, z) by {
        crate::names::lemma_lex_trans_pub(x, y, z);
    }
    assert forall|x: Seq<char>, y: Seq<char>| #[trigger] lex_le(x, y) || #[trigger] lex_le(y, x) by {
        crate::names::lemma_lex_total_pub(x, y);
    }
}

proof fn lemma_lex_refl(a: Seq<char>)
    ensures
        lex_le(a, a),
    decreases a.len(),
{
    if a.len() > 0 {
        lemma_lex_refl(a.drop_first());
    }
}

/// The key of a set of weight names does not depend on the order in which
/// the names are written: two sorted lists of the same names are the same.
pub proof fn law_weight_key_order_independent(a: Seq<String>, b: Seq<String>)
    requires
        sorted_by_key(a),
        sorted_by_key(b),
        views(a).to_multiset() == views(b).to_multiset(),
    ensures
        views(a) == views(b),
{
    lemma_lex_total_ordering();
    let leq = |x: Seq<char>, y: Seq<char>| lex_le(x, y);
    assert(sorted_by(views(a), leq)) by {
        assert forall|i: int, j: int| 0 <= i < j < views(a).len() implies #[trigger] leq(views(a)[i], views(a)[j]) by {
            assert(a[i].key_le(a[j]));
        }
    }
    assert(sorted_by(views(b), leq)) by {
        assert forall|i: int, j: int| 0 <= i < j < views(b).len() implies #[trigger] leq(views(b)[i], views(b)[j]) by {
            assert(b[i].key_le(b[j]));
        }
    }
    vstd::seq_lib::lemma_sorted_unique(views(a), views(b), leq);
}

/// The outer minimum is looked for in both orders of its operands: whether it
/// is found does not depend on which group comes first.
pub proof fn law_outer_min_symmetric(g: EGraph, a: usize, b: usize, root: usize)
    ensures
        outer_min_spec(g, a, b, root) is Some <==> outer_min_spec(g, b, a, root) is Some,
{
}

} // verus!

verus! {

proof fn lemma_prefix_mask_bits(k: u32, k1: u32)
    by (bit_vector)
    requires
        1 <= k < 16,
        k1 == k + 1,
    ensures
        (((1u32 << k1) - 1) as u32) & (1u32 << k) != 0u32,
        (((1u32 << k1) - 1) as u32) & !(1u32 << k) == (((1u32 << k) - 1) as u32),
        (((1u32 << k) - 1) as u32) < (((1u32 << k1) - 1) as u32),
        (((1u32 << k1) - 1) as u32) <= 65535,
{
}

proof fn lemma_prefix_mask_not_single(k: u32, k1: u32, j: u32)
    by (bit_vector)
    requires
        1 <= k < 16,
        k1 == k + 1,
        j < 32,
    ensures
        (((1u32 << k1) - 1) as u32) != (1u32 << j),
{
}

proof fn lemma_first_mask()
    by (bit_vector)
    ensures
        (((1u32 << 1u32) - 1) as u32) == (1u32 << 0u32),
        (((1u32 << 1u32) - 1) as u32) == 1u32,
{
}

proof fn lemma_reach_table_prefix(g: EGraph, leaves: Seq<usize>, n: nat, i: nat)
    requires
        i < n,
    ensures
        reach_table(g, leaves, n)[i as int] == reach_table(g, leaves, i + 1)[i as int],
    decreases n,
{
    if n > i + 1 {
        lemma_reach_table_prefix(g, leaves, (n - 1) as nat, i);
        lemma_reach_table_len(g, leaves, (n - 1) as nat);
    }
}

proof fn lemma_chain_in_closure(g: EGraph, leaves: Seq<usize>, k: nat)
    requires
        g.wf(),
        1 <= leaves.len() <= 16,
        k < leaves.len(),
        forall|q: int| 0 <= q < leaves.len() ==> g.canon@[#[trigger] leaves[q] as int] == leaves[q],
    ensures
        chain_acc(g, leaves, k) matches Some(a) ==> chain_classes(g, leaves, full_mask(k + 1)).contains(a),
    decreases k,
{
    let mask = full_mask(k + 1);
    if k == 0 {
        lemma_first_mask();
        assert(mask == 1u32);
        let t = reach_table(g, leaves, 1);
        assert(reach_table(g, leaves, 2) == t.push(reach_entry(g, leaves, t, 1u32)));
        assert(is_single(leaves.len(), 1u32)) by {
            assert(0u32 < leaves.len() && 1u32 == (1u32 << 0u32));
        }
        let j = choose|j: u32| j < leaves.len() && 1u32 == (1u32 << j);
        lemma_shift_injective(j, 0u32);
        assert(leaf_class(g, leaves, 0) == leaves[0]);
        assert(reach_entry(g, leaves, t, 1u32).contains(leaves[0]));
        lemma_reach_table_len(g, leaves, 1);
        assert(reach_table(g, leaves, 2)[1] == reach_entry(g, leaves, t, 1u32));
        assert(chain_classes(g, leaves, mask) == reach_table(g, leaves, 2)[1]);
        assert(chain_acc(g, leaves, 0) == Some(leaves[0]));
        assert(chain_classes(g, leaves, mask).contains(leaves[0]));
    } else {
        lemma_chain_in_closure(g, leaves, (k - 1) as nat);
        let ku = k as u32;
        lemma_prefix_mask_bits(ku, (ku + 1) as u32);
        let prev_mask = full_mask(k);
        assert(prev_mask == (((1u32 << ku) - 1) as u32));
        assert(mask == (((1u32 << ((ku + 1) as u32)) - 1) as u32));
        if let Some(a) = chain_acc(g, leaves, k) {
            let a0 = chain_acc(g, leaves, (k - 1) as nat)->Some_0;
            assert(chain_classes(g, leaves, prev_mask).contains(a0));
            let t = reach_table(g, leaves, mask as nat);
            lemma_reach_table_len(g, leaves, mask as nat);
            assert(reach_table(g, leaves, mask as nat + 1) == t.push(reach_entry(g, leaves, t, mask)));
            assert(!is_single(leaves.len(), mask)) by {
                if is_single(leaves.len(), mask) {
                    let j = choose|j: u32| j < leaves.len() && mask == (1u32 << j);
                    lemma_prefix_mask_not_single(ku, (ku + 1) as u32, j);
                }
            }
            assert(has_bit(mask, ku));
            assert(without_bit(mask, ku) == prev_mask);
            lemma_reach_table_prefix(g, leaves, mask as nat, prev_mask as nat);
            assert(t[prev_mask as int] == chain_classes(g, leaves, prev_mask));
            assert(leaf_class(g, leaves, k as int) == leaves[k as int]);
            assert(grow(g, t[without_bit(mask, ku) as int], leaf_class(g, leaves, ku as int)).contains(a)) by {
                assert(t[prev_mask as int].contains(a0));
                assert(g.lookup_spec(pair_node(Op::Ewmax, a0, leaves[k as int])) == Some(a));
            }
            assert(reach_entry(g, leaves, t, mask).contains(a));
            assert(reach_table(g, leaves, mask as nat + 1)[mask as int] == reach_entry(g, leaves, t, mask));
            assert(chain_classes(g, leaves, mask).contains(a));
        }
    }
}

/// A group whose natural-order chain is in the e-graph has a non-empty subset
/// closure, which holds the class of that chain: the natural order is one of
/// the orders that the closure tries.
pub proof fn law_natural_chain_in_closure(g: EGraph, leaves: Seq<usize>, c: usize)
    requires
        g.wf(),
        1 <= leaves.len() <= 16,
        forall|q: int| 0 <= q < leaves.len() ==> g.canon@[#[trigger] leaves[q] as int] == leaves[q],
        chain_acc(g, leaves, (leaves.len() - 1) as nat) == Some(c),
    ensures
        chain_classes(g, leaves, full_mask(leaves.len() as nat)).contains(c),
{
    lemma_chain_in_closure(g, leaves, (leaves.len() - 1) as nat);
}

} // verus!

verus! {

proof fn lemma_var_lookup_push(vars: Seq<(Seq<char>, usize)>, y: (Seq<char>, usize), x: Seq<char>)
    ensures
        var_lookup(vars, x) is Some ==> var_lookup(vars.push(y), x) == var_lookup(vars, x),
        var_lookup(vars, x) is None ==> var_lookup(vars.push(y), x) == if y.0 == x {
            Some(y.1)
        } else {
            None
        },
    decreases vars.len(),
{
    if vars.len() > 0 {
        assert(vars.push(y).drop_first() =~= vars.drop_first().push(y));
        assert(vars.push(y)[0] == vars[0]);
        lemma_var_lookup_push(vars.drop_first(), y, x);
    } else {
        assert(vars.push(y).drop_first() =~= Seq::<(Seq<char>, usize)>::empty());
        assert(vars.push(y)[0] == y);
        assert(var_lookup(vars.push(y).drop_first(), x) is None);
    }
}

proof fn lemma_run_grows(p: Seq<PatView>, st: GroundState, d: int, a: nat, b: nat)
    requires
        a <= b <= p.len(),
        !ground_run(p, st, d, b).failed,
    ensures
        !ground_run(p, st, d, a).failed,
        ground_run(p, st, d, a).ids.len() <= ground_run(p, st, d, b).ids.len(),
        forall|q: int|
            0 <= q < ground_run(p, st, d, a).ids.len() ==> #[trigger] ground_run(p, st, d, b).ids[q]
                == ground_run(p, st, d, a).ids[q],
        forall|x: Seq<char>|
            var_lookup(ground_run(p, st, d, a).vars, x) is Some ==> #[trigger] var_lookup(
                ground_run(p, st, d, b).vars,
                x,
            ) == var_lookup(ground_run(p, st, d, a).vars, x),
    decreases b - a,
{
    if a < b {
        let prev = ground_run(p, st, d, (b - 1) as nat);
        assert(ground_run(p, st, d, b) == ground_step(prev, p[b - 1], d));
        lemma_run_grows(p, st, d, a, (b - 1) as nat);
        match p[b - 1] {
            PatView::Var(name) => {
                if var_lookup(prev.vars, name) is None {
                    let inp = (prev.expr.len() + 1) as usize;
                    assert forall|x: Seq<char>| var_lookup(prev.vars, x) is Some implies #[trigger] var_lookup(
                        prev.vars.push((name, inp)),
                        x,
                    ) == var_lookup(prev.vars, x) by {
                        lemma_var_lookup_push(prev.vars, (name, inp), x);
                    }
                }
            },
            PatView::ENode(m) => {},
        }
    }
}

/// A variable of a pattern grounds to the input that it is bound to: the
/// first grounding of a variable binds it, and every later occurrence (in the
/// same side or, through the shared bindings, in the other side) grounds to
/// that same input.
pub proof fn law_variable_grounds_to_binding(p: Seq<PatView>, st: GroundState, d: int, n: nat, j: int)
    requires
        !st.failed,
        0 <= j < n <= p.len(),
        !ground_run(p, st, d, n).failed,
        p[j] is Var,
    ensures
        var_lookup(ground_run(p, st, d, n).vars, p[j]->Var_0) == Some(
            ground_run(p, st, d, n).ids[st.ids.len() + j],
        ),
{
    let x = p[j]->Var_0;
    lemma_run_grows(p, st, d, (j + 1) as nat, n);
    lemma_run_fails_len(p, st, d, j as nat);
    let prev = ground_run(p, st, d, j as nat);
    assert(ground_run(p, st, d, (j + 1) as nat) == ground_step(prev, p[j], d));
    if var_lookup(prev.vars, x) is None {
        let inp = (prev.expr.len() + 1) as usize;
        lemma_var_lookup_push(prev.vars, (x, inp), x);
    }
    assert(ground_run(p, st, d, (j + 1) as nat).ids.len() == st.ids.len() + j + 1);
}

proof fn lemma_run_fails_len(p: Seq<PatView>, st: GroundState, d: int, k: nat)
    requires
        !st.failed,
        k <= p.len(),
        !ground_run(p, st, d, k).failed,
    ensures
        ground_run(p, st, d, k).ids.len() == st.ids.len() + k,
    decreases k,
{
    if k > 0 {
        let prev = ground_run(p, st, d, (k - 1) as nat);
        assert(ground_run(p, st, d, k) == ground_step(prev, p[k - 1], d));
        lemma_run_fails_len(p, st, d, (k - 1) as nat);
    }
}

/// Two occurrences of one variable in a pattern ground to the same input.
pub proof fn law_same_variable_same_input(p: Seq<PatView>, st: GroundState, d: int, n: nat, i: int, j: int)
    requires
        !st.failed,
        0 <= i < n <= p.len(),
        0 <= j < n,
        !ground_run(p, st, d, n).failed,
        p[i] is Var,
        p[j] is Var,
        p[i]->Var_0 == p[j]->Var_0,
    ensures
        ground_run(p, st, d, n).ids[st.ids.len() + i] == ground_run(p, st, d, n).ids[st.ids.len() + j],
{
    law_variable_grounds_to_binding(p, st, d, n, i);
    law_variable_grounds_to_binding(p, st, d, n, j);
}

/// A variable bound before a pattern is grounded keeps its binding: the right
/// side of a rule reuses the inputs of the left side's variables.
pub proof fn law_binding_kept(p: Seq<PatView>, st: GroundState, d: int, n: nat, x: Seq<char>)
    requires
        !st.failed,
        n <= p.len(),
        !ground_run(p, st, d, n).failed,
        var_lookup(st.vars, x) is Some,
    ensures
        var_lookup(ground_run(p, st, d, n).vars, x) == var_lookup(st.vars, x),
{
    lemma_run_grows(p, st, d, 0, n);
}

/// The rules still kept.
pub open spec fn kept_set(kept: Seq<bool>) -> Set<usize> {
    Set::new(|j: usize| j < kept.len() && kept[j as int])
}

/// The rules listed in `s`.
pub open spec fn members(s: Seq<usize>) -> Set<usize> {
    Set::new(|y: usize| s.contains(y))
}

/// `entails` is a consequence relation between sets of rules and rules, as
/// equational derivability is: a set entails each of its members, and what
/// follows from rules that a set entails follows from that set.
pub open spec fn consequence(entails: spec_fn(Set<usize>, usize) -> bool) -> bool {
    &&& forall|s: Set<usize>, x: usize| #![trigger entails(s, x)] s.contains(x) ==> entails(s, x)
    &&& forall|s: Set<usize>, t: Set<usize>, x: usize|
        #![trigger entails(s, x), entails(t, x)]
        (forall|y: usize| #[trigger] t.contains(y) ==> entails(s, y)) && entails(t, x) ==> entails(s, x)
}

proof fn lemma_log_entailed(p: Pruner, entails: spec_fn(Set<usize>, usize) -> bool, i: int)
    requires
        p.wf(),
        consequence(entails),
        forall|k: int| 0 <= k < p.log@.len() ==> entails(members(#[trigger] p.log@[k].1), p.log@[k].0),
        0 <= i <= p.log@.len(),
    ensures
        forall|k: int| i <= k < p.log@.len() ==> entails(kept_set(p.kept@), #[trigger] p.log@[k].0),
    decreases p.log@.len() - i,
{
    let log = p.log@;
    let ks = kept_set(p.kept@);
    if i < log.len() {
        lemma_log_entailed(p, entails, i + 1);
        let t = members(log[i].1);
        assert forall|y: usize| #[trigger] t.contains(y) implies entails(ks, y) by {
            assert(log[i].1.contains(y));
            if y < p.n() && p.kept@[y as int] {
                assert(ks.contains(y));
            } else {
                let k = choose|k: int| i < k < log.len() && #[trigger] log[k].0 == y;
                assert(entails(ks, log[k].0));
            }
        }
        assert(entails(t, log[i].0));
        assert(entails(ks, log[i].0));
    }
}

/// Pruning preserves the equational closure: if each pruned rule follows from
/// the rules it was checked against (what a check that rederives it reports),
/// then every rule follows from the rules still kept.
pub proof fn law_pruning_keeps_closure(p: Pruner, entails: spec_fn(Set<usize>, usize) -> bool)
    requires
        p.wf(),
        consequence(entails),
        forall|i: int| 0 <= i < p.log@.len() ==> entails(members(#[trigger] p.log@[i].1), p.log@[i].0),
    ensures
        forall|j: usize| j < p.n() ==> #[trigger] entails(kept_set(p.kept@), j),
{
    lemma_log_entailed(p, entails, 0);
    let ks = kept_set(p.kept@);
    assert forall|j: usize| j < p.n() implies #[trigger] entails(ks, j) by {
        if p.kept@[j as int] {
            assert(ks.contains(j));
        } else {
            let i = choose|i: int| 0 <= i < p.log@.len() && #[trigger] p.log@[i].0 == j;
            assert(entails(ks, p.log@[i].0));
        }
    }
}

/// The blacklist verdict of a present natural chain is about the whole chain:
/// it is set exactly when the node joining some leaf `j` (not only the last)
/// to the chain over the leaves before it is on the blacklist.
pub proof fn law_chain_blacklisted_iff_some_link(g: EGraph, leaves: Seq<usize>, class: usize, blacklisted: bool)
    requires
        leaves.len() >= 1,
        chain_outcome_ok(g, leaves, ChainOutcome::Present { class, blacklisted }),
    ensures
        blacklisted <==> exists|j: int|
            1 <= j < leaves.len() && #[trigger] chain_acc(g, leaves, (j - 1) as nat) is Some
                && g.blacklisted_spec(
                pair_node(Op::Ewmax, chain_acc(g, leaves, (j - 1) as nat)->Some_0, leaves[j]),
            ),
{
    let m = (leaves.len() - 1) as nat;
    if blacklisted {
        let j = choose|j: nat| 1 <= j <= m && #[trigger] crate::chain::link_blacklisted(g, leaves, j);
        assert(chain_acc(g, leaves, (j as int - 1) as nat) is Some);
    }
    if exists|j: int|
        1 <= j < leaves.len() && #[trigger] chain_acc(g, leaves, (j - 1) as nat) is Some
            && g.blacklisted_spec(pair_node(Op::Ewmax, chain_acc(g, leaves, (j - 1) as nat)->Some_0, leaves[j])) {
        let j = choose|j: int|
            1 <= j < leaves.len() && #[trigger] chain_acc(g, leaves, (j - 1) as nat) is Some
                && g.blacklisted_spec(pair_node(Op::Ewmax, chain_acc(g, leaves, (j - 1) as nat)->Some_0, leaves[j]));
        assert(crate::chain::link_blacklisted(g, leaves, j as nat));
    }
}

/// The subset closure does not depend on the operand order of `ewmax`: a
/// class that joins a chain over the mask without leaf `j` to leaf `j`, with
/// the leaf on either side, is a chain over the whole mask.
pub proof fn law_closure_joins_either_order(
    g: EGraph,
    leaves: Seq<usize>,
    mask: u32,
    j: u32,
    id: usize,
    r: usize,
)
    requires
        j < leaves.len() <= 16,
        has_bit(mask, j),
        !is_single(leaves.len(), mask),
        chain_classes(g, leaves, without_bit(mask, j)).contains(id),
        g.lookup_spec(pair_node(Op::Ewmax, id, leaf_class(g, leaves, j as int))) == Some(r)
            || g.lookup_spec(pair_node(Op::Ewmax, leaf_class(g, leaves, j as int), id)) == Some(r),
    ensures
        chain_classes(g, leaves, mask).contains(r),
{
    let wb = without_bit(mask, j);
    lemma_without_bit_smaller(mask, j);
    assert(mask != 0u32) by (bit_vector)
        requires
            mask & (1u32 << j) != 0u32,
    ;
    let t = reach_table(g, leaves, mask as nat);
    lemma_reach_table_len(g, leaves, mask as nat);
    assert(reach_table(g, leaves, mask as nat + 1) == t.push(reach_entry(g, leaves, t, mask)));
    lemma_reach_table_prefix(g, leaves, mask as nat, wb as nat);
    assert(t[wb as int] == chain_classes(g, leaves, wb));
    let leaf = leaf_class(g, leaves, j as int);
    assert(t[without_bit(mask, j) as int].contains(id));
    assert(grow(g, t[without_bit(mask, j) as int], leaf).contains(r));
    assert(has_bit(mask, j));
}

proof fn lemma_node_edges_concat(a: Seq<Node>, b: Seq<Node>)
    ensures
        node_edges(a + b) == node_edges(a) + node_edges(b),
    decreases b.len(),
{
    if b.len() == 0 {
        assert(a + b =~= a);
    } else {
        lemma_node_edges_concat(a, b.drop_last());
        assert((a + b).drop_last() =~= a + b.drop_last());
    }
}

proof fn lemma_total_edges_concat(a: Seq<EClass>, b: Seq<EClass>)
    ensures
        total_edges(a + b) == total_edges(a) + total_edges(b),
        total_nodes(a + b) == total_nodes(a) + total_nodes(b),
    decreases b.len(),
{
    if b.len() == 0 {
        assert(a + b =~= a);
    } else {
        lemma_total_edges_concat(a, b.drop_last());
        assert((a + b).drop_last() =~= a + b.drop_last());
    }
}

/// The edge count is the sum of the children of every node: it adds up over
/// any split of a class's nodes, and one node counts its own children.
pub proof fn law_edges_count_every_node(a: Seq<Node>, b: Seq<Node>, n: Node)
    ensures
        node_edges(a + b) == node_edges(a) + node_edges(b),
        node_edges(seq![n]) == n.children@.len(),
{
    lemma_node_edges_concat(a, b);
    let one = seq![n];
    assert(one.drop_last() =~= Seq::<Node>::empty());
    assert(node_edges(Seq::<Node>::empty()) == 0);
    assert(one.last() == n);
    assert(node_edges(one) == node_edges(one.drop_last()) + one.last().children@.len());
}

/// The node and edge counts of an e-graph add up over any split of its
/// classes, and one class counts its own nodes and their edges.
pub proof fn law_counts_add_over_classes(a: Seq<EClass>, b: Seq<EClass>, c: EClass)
    ensures
        total_edges(a + b) == total_edges(a) + total_edges(b),
        total_nodes(a + b) == total_nodes(a) + total_nodes(b),
        total_edges(seq![c]) == node_edges(c.nodes@),
        total_nodes(seq![c]) == c.nodes@.len(),
{
    lemma_total_edges_concat(a, b);
    let one = seq![c];
    assert(one.drop_last() =~= Seq::<EClass>::empty());
    assert(total_edges(Seq::<EClass>::empty()) == 0);
    assert(total_nodes(Seq::<EClass>::empty()) == 0);
    assert(one.last() == c);
    assert(total_edges(one) == total_edges(one.drop_last()) + node_edges(one.last().nodes@));
    assert(total_nodes(one) == total_nodes(one.drop_last()) + one.last().nodes@.len());
}

/// Grounding succeeds on every pattern whose operators are all among the
/// elementwise ones: `ewadd`, `ewsub`, `ewmax`, `ewmin`, `ewmul`, `relu`.
pub proof fn law_elementwise_patterns_ground(p: Seq<PatView>, st: GroundState, d: int)
    requires
        !st.failed,
        forall|i: int|
            0 <= i < p.len() && (#[trigger] p[i]) is ENode ==> {
                let op = p[i]->ENode_0.op;
                op == Op::Ewadd || op == Op::Ewsub || op == Op::Ewmax || op == Op::Ewmin || op == Op::Ewmul
                    || op == Op::Relu
            },
    ensures
        !ground_run(p, st, d, p.len()).failed,
{
    lemma_run_fails_iff(p, st, d, p.len());
    assert forall|i: int| 0 <= i < p.len() implies !#[trigger] blocks_grounding(p[i]) by {
        if p[i] is ENode {
            assert(p[i]->ENode_0 == p[i]->ENode_0);
        }
    }
}

/// Grounding fails on a pattern that holds any other operator.
pub proof fn law_other_operators_block_grounding(p: Seq<PatView>, st: GroundState, d: int, i: int)
    requires
        !st.failed,
        0 <= i < p.len(),
        p[i] is ENode,
        ({
            let op = p[i]->ENode_0.op;
            !(op == Op::Ewadd || op == Op::Ewsub || op == Op::Ewmax || op == Op::Ewmin || op == Op::Ewmul
                || op == Op::Relu)
        }),
    ensures
        ground_run(p, st, d, p.len()).failed,
{
    lemma_run_fails_iff(p, st, d, p.len());
    assert(blocks_grounding(p[i]));
}

/// A single leaf's closure is its own class.
pub proof fn law_closure_of_one_leaf(g: EGraph, leaves: Seq<usize>, j: u32)
    requires
        j < leaves.len() <= 16,
    ensures
        chain_classes(g, leaves, 1u32 << j) == Set::<usize>::empty().insert(leaf_class(g, leaves, j as int)),
{
    let mask = 1u32 << j;
    assert(mask != 0u32) by (bit_vector)
        requires
            j < 16,
            mask == 1u32 << j,
    ;
    assert(is_single(leaves.len(), mask));
    let t = reach_table(g, leaves, mask as nat);
    lemma_reach_table_len(g, leaves, mask as nat);
    assert(reach_table(g, leaves, mask as nat + 1) == t.push(reach_entry(g, leaves, t, mask)));
    let j2 = choose|j2: u32| j2 < leaves.len() && mask == (1u32 << j2);
    lemma_shift_injective(j, j2);
}

/// Every class in the closure of a mask of two leaves or more joins a chain
/// over the mask without some leaf `j` to leaf `j`, in one operand order or
/// the other.
pub proof fn law_closure_members_join(g: EGraph, leaves: Seq<usize>, mask: u32, r: usize)
    requires
        leaves.len() <= 16,
        mask != 0u32,
        !is_single(leaves.len(), mask),
        chain_classes(g, leaves, mask).contains(r),
    ensures
        exists|j: u32, id: usize|
            j < leaves.len() && has_bit(mask, j) && chain_classes(g, leaves, without_bit(mask, j)).contains(id)
                && (g.lookup_spec(pair_node(Op::Ewmax, id, leaf_class(g, leaves, j as int))) == Some(r)
                || g.lookup_spec(pair_node(Op::Ewmax, leaf_class(g, leaves, j as int), id)) == Some(r)),
{
    let t = reach_table(g, leaves, mask as nat);
    lemma_reach_table_len(g, leaves, mask as nat);
    assert(reach_table(g, leaves, mask as nat + 1) == t.push(reach_entry(g, leaves, t, mask)));
    let j = choose|j: u32|
        #![trigger has_bit(mask, j)]
        j < leaves.len() && has_bit(mask, j) && grow(g, t[without_bit(mask, j) as int], leaf_class(g, leaves, j as int)).contains(r);
    let wb = without_bit(mask, j);
    lemma_without_bit_smaller(mask, j);
    lemma_reach_table_prefix(g, leaves, mask as nat, wb as nat);
    let leaf = leaf_class(g, leaves, j as int);
    let id = choose|id: usize|
        #![trigger t[wb as int].contains(id)]
        t[wb as int].contains(id) && (g.lookup_spec(pair_node(Op::Ewmax, id, leaf)) == Some(r)
            || g.lookup_spec(pair_node(Op::Ewmax, leaf, id)) == Some(r));
    assert(chain_classes(g, leaves, wb).contains(id));
}

proof fn lemma_concat_contains(a: Seq<Seq<char>>, b: Seq<Seq<char>>, x: Seq<char>)
    ensures
        (a + b).contains(x) <==> a.contains(x) || b.contains(x),
{
    if (a + b).contains(x) {
        let k = choose|k: int| 0 <= k < (a + b).len() && (a + b)[k] == x;
        if k < a.len() {
            assert(a[k] == x);
        } else {
            assert(b[k - a.len()] == x);
        }
    }
    if a.contains(x) {
        let k = choose|k: int| 0 <= k < a.len() && a[k] == x;
        assert((a + b)[k] == x);
    }
    if b.contains(x) {
        let k = choose|k: int| 0 <= k < b.len() && b[k] == x;
        assert((a + b)[k + a.len()] == x);
    }
}

proof fn lemma_one_contains(f: Seq<char>, x: Seq<char>)
    ensures
        seq![f].contains(x) <==> f == x,
{
    if f == x {
        assert(seq![f][0] == x);
    }
}

proof fn lemma_flag_contains(b: bool, f: Seq<char>, x: Seq<char>)
    ensures
        flag_if(b, f).contains(x) <==> b && f == x,
{
    lemma_one_contains(f, x);
}

proof fn lemma_option_contains(v: Option<String>, f: Seq<char>, x: Seq<char>)
    ensures
        option_arg(v, f).contains(x) <==> (v matches Some(s) && (f == x || s@ == x)),
{
    if let Some(s) = v {
        let two = seq![f, s@];
        if two.contains(x) {
            let k = choose|k: int| 0 <= k < two.len() && two[k] == x;
        }
        if f == x {
            assert(two[0] == x);
        }
        if s@ == x {
            assert(two[1] == x);
        }
    }
}

/// The command-line flags that the ILP script takes.
pub open spec fn ilp_flag(x: Seq<char>) -> bool {
    x == "--order_var_int"@ || x == "--eclass_constraint"@ || x == "--no_order"@ || x == "--initialize"@
        || x == "--time_lim_sec"@ || x == "--num_thread"@
}

proof fn lemma_ilp_args_members(o: IlpOptions, x: Seq<char>)
    ensures
        ilp_args_spec(o).contains(x) <==> (x == "extractor/extract.py"@ || (o.order_var_int && x
            == "--order_var_int"@) || (o.class_constraint && x == "--eclass_constraint"@) || (o.no_order && x
            == "--no_order"@) || (o.initialize && x == "--initialize"@) || (o.time_limit_sec matches Some(t)
            && (x == "--time_lim_sec"@ || t@ == x)) || (o.num_threads matches Some(t) && (x
            == "--num_thread"@ || t@ == x))),
{
    let s0: Seq<Seq<char>> = seq!["extractor/extract.py"@];
    let s1 = flag_if(o.order_var_int, "--order_var_int"@);
    let s2 = flag_if(o.class_constraint, "--eclass_constraint"@);
    let s3 = flag_if(o.no_order, "--no_order"@);
    let s4 = flag_if(o.initialize, "--initialize"@);
    let s5 = option_arg(o.time_limit_sec, "--time_lim_sec"@);
    let s6 = option_arg(o.num_threads, "--num_thread"@);
    assert(ilp_args_spec(o) == s0 + s1 + s2 + s3 + s4 + s5 + s6);
    lemma_one_contains("extractor/extract.py"@, x);
    lemma_concat_contains(s0, s1, x);
    lemma_concat_contains(s0 + s1, s2, x);
    lemma_concat_contains(s0 + s1 + s2, s3, x);
    lemma_concat_contains(s0 + s1 + s2 + s3, s4, x);
    lemma_concat_contains(s0 + s1 + s2 + s3 + s4, s5, x);
    lemma_concat_contains(s0 + s1 + s2 + s3 + s4 + s5, s6, x);
    lemma_flag_contains(o.order_var_int, "--order_var_int"@, x);
    lemma_flag_contains(o.class_constraint, "--eclass_constraint"@, x);
    lemma_flag_contains(o.no_order, "--no_order"@, x);
    lemma_flag_contains(o.initialize, "--initialize"@, x);
    lemma_option_contains(o.time_limit_sec, "--time_lim_sec"@, x);
    lemma_option_contains(o.num_threads, "--num_thread"@, x);
}

/// The ILP arguments start with the script, and each flag is among them
/// exactly when its own option is set (for option values that are not
/// themselves flags).
pub proof fn law_ilp_flags_follow_their_options(o: IlpOptions)
    requires
        o.time_limit_sec matches Some(t) ==> !ilp_flag(t@),
        o.num_threads matches Some(t) ==> !ilp_flag(t@),
    ensures
        ilp_args_spec(o)[0] == "extractor/extract.py"@,
        ilp_args_spec(o).contains("--order_var_int"@) <==> o.order_var_int,
        ilp_args_spec(o).contains("--eclass_constraint"@) <==> o.class_constraint,
        ilp_args_spec(o).contains("--no_order"@) <==> o.no_order,
        ilp_args_spec(o).contains("--initialize"@) <==> o.initialize,
        ilp_args_spec(o).contains("--time_lim_sec"@) <==> o.time_limit_sec is Some,
        ilp_args_spec(o).contains("--num_thread"@) <==> o.num_threads is Some,
{
    reveal_strlit("extractor/extract.py");
    reveal_strlit("--order_var_int");
    reveal_strlit("--eclass_constraint");
    reveal_strlit("--no_order");
    reveal_strlit("--initialize");
    reveal_strlit("--time_lim_sec");
    reveal_strlit("--num_thread");
    assert("extractor/extract.py"@.len() == 20);
    assert("--order_var_int"@.len() == 15);
    assert("--eclass_constraint"@.len() == 19);
    assert("--no_order"@.len() == 10);
    assert("--initialize"@.len() == 12);
    assert("--time_lim_sec"@.len() == 14);
    assert("--num_thread"@.len() == 12);
    assert("--initialize"@[2] != "--num_thread"@[2]);
    assert("--initialize"@ != "--num_thread"@);
    assert(ilp_flag("--order_var_int"@) && ilp_flag("--eclass_constraint"@) && ilp_flag("--no_order"@)
        && ilp_flag("--initialize"@) && ilp_flag("--time_lim_sec"@) && ilp_flag("--num_thread"@));
    lemma_ilp_args_members(o, "--order_var_int"@);
    lemma_ilp_args_members(o, "--eclass_constraint"@);
    lemma_ilp_args_members(o, "--no_order"@);
    lemma_ilp_args_members(o, "--initialize"@);
    lemma_ilp_args_members(o, "--time_lim_sec"@);
    lemma_ilp_args_members(o, "--num_thread"@);
    let s0: Seq<Seq<char>> = seq!["extractor/extract.py"@];
    assert(ilp_args_spec(o)[0] == s0[0]);
}

} // verus!
