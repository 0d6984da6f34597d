use vstd::prelude::*;
use crate::expr::{Node, NodeView, node_eq};
use crate::ground::node_views;
use crate::sort::{SortKey, sort_by_key, sorted_by_key};
use crate::text::views;

verus! {

/// The options that the ILP extraction script takes.
pub struct IlpOptions {
    pub order_var_int: bool,
    pub class_constraint: bool,
    pub no_order: bool,
    pub initialize: bool,
    pub time_limit_sec: Option<String>,
    pub num_threads: Option<String>,
}

pub open spec fn flag_if(b: bool, f: Seq<char>) -> Seq<Seq<char>> {
    if b {
        seq![f]
    } else {
        Seq::empty()
    }
}

pub open spec fn option_arg(v: Option<String>, f: Seq<char>) -> Seq<Seq<char>> {
    match v {
        Some(x) => seq![f, x@],
        None => Seq::empty(),
    }
}

/// The arguments of the ILP script: the script, then a flag for each option
/// that is set, then the time limit and the thread count where given.
pub open spec fn ilp_args_spec(o: IlpOptions) -> Seq<Seq<char>> {
    seq!["extractor/extract.py"@] + flag_if(o.order_var_int, "--order_var_int"@) + flag_if(
        o.class_constraint,
        "--eclass_constraint"@,
    ) + flag_if(o.no_order, "--no_order"@) + flag_if(o.initialize, "--initialize"@) + option_arg(
        o.time_limit_sec,
        "--time_lim_sec"@,
    ) + option_arg(o.num_threads, "--num_thread"@)
}

fn push_flag(args: &mut Vec<String>, b: bool, f: &str)
    ensures
        views(final(args)@) == views(old(args)@) + flag_if(b, f@),
{
    let ghost prev = args@;
    if b {
        let s = String::from_str(f);
        args.push(s);
        assert(views(args@) =~= views(prev) + flag_if(b, f@));
    } else {
        assert(views(args@) =~= views(prev) + flag_if(b, f@));
    }
}

fn push_option(args: &mut Vec<String>, v: &Option<String>, f: &str)
    ensures
        views(final(args)@) == views(old(args)@) + option_arg(*v, f@),
{
    let ghost prev = args@;
    match v {
        Some(x) => {
            args.push(String::from_str(f));
            args.push(x.clone());
            assert(views(args@) =~= views(prev) + option_arg(*v, f@));
        },
        None => {
            assert(views(args@) =~= views(prev) + option_arg(*v, f@));
        },
    }
}

pub fn ilp_args(o: &IlpOptions) -> (r: Vec<String>)
    ensures
        views(r@) == ilp_args_spec(*o),
{
    let mut args: Vec<String> = Vec::new();
    args.push(String::from_str("extractor/extract.py"));
    assert(views(args@) =~= seq!["extractor/extract.py"@]);
    push_flag(&mut args, o.order_var_int, "--order_var_int");
    push_flag(&mut args, o.class_constraint, "--eclass_constraint");
    push_flag(&mut args, o.no_order, "--no_order");
    push_flag(&mut args, o.initialize, "--initialize");
    push_option(&mut args, &o.time_limit_sec, "--time_lim_sec");
    push_option(&mut args, &o.num_threads, "--num_thread");
    args
}

/// The node picked so far for class `e`, among `(class, node)` picks.
pub open spec fn picked_for(p: Seq<(usize, usize)>, e: usize) -> Option<usize>
    decreases p.len(),
{
    if p.len() == 0 {
        None
    } else if p.last().0 == e {
        Some(p.last().1)
    } else {
        picked_for(p.drop_last(), e)
    }
}

/// The picks that the ILP solution makes over its first `k` nodes: each
/// chosen node (`x[i] == 1`) goes to the class `m[g[i]]`, unless that class
/// already has a node, in which case it is reported as a duplicate (class,
/// node kept, node dropped).
pub open spec fn picks_spec(x: Seq<i32>, g: Seq<usize>, m: Seq<usize>, k: nat) -> (
    Seq<(usize, usize)>,
    Seq<(usize, usize, usize)>,
)
    decreases k,
{
    if k == 0 {
        (Seq::empty(), Seq::empty())
    } else {
        let (p, d) = picks_spec(x, g, m, (k - 1) as nat);
        let i = k - 1;
        if x[i] == 1 {
            let e = m[g[i] as int];
            match picked_for(p, e) {
                Some(j) => (p, d.push((e, j, i as usize))),
                None => (p.push((e, i as usize)), d),
            }
        } else {
            (p, d)
        }
    }
}

pub struct NodePicks {
    pub picked: Vec<(usize, usize)>,
    pub duplicates: Vec<(usize, usize, usize)>,
}

fn find_picked(p: &Vec<(usize, usize)>, e: usize) -> (r: Option<usize>)
    ensures
        r == picked_for(p@, e),
{
    let mut k = p.len();
    assert(p@.take(k as int) =~= p@);
    while k > 0
        invariant
            k <= p.len(),
            picked_for(p@, e) == picked_for(p@.take(k as int), e),
        decreases k,
    {
        let ghost t = p@.take(k as int);
        assert(t.drop_last() =~= p@.take(k - 1));
        if p[k - 1].0 == e {
            return Some(p[k - 1].1);
        }
        k = k - 1;
    }
    None
}

/// Reads the solved ILP: for each class, the node that the solution picks
/// (the first one where it picks more than one, which are reported).
pub fn pick_nodes(solved_x: &Vec<i32>, g_i: &Vec<usize>, m_id_map: &Vec<usize>) -> (r: NodePicks)
    requires
        forall|i: int|
            0 <= i < solved_x.len() && #[trigger] solved_x@[i] == 1 ==> i < g_i.len() && g_i@[i]
                < m_id_map.len(),
    ensures
        (r.picked@, r.duplicates@) == picks_spec(solved_x@, g_i@, m_id_map@, solved_x.len() as nat),
{
    let mut picked: Vec<(usize, usize)> = Vec::new();
    let mut duplicates: Vec<(usize, usize, usize)> = Vec::new();
    let mut i: usize = 0;
    while i < solved_x.len()
        invariant
            i <= solved_x.len(),
            forall|q: int|
                0 <= q < solved_x.len() && #[trigger] solved_x@[q] == 1 ==> q < g_i.len() && g_i@[q]
                    < m_id_map.len(),
            (picked@, duplicates@) == picks_spec(solved_x@, g_i@, m_id_map@, i as nat),
        decreases solved_x.len() - i,
    {
        if solved_x[i] == 1 {
            let e = m_id_map[g_i[i]];
            match find_picked(&picked, e) {
                Some(j) => {
                    duplicates.push((e, j, i));
                },
                None => {
                    picked.push((e, i));
                },
            }
        }
        i = i + 1;
    }
    NodePicks { picked, duplicates }
}

/// How often `r` occurs in `s`.
pub open spec fn occurrences(s: Seq<usize>, r: usize) -> nat
    decreases s.len(),
{
    if s.len() == 0 {
        0
    } else {
        occurrences(s.drop_last(), r) + if s.last() == r {
            1nat
        } else {
            0nat
        }
    }
}

proof fn lemma_occurrences_le(s: Seq<usize>, r: usize)
    ensures
        occurrences(s, r) <= s.len(),
        s.contains(r) <==> occurrences(s, r) > 0,
    decreases s.len(),
{
    if s.len() > 0 {
        lemma_occurrences_le(s.drop_last(), r);
        if s.contains(r) && s.last() != r {
            let k = choose|k: int| 0 <= k < s.len() && s[k] == r;
            assert(s.drop_last()[k] == r);
        }
        if s.drop_last().contains(r) {
            let k = choose|k: int| 0 <= k < s.drop_last().len() && s.drop_last()[k] == r;
            assert(s[k] == r);
        }
    }
}

/// The rule families that have rewrite witnesses, as (rule, number of
/// witnesses), most witnesses first, ties by rule index.
pub fn rank_rule_families(witness_rules: &Vec<usize>) -> (r: Vec<(usize, usize)>)
    ensures
        forall|k: int|
            0 <= k < r.len() ==> #[trigger] r@[k].1 == occurrences(witness_rules@, r@[k].0) && r@[k].1
                > 0,
        forall|a: int, b: int| 0 <= a < b < r.len() ==> #[trigger] r@[a].0 != #[trigger] r@[b].0,
        forall|w: usize| witness_rules@.contains(w) ==> exists|k: int| 0 <= k < r.len() && #[trigger] r@[k].0 == w,
        forall|a: int, b: int|
            0 <= a < b < r.len() ==> #[trigger] r@[a].1 > #[trigger] r@[b].1 || (r@[a].1 == r@[b].1
                && r@[a].0 < r@[b].0),
{
    // (count, rule)
    let mut counts: Vec<(usize, usize)> = Vec::new();
    let mut i: usize = 0;
    while i < witness_rules.len()
        invariant
            i <= witness_rules.len(),
            forall|k: int|
                0 <= k < counts.len() ==> #[trigger] counts@[k].0 == occurrences(
                    witness_rules@.take(i as int),
                    counts@[k].1,
                ) && counts@[k].0 > 0,
            forall|a: int, b: int|
                0 <= a < b < counts.len() ==> #[trigger] counts@[a].1 != #[trigger] counts@[b].1,
            forall|w: usize|
                occurrences(witness_rules@.take(i as int), w) > 0 ==> exists|k: int|
                    0 <= k < counts.len() && #[trigger] counts@[k].1 == w,
        decreases witness_rules.len() - i,
    {
        let w = witness_rules[i];
        let ghost pre = witness_rules@.take(i as int);
        let ghost post = witness_rules@.take(i + 1);
        assert(post.drop_last() =~= pre);
        assert(post.last() == w);
        proof {
            lemma_occurrences_le(post, w);
        }
        let ghost old_counts = counts@;
        let mut k: usize = 0;
        while k < counts.len() && counts[k].1 != w
            invariant
                k <= counts.len(),
                forall|q: int| 0 <= q < k ==> #[trigger] counts@[q].1 != w,
            decreases counts.len() - k,
        {
            k = k + 1;
        }
        if k < counts.len() {
            let c = counts[k].0;
            assert(c == occurrences(pre, w));
            assert(c < witness_rules.len());
            counts.set(k, (c + 1, w));
        } else {
            assert(occurrences(pre, w) == 0);
            counts.push((1, w));
        }
        proof {
            assert forall|q: int| 0 <= q < counts.len() implies #[trigger] counts@[q].0 == occurrences(
                post,
                counts@[q].1,
            ) && counts@[q].0 > 0 by {
                if q < old_counts.len() && q != k {
                    assert(counts@[q] == old_counts[q]);
                }
            }
            assert forall|a: int, b: int|
                0 <= a < b < counts.len() implies #[trigger] counts@[a].1 != #[trigger] counts@[b].1 by {
                if b < old_counts.len() {
                    if a != k && b != k {
                        assert(counts@[a] == old_counts[a] && counts@[b] == old_counts[b]);
                    } else if a == k {
                        assert(counts@[b] == old_counts[b]);
                    } else {
                        assert(counts@[a] == old_counts[a]);
                    }
                } else {
                    assert(counts@[a] == old_counts[a]);
                }
            }
            assert forall|x: usize| occurrences(post, x) > 0 implies exists|q: int|
                0 <= q < counts.len() && #[trigger] counts@[q].1 == x by {
                if x == w {
                    assert(counts@[k as int].1 == w);
                } else {
                    assert(occurrences(pre, x) > 0);
                    let q = choose|q: int| 0 <= q < old_counts.len() && #[trigger] old_counts[q].1 == x;
                    assert(counts@[q] == old_counts[q] || q == k);
                    assert(counts@[q].1 == x);
                }
            }
        }
        i = i + 1;
    }
    assert(witness_rules@.take(i as int) =~= witness_rules@);
    let ghost unsorted = counts@;
    proof {
        assert(unsorted.no_duplicates()) by {
            assert forall|a: int, b: int|
                0 <= a < unsorted.len() && 0 <= b < unsorted.len() && a != b implies unsorted[a]
                != unsorted[b] by {
                if a < b {
                    assert(unsorted[a].1 != unsorted[b].1);
                } else {
                    assert(unsorted[b].1 != unsorted[a].1);
                }
            }
        }
        unsorted.lemma_multiset_has_no_duplicates();
    }
    sort_by_key(&mut counts);
    proof {
        broadcast use vstd::seq_lib::group_to_multiset_ensures;

        assert forall|x: (usize, usize)| counts@.to_multiset().contains(x) implies counts@.to_multiset().count(x) == 1 by {
        }
        counts@.lemma_multiset_has_no_duplicates_conv();
    }
    let mut r: Vec<(usize, usize)> = Vec::new();
    let mut k: usize = 0;
    while k < counts.len()
        invariant
            k <= counts.len(),
            r.len() == k,
            forall|q: int| 0 <= q < k ==> #[trigger] r@[q] == (counts@[q].1, counts@[q].0),
        decreases counts.len() - k,
    {
        r.push((counts[k].1, counts[k].0));
        k = k + 1;
    }
    proof {
        broadcast use vstd::seq_lib::group_to_multiset_ensures;

        assert forall|q: int| 0 <= q < counts.len() implies unsorted.contains(#[trigger] counts@[q]) by {
            assert(counts@.contains(counts@[q]));
            assert(counts@.to_multiset().count(counts@[q]) > 0);
        }
        assert forall|k2: int| 0 <= k2 < r.len() implies #[trigger] r@[k2].1 == occurrences(
            witness_rules@,
            r@[k2].0,
        ) && r@[k2].1 > 0 by {
            assert(unsorted.contains(counts@[k2]));
        }
        assert forall|a: int, b: int| 0 <= a < b < r.len() implies #[trigger] r@[a].0 != #[trigger] r@[b].0 by {
            assert(unsorted.contains(counts@[a]));
            assert(unsorted.contains(counts@[b]));
            assert(counts@[a] != counts@[b]);
        }
        assert forall|w: usize| witness_rules@.contains(w) implies exists|k2: int|
            0 <= k2 < r.len() && #[trigger] r@[k2].0 == w by {
            lemma_occurrences_le(witness_rules@, w);
            let q = choose|q: int| 0 <= q < unsorted.len() && #[trigger] unsorted[q].1 == w;
            assert(unsorted.contains(unsorted[q]));
            assert(unsorted.to_multiset().count(unsorted[q]) > 0);
            assert(counts@.contains(unsorted[q]));
            let k2 = choose|k2: int| 0 <= k2 < counts@.len() && counts@[k2] == unsorted[q];
            assert(r@[k2].0 == w);
        }
        assert forall|a: int, b: int| 0 <= a < b < r.len() implies #[trigger] r@[a].1 > #[trigger] r@[b].1 || (r@[a].1 == r@[b].1
            && r@[a].0 < r@[b].0) by {
            assert(counts@[a] != counts@[b]);
            assert(counts@[a].key_le(counts@[b]));
            assert(counts@[a].0 > counts@[b].0 || (counts@[a].0 == counts@[b].0 && counts@[a].1 <= counts@[b].1));
        }
    }
    r
}

} // verus!

verus! {

/// The targets of architecture-diverse sampling: sample 0 is the baseline
/// (no target), then one sample per rule family, in ranked order, `n` samples
/// in all at most.
pub open spec fn arch_targets_spec(ranked: Seq<(usize, usize)>, n: nat) -> Seq<Option<usize>> {
    let all = seq![None::<usize>] + ranked.map_values(|p: (usize, usize)| Some(p.0));
    if n < all.len() {
        all.take(n as int)
    } else {
        all
    }
}

pub fn arch_targets(ranked: &Vec<(usize, usize)>, n: usize) -> (r: Vec<Option<usize>>)
    ensures
        r@ == arch_targets_spec(ranked@, n as nat),
{
    let ghost all = seq![None::<usize>] + ranked@.map_values(|p: (usize, usize)| Some(p.0));
    let mut r: Vec<Option<usize>> = Vec::new();
    if n == 0 {
        assert(r@ =~= arch_targets_spec(ranked@, n as nat));
        return r;
    }
    r.push(None);
    let mut k: usize = 0;
    while k < ranked.len() && r.len() < n
        invariant
            k <= ranked.len(),
            r.len() == k + 1,
            r.len() <= n,
            all == seq![None::<usize>] + ranked@.map_values(|p: (usize, usize)| Some(p.0)),
            r@ == all.take(k + 1),
        decreases ranked.len() - k,
    {
        r.push(Some(ranked[k].0));
        k = k + 1;
        assert(r@ =~= all.take(k + 1));
    }
    assert(r@ =~= arch_targets_spec(ranked@, n as nat));
    r
}

/// Marks the target family as covered when its sample came out fused.
pub fn mark_covered(covered: &mut Vec<usize>, target: Option<usize>, fused: bool)
    requires
        old(covered)@.no_duplicates(),
    ensures
        final(covered)@.no_duplicates(),
        forall|x: usize|
            #![trigger final(covered)@.contains(x)]
            final(covered)@.contains(x) <==> (old(covered)@.contains(x) || (fused && target == Some(x))),
{
    if fused {
        if let Some(t) = target {
            if !crate::chain::vec_contains(covered, t) {
                let ghost prev = covered@;
                covered.push(t);
                proof {
                    assert forall|a: int, b: int|
                        0 <= a < b < covered@.len() implies covered@[a] != covered@[b] by {
                        if b == covered@.len() - 1 {
                            assert(prev.contains(prev[a]));
                        }
                    }
                    assert forall|x: usize|
                        #![trigger covered@.contains(x)]
                        covered@.contains(x) <==> (prev.contains(x) || x == t) by {
                        if covered@.contains(x) && x != t {
                            let q = choose|q: int| 0 <= q < covered@.len() && covered@[q] == x;
                            assert(prev[q] == x);
                        }
                        if prev.contains(x) {
                            let q = choose|q: int| 0 <= q < prev.len() && prev[q] == x;
                            assert(covered@[q] == x);
                        }
                        if x == t {
                            assert(covered@[covered@.len() - 1] == t);
                        }
                    }
                }
            }
        }
    }
}

fn contains_node(v: &Vec<Node>, n: &Node) -> (r: bool)
    ensures
        r == node_views(v@).contains(n@),
{
    let mut i: usize = 0;
    while i < v.len()
        invariant
            i <= v.len(),
            forall|k: int| 0 <= k < i ==> v@[k]@ != n@,
        decreases v.len() - i,
    {
        if node_eq(&v[i], n) {
            assert(node_views(v@)[i as int] == n@);
            return true;
        }
        i = i + 1;
    }
    assert forall|k: int| 0 <= k < node_views(v@).len() implies node_views(v@)[k] != n@ by {
        assert(node_views(v@)[k] == v@[k]@);
    }
    false
}

pub proof fn lemma_push_contains<A>(s: Seq<A>, x: A, n: A)
    ensures
        s.push(x).contains(n) <==> (s.contains(n) || n == x),
{
    if s.push(x).contains(n) && n != x {
        let k = choose|k: int| 0 <= k < s.push(x).len() && s.push(x)[k] == n;
        assert(s[k] == n);
    }
    if s.contains(n) {
        let k = choose|k: int| 0 <= k < s.len() && s[k] == n;
        assert(s.push(x)[k] == n);
    }
    if n == x {
        assert(s.push(x)[s.len() as int] == x);
    }
}

/// Adds each node of an extracted expression to the set of nodes that earlier
/// samples used; returns how many were new.
pub fn add_used(used: &mut Vec<Node>, expr: &Vec<Node>) -> (added: usize)
    requires
        node_views(old(used)@).no_duplicates(),
    ensures
        node_views(final(used)@).no_duplicates(),
        forall|n: NodeView|
            #![trigger node_views(final(used)@).contains(n)]
            node_views(final(used)@).contains(n) <==> (node_views(old(used)@).contains(n)
                || node_views(expr@).contains(n)),
        final(used).len() == old(used).len() + added,
{
    let mut added: usize = 0;
    let mut i: usize = 0;
    while i < expr.len()
        invariant
            i <= expr.len(),
            node_views(used@).no_duplicates(),
            used.len() == old(used).len() + added,
            added <= i,
            forall|n: NodeView|
                #![trigger node_views(used@).contains(n)]
                node_views(used@).contains(n) <==> (node_views(old(used)@).contains(n)
                    || node_views(expr@).take(i as int).contains(n)),
        decreases expr.len() - i,
    {
        let ghost prev = used@;
        let ghost pv = node_views(prev);
        assert(node_views(expr@).take(i + 1) =~= node_views(expr@).take(i as int).push(expr@[i as int]@));
        if !contains_node(used, &expr[i]) {
            used.push(expr[i].copy());
            added = added + 1;
            proof {
                assert(node_views(used@) =~= pv.push(expr@[i as int]@));
                assert forall|a: int, b: int|
                    0 <= a < b < node_views(used@).len() implies node_views(used@)[a] != node_views(used@)[b] by {
                    if b == node_views(used@).len() - 1 {
                        assert(pv.contains(pv[a]));
                    }
                }
            }
        } else {
            assert(node_views(used@) == pv);
        }
        proof {
            let x = expr@[i as int]@;
            let t = node_views(expr@).take(i as int);
            assert forall|n: NodeView|
                #![trigger node_views(used@).contains(n)]
                node_views(used@).contains(n) <==> (node_views(old(used)@).contains(n)
                    || node_views(expr@).take(i + 1).contains(n)) by {
                lemma_push_contains(t, x, n);
                lemma_push_contains(pv, x, n);
            }
        }
        i = i + 1;
    }
    assert(node_views(expr@).take(i as int) =~= node_views(expr@));
    added
}

/// The seed of sample `i`: the base seed plus `i`.
pub fn sample_seed(base: u64, i: u64) -> (r: u64)
    requires
        base + i <= u64::MAX,
    ensures
        r == base + i,
{
    base + i
}

} // verus!
