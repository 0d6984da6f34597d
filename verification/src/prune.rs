use vstd::prelude::*;
use crate::expr::{Node, NodeView, Op};
use crate::egraph::{pair_node, make_pair};
use crate::ground::{
    PatNode, VarBinding, GroundState, ground_run, ground_side, pat_views, pattern_wf, node_views,
    binding_views,
};
use crate::sort::{SortKey, sort_by_key, sorted_by_key};

verus! {

/// The two sides of a rewrite rule, as patterns.
pub struct RulePatterns {
    pub lhs: Vec<PatNode>,
    pub rhs: Vec<PatNode>,
}

/// A rule whose sides are non-empty, well-formed patterns of a size that the
/// grounded expression can index.
pub open spec fn rule_wf(p: RulePatterns) -> bool {
    &&& p.lhs.len() > 0
    &&& p.rhs.len() > 0
    &&& pattern_wf(p.lhs@)
    &&& pattern_wf(p.rhs@)
    &&& 2 * (p.lhs.len() + p.rhs.len()) + 1 <= usize::MAX
}

pub open spec fn rules_wf(rules: Seq<Option<RulePatterns>>) -> bool {
    forall|i: int| 0 <= i < rules.len() && (#[trigger] rules[i]) is Some ==> rule_wf(rules[i]->Some_0)
}

pub open spec fn empty_ground() -> GroundState {
    GroundState { expr: Seq::empty(), vars: Seq::empty(), ids: Seq::empty(), failed: false }
}

/// The expression that checks a rule: both sides grounded into one
/// expression (sharing their variables), joined by a `noop` root. `None` for a
/// rule that did not parse or whose sides do not both ground.
pub open spec fn grounded_rule(r: Option<RulePatterns>, d: int) -> Option<Seq<NodeView>> {
    match r {
        None => None,
        Some(p) => {
            let st1 = ground_run(pat_views(p.lhs@), empty_ground(), d, p.lhs.len() as nat);
            if st1.failed {
                None
            } else {
                let st2 = ground_run(
                    pat_views(p.rhs@),
                    GroundState { expr: st1.expr, vars: st1.vars, ids: Seq::empty(), failed: false },
                    d,
                    p.rhs.len() as nat,
                );
                if st2.failed {
                    None
                } else {
                    Some(st2.expr.push(pair_node(Op::Noop, st1.ids.last(), st2.ids.last())))
                }
            }
        },
    }
}

/// The size of a rule's left side, or 0 for a rule that did not parse.
pub open spec fn lhs_size(r: Option<RulePatterns>) -> nat {
    match r {
        Some(p) => p.lhs.len() as nat,
        None => 0,
    }
}

/// The (left-side size, index) of each rule.
pub open spec fn initial_keys(rules: Seq<Option<RulePatterns>>) -> Seq<(usize, usize)> {
    Seq::new(rules.len(), |i: int| (lhs_size(rules[i]) as usize, i as usize))
}

/// Candidates are taken largest left side first (complex rules are removed
/// first, simple generators kept), ties by rule index.
impl SortKey for (usize, usize) {
    open spec fn key_le(self, other: Self) -> bool {
        self.0 > other.0 || (self.0 == other.0 && self.1 <= other.1)
    }

    proof fn lemma_key_total(a: Self, b: Self) {
    }

    proof fn lemma_key_trans(a: Self, b: Self, c: Self) {
    }

    fn key_le_exec(&self, other: &Self) -> (r: bool) {
        self.0 > other.0 || (self.0 == other.0 && self.1 <= other.1)
    }
}

/// The indices below `k` of the rules still kept, but for rule `i`.
pub open spec fn kept_except(kept: Seq<bool>, i: int, k: nat) -> Seq<usize>
    decreases k,
{
    if k == 0 {
        Seq::empty()
    } else {
        let r = kept_except(kept, i, (k - 1) as nat);
        if kept[k - 1] && k - 1 != i {
            r.push((k - 1) as usize)
        } else {
            r
        }
    }
}

/// The number of rules still kept among the first `k`.
pub open spec fn count_kept(kept: Seq<bool>, k: nat) -> nat
    decreases k,
{
    if k == 0 {
        0
    } else {
        count_kept(kept, (k - 1) as nat) + if kept[k - 1] {
            1nat
        } else {
            0nat
        }
    }
}

/// One redundancy check: whether the other kept rules (`others`) rederive
/// rule `rule`, by saturating `expr`, which grounds both of its sides under a
/// `noop` root.
pub struct Check {
    pub rule: usize,
    pub expr: Vec<Node>,
    pub others: Vec<usize>,
}

/// The greedy pruning of redundant rules, one check at a time: the caller runs
/// the saturation that each check asks for and records its outcome.
pub struct Pruner {
    pub rules: Vec<Option<RulePatterns>>,
    /// (left-side size, index) of each rule, in the order they are tried.
    pub order: Vec<(usize, usize)>,
    /// The next position of `order` to try.
    pub pos: usize,
    pub kept: Vec<bool>,
    /// The rule of the check handed out and not yet recorded.
    pub pending: Option<usize>,
    /// The number of rules checked so far (those that ground).
    pub groundable: usize,
    pub pruned: usize,
    /// The side of the square shape given to grounded variables.
    pub shape: i32,
    /// Each rule pruned so far, in order, with the rules it was checked
    /// against (the other rules kept when it was checked).
    pub log: Ghost<Seq<(usize, Seq<usize>)>>,
}

impl Pruner {
    pub open spec fn n(&self) -> nat {
        self.rules@.len()
    }

    /// Rule `j` parsed and both its sides ground.
    pub open spec fn checkable(&self, j: int) -> bool {
        grounded_rule(self.rules@[j], self.shape as int) is Some
    }

    /// The rule at position `p` of the order is one to check now.
    pub open spec fn candidate(&self, p: int) -> bool {
        self.kept@[self.order@[p].1 as int] && self.checkable(self.order@[p].1 as int)
    }

    pub open spec fn wf(&self) -> bool {
        &&& rules_wf(self.rules@)
        &&& self.order@.len() == self.n()
        &&& self.kept@.len() == self.n()
        &&& sorted_by_key(self.order@)
        &&& self.order@.to_multiset() == initial_keys(self.rules@).to_multiset()
        &&& forall|k: int|
            0 <= k < self.order@.len() ==> #[trigger] self.order@[k].1 < self.n()
                && self.order@[k].0 == lhs_size(self.rules@[self.order@[k].1 as int])
        &&& self.pos <= self.n()
        &&& self.groundable <= self.pos
        &&& self.pruned + count_kept(self.kept@, self.n()) == self.n()
        &&& forall|j: int| 0 <= j < self.n() && !#[trigger] self.kept@[j] ==> self.checkable(j)
        &&& self.pending matches Some(j) ==> j < self.n() && self.kept@[j as int] && self.checkable(
            j as int,
        )
        &&& self.pruned + (if self.pending is Some { 1int } else { 0int }) <= self.groundable
        &&& self.log_wf()
    }

    /// The log names each rule that is no longer kept, and each rule a pruned
    /// rule was checked against is still kept or was pruned after it.
    pub open spec fn log_wf(&self) -> bool {
        let log = self.log@;
        &&& log.len() == self.pruned
        &&& forall|i: int| 0 <= i < log.len() ==> (#[trigger] log[i]).0 < self.n() && !self.kept@[log[i].0 as int]
        &&& forall|j: int| 0 <= j < self.n() && !#[trigger] self.kept@[j] ==> exists|i: int|
            0 <= i < log.len() && #[trigger] log[i].0 == j
        &&& forall|i: int, y: usize|
            0 <= i < log.len() && #[trigger] log[i].1.contains(y) ==> (y < self.n() && self.kept@[y as int])
                || exists|k: int| i < k < log.len() && #[trigger] log[k].0 == y
    }
}

/// The members of `kept_except`: the rules below `k` still kept, but for `i`.
pub proof fn lemma_kept_except_members(kept: Seq<bool>, i: int, k: nat, y: usize)
    requires
        k <= kept.len() <= usize::MAX,
    ensures
        kept_except(kept, i, k).contains(y) <==> (y < k && kept[y as int] && y != i),
    decreases k,
{
    if k > 0 {
        let k1 = (k - 1) as nat;
        lemma_kept_except_members(kept, i, k1, y);
        let r = kept_except(kept, i, k1);
        if kept[k1 as int] && k1 != i {
            let r2 = r.push(k1 as usize);
            assert(r2[r.len() as int] == k1 as usize);
            if r2.contains(y) {
                let q = choose|q: int| 0 <= q < r2.len() && r2[q] == y;
                if q < r.len() {
                    assert(r[q] == y);
                } else {
                    assert(y as int == k1);
                }
            }
            if r.contains(y) {
                let q = choose|q: int| 0 <= q < r.len() && r[q] == y;
                assert(r2[q] == y);
            }
        }
    }
}

proof fn lemma_count_kept_all(kept: Seq<bool>, k: nat)
    requires
        k <= kept.len(),
        forall|j: int| 0 <= j < k ==> kept[j],
    ensures
        count_kept(kept, k) == k,
    decreases k,
{
    if k > 0 {
        lemma_count_kept_all(kept, (k - 1) as nat);
    }
}

proof fn lemma_count_kept_clear(kept: Seq<bool>, j: int, k: nat)
    requires
        k <= kept.len(),
        0 <= j < kept.len(),
        kept[j],
    ensures
        count_kept(kept.update(j, false), k) + (if j < k {
            1nat
        } else {
            0nat
        }) == count_kept(kept, k),
    decreases k,
{
    if k > 0 {
        lemma_count_kept_clear(kept, j, (k - 1) as nat);
    }
}

impl Pruner {
    /// A pruner over the parsed rules (`None` for a rule that did not parse),
    /// with every rule kept and none checked yet.
    pub fn new(rules: Vec<Option<RulePatterns>>, shape: i32) -> (r: Pruner)
        requires
            rules_wf(rules@),
        ensures
            r.wf(),
            r.rules@ == rules@,
            r.shape == shape,
            r.pos == 0,
            r.pending is None,
            r.groundable == 0,
            r.pruned == 0,
            r.log@ == Seq::<(usize, Seq<usize>)>::empty(),
            forall|j: int| 0 <= j < rules@.len() ==> #[trigger] r.kept@[j],
    {
        let n = rules.len();
        let mut order: Vec<(usize, usize)> = Vec::new();
        let mut kept: Vec<bool> = Vec::new();
        let mut i: usize = 0;
        while i < n
            invariant
                i <= n == rules.len(),
                order@ == initial_keys(rules@).take(i as int),
                kept.len() == i,
                forall|j: int| 0 <= j < i ==> #[trigger] kept@[j],
            decreases n - i,
        {
            let size = match &rules[i] {
                Some(p) => p.lhs.len(),
                None => 0,
            };
            order.push((size, i));
            kept.push(true);
            i = i + 1;
            assert(order@ =~= initial_keys(rules@).take(i as int));
        }
        assert(initial_keys(rules@).take(n as int) =~= initial_keys(rules@));
        sort_by_key(&mut order);
        proof {
            broadcast use vstd::seq_lib::group_to_multiset_ensures;

            assert(order@.len() == order@.to_multiset().len());
            assert(initial_keys(rules@).len() == initial_keys(rules@).to_multiset().len());

            assert forall|k: int| 0 <= k < order@.len() implies #[trigger] order@[k].1 < n
                && order@[k].0 == lhs_size(rules@[order@[k].1 as int]) by {
                assert(order@.contains(order@[k]));
                assert(initial_keys(rules@).to_multiset().count(order@[k]) > 0);
                assert(initial_keys(rules@).contains(order@[k]));
                let q = choose|q: int|
                    0 <= q < initial_keys(rules@).len() && initial_keys(rules@)[q] == order@[k];
            }
            lemma_count_kept_all(kept@, n as nat);
        }
        Pruner {
            rules,
            order,
            pos: 0,
            kept,
            pending: None,
            groundable: 0,
            pruned: 0,
            shape,
            log: Ghost(Seq::empty()),
        }
    }
}

} // verus!

verus! {

/// Grounds both sides of a rule into one expression under a `noop` root.
fn ground_rule(p: &RulePatterns, shape: i32) -> (r: Option<Vec<Node>>)
    requires
        rule_wf(*p),
    ensures
        match r {
            Some(e) => grounded_rule(Some(*p), shape as int) == Some(node_views(e@)),
            None => grounded_rule(Some(*p), shape as int) is None,
        },
{
    let mut expr: Vec<Node> = Vec::new();
    let mut vars: Vec<VarBinding> = Vec::new();
    assert(node_views(expr@) =~= Seq::<NodeView>::empty());
    assert(binding_views(vars@) =~= Seq::<(Seq<char>, usize)>::empty());
    let l = ground_side(&p.lhs, &mut expr, &mut vars, shape);
    let l = match l {
        Some(l) => l,
        None => {
            return None;
        },
    };
    let r = ground_side(&p.rhs, &mut expr, &mut vars, shape);
    let r = match r {
        Some(r) => r,
        None => {
            return None;
        },
    };
    let ghost before = expr@;
    expr.push(make_pair(Op::Noop, l, r));
    assert(node_views(expr@) =~= node_views(before).push(pair_node(Op::Noop, l, r)));
    Some(expr)
}

impl Pruner {
    /// Takes the next rule in the order that is still kept, parsed and whose
    /// sides ground, and hands out its check: the grounded expression and the
    /// other rules still kept. `None` once no such rule is left.
    pub fn next_check(&mut self) -> (r: Option<Check>)
        requires
            old(self).wf(),
            old(self).pending is None,
        ensures
            final(self).wf(),
            final(self).rules == old(self).rules,
            final(self).order == old(self).order,
            final(self).kept == old(self).kept,
            final(self).pruned == old(self).pruned,
            final(self).shape == old(self).shape,
            final(self).log == old(self).log,
            r is Some <==> exists|p: int| old(self).pos <= p < old(self).n() && #[trigger] old(self).candidate(p),
            match r {
                Some(c) => {
                    &&& old(self).pos < final(self).pos
                    &&& old(self).candidate(final(self).pos - 1)
                    &&& forall|p: int| old(self).pos <= p < final(self).pos - 1 ==> !#[trigger] old(self).candidate(p)
                    &&& c.rule == old(self).order@[final(self).pos - 1].1
                    &&& grounded_rule(old(self).rules@[c.rule as int], old(self).shape as int) == Some(node_views(c.expr@))
                    &&& c.others@ == kept_except(old(self).kept@, c.rule as int, old(self).n())
                    &&& final(self).pending == Some(c.rule)
                    &&& final(self).groundable == old(self).groundable + 1
                },
                None => {
                    &&& final(self).pos == old(self).n()
                    &&& final(self).pending is None
                    &&& final(self).groundable == old(self).groundable
                },
            },
    {
        let n = self.rules.len();
        let ghost start = self.pos;
        while self.pos < n
            invariant
                n == self.n(),
                self.wf(),
                self.pending is None,
                self.log == old(self).log,
                self.rules == old(self).rules,
                self.order == old(self).order,
                self.kept == old(self).kept,
                self.pruned == old(self).pruned,
                self.shape == old(self).shape,
                self.groundable == old(self).groundable,
                start == old(self).pos,
                start <= self.pos,
                forall|p: int| start <= p < self.pos ==> !#[trigger] old(self).candidate(p),
            decreases n - self.pos,
        {
            let i = self.order[self.pos].1;
            assert(i < n);
            self.pos = self.pos + 1;
            if !self.kept[i] {
                continue;
            }
            let grounded = match &self.rules[i] {
                None => None,
                Some(p) => {
                    assert(rule_wf(self.rules@[i as int]->Some_0));
                    ground_rule(p, self.shape)
                },
            };
            match grounded {
                None => {
                    continue;
                },
                Some(expr) => {
                    let mut others: Vec<usize> = Vec::new();
                    let mut j: usize = 0;
                    while j < n
                        invariant
                            j <= n == self.kept.len(),
                            others@ == kept_except(self.kept@, i as int, j as nat),
                        decreases n - j,
                    {
                        if self.kept[j] && j != i {
                            others.push(j);
                        }
                        j = j + 1;
                    }
                    assert(old(self).candidate(self.pos - 1));
                    self.pending = Some(i);
                    self.groundable = self.groundable + 1;
                    return Some(Check { rule: i, expr, others });
                },
            }
        }
        None
    }

    /// Records the outcome of the check handed out: a rule that the other
    /// kept rules rederive is pruned; otherwise it is kept.
    pub fn record(&mut self, derivable: bool)
        requires
            old(self).wf(),
            old(self).pending is Some,
        ensures
            final(self).wf(),
            final(self).pending is None,
            final(self).rules == old(self).rules,
            final(self).order == old(self).order,
            final(self).pos == old(self).pos,
            final(self).groundable == old(self).groundable,
            final(self).shape == old(self).shape,
            final(self).kept@ == if derivable {
                old(self).kept@.update(old(self).pending->Some_0 as int, false)
            } else {
                old(self).kept@
            },
            final(self).pruned == old(self).pruned + if derivable {
                1int
            } else {
                0int
            },
            final(self).log@ == if derivable {
                old(self).log@.push(
                    (
                        old(self).pending->Some_0,
                        kept_except(old(self).kept@, old(self).pending->Some_0 as int, old(self).n()),
                    ),
                )
            } else {
                old(self).log@
            },
    {
        let j = match self.pending {
            Some(j) => j,
            None => 0,
        };
        let nk = self.kept.len();
        if derivable {
            proof {
                lemma_count_kept_clear(self.kept@, j as int, self.n());
                assert(self.pruned + 1 <= nk);
            }
            let ghost old_kept = self.kept@;
            let ghost old_log = self.log@;
            let ghost entry = (j, kept_except(old_kept, j as int, self.n()));
            self.kept.set(j, false);
            self.pruned = self.pruned + 1;
            self.log = Ghost(old_log.push(entry));
            proof {
                let log = self.log@;
                assert(log[old_log.len() as int] == entry);
                assert forall|i: int| 0 <= i < log.len() implies (#[trigger] log[i]).0 < self.n()
                    && !self.kept@[log[i].0 as int] by {
                    if i < old_log.len() {
                        assert(log[i] == old_log[i]);
                    }
                }
                assert forall|j2: int| 0 <= j2 < self.n() && !#[trigger] self.kept@[j2] implies exists|i: int|
                    0 <= i < log.len() && #[trigger] log[i].0 == j2 by {
                    if j2 == j {
                        assert(log[old_log.len() as int].0 == j2);
                    } else {
                        assert(!old_kept[j2]);
                        let i = choose|i: int| 0 <= i < old_log.len() && #[trigger] old_log[i].0 == j2;
                        assert(log[i] == old_log[i]);
                    }
                }
                assert forall|i: int, y: usize|
                    0 <= i < log.len() && #[trigger] log[i].1.contains(y) implies (y < self.n()
                    && self.kept@[y as int]) || exists|k: int| i < k < log.len() && #[trigger] log[k].0 == y by {
                    if i == old_log.len() {
                        lemma_kept_except_members(old_kept, j as int, self.n(), y);
                    } else {
                        assert(log[i] == old_log[i]);
                        if y < self.n() && old_kept[y as int] {
                            if y == j {
                                assert(log[old_log.len() as int].0 == y);
                            }
                        } else {
                            let k = choose|k: int| i < k < old_log.len() && #[trigger] old_log[k].0 == y;
                            assert(log[k] == old_log[k]);
                        }
                    }
                }
            }
        }
        self.pending = None;
    }

    /// The indices of the rules still kept, in ascending order.
    pub fn kept_rules(&self) -> (r: Vec<usize>)
        requires
            self.kept@.len() == self.n(),
        ensures
            r@ == kept_except(self.kept@, -1, self.n()),
    {
        let n = self.kept.len();
        let mut r: Vec<usize> = Vec::new();
        let mut j: usize = 0;
        while j < n
            invariant
                j <= n == self.kept.len(),
                r@ == kept_except(self.kept@, -1, j as nat),
            decreases n - j,
        {
            if self.kept[j] {
                r.push(j);
            }
            j = j + 1;
        }
        r
    }
}

} // verus!
