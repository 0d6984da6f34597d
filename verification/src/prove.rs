use vstd::prelude::*;
use crate::expr::{Node, NodeView, node_eq};
use crate::ground::node_views;

verus! {

/// A candidate rewrite rule: its two sides as expressions.
pub struct RulePair {
    pub lhs: Vec<Node>,
    pub rhs: Vec<Node>,
}

pub open spec fn pair_view(p: RulePair) -> (Seq<NodeView>, Seq<NodeView>) {
    (node_views(p.lhs@), node_views(p.rhs@))
}

/// Whether two expressions are the same node for node.
pub fn exprs_eq(a: &Vec<Node>, b: &Vec<Node>) -> (r: bool)
    ensures
        r == (node_views(a@) == node_views(b@)),
{
    if a.len() != b.len() {
        assert(node_views(a@).len() != node_views(b@).len());
        return false;
    }
    let mut i: usize = 0;
    while i < a.len()
        invariant
            i <= a.len() == b.len(),
            forall|k: int| 0 <= k < i ==> a@[k]@ == b@[k]@,
        decreases a.len() - i,
    {
        if !node_eq(&a[i], &b[i]) {
            assert(node_views(a@)[i as int] != node_views(b@)[i as int]);
            return false;
        }
        i = i + 1;
    }
    assert(node_views(a@) =~= node_views(b@));
    true
}

/// The first position of `p` in `s`.
pub open spec fn first_position(s: Seq<(Seq<NodeView>, Seq<NodeView>)>, p: (Seq<NodeView>, Seq<NodeView>), from: nat) -> Option<nat>
    decreases s.len() - from,
{
    if from >= s.len() {
        None
    } else if s[from as int] == p {
        Some(from)
    } else {
        first_position(s, p, from + 1)
    }
}

pub open spec fn pair_views(v: Seq<RulePair>) -> Seq<(Seq<NodeView>, Seq<NodeView>)> {
    v.map_values(|p: RulePair| pair_view(p))
}

fn position_of(initial: &Vec<RulePair>, p: &RulePair) -> (r: Option<usize>)
    ensures
        r == match first_position(pair_views(initial@), pair_view(*p), 0) {
            Some(i) => Some(i as usize),
            None => None,
        },
{
    let mut i: usize = 0;
    while i < initial.len()
        invariant
            i <= initial.len(),
            first_position(pair_views(initial@), pair_view(*p), 0) == first_position(
                pair_views(initial@),
                pair_view(*p),
                i as nat,
            ),
        decreases initial.len() - i,
    {
        assert(pair_views(initial@)[i as int] == pair_view(initial@[i as int]));
        if exprs_eq(&initial[i].lhs, &p.lhs) && exprs_eq(&initial[i].rhs, &p.rhs) {
            return Some(i);
        }
        i = i + 1;
    }
    None
}

/// For each rule still unproven, its index among the rules first read (its
/// first occurrence there), or `None` if it is not among them.
pub fn unproven_positions(initial: &Vec<RulePair>, remaining: &Vec<RulePair>) -> (r: Vec<Option<usize>>)
    ensures
        r.len() == remaining.len(),
        forall|k: int|
            0 <= k < r.len() ==> #[trigger] r@[k] == match first_position(
                pair_views(initial@),
                pair_view(remaining@[k]),
                0,
            ) {
                Some(i) => Some(i as usize),
                None => None,
            },
{
    let mut r: Vec<Option<usize>> = Vec::new();
    let mut k: usize = 0;
    while k < remaining.len()
        invariant
            k <= remaining.len(),
            r.len() == k,
            forall|q: int|
                0 <= q < k ==> #[trigger] r@[q] == match first_position(
                    pair_views(initial@),
                    pair_view(remaining@[q]),
                    0,
                ) {
                    Some(i) => Some(i as usize),
                    None => None,
                },
        decreases remaining.len() - k,
    {
        let found = position_of(initial, &remaining[k]);
        r.push(found);
        k = k + 1;
    }
    r
}

/// What follows a proving trip.
pub enum TripNext {
    /// Some rules were proved and some are left: run another trip.
    Continue,
    /// Every rule is proved.
    Finished,
    /// The trip proved nothing: the rules left cannot be proved.
    Stuck,
}

/// A trip over the rules still to prove: how many it proved and what follows.
pub struct Trip {
    pub proved: usize,
    pub next: TripNext,
}

/// The outcome of a trip that started with `before` rules to prove and left
/// `after` of them unproven.
pub fn trip(before: usize, after: usize) -> (r: Trip)
    requires
        after <= before,
    ensures
        r.proved == before - after,
        r.next == if r.proved == 0 {
            TripNext::Stuck
        } else if after == 0 {
            TripNext::Finished
        } else {
            TripNext::Continue
        },
{
    let proved = before - after;
    let next = if proved == 0 {
        TripNext::Stuck
    } else if after == 0 {
        TripNext::Finished
    } else {
        TripNext::Continue
    };
    Trip { proved, next }
}

} // verus!
