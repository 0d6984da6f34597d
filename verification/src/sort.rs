use vstd::prelude::*;
use vstd::seq_lib::{to_multiset_insert, to_multiset_remove};

verus! {

/// A total preorder by which values are put in order.
pub trait SortKey: Sized {
    spec fn key_le(self, other: Self) -> bool;

    proof fn lemma_key_total(a: Self, b: Self)
        ensures
            a.key_le(b) || b.key_le(a),
    ;

    proof fn lemma_key_trans(a: Self, b: Self, c: Self)
        requires
            a.key_le(b),
            b.key_le(c),
        ensures
            a.key_le(c),
    ;

    fn key_le_exec(&self, other: &Self) -> (r: bool)
        ensures
            r == self.key_le(*other),
    ;
}

/// Every value of `s` comes no later in the order than each value after it.
pub open spec fn sorted_by_key<T: SortKey>(s: Seq<T>) -> bool {
    forall|i: int, j: int| 0 <= i < j < s.len() ==> #[trigger] s[i].key_le(#[trigger] s[j])
}

/// Sorts `v` in place (stable insertion sort): the result is in order and
/// holds the same values as before.
pub fn sort_by_key<T: SortKey>(v: &mut Vec<T>)
    ensures
        sorted_by_key(final(v)@),
        final(v)@.to_multiset() == old(v)@.to_multiset(),
{
    let n = v.len();
    if n == 0 {
        return;
    }
    let mut i: usize = 1;
    while i < n
        invariant
            1 <= i <= n,
            v.len() == n,
            sorted_by_key(v@.take(i as int)),
            v@.to_multiset() == old(v)@.to_multiset(),
        decreases n - i,
    {
        let ghost before = v@;
        let x = v.remove(i);
        proof {
            to_multiset_remove(before, i as int);
        }
        let mut j: usize = 0;
        while j < i && v[j].key_le_exec(&x)
            invariant
                j <= i < n,
                before.len() == n,
                v.len() == n - 1,
                v@ == before.remove(i as int),
                x == before[i as int],
                forall|k: int| 0 <= k < j ==> #[trigger] v@[k].key_le(x),
            decreases i - j,
        {
            j = j + 1;
        }
        let ghost mid = v@;
        v.insert(j, x);
        proof {
            to_multiset_insert(mid, j as int, x);
            broadcast use vstd::multiset::group_multiset_axioms;
            broadcast use vstd::seq_lib::group_to_multiset_ensures;
            assert(before.to_multiset().count(x) > 0) by {
                assert(before[i as int] == x);
                assert(before.contains(x));
            }
            assert(v@.to_multiset() =~= before.to_multiset());
            let s = v@;
            assert forall|a: int, b: int| 0 <= a < b < i + 1 implies #[trigger] s.take(
                i + 1,
            )[a].key_le(#[trigger] s.take(i + 1)[b]) by {
                assert(s.take(i + 1)[a] == s[a]);
                assert(s.take(i + 1)[b] == s[b]);
                if j < i {
                    assert(!mid[j as int].key_le(x));
                    T::lemma_key_total(mid[j as int], x);
                }
                if b < j {
                    assert(s[a] == mid[a] && s[b] == mid[b]);
                    assert(before.take(i as int)[a] == mid[a]);
                    assert(before.take(i as int)[b] == mid[b]);
                } else if b == j {
                    assert(s[a] == mid[a]);
                } else if a < j {
                    assert(s[a] == mid[a] && s[b] == mid[b - 1]);
                    assert(before.take(i as int)[a] == mid[a]);
                    assert(before.take(i as int)[b - 1] == mid[b - 1]);
                } else if a == j {
                    assert(s[b] == mid[b - 1]);
                    assert(before.take(i as int)[j as int] == mid[j as int]);
                    assert(before.take(i as int)[b - 1] == mid[b - 1]);
                    if b - 1 > j {
                        T::lemma_key_trans(x, mid[j as int], mid[b - 1]);
                    }
                } else {
                    assert(s[a] == mid[a - 1] && s[b] == mid[b - 1]);
                    assert(before.take(i as int)[a - 1] == mid[a - 1]);
                    assert(before.take(i as int)[b - 1] == mid[b - 1]);
                }
            }
        }
        i = i + 1;
    }
    assert(v@.take(n as int) =~= v@);
}

} // verus!
