use vstd::prelude::*;
use vstd::seq_lib::{to_multiset_insert, to_multiset_remove};
use crate::sort::{SortKey, sort_by_key, sorted_by_key};
use crate::text::{
    views, split, chars_of, string_from_chars, sub_chars, split_ranges, ranges_match, decimal,
    push_decimal, push_str,
};

verus! {

/// Lexicographic order by code point, which is the order of `String`'s `Ord`
/// (UTF-8 keeps the order of code points, and `String` compares bytes).
pub open spec fn lex_le(a: Seq<char>, b: Seq<char>) -> bool
    decreases a.len(),
{
    if a.len() == 0 {
        true
    } else if b.len() == 0 {
        false
    } else if a[0] < b[0] {
        true
    } else if a[0] > b[0] {
        false
    } else {
        lex_le(a.drop_first(), b.drop_first())
    }
}

proof fn lemma_lex_total(a: Seq<char>, b: Seq<char>)
    ensures
        lex_le(a, b) || lex_le(b, a),
    decreases a.len(),
{
    if a.len() > 0 && b.len() > 0 && a[0] == b[0] {
        lemma_lex_total(a.drop_first(), b.drop_first());
    }
}

proof fn lemma_lex_trans(a: Seq<char>, b: Seq<char>, c: Seq<char>)
    requires
        lex_le(a, b),
        lex_le(b, c),
    ensures
        lex_le(a, c),
    decreases a.len(),
{
    if a.len() > 0 && b.len() > 0 && c.len() > 0 && a[0] == b[0] && b[0] == c[0] {
        lemma_lex_trans(a.drop_first(), b.drop_first(), c.drop_first());
    }
}

fn lex_le_exec(a: &Vec<char>, b: &Vec<char>) -> (r: bool)
    ensures
        r == lex_le(a@, b@),
{
    let mut i: usize = 0;
    assert(a@.skip(0) =~= a@ && b@.skip(0) =~= b@);
    while i < a.len() && i < b.len() && a[i] == b[i]
        invariant
            i <= a.len(),
            i <= b.len(),
            lex_le(a@, b@) == lex_le(a@.skip(i as int), b@.skip(i as int)),
        decreases a.len() - i,
    {
        assert(a@.skip(i as int).drop_first() =~= a@.skip(i + 1));
        assert(b@.skip(i as int).drop_first() =~= b@.skip(i + 1));
        i = i + 1;
    }
    if i == a.len() {
        true
    } else if i == b.len() {
        false
    } else {
        a[i] < b[i]
    }
}

pub proof fn lemma_lex_total_pub(a: Seq<char>, b: Seq<char>)
    ensures
        lex_le(a, b) || lex_le(b, a),
{
    lemma_lex_total(a, b);
}

pub proof fn lemma_lex_trans_pub(a: Seq<char>, b: Seq<char>, c: Seq<char>)
    requires
        lex_le(a, b),
        lex_le(b, c),
    ensures
        lex_le(a, c),
{
    lemma_lex_trans(a, b, c);
}

impl SortKey for String {
    open spec fn key_le(self, other: Self) -> bool {
        lex_le(self@, other@)
    }

    proof fn lemma_key_total(a: Self, b: Self) {
        lemma_lex_total(a@, b@);
    }

    proof fn lemma_key_trans(a: Self, b: Self, c: Self) {
        lemma_lex_trans(a@, b@, c@);
    }

    fn key_le_exec(&self, other: &Self) -> (r: bool) {
        let a = chars_of(self.as_str());
        let b = chars_of(other.as_str());
        lex_le_exec(&a, &b)
    }
}

pub proof fn lemma_views_multiset(s: Seq<String>, t: Seq<String>)
    requires
        s.to_multiset() == t.to_multiset(),
    ensures
        views(s).to_multiset() == views(t).to_multiset(),
    decreases s.len(),
{
    broadcast use vstd::seq_lib::group_to_multiset_ensures;
    broadcast use vstd::multiset::group_multiset_axioms;

    if s.len() == 0 {
        assert(s.to_multiset().len() == 0);
        assert(t.to_multiset().len() == t.len());
        assert(t.len() == 0);
        assert(views(s) =~= views(t));
    } else {
        let x = s.last();
        assert(s.contains(x)) by {
            assert(s[s.len() - 1] == x);
        }
        assert(s.to_multiset().count(x) > 0);
        assert(t.contains(x));
        let i = choose|i: int| 0 <= i < t.len() && t[i] == x;
        to_multiset_remove(t, i);
        assert(s.drop_last().push(x) =~= s);
        assert(s.drop_last().to_multiset() =~= s.to_multiset().remove(x));
        lemma_views_multiset(s.drop_last(), t.remove(i));
        assert(views(s) =~= views(s.drop_last()).push(x@));
        assert(views(t) =~= views(t.remove(i)).insert(i, x@));
        to_multiset_insert(views(t.remove(i)), i, x@);
    }
}

/// The weight names of a key of an interval or sensitivity file: its
/// comma-separated names, sorted.
pub fn weight_name_key(key: &str) -> (r: Vec<String>)
    ensures
        sorted_by_key(r@),
        views(r@).to_multiset() == split(key@, ',').to_multiset(),
{
    let v = chars_of(key);
    let ranges = split_ranges(&v, ',');
    let ghost pieces = split(v@, ',');
    let mut names: Vec<String> = Vec::new();
    let mut k: usize = 0;
    while k < ranges.len()
        invariant
            k <= ranges.len(),
            pieces == split(v@, ','),
            ranges_match(v@, ranges@, pieces),
            views(names@) == pieces.take(k as int),
        decreases ranges.len() - k,
    {
        let (a, b) = ranges[k];
        let s = string_from_chars(&sub_chars(&v, a, b));
        let ghost prev = names@;
        names.push(s);
        assert(views(names@) =~= views(prev).push(pieces[k as int]));
        k = k + 1;
        assert(pieces.take(k as int) =~= pieces.take(k - 1).push(pieces[k - 1]));
    }
    assert(pieces.take(k as int) =~= pieces);
    let ghost unsorted = names@;
    sort_by_key(&mut names);
    proof {
        lemma_views_multiset(names@, unsorted);
    }
    names
}

/// `{prefix}_{tag}{index}.model`, the file of an exported model (the index
/// only for one of several samples).
pub open spec fn model_file_name_spec(prefix: Seq<char>, tag: Seq<char>, index: Option<u64>) -> Seq<char> {
    prefix + seq!['_'] + tag + match index {
        Some(i) => decimal(i as nat),
        None => Seq::empty(),
    } + ".model"@
}

pub fn model_file_name(prefix: &str, tag: &str, index: Option<u64>) -> (r: String)
    ensures
        r@ == model_file_name_spec(prefix@, tag@, index),
{
    let mut out: Vec<char> = Vec::new();
    push_str(&mut out, prefix);
    out.push('_');
    push_str(&mut out, tag);
    match index {
        Some(i) => push_decimal(&mut out, i),
        None => {},
    }
    push_str(&mut out, ".model");
    assert(out@ =~= model_file_name_spec(prefix@, tag@, index));
    string_from_chars(&out)
}

/// `{file}.weight_names.json`, the provenance file beside an exported model.
pub fn provenance_file_name(file: &str) -> (r: String)
    ensures
        r@ == file@ + ".weight_names.json"@,
{
    let mut out: Vec<char> = Vec::new();
    push_str(&mut out, file);
    push_str(&mut out, ".weight_names.json");
    string_from_chars(&out)
}

} // verus!

verus! {

/// What the provenance file reads of an e-class: whether it holds a tensor,
/// whether its tensor has graph metadata (an operator with a guid), that guid,
/// and the set of names of the weights it derives from (no name twice).
pub struct ClassProvenance {
    pub is_tensor: bool,
    pub has_meta: bool,
    pub guid: u64,
    pub weight_names: Vec<String>,
}

pub open spec fn qualifies(c: ClassProvenance) -> bool {
    c.is_tensor && c.weight_names.len() > 0 && c.has_meta
}

/// The position of `guid` among the entries.
pub open spec fn guid_position(p: Seq<(u64, int)>, guid: u64) -> Option<int>
    decreases p.len(),
{
    if p.len() == 0 {
        None
    } else if p.last().0 == guid {
        Some(p.len() - 1)
    } else {
        guid_position(p.drop_last(), guid)
    }
}

/// The provenance entries of the first `k` classes: one per guid, in the order
/// guids first appear, each with the index of the last qualifying class of
/// that guid (a later class of the same guid replaces an earlier one).
pub open spec fn provenance_spec(cs: Seq<ClassProvenance>, k: nat) -> Seq<(u64, int)>
    decreases k,
{
    if k == 0 {
        Seq::empty()
    } else {
        let p = provenance_spec(cs, (k - 1) as nat);
        let c = cs[k - 1];
        if qualifies(c) {
            match guid_position(p, c.guid) {
                Some(j) => p.update(j, (c.guid, k - 1)),
                None => p.push((c.guid, k - 1)),
            }
        } else {
            p
        }
    }
}

proof fn lemma_guid_position(p: Seq<(u64, int)>, guid: u64)
    ensures
        guid_position(p, guid) matches Some(j) ==> 0 <= j < p.len() && p[j].0 == guid,
    decreases p.len(),
{
    if p.len() > 0 && p.last().0 != guid {
        lemma_guid_position(p.drop_last(), guid);
    }
}

proof fn lemma_provenance_indices(cs: Seq<ClassProvenance>, k: nat)
    requires
        k <= cs.len(),
    ensures
        forall|q: int|
            0 <= q < provenance_spec(cs, k).len() ==> 0 <= #[trigger] provenance_spec(cs, k)[q].1 < k
                && qualifies(cs[provenance_spec(cs, k)[q].1]) && cs[provenance_spec(cs, k)[q].1].guid
                == provenance_spec(cs, k)[q].0,
        provenance_spec(cs, k).len() <= k,
    decreases k,
{
    if k > 0 {
        lemma_provenance_indices(cs, (k - 1) as nat);
        let p = provenance_spec(cs, (k - 1) as nat);
        lemma_guid_position(p, cs[k - 1].guid);
    }
}

/// One entry of the provenance file: a guid (as decimal text) and the sorted
/// names of the weights its tensor derives from.
pub struct ProvenanceEntry {
    pub guid: String,
    pub names: Vec<String>,
}

/// Entry `e` is the one for `(guid, class index)`: the guid as decimal text
/// and the weight names of that class, sorted.
pub open spec fn entry_matches(e: ProvenanceEntry, classes: Seq<ClassProvenance>, s: (u64, int)) -> bool {
    &&& e.guid@ == decimal(s.0 as nat)
    &&& sorted_by_key(e.names@)
    &&& e.names@.to_multiset() == classes[s.1].weight_names@.to_multiset()
}

fn find_guid(p: &Vec<(u64, usize)>, guid: u64) -> (r: Option<usize>)
    ensures
        r == match guid_position(p@.map_values(|e: (u64, usize)| (e.0, e.1 as int)), guid) {
            Some(j) => Some(j as usize),
            None => None,
        },
{
    let ghost pm = p@.map_values(|e: (u64, usize)| (e.0, e.1 as int));
    let mut k = p.len();
    assert(pm.take(k as int) =~= pm);
    while k > 0
        invariant
            k <= p.len(),
            pm == p@.map_values(|e: (u64, usize)| (e.0, e.1 as int)),
            guid_position(pm, guid) == guid_position(pm.take(k as int), guid),
            forall|q: int| k <= q < p.len() ==> #[trigger] p@[q].0 != guid,
        decreases k,
    {
        assert(pm.take(k as int).drop_last() =~= pm.take(k - 1));
        if p[k - 1].0 == guid {
            return Some(k - 1);
        }
        k = k - 1;
    }
    None
}

fn clone_strings(v: &Vec<String>) -> (r: Vec<String>)
    ensures
        r@ == v@,
{
    let mut r: Vec<String> = Vec::new();
    let mut k: usize = 0;
    while k < v.len()
        invariant
            k <= v.len(),
            r@ == v@.take(k as int),
        decreases v.len() - k,
    {
        r.push(v[k].clone());
        k = k + 1;
        assert(r@ =~= v@.take(k as int));
    }
    assert(v@.take(k as int) =~= v@);
    r
}

/// A permutation of a sequence with no element twice has none twice either.
proof fn lemma_same_multiset_no_duplicates(a: Seq<String>, b: Seq<String>)
    requires
        a.to_multiset() == b.to_multiset(),
        b.no_duplicates(),
    ensures
        a.no_duplicates(),
{
    b.lemma_multiset_has_no_duplicates();
    a.lemma_multiset_has_no_duplicates_conv();
}

/// The provenance entries of an extracted model's classes: for each guid of a
/// class that holds a tensor with metadata and some weight names, those names
/// sorted (from the last such class of that guid).
pub fn provenance_entries(classes: &Vec<ClassProvenance>) -> (r: Vec<ProvenanceEntry>)
    requires
        forall|i: int| 0 <= i < classes.len() ==> (#[trigger] classes@[i]).weight_names@.no_duplicates(),
    ensures
        r.len() == provenance_spec(classes@, classes.len() as nat).len(),
        forall|q: int| 0 <= q < r.len() ==> (#[trigger] r@[q]).names@.no_duplicates(),
        forall|q: int|
            0 <= q < r.len() ==> entry_matches(
                r@[q],
                classes@,
                #[trigger] provenance_spec(classes@, classes.len() as nat)[q],
            ),
{
    let mut p: Vec<(u64, usize)> = Vec::new();
    let mut k: usize = 0;
    while k < classes.len()
        invariant
            k <= classes.len(),
            p@.map_values(|e: (u64, usize)| (e.0, e.1 as int)) == provenance_spec(classes@, k as nat),
        decreases classes.len() - k,
    {
        let ghost pm = p@.map_values(|e: (u64, usize)| (e.0, e.1 as int));
        let c = &classes[k];
        if c.is_tensor && c.weight_names.len() > 0 && c.has_meta {
            match find_guid(&p, c.guid) {
                Some(j) => {
                    proof {
                        lemma_guid_position(pm, c.guid);
                    }
                    p.set(j, (c.guid, k));
                    assert(p@.map_values(|e: (u64, usize)| (e.0, e.1 as int)) =~= pm.update(
                        j as int,
                        (c.guid, k as int),
                    ));
                },
                None => {
                    p.push((c.guid, k));
                    assert(p@.map_values(|e: (u64, usize)| (e.0, e.1 as int)) =~= pm.push(
                        (c.guid, k as int),
                    ));
                },
            }
        }
        k = k + 1;
    }
    proof {
        lemma_provenance_indices(classes@, classes.len() as nat);
    }
    let ghost spec = provenance_spec(classes@, classes.len() as nat);
    let mut r: Vec<ProvenanceEntry> = Vec::new();
    let mut q: usize = 0;
    while q < p.len()
        invariant
            q <= p.len(),
            spec == provenance_spec(classes@, classes.len() as nat),
            p@.map_values(|e: (u64, usize)| (e.0, e.1 as int)) == spec,
            forall|q2: int| 0 <= q2 < spec.len() ==> 0 <= #[trigger] spec[q2].1 < classes.len(),
            r.len() == q,
            forall|q2: int| 0 <= q2 < q ==> entry_matches(r@[q2], classes@, #[trigger] spec[q2]),
            forall|q2: int| 0 <= q2 < q ==> (#[trigger] r@[q2]).names@.no_duplicates(),
            forall|i: int| 0 <= i < classes.len() ==> (#[trigger] classes@[i]).weight_names@.no_duplicates(),
        decreases p.len() - q,
    {
        let (guid, c) = p[q];
        assert(spec[q as int] == (guid, c as int));
        let mut digits: Vec<char> = Vec::new();
        push_decimal(&mut digits, guid);
        assert(digits@ =~= decimal(guid as nat));
        let mut names = clone_strings(&classes[c].weight_names);
        sort_by_key(&mut names);
        proof {
            lemma_same_multiset_no_duplicates(names@, classes@[c as int].weight_names@);
        }
        r.push(ProvenanceEntry { guid: string_from_chars(&digits), names });
        q = q + 1;
    }
    assert(p@.len() == spec.len());
    assert forall|q2: int|
        0 <= q2 < r.len() implies entry_matches(
            r@[q2],
            classes@,
            #[trigger] provenance_spec(classes@, classes.len() as nat)[q2],
        ) by {
        assert(spec[q2] == provenance_spec(classes@, classes.len() as nat)[q2]);
    }
    r
}

} // verus!
