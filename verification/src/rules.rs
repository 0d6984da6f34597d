use vstd::prelude::*;
use crate::text::{
    is_blank, trim, split, views, chars_of, string_from_chars, sub_chars, trim_range, split_ranges, ranges_match,
    lemma_split_nonempty,
};

verus! {

pub open spec fn not_blank(l: Seq<char>) -> bool {
    !is_blank(l)
}

pub open spec fn not_empty(l: Seq<char>) -> bool {
    l.len() > 0
}

/// The lines of a rule file (split at each newline) that hold more than white
/// space, as they stand: an empty line, such as the one after a final
/// newline, would not parse as a rule.
pub open spec fn rule_lines_spec(text: Seq<char>) -> Seq<Seq<char>> {
    split(text, '\n').filter(|l: Seq<char>| not_blank(l))
}

/// The lines of a rule file without their surrounding white space, blank
/// lines left out. (`str::lines` splits at `\n` and drops a `\r` before it;
/// trimming removes that `\r` anyway, and the empty piece after a final
/// newline is left out as blank, so splitting at `\n` gives the same lines.)
pub open spec fn trimmed_lines_spec(text: Seq<char>) -> Seq<Seq<char>> {
    split(text, '\n').map_values(|l: Seq<char>| trim(l)).filter(|l: Seq<char>| not_empty(l))
}

/// The non-blank lines of a rule file, untrimmed.
pub fn rule_lines(text: &str) -> (r: Vec<String>)
    ensures
        views(r@) == rule_lines_spec(text@),
{
    let v = chars_of(text);
    let ranges = split_ranges(&v, '\n');
    let ghost pieces = split(v@, '\n');
    let mut out: Vec<String> = Vec::new();
    let mut k: usize = 0;
    while k < ranges.len()
        invariant
            k <= ranges.len() == pieces.len(),
            v@ == text@,
            pieces == split(v@, '\n'),
            ranges_match(v@, ranges@, pieces),
            views(out@) == pieces.take(k as int).filter(|l: Seq<char>| not_blank(l)),
        decreases ranges.len() - k,
    {
        let (a, b) = ranges[k];
        assert(v@.subrange(a as int, b as int) == pieces[k as int]);
        let (ta, tb) = trim_range(&v, a, b);
        let ghost before = out@;
        if ta < tb {
            let s = string_from_chars(&sub_chars(&v, a, b));
            out.push(s);
            assert(views(out@) =~= views(before).push(pieces[k as int]));
        } else {
            assert(views(out@) =~= views(before));
        }
        proof {
            reveal_with_fuel(Seq::<_>::filter, 1);
            assert(pieces.take(k + 1).drop_last() =~= pieces.take(k as int));
        }
        k = k + 1;
    }
    assert(pieces.take(k as int) =~= pieces);
    out
}

/// The trimmed non-blank lines of a rule file.
pub fn trimmed_lines(text: &str) -> (r: Vec<String>)
    ensures
        views(r@) == trimmed_lines_spec(text@),
{
    let v = chars_of(text);
    let ranges = split_ranges(&v, '\n');
    let ghost pieces = split(v@, '\n');
    let ghost trimmed = pieces.map_values(|l: Seq<char>| trim(l));
    let mut out: Vec<String> = Vec::new();
    let mut k: usize = 0;
    while k < ranges.len()
        invariant
            k <= ranges.len() == pieces.len(),
            v@ == text@,
            pieces == split(v@, '\n'),
            trimmed == pieces.map_values(|l: Seq<char>| trim(l)),
            ranges_match(v@, ranges@, pieces),
            views(out@) == trimmed.take(k as int).filter(|l: Seq<char>| not_empty(l)),
        decreases ranges.len() - k,
    {
        let (a, b) = ranges[k];
        assert(v@.subrange(a as int, b as int) == pieces[k as int]);
        let (ta, tb) = trim_range(&v, a, b);
        assert(v@.subrange(ta as int, tb as int) == trimmed[k as int]);
        let ghost before = out@;
        if ta < tb {
            let s = string_from_chars(&sub_chars(&v, ta, tb));
            out.push(s);
            assert(views(out@) =~= views(before).push(trimmed[k as int]));
        } else {
            assert(views(out@) =~= views(before));
        }
        proof {
            reveal_with_fuel(Seq::<_>::filter, 1);
            assert(trimmed.take(k + 1).drop_last() =~= trimmed.take(k as int));
        }
        k = k + 1;
    }
    assert(trimmed.take(k as int) =~= trimmed);
    out
}

/// An occurrence of `=>` at position `i`.
pub open spec fn arrow_at(s: Seq<char>, i: int) -> bool {
    0 <= i && i + 1 < s.len() && s[i] == '=' && s[i + 1] == '>'
}

/// The first occurrence of `=>` at or after position `i`.
pub open spec fn first_arrow_from(s: Seq<char>, i: nat) -> Option<nat>
    decreases s.len() - i,
{
    if i + 1 >= s.len() {
        None
    } else if arrow_at(s, i as int) {
        Some(i)
    } else {
        first_arrow_from(s, i + 1)
    }
}

/// The two sides of a rule line, each trimmed: what comes before the first
/// `=>` and what comes after it, or the whole line and `None` when it holds
/// no `=>` (as `splitn(2, "=>")` parts it).
pub struct RuleSides {
    pub lhs: String,
    pub rhs: Option<String>,
}

pub open spec fn lhs_spec(s: Seq<char>) -> Seq<char> {
    match first_arrow_from(s, 0) {
        Some(p) => trim(s.take(p as int)),
        None => trim(s),
    }
}

pub open spec fn rhs_spec(s: Seq<char>) -> Option<Seq<char>> {
    match first_arrow_from(s, 0) {
        Some(p) => Some(trim(s.skip(p as int + 2))),
        None => None,
    }
}

pub fn split_rule(line: &str) -> (r: RuleSides)
    ensures
        r.lhs@ == lhs_spec(line@),
        match r.rhs {
            Some(x) => rhs_spec(line@) == Some(x@),
            None => rhs_spec(line@) is None,
        },
{
    let v = chars_of(line);
    let n = v.len();
    let mut i: usize = 0;
    while n >= 2 && i < n - 1 && !(v[i] == '=' && v[i + 1] == '>')
        invariant
            i <= n == v.len(),
            v@ == line@,
            first_arrow_from(v@, 0) == first_arrow_from(v@, i as nat),
        decreases n - i,
    {
        i = i + 1;
    }
    if n >= 2 && i < n - 1 {
        assert(first_arrow_from(v@, i as nat) == Some(i as nat));
        let (la, lb) = trim_range(&v, 0, i);
        let (ra, rb) = trim_range(&v, i + 2, n);
        assert(v@.subrange(0, i as int) =~= v@.take(i as int));
        assert(v@.subrange(i + 2, n as int) =~= v@.skip(i + 2));
        let lhs = string_from_chars(&sub_chars(&v, la, lb));
        let rhs = string_from_chars(&sub_chars(&v, ra, rb));
        RuleSides { lhs, rhs: Some(rhs) }
    } else {
        assert(first_arrow_from(v@, i as nat) is None);
        let (la, lb) = trim_range(&v, 0, n);
        assert(v@.subrange(0, n as int) =~= v@);
        let lhs = string_from_chars(&sub_chars(&v, la, lb));
        RuleSides { lhs, rhs: None }
    }
}

} // verus!

verus! {

/// The rules of a saturation run: the non-blank lines of the learned rule
/// file, then the predefined rules.
pub fn saturation_rules(learned: &str, predefined: &Vec<String>) -> (r: Vec<String>)
    ensures
        views(r@) == rule_lines_spec(learned@) + views(predefined@),
{
    let mut r = rule_lines(learned);
    let ghost first = views(r@);
    let mut k: usize = 0;
    while k < predefined.len()
        invariant
            k <= predefined.len(),
            views(r@) == first + views(predefined@).take(k as int),
        decreases predefined.len() - k,
    {
        let ghost prev = r@;
        let c = predefined[k].clone();
        assert(c@ == predefined@[k as int]@);
        r.push(c);
        assert(views(r@) =~= views(prev).push(c@));
        k = k + 1;
        assert(views(r@) =~= first + views(predefined@).take(k as int));
    }
    assert(views(predefined@).take(k as int) =~= views(predefined@));
    r
}

/// A multi-pattern rule and whether it holds both ways.
pub struct MultiRule {
    pub text: String,
    pub symmetric: bool,
}

pub open spec fn multi_views(v: Seq<MultiRule>) -> Seq<(Seq<char>, bool)> {
    v.map_values(|m: MultiRule| (m.text@, m.symmetric))
}

pub open spec fn flagged(v: Seq<Seq<char>>, symmetric: bool) -> Seq<(Seq<char>, bool)> {
    v.map_values(|l: Seq<char>| (l, symmetric))
}

/// The multi-pattern rules of a run: the non-blank lines of the learned
/// file, if there is one, which hold both ways; then the predefined ones,
/// which do not.
pub fn multi_rules(learned: Option<&str>, predefined: &Vec<String>) -> (r: Vec<MultiRule>)
    ensures
        multi_views(r@) == match learned {
            Some(t) => flagged(rule_lines_spec(t@), true),
            None => Seq::empty(),
        } + flagged(views(predefined@), false),
{
    let mut r: Vec<MultiRule> = Vec::new();
    let ghost first: Seq<(Seq<char>, bool)> = Seq::empty();
    match learned {
        Some(t) => {
            let lines = rule_lines(t);
            let mut k: usize = 0;
            while k < lines.len()
                invariant
                    k <= lines.len(),
                    multi_views(r@) == flagged(views(lines@), true).take(k as int),
                decreases lines.len() - k,
            {
                let ghost prev = r@;
                let c = lines[k].clone();
                assert(c@ == lines@[k as int]@);
                r.push(MultiRule { text: c, symmetric: true });
                assert(multi_views(r@) =~= multi_views(prev).push((c@, true)));
                k = k + 1;
                assert(multi_views(r@) =~= flagged(views(lines@), true).take(k as int));
            }
            assert(flagged(views(lines@), true).take(k as int) =~= flagged(views(lines@), true));
            proof {
                first = flagged(rule_lines_spec(t@), true);
            }
        },
        None => {},
    }
    assert(multi_views(r@) == first);
    let mut k: usize = 0;
    while k < predefined.len()
        invariant
            k <= predefined.len(),
            multi_views(r@) == first + flagged(views(predefined@), false).take(k as int),
        decreases predefined.len() - k,
    {
        let ghost prev = r@;
        let c = predefined[k].clone();
        assert(c@ == predefined@[k as int]@);
        r.push(MultiRule { text: c, symmetric: false });
        assert(multi_views(r@) =~= multi_views(prev).push((c@, false)));
        k = k + 1;
        assert(multi_views(r@) =~= first + flagged(views(predefined@), false).take(k as int));
    }
    assert(flagged(views(predefined@), false).take(k as int) =~= flagged(views(predefined@), false));
    r
}

/// A line passes the parse check when both of its sides parse: its left side
/// and a right side that it has.
pub open spec fn line_passes(lhs_parses: bool, rhs_parses: Option<bool>) -> bool {
    lhs_parses && rhs_parses == Some(true)
}

pub open spec fn count_passing(v: Seq<(bool, Option<bool>)>) -> nat
    decreases v.len(),
{
    if v.len() == 0 {
        0
    } else {
        count_passing(v.drop_last()) + if line_passes(v.last().0, v.last().1) {
            1nat
        } else {
            0nat
        }
    }
}

/// The outcome of a parse check over the lines of a rule file.
pub struct ParseTally {
    pub ok: usize,
    pub fail: usize,
}

impl ParseTally {
    /// The check fails (a non-zero exit) iff some line failed.
    pub fn failed(&self) -> (r: bool)
        ensures
            r == (self.fail > 0),
    {
        self.fail > 0
    }
}

/// Whether one line passes, given whether its left side parses and, if it
/// has a right side, whether that parses.
pub fn rule_line_passes(lhs_parses: bool, rhs_parses: Option<bool>) -> (r: bool)
    ensures
        r == line_passes(lhs_parses, rhs_parses),
{
    lhs_parses && match rhs_parses {
        Some(b) => b,
        None => false,
    }
}

/// Counts the lines that pass and those that fail.
pub fn tally_parse_checks(results: &Vec<(bool, Option<bool>)>) -> (r: ParseTally)
    ensures
        r.ok == count_passing(results@),
        r.ok + r.fail == results.len(),
{
    let mut ok: usize = 0;
    let mut fail: usize = 0;
    let mut k: usize = 0;
    while k < results.len()
        invariant
            k <= results.len(),
            ok == count_passing(results@.take(k as int)),
            ok + fail == k,
        decreases results.len() - k,
    {
        assert(results@.take(k + 1).drop_last() =~= results@.take(k as int));
        let (l, rh) = results[k];
        if rule_line_passes(l, rh) {
            ok = ok + 1;
        } else {
            fail = fail + 1;
        }
        k = k + 1;
    }
    assert(results@.take(k as int) =~= results@);
    ParseTally { ok, fail }
}

} // verus!
