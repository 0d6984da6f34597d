use tamago::rules::{
    multi_rules, rule_line_passes, rule_lines, saturation_rules, split_rule, tally_parse_checks,
    trimmed_lines,
};
use tamago::text::{chars_of, is_space};

#[test]
fn rule_lines_drop_blank_lines_and_keep_the_rest_as_is() {
    let text = "(ewadd ?x ?y)=>(ewadd ?y ?x)\n\n   \n (relu ?x)=>(relu ?x) \r\n";
    let lines = rule_lines(text);
    assert_eq!(
        lines,
        vec!["(ewadd ?x ?y)=>(ewadd ?y ?x)".to_string(), " (relu ?x)=>(relu ?x) \r".to_string()]
    );
}

#[test]
fn rule_lines_of_empty_text_is_empty() {
    assert!(rule_lines("").is_empty());
    assert!(rule_lines("\n\n").is_empty());
}

#[test]
fn trimmed_lines_trim_and_skip_blank_lines() {
    let text = "  a=>b \r\n\n\t\nc => d\n";
    assert_eq!(trimmed_lines(text), vec!["a=>b".to_string(), "c => d".to_string()]);
}

#[test]
fn trimmed_lines_are_trimmed_and_non_empty() {
    let text = " \u{3000}x y\u{a0}\n \n\u{2003}z\n";
    for l in trimmed_lines(text) {
        assert!(!l.is_empty());
        assert_eq!(l.trim(), l);
    }
    assert_eq!(trimmed_lines(text), vec!["x y".to_string(), "z".to_string()]);
}

#[test]
fn white_space_matches_std() {
    for u in 0u32..0x3100 {
        if let Some(c) = char::from_u32(u) {
            assert_eq!(is_space(c), c.is_whitespace(), "{:x}", u);
        }
    }
}

#[test]
fn chars_of_keeps_every_char() {
    assert_eq!(chars_of("ab\u{e9}\u{1f600}"), vec!['a', 'b', '\u{e9}', '\u{1f600}']);
}

#[test]
fn split_rule_takes_the_first_arrow() {
    let r = split_rule("  (ewmul ?a ?b) => (ewmul ?b ?a) ");
    assert_eq!(r.lhs, "(ewmul ?a ?b)");
    assert_eq!(r.rhs, Some("(ewmul ?b ?a)".to_string()));
    let r = split_rule("a=>b=>c");
    assert_eq!(r.lhs, "a");
    assert_eq!(r.rhs, Some("b=>c".to_string()));
}

#[test]
fn split_rule_without_arrow_has_no_right_side() {
    let r = split_rule(" (relu ?x) ");
    assert_eq!(r.lhs, "(relu ?x)");
    assert_eq!(r.rhs, None);
    let r = split_rule("a=");
    assert_eq!(r.lhs, "a=");
    assert_eq!(r.rhs, None);
}

#[test]
fn split_rule_with_empty_right_side() {
    let r = split_rule("x=>");
    assert_eq!(r.lhs, "x");
    assert_eq!(r.rhs, Some(String::new()));
}

#[test]
fn saturation_rules_append_predefined() {
    let pre = vec!["p1".to_string(), "p2".to_string()];
    let r = saturation_rules("a\n\nb\n", &pre);
    assert_eq!(r, vec!["a", "b", "p1", "p2"]);
}

#[test]
fn multi_rules_mark_learned_rules_symmetric() {
    let pre = vec!["m1".to_string()];
    let r = multi_rules(Some("x\ny\n"), &pre);
    let got: Vec<(String, bool)> = r.into_iter().map(|m| (m.text, m.symmetric)).collect();
    assert_eq!(
        got,
        vec![("x".to_string(), true), ("y".to_string(), true), ("m1".to_string(), false)]
    );
    let r = multi_rules(None, &pre);
    assert_eq!(r.len(), 1);
    assert!(!r[0].symmetric);
}

#[test]
fn parse_tally_counts_and_fails_iff_a_line_fails() {
    assert!(rule_line_passes(true, Some(true)));
    assert!(!rule_line_passes(true, None));
    assert!(!rule_line_passes(false, Some(true)));
    assert!(!rule_line_passes(true, Some(false)));
    let t = tally_parse_checks(&vec![(true, Some(true)), (true, None), (false, Some(true))]);
    assert_eq!((t.ok, t.fail), (1, 2));
    assert!(t.failed());
    let t = tally_parse_checks(&vec![(true, Some(true))]);
    assert_eq!((t.ok, t.fail), (1, 0));
    assert!(!t.failed());
}
