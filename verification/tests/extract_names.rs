use tamago::expr::{Node, Op};
use tamago::extract::{
    add_used, arch_targets, ilp_args, mark_covered, pick_nodes, rank_rule_families, sample_seed,
    IlpOptions,
};
use tamago::names::{
    model_file_name, provenance_entries, provenance_file_name, weight_name_key, ClassProvenance,
};
use tamago::mode::{optimize_mode, ModeFlags, OptimizeMode};
use tamago::prove::{trip, unproven_positions, RulePair, TripNext};

fn var(name: &str) -> Node {
    Node { op: Op::Var, children: vec![], label: name.chars().collect() }
}

#[test]
fn ilp_args_follow_the_options() {
    let none = IlpOptions {
        order_var_int: false,
        class_constraint: false,
        no_order: false,
        initialize: false,
        time_limit_sec: None,
        num_threads: None,
    };
    assert_eq!(ilp_args(&none), vec!["extractor/extract.py"]);
    let all = IlpOptions {
        order_var_int: true,
        class_constraint: true,
        no_order: true,
        initialize: true,
        time_limit_sec: Some("60".to_string()),
        num_threads: Some("8".to_string()),
    };
    assert_eq!(
        ilp_args(&all),
        vec![
            "extractor/extract.py",
            "--order_var_int",
            "--eclass_constraint",
            "--no_order",
            "--initialize",
            "--time_lim_sec",
            "60",
            "--num_thread",
            "8",
        ]
    );
}

#[test]
fn pick_nodes_keeps_the_first_node_of_a_class() {
    let picks = pick_nodes(&vec![1, 0, 1, 1], &vec![0, 1, 1, 0], &vec![10, 20]);
    assert_eq!(picks.picked, vec![(10, 0), (20, 2)]);
    assert_eq!(picks.duplicates, vec![(10, 0, 3)]);
}

#[test]
fn rank_rule_families_by_count_then_rule() {
    assert_eq!(rank_rule_families(&vec![5, 3, 5, 7, 3, 5]), vec![(5, 3), (3, 2), (7, 1)]);
    assert_eq!(rank_rule_families(&vec![2, 1, 2, 1]), vec![(1, 2), (2, 2)]);
    assert!(rank_rule_families(&vec![]).is_empty());
}

#[test]
fn rank_counts_sum_to_the_witnesses() {
    let w = vec![4, 4, 9, 1, 9, 4, 0];
    let r = rank_rule_families(&w);
    assert_eq!(r.iter().map(|e| e.1).sum::<usize>(), w.len());
}

#[test]
fn arch_targets_start_with_the_baseline() {
    let ranked = vec![(5, 3), (3, 2), (7, 1)];
    assert_eq!(arch_targets(&ranked, 3), vec![None, Some(5), Some(3)]);
    assert_eq!(arch_targets(&ranked, 10), vec![None, Some(5), Some(3), Some(7)]);
    assert!(arch_targets(&ranked, 0).is_empty());
}

#[test]
fn mark_covered_only_for_fused_targets() {
    let mut covered = vec![1];
    mark_covered(&mut covered, Some(2), false);
    assert_eq!(covered, vec![1]);
    mark_covered(&mut covered, None, true);
    assert_eq!(covered, vec![1]);
    mark_covered(&mut covered, Some(2), true);
    mark_covered(&mut covered, Some(1), true);
    assert_eq!(covered, vec![1, 2]);
}

#[test]
fn add_used_counts_new_nodes() {
    let mut used = vec![var("a")];
    let e = vec![var("a"), var("b"), Node { op: Op::Relu, children: vec![1], label: vec![] }, var("b")];
    assert_eq!(add_used(&mut used, &e), 2);
    assert_eq!(used.len(), 3);
    assert_eq!(add_used(&mut used, &e), 0);
}

#[test]
fn sample_seed_adds_the_index() {
    assert_eq!(sample_seed(10, 3), 13);
    assert_eq!(sample_seed(0, 0), 0);
}

#[test]
fn weight_name_key_sorts_names() {
    assert_eq!(weight_name_key("w_2,w_10,w_1"), vec!["w_1", "w_10", "w_2"]);
    assert_eq!(weight_name_key("b,a"), weight_name_key("a,b"));
    assert_eq!(weight_name_key(""), vec![""]);
    assert_eq!(weight_name_key("\u{e9},z"), vec!["z", "\u{e9}"]);
}

#[test]
fn weight_name_key_orders_as_string_does() {
    let key = "beta,Alpha,alpha,\u{3b1},a1,a,";
    let mut expected: Vec<String> = key.split(',').map(|s| s.to_string()).collect();
    expected.sort();
    assert_eq!(weight_name_key(key), expected);
}

#[test]
fn model_file_names() {
    assert_eq!(model_file_name("out", "random", Some(3)), "out_random3.model");
    assert_eq!(model_file_name("out", "arch", Some(120)), "out_arch120.model");
    assert_eq!(model_file_name("x", "verif", None), "x_verif.model");
    assert_eq!(model_file_name("x", "start", None), "x_start.model");
    assert_eq!(provenance_file_name("m.model"), "m.model.weight_names.json");
}

fn class(is_tensor: bool, has_meta: bool, guid: u64, names: &[&str]) -> ClassProvenance {
    ClassProvenance {
        is_tensor,
        has_meta,
        guid,
        weight_names: names.iter().map(|s| s.to_string()).collect(),
    }
}

#[test]
fn provenance_entries_keep_the_last_class_of_a_guid() {
    let classes = vec![
        class(true, true, 7, &["b", "a"]),
        class(false, true, 8, &["x"]),
        class(true, false, 9, &["x"]),
        class(true, true, 3, &["z", "y"]),
        class(true, true, 7, &["c"]),
        class(true, true, 12, &[]),
        class(true, true, 1234567, &["w"]),
    ];
    let got: Vec<(String, Vec<String>)> =
        provenance_entries(&classes).into_iter().map(|e| (e.guid, e.names)).collect();
    assert_eq!(
        got,
        vec![
            ("7".to_string(), vec!["c".to_string()]),
            ("3".to_string(), vec!["y".to_string(), "z".to_string()]),
            ("1234567".to_string(), vec!["w".to_string()]),
        ]
    );
}

#[test]
fn provenance_guids_are_distinct_texts() {
    let classes: Vec<ClassProvenance> = (0..30).map(|g| class(true, true, g * 7, &["w"])).collect();
    let e = provenance_entries(&classes);
    for i in 0..e.len() {
        for j in 0..i {
            assert_ne!(e[i].guid, e[j].guid);
        }
    }
    assert_eq!(e[0].guid, "0");
}

#[test]
fn trips_stop_when_done_or_stuck() {
    let t = trip(5, 3);
    assert_eq!(t.proved, 2);
    assert!(matches!(t.next, TripNext::Continue));
    assert!(matches!(trip(3, 0).next, TripNext::Finished));
    let t = trip(2, 2);
    assert_eq!(t.proved, 0);
    assert!(matches!(t.next, TripNext::Stuck));
}

fn pair(l: &str, r: &str) -> RulePair {
    RulePair { lhs: vec![var(l)], rhs: vec![var(r)] }
}

#[test]
fn unproven_rules_are_found_by_position() {
    let initial = vec![pair("a", "b"), pair("c", "d"), pair("a", "b")];
    let remaining = vec![pair("c", "d"), pair("a", "b"), pair("x", "y")];
    assert_eq!(unproven_positions(&initial, &remaining), vec![Some(1), Some(0), None]);
}

fn flags(s: bool, q: bool, r: bool, d: bool, a: bool, v: bool) -> ModeFlags {
    ModeFlags {
        saturation_only: s,
        query_chain: q,
        n_random: r,
        n_diverse: d,
        n_arch_diverse: a,
        verif_cost: v,
    }
}

#[test]
fn optimize_mode_takes_the_first_option_given() {
    assert_eq!(optimize_mode(&flags(false, false, false, false, false, false)), OptimizeMode::Extract);
    assert_eq!(optimize_mode(&flags(true, true, true, true, true, true)), OptimizeMode::SaturationOnly);
    assert_eq!(optimize_mode(&flags(false, true, true, false, false, true)), OptimizeMode::QueryChain);
    assert_eq!(optimize_mode(&flags(false, false, true, true, false, false)), OptimizeMode::Random);
    assert_eq!(optimize_mode(&flags(false, false, false, true, true, true)), OptimizeMode::Diverse);
    assert_eq!(optimize_mode(&flags(false, false, false, false, true, true)), OptimizeMode::ArchDiverse);
    assert_eq!(optimize_mode(&flags(false, false, false, false, false, true)), OptimizeMode::Verif);
}
