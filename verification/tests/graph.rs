use tamago::chain::{natural_chain, query_chain, subset_closure, ChainOutcome};
use tamago::egraph::{EClass, EGraph};
use tamago::expr::{fusion_counts, min_max_groups, Node, Op};

fn var(name: &str) -> Node {
    Node { op: Op::Var, children: vec![], label: name.chars().collect() }
}

fn op(op: Op, children: Vec<usize>) -> Node {
    Node { op, children, label: vec![] }
}

/// `min(max(max(a, b), c), max(d, e))`, its root last.
fn start_graph() -> Vec<Node> {
    vec![
        var("a"),
        var("b"),
        var("c"),
        op(Op::Ewmax, vec![0, 1]),
        op(Op::Ewmax, vec![3, 2]),
        var("d"),
        var("e"),
        op(Op::Ewmax, vec![5, 6]),
        op(Op::Ewmin, vec![4, 7]),
    ]
}

/// A saturated e-graph of the start graph, with the extra chain
/// `max(max(b, c), a)` as classes 9 and 10.
fn saturated() -> EGraph {
    let mut classes: Vec<EClass> = Vec::new();
    for (i, n) in start_graph().into_iter().enumerate() {
        classes.push(EClass { id: i, nodes: vec![n] });
    }
    classes.push(EClass { id: 9, nodes: vec![op(Op::Ewmax, vec![1, 2])] });
    classes.push(EClass { id: 10, nodes: vec![op(Op::Ewmax, vec![9, 0])] });
    EGraph { classes, canon: (0..11).collect(), blacklist: vec![] }
}

#[test]
fn groups_of_a_min_of_max_graph() {
    let (roots, groups) = min_max_groups(&start_graph());
    assert_eq!(roots, vec![4, 7]);
    assert_eq!(groups, vec![vec![0, 1, 2], vec![5, 6]]);
}

#[test]
fn a_graph_without_min_is_one_group() {
    let g = vec![var("a"), var("b"), op(Op::Ewmax, vec![0, 1])];
    let (roots, groups) = min_max_groups(&g);
    assert_eq!(roots, vec![2]);
    assert_eq!(groups, vec![vec![0, 1]]);
}

#[test]
fn fusion_counts_count_concat_and_splits() {
    let e = vec![
        var("a"),
        op(Op::Concat, vec![0, 0, 0, 0]),
        op(Op::Split, vec![1, 0]),
        op(Op::Split0, vec![2]),
        op(Op::Split1, vec![2]),
        op(Op::Other(3), vec![0]),
    ];
    assert_eq!(fusion_counts(&e), (1, 3));
    assert_eq!(fusion_counts(&vec![var("a")]), (0, 0));
}

#[test]
fn lookup_finds_class_after_canonicalizing() {
    let mut g = saturated();
    assert_eq!(g.lookup(&op(Op::Ewmax, vec![0, 1])), Some(3));
    assert_eq!(g.lookup(&op(Op::Ewmax, vec![1, 0])), None);
    // 11 is merged into 0.
    g.canon.push(0);
    assert_eq!(g.lookup(&op(Op::Ewmax, vec![11, 1])), Some(3));
    assert_eq!(g.find(11), 0);
}

#[test]
fn stats_count_nodes_classes_and_edges() {
    let s = saturated().stats();
    assert_eq!((s.class_nodes, s.classes, s.edges), (11, 11, 12));
}

#[test]
fn noop_root_tells_whether_sides_merged() {
    let g = EGraph {
        classes: vec![
            EClass { id: 0, nodes: vec![var("x")] },
            EClass { id: 1, nodes: vec![var("y")] },
            EClass { id: 2, nodes: vec![op(Op::Noop, vec![0, 1])] },
        ],
        canon: vec![0, 1, 2],
        blacklist: vec![],
    };
    assert_eq!(g.root_sides_merged(2), Some(false));
    assert_eq!(g.root_sides_merged(0), None);
    let merged = EGraph {
        classes: vec![
            EClass { id: 0, nodes: vec![var("x"), var("y")] },
            EClass { id: 2, nodes: vec![op(Op::Noop, vec![0, 0])] },
        ],
        canon: vec![0, 0, 2],
        blacklist: vec![],
    };
    assert_eq!(merged.root_sides_merged(2), Some(true));
}

#[test]
fn query_chain_reports_each_group() {
    let g = saturated();
    let rep = query_chain(&g, &start_graph()).expect("start graph is in the e-graph");
    assert_eq!(rep.groups.len(), 2);
    assert_eq!(rep.groups[0].leaves, vec![0, 1, 2]);
    assert!(matches!(rep.groups[0].chain, ChainOutcome::Present { class: 4, blacklisted: false }));
    let mut c0 = rep.groups[0].closure.clone().unwrap();
    c0.sort();
    assert_eq!(c0, vec![4, 10]);
    assert!(matches!(rep.groups[1].chain, ChainOutcome::Present { class: 7, blacklisted: false }));
    assert_eq!(rep.groups[1].closure.clone(), Some(vec![7]));
    assert_eq!(rep.outer, Some(Some(true)));
}

#[test]
fn query_chain_fails_when_start_graph_is_absent() {
    let mut g = saturated();
    g.classes.remove(8);
    assert!(query_chain(&g, &start_graph()).is_none());
}

#[test]
fn outer_min_found_in_either_order() {
    let mut g = saturated();
    g.classes[8].nodes = vec![op(Op::Ewmin, vec![7, 4])];
    // The start graph's own root is then absent, so ask through the chains.
    assert!(query_chain(&g, &start_graph()).is_none());
    let start_swapped = {
        let mut s = start_graph();
        s[8] = op(Op::Ewmin, vec![7, 4]);
        s
    };
    let rep = query_chain(&g, &start_swapped).unwrap();
    // Groups come in ascending order of their roots: 4 then 7.
    assert_eq!(rep.outer, Some(Some(true)));
}

#[test]
fn natural_chain_breaks_where_the_graph_lacks_a_node() {
    let g = saturated();
    match natural_chain(&g, &vec![0, 2, 1]) {
        ChainOutcome::Breaks { depth } => assert_eq!(depth, 1),
        _ => panic!("expected a break"),
    }
    match natural_chain(&g, &vec![0]) {
        ChainOutcome::Present { class, blacklisted } => {
            assert_eq!(class, 0);
            assert!(!blacklisted);
        },
        _ => panic!("a single leaf is its own chain"),
    }
}

#[test]
fn natural_chain_reports_blacklisted_nodes() {
    let mut g = saturated();
    g.blacklist.push(op(Op::Ewmax, vec![3, 2]));
    assert!(matches!(
        natural_chain(&g, &vec![0, 1, 2]),
        ChainOutcome::Present { class: 4, blacklisted: true }
    ));
}

#[test]
fn natural_chain_is_in_the_closure() {
    let g = saturated();
    for leaves in [vec![0, 1, 2], vec![1, 2, 0], vec![5, 6], vec![3]] {
        if let ChainOutcome::Present { class, .. } = natural_chain(&g, &leaves) {
            assert!(subset_closure(&g, &leaves).unwrap().contains(&class));
        }
    }
}

#[test]
fn closure_is_order_independent() {
    let g = saturated();
    let mut a = subset_closure(&g, &vec![0, 1, 2]).unwrap();
    let mut b = subset_closure(&g, &vec![2, 0, 1]).unwrap();
    a.sort();
    b.sort();
    assert_eq!(a, b);
}

#[test]
fn closure_skips_empty_and_large_groups() {
    let g = saturated();
    assert!(subset_closure(&g, &vec![]).is_none());
    assert!(subset_closure(&g, &vec![0; 17]).is_none());
    assert_eq!(subset_closure(&g, &vec![0, 2]), Some(vec![]));
}
