use tamago::expr::{Node, Op};
use tamago::ground::{ground_side, PatNode, VarBinding};
use tamago::prune::{Pruner, RulePatterns};

fn pvar(name: &str) -> PatNode {
    PatNode::Var(name.chars().collect())
}

fn penode(op: Op, children: Vec<usize>) -> PatNode {
    PatNode::ENode(Node { op, children, label: vec![] })
}

fn label(n: &Node) -> String {
    n.label.iter().collect()
}

#[test]
fn ground_side_makes_one_input_per_variable() {
    let ast = vec![pvar("?x"), pvar("?x"), penode(Op::Ewadd, vec![0, 1])];
    let mut expr: Vec<Node> = Vec::new();
    let mut vars: Vec<VarBinding> = Vec::new();
    let r = ground_side(&ast, &mut expr, &mut vars, 4);
    assert_eq!(r, Some(2));
    assert_eq!(expr.len(), 3);
    assert_eq!(expr[0].op, Op::Var);
    assert_eq!(label(&expr[0]), "rv0@4_4");
    assert_eq!(expr[1].op, Op::Input);
    assert_eq!(expr[1].children, vec![0]);
    assert_eq!(expr[2].op, Op::Ewadd);
    assert_eq!(expr[2].children, vec![1, 1]);
    assert_eq!(vars.len(), 1);
    assert_eq!(vars[0].id, 1);
}

#[test]
fn ground_side_shares_variables_between_sides() {
    let lhs = vec![pvar("?x"), pvar("?y"), penode(Op::Ewmax, vec![0, 1])];
    let rhs = vec![pvar("?y"), pvar("?x"), penode(Op::Ewmax, vec![0, 1])];
    let mut expr: Vec<Node> = Vec::new();
    let mut vars: Vec<VarBinding> = Vec::new();
    let l = ground_side(&lhs, &mut expr, &mut vars, 4).unwrap();
    let r = ground_side(&rhs, &mut expr, &mut vars, 4).unwrap();
    assert_eq!(l, 4);
    assert_eq!(r, 5);
    assert_eq!(expr.len(), 6);
    assert_eq!(label(&expr[2]), "rv1@4_4");
    assert_eq!(expr[5].children, vec![3, 1]);
}

#[test]
fn ground_side_names_negative_shapes() {
    let ast = vec![pvar("?a"), penode(Op::Relu, vec![0])];
    let mut expr: Vec<Node> = Vec::new();
    let mut vars: Vec<VarBinding> = Vec::new();
    assert_eq!(ground_side(&ast, &mut expr, &mut vars, -3), Some(2));
    assert_eq!(label(&expr[0]), "rv0@-3_-3");
}

#[test]
fn ground_side_refuses_other_operators() {
    let ast = vec![pvar("?a"), penode(Op::Other(7), vec![0])];
    let mut expr: Vec<Node> = Vec::new();
    let mut vars: Vec<VarBinding> = Vec::new();
    assert_eq!(ground_side(&ast, &mut expr, &mut vars, 4), None);
    // What was grounded before the refused node stays.
    assert_eq!(expr.len(), 2);
    assert_eq!(vars.len(), 1);
}

fn rule(lhs: Vec<PatNode>, rhs: Vec<PatNode>) -> Option<RulePatterns> {
    Some(RulePatterns { lhs, rhs })
}

#[test]
fn pruner_checks_largest_rules_first_and_only_removes() {
    let rules = vec![
        rule(
            vec![pvar("?x"), pvar("?y"), penode(Op::Ewadd, vec![0, 1])],
            vec![pvar("?y"), pvar("?x"), penode(Op::Ewadd, vec![0, 1])],
        ),
        None,
        rule(vec![pvar("?x"), penode(Op::Relu, vec![0])], vec![pvar("?x"), penode(Op::Relu, vec![0])]),
        rule(
            vec![pvar("?a"), pvar("?b"), pvar("?c"), penode(Op::Other(1), vec![0, 1, 2])],
            vec![pvar("?a")],
        ),
    ];
    let mut p = Pruner::new(rules, 4);
    let order: Vec<usize> = p.order.iter().map(|e| e.1).collect();
    assert_eq!(order, vec![3, 0, 2, 1]);

    let c = p.next_check().unwrap();
    assert_eq!(c.rule, 0);
    assert_eq!(c.others, vec![1, 2, 3]);
    assert_eq!(c.expr.len(), 7);
    assert_eq!(c.expr[6].op, Op::Noop);
    assert_eq!(c.expr[6].children, vec![4, 5]);
    p.record(true);
    assert!(!p.kept[0]);

    let c = p.next_check().unwrap();
    assert_eq!(c.rule, 2);
    assert_eq!(c.others, vec![1, 3]);
    p.record(false);

    assert!(p.next_check().is_none());
    assert_eq!(p.kept_rules(), vec![1, 2, 3]);
    assert_eq!(p.pruned, 1);
    assert_eq!(p.groundable, 2);
}

#[test]
fn pruner_over_no_rules_has_nothing_to_check() {
    let mut p = Pruner::new(vec![], 4);
    assert!(p.next_check().is_none());
    assert!(p.kept_rules().is_empty());
}
