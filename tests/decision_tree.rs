use ante_hir::decision_tree::{build_decision_tree, compile_match, Column, Row, Test};
use ante_hir::hir::{Ast, DecisionTree, DefinitionId, Literal};

fn row(tests: &[(usize, u32)], branch: usize) -> Row {
    Row { tests: tests.iter().map(|&(column, value)| Test { column, value }).collect(), branch }
}

fn switch_variable(tree: &DecisionTree) -> Option<DefinitionId> {
    match tree {
        DecisionTree::Switch { int_to_switch_on, .. } => match int_to_switch_on.as_ref() {
            Ast::Variable(v) => {
                assert!(v.definition.is_none());
                Some(v.definition_id)
            }
            _ => None,
        },
        _ => None,
    }
}

/// Walks the tree with the given value for each variable.
fn run(tree: &DecisionTree, values: &[(usize, u32)]) -> Option<usize> {
    match tree {
        DecisionTree::Leaf(i) => Some(*i),
        DecisionTree::Definition(_, rest) => run(rest, values),
        DecisionTree::Switch { cases, else_case, .. } => {
            let id = switch_variable(tree)?;
            let x = values.iter().find(|(v, _)| DefinitionId(*v) == id)?.1;
            match cases.iter().find(|(value, _)| *value == x) {
                Some((_, sub)) => run(sub, values),
                None => run(else_case.as_ref()?, values),
            }
        }
    }
}

fn first_match(rows: &[Row], columns: &[Column], values: &[(usize, u32)]) -> Option<usize> {
    let value_of = |c: usize| values.iter().find(|(v, _)| DefinitionId(*v) == columns[c].variable).unwrap().1;
    rows.iter().find(|r| r.tests.iter().all(|t| value_of(t.column) == t.value)).map(|r| r.branch)
}

fn option_columns() -> Vec<Column> {
    vec![
        Column { variable: DefinitionId(0), arity: Some(2) },
        Column { variable: DefinitionId(1), arity: Some(2) },
    ]
}

// match (a, b) | (None, _) -> 0 | (_, None) -> 0 | (Some x, Some y) -> 1
// with tag 0 for None and tag 1 for Some.
fn option_pair_rows() -> Vec<Row> {
    vec![row(&[(0, 0)], 0), row(&[(1, 0)], 0), row(&[(0, 1), (1, 1)], 1)]
}

#[test]
fn option_pair_shares_leaf_zero() {
    let columns = option_columns();
    let rows = option_pair_rows();
    let tree = build_decision_tree(&columns, &rows).unwrap();
    assert_eq!(switch_variable(&tree), Some(DefinitionId(0)));
    match &tree {
        DecisionTree::Switch { cases, else_case, .. } => {
            assert!(else_case.is_none());
            assert_eq!(cases.len(), 2);
            assert_eq!(cases[0].0, 0);
            assert!(matches!(cases[0].1, DecisionTree::Leaf(0)));
            assert_eq!(cases[1].0, 1);
            let inner = &cases[1].1;
            assert_eq!(switch_variable(inner), Some(DefinitionId(1)));
            match inner {
                DecisionTree::Switch { cases, else_case, .. } => {
                    assert!(else_case.is_none());
                    assert_eq!(cases.len(), 2);
                    assert_eq!(cases[0].0, 0);
                    assert!(matches!(cases[0].1, DecisionTree::Leaf(0)));
                    assert_eq!(cases[1].0, 1);
                    assert!(matches!(cases[1].1, DecisionTree::Leaf(1)));
                }
                _ => panic!("expected a switch on b"),
            }
        }
        _ => panic!("expected a switch on a"),
    }
}

#[test]
fn option_pair_agrees_with_first_match() {
    let columns = option_columns();
    let rows = option_pair_rows();
    let tree = build_decision_tree(&columns, &rows).unwrap();
    for a in 0..2u32 {
        for b in 0..2u32 {
            let values = [(0, a), (1, b)];
            assert_eq!(run(&tree, &values), first_match(&rows, &columns, &values));
        }
    }
    assert_eq!(run(&tree, &[(0, 1), (1, 1)]), Some(1));
    assert_eq!(run(&tree, &[(0, 0), (1, 1)]), Some(0));
    assert_eq!(run(&tree, &[(0, 1), (1, 0)]), Some(0));
}

#[test]
fn no_rows_give_no_tree() {
    assert!(build_decision_tree(&option_columns(), &Vec::new()).is_none());
}

#[test]
fn unconditional_first_row_wins() {
    let rows = vec![row(&[], 3), row(&[(0, 1)], 0)];
    let tree = build_decision_tree(&option_columns(), &rows).unwrap();
    assert!(matches!(tree, DecisionTree::Leaf(3)));
}

#[test]
fn integer_column_keeps_else_case() {
    // match n | 5 -> 0 | 7 -> 1 | _ -> 2
    let columns = vec![Column { variable: DefinitionId(4), arity: None }];
    let rows = vec![row(&[(0, 5)], 0), row(&[(0, 7)], 1), row(&[], 2)];
    let tree = build_decision_tree(&columns, &rows).unwrap();
    match &tree {
        DecisionTree::Switch { cases, else_case, .. } => {
            assert_eq!(cases.iter().map(|c| c.0).collect::<Vec<_>>(), vec![5, 7]);
            assert!(matches!(else_case.as_deref(), Some(DecisionTree::Leaf(2))));
        }
        _ => panic!("expected a switch"),
    }
    assert_eq!(run(&tree, &[(4, 5)]), Some(0));
    assert_eq!(run(&tree, &[(4, 7)]), Some(1));
    assert_eq!(run(&tree, &[(4, 9)]), Some(2));
}

#[test]
fn uncovered_tags_fall_to_else_case() {
    // Three tags, only tag 1 named: the else case handles 0 and 2.
    let columns = vec![Column { variable: DefinitionId(2), arity: Some(3) }];
    let rows = vec![row(&[(0, 1)], 0), row(&[], 1)];
    let tree = build_decision_tree(&columns, &rows).unwrap();
    for tag in 0..3u32 {
        assert_eq!(run(&tree, &[(2, tag)]), Some(if tag == 1 { 0 } else { 1 }));
    }
}

#[test]
fn non_exhaustive_match_selects_nothing() {
    let columns = vec![Column { variable: DefinitionId(2), arity: None }];
    let rows = vec![row(&[(0, 1)], 0)];
    let tree = build_decision_tree(&columns, &rows).unwrap();
    assert_eq!(run(&tree, &[(2, 1)]), Some(0));
    assert_eq!(run(&tree, &[(2, 0)]), None);
}

#[test]
fn earlier_row_wins_over_later_one() {
    // match (a, b) | (_, 1) -> 0 | (1, _) -> 1 | _ -> 2
    let columns = vec![
        Column { variable: DefinitionId(0), arity: None },
        Column { variable: DefinitionId(1), arity: None },
    ];
    let rows = vec![row(&[(1, 1)], 0), row(&[(0, 1)], 1), row(&[], 2)];
    let tree = build_decision_tree(&columns, &rows).unwrap();
    for a in 0..3u32 {
        for b in 0..3u32 {
            let values = [(0, a), (1, b)];
            assert_eq!(run(&tree, &values), first_match(&rows, &columns, &values));
        }
    }
    assert_eq!(run(&tree, &[(0, 1), (1, 1)]), Some(0));
}

#[test]
fn contradictory_row_never_matches() {
    let columns = vec![Column { variable: DefinitionId(0), arity: Some(2) }];
    let rows = vec![row(&[(0, 0), (0, 1)], 0), row(&[(0, 1)], 1)];
    let tree = build_decision_tree(&columns, &rows).unwrap();
    assert_eq!(run(&tree, &[(0, 0)]), None);
    assert_eq!(run(&tree, &[(0, 1)]), Some(1));
}

#[test]
fn compile_match_keeps_branches() {
    let branches = vec![Ast::Literal(Literal::Integer(0, ante_hir::types::IntegerKind::I32)), Ast::Literal(Literal::Bool(true))];
    let m = compile_match(branches, &option_columns(), &option_pair_rows()).unwrap();
    assert_eq!(m.branches.len(), 2);
    assert!(matches!(m.branches[1], Ast::Literal(Literal::Bool(true))));
    assert_eq!(run(&m.decision_tree, &[(0, 1), (1, 1)]), Some(1));
    assert!(compile_match(Vec::new(), &option_columns(), &Vec::new()).is_none());
}
