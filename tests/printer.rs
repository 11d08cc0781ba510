use ante_hir::hir::{Ast, Definition, DefinitionId, DefinitionInfo, Literal, Sequence, Tuple, Variable};
use ante_hir::types::IntegerKind;

fn shared(id: usize, expr: Ast) -> DefinitionInfo {
    DefinitionInfo::from(Definition { variable: DefinitionId(id), expr: Box::new(expr), mutable: false })
}

fn defined_id(ast: &Ast) -> DefinitionId {
    match ast {
        Ast::Definition(d) => d.variable,
        _ => panic!("expected a definition"),
    }
}

#[test]
fn shared_definition_listed_once() {
    let f = shared(1, Ast::Literal(Literal::Integer(7, IntegerKind::I32)));
    let root = Ast::Tuple(Tuple {
        fields: vec![
            Ast::Variable(f.clone()),
            Ast::Variable(f.clone()),
            Ast::Variable(Variable::from(DefinitionId(2))),
        ],
    });
    let (ids, defs) = root.definitions_to_print();
    assert_eq!(ids, vec![DefinitionId(1)]);
    assert_eq!(defs.len(), 1);
    assert_eq!(defined_id(defs[0]), DefinitionId(1));
}

#[test]
fn definitions_listed_in_order_first_met() {
    let f = shared(1, Ast::Literal(Literal::Unit));
    let g = shared(3, Ast::Variable(f.clone()));
    let root = Ast::Sequence(Sequence { statements: vec![Ast::Variable(g.clone()), Ast::Variable(f.clone())] });
    let (ids, defs) = root.definitions_to_print();
    assert_eq!(ids, vec![DefinitionId(3), DefinitionId(1)]);
    assert_eq!(defined_id(defs[0]), DefinitionId(3));
    assert_eq!(defined_id(defs[1]), DefinitionId(1));
}

#[test]
fn definitions_met_inside_definitions_come_after() {
    let f = shared(1, Ast::Literal(Literal::Bool(false)));
    let g = shared(3, Ast::Variable(f.clone()));
    let h = shared(5, Ast::Literal(Literal::Char('h')));
    let root = Ast::Tuple(Tuple { fields: vec![Ast::Variable(g), Ast::Variable(h)] });
    let (ids, _) = root.definitions_to_print();
    assert_eq!(ids, vec![DefinitionId(3), DefinitionId(5), DefinitionId(1)]);
}

#[test]
fn printing_order_is_stable() {
    let f = shared(4, Ast::Literal(Literal::Float(0)));
    let root = Ast::Tuple(Tuple { fields: vec![Ast::Variable(f.clone()), Ast::Variable(f)] });
    let first = root.definitions_to_print().0;
    let second = root.definitions_to_print().0;
    assert_eq!(first, second);
}

#[test]
fn tree_without_shared_definitions_lists_nothing() {
    let root = Ast::Variable(Variable::from(DefinitionId(9)));
    let (ids, defs) = root.definitions_to_print();
    assert!(ids.is_empty());
    assert!(defs.is_empty());
}
