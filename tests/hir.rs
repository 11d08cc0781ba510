use ante_hir::hir::{Ast, Definition, DefinitionId, DefinitionInfo, Literal, Variable};

#[test]
fn definition_id_becomes_bare_variable() {
    let v = Variable::from(DefinitionId(7));
    assert_eq!(v.definition_id, DefinitionId(7));
    assert!(v.definition.is_none());
}

#[test]
fn definition_becomes_variable_sharing_it() {
    let def = Definition { variable: DefinitionId(3), expr: Box::new(Ast::Literal(Literal::Char('x'))), mutable: true };
    let v = DefinitionInfo::from(def);
    assert_eq!(v.definition_id, DefinitionId(3));
    let shared = v.definition.clone().unwrap();
    match shared.as_ref() {
        Ast::Definition(d) => {
            assert_eq!(d.variable, DefinitionId(3));
            assert!(d.mutable);
            assert!(matches!(d.expr.as_ref(), Ast::Literal(Literal::Char('x'))));
        }
        _ => panic!("expected a definition"),
    }
    let copy = v.clone();
    assert!(std::rc::Rc::ptr_eq(copy.definition.as_ref().unwrap(), &shared));
}

#[test]
fn variable_becomes_ast() {
    let ast = Ast::from(Variable::from(DefinitionId(1)));
    assert!(matches!(ast, Ast::Variable(DefinitionInfo { definition: None, definition_id: DefinitionId(1) })));
}

#[test]
fn definition_ids_are_ordered() {
    assert!(DefinitionId(1) < DefinitionId(2));
    assert_eq!(DefinitionId(4), DefinitionId(4));
    assert!(Literal::Integer(1, ante_hir::types::IntegerKind::U8) != Literal::Float(1));
}
