//! The order in which printing meets the shared definitions of a tree.
use vstd::prelude::*;

use crate::hir::{Ast, DecisionTree, DefinitionId, If};

verus! {

broadcast use vstd::std_specs::vec::group_vec_axioms;

/// What printing has scheduled so far: the ids of the shared definitions
/// met, in order, and the definitions themselves.
pub open spec fn visit(a: Ast, st: (Seq<DefinitionId>, Seq<Ast>)) -> (Seq<DefinitionId>, Seq<Ast>)
    decreases a, 0nat,
{
    match a {
        Ast::Literal(_) | Ast::Extern(_) | Ast::Builtin(_) => st,
        Ast::Variable(v) => match v.definition {
            Some(d) => if st.0.contains(v.definition_id) {
                st
            } else {
                (st.0.push(v.definition_id), st.1.push(*d))
            },
            None => st,
        },
        Ast::Lambda(l) => visit(*l.body, visit_all(l.args@, 0, st)),
        Ast::FunctionCall(c) => visit_all(c.args@, 0, visit(*c.function, st)),
        Ast::Definition(d) => visit(*d.expr, st),
        Ast::If(If { condition, then: taken, otherwise }) => {
            let st2 = visit(*taken, visit(*condition, st));
            match otherwise {
                Some(o) => visit(*o, st2),
                None => st2,
            }
        },
        Ast::Match(m) => visit_tree(m.decision_tree, visit_all(m.branches@, 0, st)),
        Ast::Return(r) => visit(*r.expression, st),
        Ast::Sequence(q) => visit_all(q.statements@, 0, st),
        Ast::Assignment(g) => visit(*g.rhs, visit(*g.lhs, st)),
        Ast::MemberAccess(m) => visit(*m.lhs, st),
        Ast::Tuple(t) => visit_all(t.fields@, 0, st),
        Ast::ReinterpretCast(r) => visit(*r.lhs, st),
    }
}

/// `visit` on `s[i..]`, in order.
pub open spec fn visit_all(s: Seq<Ast>, i: nat, st: (Seq<DefinitionId>, Seq<Ast>)) -> (Seq<DefinitionId>, Seq<Ast>)
    decreases s, s.len() - i,
{
    if i >= s.len() {
        st
    } else {
        visit_all(s, i + 1, visit(s[i as int], st))
    }
}

/// `visit` on the expressions of a decision tree.
pub open spec fn visit_tree(t: DecisionTree, st: (Seq<DefinitionId>, Seq<Ast>)) -> (Seq<DefinitionId>, Seq<Ast>)
    decreases t, 0nat,
{
    match t {
        DecisionTree::Leaf(_) => st,
        DecisionTree::Definition(d, rest) => visit_tree(*rest, visit(*d.expr, st)),
        DecisionTree::Switch { int_to_switch_on, cases, else_case } => {
            let st2 = visit_cases(cases@, 0, visit(*int_to_switch_on, st));
            match else_case {
                Some(e) => visit_tree(*e, st2),
                None => st2,
            }
        },
    }
}

/// `visit_tree` on the trees of `s[i..]`, in order.
pub open spec fn visit_cases(s: Seq<(u32, DecisionTree)>, i: nat, st: (Seq<DefinitionId>, Seq<Ast>)) -> (Seq<DefinitionId>, Seq<Ast>)
    decreases s, s.len() - i,
{
    if i >= s.len() {
        st
    } else {
        visit_cases(s, i + 1, visit_tree(s[i as int].1, st))
    }
}

/// The definitions behind a list of references.
pub open spec fn derefs(s: Seq<&Ast>) -> Seq<Ast> {
    s.map_values(|d: &Ast| *d)
}

pub proof fn lemma_derefs_push(s: Seq<&Ast>, d: &Ast)
    ensures
        derefs(s.push(d)) == derefs(s).push(*d),
{
    assert(derefs(s.push(d)) =~= derefs(s).push(*d));
}

/// Printing the scheduled definitions from entry `i` on, in order, each
/// scheduling what it meets; at most `fuel` of them are printed.
pub open spec fn drain(st: (Seq<DefinitionId>, Seq<Ast>), i: nat, fuel: nat) -> (Seq<DefinitionId>, Seq<Ast>)
    decreases fuel,
{
    if i >= st.0.len() || fuel == 0 {
        st
    } else {
        drain(visit(st.1[i as int], st), i + 1, (fuel - 1) as nat)
    }
}

/// `fuel` is enough for `drain` to print every scheduled definition.
pub open spec fn drained(st: (Seq<DefinitionId>, Seq<Ast>), i: nat, fuel: nat) -> bool
    decreases fuel,
{
    if i >= st.0.len() {
        true
    } else if fuel == 0 {
        false
    } else {
        drained(visit(st.1[i as int], st), i + 1, (fuel - 1) as nat)
    }
}

/// The ids of the shared definitions that printing `root` lists after it,
/// in the order printing lists them: those that the root refers to, in the
/// order printing meets them, then those first met in each listed
/// definition in turn.
pub open spec fn listing(root: Ast) -> Seq<DefinitionId> {
    let init = visit(root, (Seq::empty(), Seq::empty()));
    drain(init, 0, choose|f: nat| drained(init, 0, f)).0
}

/// Any fuel that is enough gives the same result.
pub proof fn lemma_drain_unique(st: (Seq<DefinitionId>, Seq<Ast>), i: nat, f1: nat, f2: nat)
    requires
        drained(st, i, f1),
        drained(st, i, f2),
    ensures
        drain(st, i, f1) == drain(st, i, f2),
    decreases f1,
{
    if i < st.0.len() {
        lemma_drain_unique(visit(st.1[i as int], st), i + 1, (f1 - 1) as nat, (f2 - 1) as nat);
    }
}

} // verus!
