//! The order in which a printed tree lists its shared definitions.
//!
//! A variable may share its definition with other variables, and a
//! recursive definition refers to itself through its own body. The printer
//! renders the root in full, renders each variable only by its id, and
//! lists each shared definition once, after the node that first met it.
use vstd::prelude::*;

use crate::hir::{Ast, DecisionTree, DefinitionId, DefinitionInfo, If};
use crate::listing::{derefs, drain, drained, lemma_derefs_push, lemma_drain_unique, listing, visit, visit_all, visit_cases, visit_tree};

verus! {

broadcast use vstd::std_specs::vec::group_vec_axioms;

/// `ast` holds a variable whose shared definition has id `id`. With `deep`,
/// the search also goes through the bodies of shared definitions.
pub open spec fn refers(ast: Ast, id: DefinitionId, deep: bool) -> bool
    decreases ast,
{
    match ast {
        Ast::Literal(_) | Ast::Extern(_) | Ast::Builtin(_) => false,
        Ast::Variable(v) => match v.definition {
            Some(d) => v.definition_id == id || (deep && refers(*d, id, deep)),
            None => false,
        },
        Ast::Lambda(l) => (exists|i: int| 0 <= i < l.args.len() && refers(#[trigger] l.args@[i], id, deep)) || refers(*l.body, id, deep),
        Ast::FunctionCall(c) => refers(*c.function, id, deep) || exists|i: int| 0 <= i < c.args.len() && refers(#[trigger] c.args@[i], id, deep),
        Ast::Definition(d) => refers(*d.expr, id, deep),
        Ast::If(If { condition, then: taken, otherwise }) => refers(*condition, id, deep) || refers(*taken, id, deep) || (otherwise matches Some(o) && refers(*o, id, deep)),
        Ast::Match(m) => (exists|i: int| 0 <= i < m.branches.len() && refers(#[trigger] m.branches@[i], id, deep)) || tree_refers(m.decision_tree, id, deep),
        Ast::Return(r) => refers(*r.expression, id, deep),
        Ast::Sequence(s) => exists|i: int| 0 <= i < s.statements.len() && refers(#[trigger] s.statements@[i], id, deep),
        Ast::Assignment(a) => refers(*a.lhs, id, deep) || refers(*a.rhs, id, deep),
        Ast::MemberAccess(m) => refers(*m.lhs, id, deep),
        Ast::Tuple(t) => exists|i: int| 0 <= i < t.fields.len() && refers(#[trigger] t.fields@[i], id, deep),
        Ast::ReinterpretCast(r) => refers(*r.lhs, id, deep),
    }
}

/// `refers` for the expressions inside a decision tree.
pub open spec fn tree_refers(tree: DecisionTree, id: DefinitionId, deep: bool) -> bool
    decreases tree,
{
    match tree {
        DecisionTree::Leaf(_) => false,
        DecisionTree::Definition(d, rest) => refers(*d.expr, id, deep) || tree_refers(*rest, id, deep),
        DecisionTree::Switch { int_to_switch_on, cases, else_case } => {
            ||| refers(*int_to_switch_on, id, deep)
            ||| exists|k: int| 0 <= k < cases.len() && tree_refers((#[trigger] cases@[k]).1, id, deep)
            ||| (else_case matches Some(e) && tree_refers(*e, id, deep))
        },
    }
}

/// `ast` holds a variable with id `id` whose shared definition is `def`.
/// With `deep`, the search also goes through the bodies of shared definitions.
pub open spec fn shares(ast: Ast, id: DefinitionId, def: Ast, deep: bool) -> bool
    decreases ast,
{
    match ast {
        Ast::Literal(_) | Ast::Extern(_) | Ast::Builtin(_) => false,
        Ast::Variable(v) => match v.definition {
            Some(d) => (v.definition_id == id && *d == def) || (deep && shares(*d, id, def, deep)),
            None => false,
        },
        Ast::Lambda(l) => (exists|i: int| 0 <= i < l.args.len() && shares(#[trigger] l.args@[i], id, def, deep)) || shares(*l.body, id, def, deep),
        Ast::FunctionCall(c) => shares(*c.function, id, def, deep) || exists|i: int| 0 <= i < c.args.len() && shares(#[trigger] c.args@[i], id, def, deep),
        Ast::Definition(d) => shares(*d.expr, id, def, deep),
        Ast::If(If { condition, then: taken, otherwise }) => shares(*condition, id, def, deep) || shares(*taken, id, def, deep) || (otherwise matches Some(o) && shares(*o, id, def, deep)),
        Ast::Match(m) => (exists|i: int| 0 <= i < m.branches.len() && shares(#[trigger] m.branches@[i], id, def, deep)) || tree_shares(m.decision_tree, id, def, deep),
        Ast::Return(r) => shares(*r.expression, id, def, deep),
        Ast::Sequence(s) => exists|i: int| 0 <= i < s.statements.len() && shares(#[trigger] s.statements@[i], id, def, deep),
        Ast::Assignment(a) => shares(*a.lhs, id, def, deep) || shares(*a.rhs, id, def, deep),
        Ast::MemberAccess(m) => shares(*m.lhs, id, def, deep),
        Ast::Tuple(t) => exists|i: int| 0 <= i < t.fields.len() && shares(#[trigger] t.fields@[i], id, def, deep),
        Ast::ReinterpretCast(r) => shares(*r.lhs, id, def, deep),
    }
}

/// `shares` for the expressions inside a decision tree.
pub open spec fn tree_shares(tree: DecisionTree, id: DefinitionId, def: Ast, deep: bool) -> bool
    decreases tree,
{
    match tree {
        DecisionTree::Leaf(_) => false,
        DecisionTree::Definition(d, rest) => shares(*d.expr, id, def, deep) || tree_shares(*rest, id, def, deep),
        DecisionTree::Switch { int_to_switch_on, cases, else_case } => {
            ||| shares(*int_to_switch_on, id, def, deep)
            ||| exists|k: int| 0 <= k < cases.len() && tree_shares((#[trigger] cases@[k]).1, id, def, deep)
            ||| (else_case matches Some(e) && tree_shares(*e, id, def, deep))
        },
    }
}

/// Adds to `out` the id of every shared definition that `ast` refers to,
/// through shared definitions too; it may add an id more than once.
fn collect_deep(ast: &Ast, out: &mut Vec<DefinitionId>)
    ensures
        forall|x: DefinitionId| old(out)@.contains(x) ==> #[trigger] final(out)@.contains(x),
        forall|x: DefinitionId| refers(*ast, x, true) ==> #[trigger] final(out)@.contains(x),
    decreases ast,
{
    let ghost start = out@;
    match ast {
        Ast::Literal(_) | Ast::Extern(_) | Ast::Builtin(_) => {
            assert forall|x: DefinitionId| refers(*ast, x, true) implies #[trigger] out@.contains(x) by {
                assert(!refers(*ast, x, true));
            }
        },
        Ast::Variable(v) => {
            match &v.definition {
                Some(d) => {
                    out.push(v.definition_id);
                    assert(out@[out@.len() - 1] == v.definition_id);
                    let ghost mid = out@;
                    collect_deep(d, out);
                    assert forall|x: DefinitionId| start.contains(x) implies #[trigger] out@.contains(x) by {
                        let k = choose|k: int| 0 <= k < start.len() && start[k] == x;
                        assert(mid[k] == x);
                        assert(mid.contains(x));
                    }
                    assert(mid.contains(v.definition_id));
                },
                None => {},
            }
        },
        Ast::Lambda(l) => {
            collect_deep_all(&l.args, out);
            let ghost mid = out@;
            collect_deep(&l.body, out);
            assert forall|x: DefinitionId| refers(*ast, x, true) implies #[trigger] out@.contains(x) by {
                if exists|i: int| 0 <= i < l.args.len() && refers(#[trigger] l.args@[i], x, true) {
                    let i = choose|i: int| 0 <= i < l.args.len() && refers(#[trigger] l.args@[i], x, true);
                    assert(mid.contains(x));
                }
            }
        },
        Ast::FunctionCall(c) => {
            collect_deep(&c.function, out);
            collect_deep_all(&c.args, out);
            assert forall|x: DefinitionId| refers(*ast, x, true) implies #[trigger] out@.contains(x) by {
                if exists|i: int| 0 <= i < c.args.len() && refers(#[trigger] c.args@[i], x, true) {
                    let i = choose|i: int| 0 <= i < c.args.len() && refers(#[trigger] c.args@[i], x, true);
                    assert(out@.contains(x));
                }
            }
        },
        Ast::Definition(d) => {
            collect_deep(&d.expr, out);
        },
        Ast::If(If { condition, then: taken, otherwise }) => {
            collect_deep(condition, out);
            collect_deep(taken, out);
            match otherwise {
                Some(o) => collect_deep(o, out),
                None => {},
            }
        },
        Ast::Match(m) => {
            collect_deep_all(&m.branches, out);
            let ghost mid = out@;
            collect_deep_tree(&m.decision_tree, out);
            assert forall|x: DefinitionId| refers(*ast, x, true) implies #[trigger] out@.contains(x) by {
                if exists|i: int| 0 <= i < m.branches.len() && refers(#[trigger] m.branches@[i], x, true) {
                    let i = choose|i: int| 0 <= i < m.branches.len() && refers(#[trigger] m.branches@[i], x, true);
                    assert(mid.contains(x));
                }
            }
        },
        Ast::Return(r) => {
            collect_deep(&r.expression, out);
        },
        Ast::Sequence(q) => {
            collect_deep_all(&q.statements, out);
            assert forall|x: DefinitionId| refers(*ast, x, true) implies #[trigger] out@.contains(x) by {
                if exists|i: int| 0 <= i < q.statements.len() && refers(#[trigger] q.statements@[i], x, true) {
                    let i = choose|i: int| 0 <= i < q.statements.len() && refers(#[trigger] q.statements@[i], x, true);
                    assert(out@.contains(x));
                }
            }
        },
        Ast::Assignment(a) => {
            collect_deep(&a.lhs, out);
            collect_deep(&a.rhs, out);
        },
        Ast::MemberAccess(m) => {
            collect_deep(&m.lhs, out);
        },
        Ast::Tuple(t) => {
            collect_deep_all(&t.fields, out);
            assert forall|x: DefinitionId| refers(*ast, x, true) implies #[trigger] out@.contains(x) by {
                if exists|i: int| 0 <= i < t.fields.len() && refers(#[trigger] t.fields@[i], x, true) {
                    let i = choose|i: int| 0 <= i < t.fields.len() && refers(#[trigger] t.fields@[i], x, true);
                    assert(out@.contains(x));
                }
            }
        },
        Ast::ReinterpretCast(r) => {
            collect_deep(&r.lhs, out);
        },
    }
}

fn collect_deep_all(asts: &Vec<Ast>, out: &mut Vec<DefinitionId>)
    ensures
        forall|x: DefinitionId| old(out)@.contains(x) ==> #[trigger] final(out)@.contains(x),
        forall|x: DefinitionId| (exists|i: int| 0 <= i < asts.len() && refers(#[trigger] asts@[i], x, true)) ==> #[trigger] final(out)@.contains(x),
    decreases asts,
{
    let ghost start = out@;
    let mut i: usize = 0;
    while i < asts.len()
        invariant
            i <= asts@.len(),
            forall|x: DefinitionId| start.contains(x) ==> #[trigger] out@.contains(x),
            forall|x: DefinitionId, j: int| 0 <= j < i && #[trigger] refers(asts@[j], x, true) ==> out@.contains(x),
        decreases asts@.len() - i,
    {
        collect_deep(&asts[i], out);
        i += 1;
    }
    assert forall|x: DefinitionId| (exists|i: int| 0 <= i < asts.len() && refers(#[trigger] asts@[i], x, true)) implies #[trigger] out@.contains(x) by {
        let j = choose|j: int| 0 <= j < asts.len() && refers(#[trigger] asts@[j], x, true);
        assert(refers(asts@[j], x, true));
    }
}

fn collect_deep_tree(tree: &DecisionTree, out: &mut Vec<DefinitionId>)
    ensures
        forall|x: DefinitionId| old(out)@.contains(x) ==> #[trigger] final(out)@.contains(x),
        forall|x: DefinitionId| tree_refers(*tree, x, true) ==> #[trigger] final(out)@.contains(x),
    decreases tree,
{
    match tree {
        DecisionTree::Leaf(_) => {
            assert forall|x: DefinitionId| tree_refers(*tree, x, true) implies #[trigger] out@.contains(x) by {
                assert(!tree_refers(*tree, x, true));
            }
        },
        DecisionTree::Definition(d, rest) => {
            collect_deep(&d.expr, out);
            collect_deep_tree(rest, out);
        },
        DecisionTree::Switch { int_to_switch_on, cases, else_case } => {
            collect_deep(int_to_switch_on, out);
            let ghost start = out@;
            assert(forall|x: DefinitionId| refers(**int_to_switch_on, x, true) ==> #[trigger] start.contains(x));
            let mut k: usize = 0;
            while k < cases.len()
                invariant
                    *tree == (DecisionTree::Switch { int_to_switch_on: *int_to_switch_on, cases: *cases, else_case: *else_case }),
                    k <= cases@.len(),
                    forall|x: DefinitionId| start.contains(x) ==> #[trigger] out@.contains(x),
                    forall|x: DefinitionId, j: int| 0 <= j < k && #[trigger] tree_refers(cases@[j].1, x, true) ==> out@.contains(x),
                decreases cases@.len() - k,
            {
                proof {
                    assert(decreases_to!(*cases => cases[k as int]));
                    assert(decreases_to!(cases[k as int] => cases[k as int].1));
                    assert((*tree)->cases == *cases);
                    assert(decreases_to!(*tree => (*tree)->cases));
                    assert(decreases_to!(*tree => cases[k as int].1));
                }
                collect_deep_tree(&cases[k].1, out);
                k += 1;
            }
            let ghost after_cases = out@;
            match else_case {
                Some(e) => collect_deep_tree(e, out),
                None => {},
            }
            assert forall|x: DefinitionId| tree_refers(*tree, x, true) implies #[trigger] out@.contains(x) by {
                if refers(**int_to_switch_on, x, true) {
                    assert(start.contains(x));
                    assert(after_cases.contains(x));
                } else if exists|j: int| 0 <= j < cases.len() && tree_refers((#[trigger] cases@[j]).1, x, true) {
                    let j = choose|j: int| 0 <= j < cases.len() && tree_refers((#[trigger] cases@[j]).1, x, true);
                    assert(after_cases.contains(x));
                }
            }
        },
    }
}

/// Entry `k` is a definition that `a` reaches, and so is everything that
/// this definition reaches.
pub open spec fn entry_sound(ids: Seq<DefinitionId>, defs: Seq<&Ast>, k: int, a: Ast) -> bool {
    &&& refers(a, ids[k], true)
    &&& shares(a, ids[k], *defs[k], true)
    &&& forall|x: DefinitionId| refers(*defs[k], x, true) ==> #[trigger] refers(a, x, true)
    &&& forall|y: DefinitionId, e: Ast| shares(*defs[k], y, e, true) ==> #[trigger] shares(a, y, e, true)
}

/// `entry_sound` for the expressions inside a decision tree.
pub open spec fn entry_sound_tree(ids: Seq<DefinitionId>, defs: Seq<&Ast>, k: int, t: DecisionTree) -> bool {
    &&& tree_refers(t, ids[k], true)
    &&& tree_shares(t, ids[k], *defs[k], true)
    &&& forall|x: DefinitionId| refers(*defs[k], x, true) ==> #[trigger] tree_refers(t, x, true)
    &&& forall|y: DefinitionId, e: Ast| shares(*defs[k], y, e, true) ==> #[trigger] tree_shares(t, y, e, true)
}

proof fn lemma_entry_lift(
    ids1: Seq<DefinitionId>,
    defs1: Seq<&Ast>,
    ids2: Seq<DefinitionId>,
    defs2: Seq<&Ast>,
    k: int,
    a: Ast,
    b: Ast,
)
    requires
        entry_sound(ids1, defs1, k, a),
        ids2[k] == ids1[k],
        defs2[k] == defs1[k],
        forall|x: DefinitionId| refers(a, x, true) ==> #[trigger] refers(b, x, true),
        forall|y: DefinitionId, e: Ast| shares(a, y, e, true) ==> #[trigger] shares(b, y, e, true),
    ensures
        entry_sound(ids2, defs2, k, b),
{
}

proof fn lemma_entry_lift_to_tree(
    ids1: Seq<DefinitionId>,
    defs1: Seq<&Ast>,
    ids2: Seq<DefinitionId>,
    defs2: Seq<&Ast>,
    k: int,
    a: Ast,
    b: DecisionTree,
)
    requires
        entry_sound(ids1, defs1, k, a),
        ids2[k] == ids1[k],
        defs2[k] == defs1[k],
        forall|x: DefinitionId| refers(a, x, true) ==> #[trigger] tree_refers(b, x, true),
        forall|y: DefinitionId, e: Ast| shares(a, y, e, true) ==> #[trigger] tree_shares(b, y, e, true),
    ensures
        entry_sound_tree(ids2, defs2, k, b),
{
}

proof fn lemma_tree_entry_lift(
    ids1: Seq<DefinitionId>,
    defs1: Seq<&Ast>,
    ids2: Seq<DefinitionId>,
    defs2: Seq<&Ast>,
    k: int,
    a: DecisionTree,
    b: DecisionTree,
)
    requires
        entry_sound_tree(ids1, defs1, k, a),
        ids2[k] == ids1[k],
        defs2[k] == defs1[k],
        forall|x: DefinitionId| tree_refers(a, x, true) ==> #[trigger] tree_refers(b, x, true),
        forall|y: DefinitionId, e: Ast| tree_shares(a, y, e, true) ==> #[trigger] tree_shares(b, y, e, true),
    ensures
        entry_sound_tree(ids2, defs2, k, b),
{
}

proof fn lemma_tree_entry_lift_to_ast(
    ids1: Seq<DefinitionId>,
    defs1: Seq<&Ast>,
    ids2: Seq<DefinitionId>,
    defs2: Seq<&Ast>,
    k: int,
    a: DecisionTree,
    b: Ast,
)
    requires
        entry_sound_tree(ids1, defs1, k, a),
        ids2[k] == ids1[k],
        defs2[k] == defs1[k],
        forall|x: DefinitionId| tree_refers(a, x, true) ==> #[trigger] refers(b, x, true),
        forall|y: DefinitionId, e: Ast| tree_shares(a, y, e, true) ==> #[trigger] shares(b, y, e, true),
    ensures
        entry_sound(ids2, defs2, k, b),
{
}

fn contains_id(ids: &Vec<DefinitionId>, x: DefinitionId) -> (r: bool)
    ensures
        r == ids@.contains(x),
{
    let mut i: usize = 0;
    while i < ids.len()
        invariant
            i <= ids@.len(),
            forall|k: int| 0 <= k < i ==> ids@[k] != x,
        decreases ids@.len() - i,
    {
        if ids[i] == x {
            return true;
        }
        i += 1;
    }
    false
}

/// Schedules each shared definition that `ast` refers to and that is not
/// scheduled yet, in the order met, without entering shared definitions.
fn schedule<'a>(ast: &'a Ast, ids: &mut Vec<DefinitionId>, defs: &mut Vec<&'a Ast>)
    requires
        old(ids)@.no_duplicates(),
        old(ids)@.len() == old(defs)@.len(),
    ensures
        final(ids)@.no_duplicates(),
        final(ids)@.len() == final(defs)@.len(),
        old(ids)@.len() <= final(ids)@.len(),
        forall|k: int| 0 <= k < old(ids)@.len() ==> final(ids)@[k] == old(ids)@[k] && final(defs)@[k] == old(defs)@[k],
        forall|x: DefinitionId| old(ids)@.contains(x) ==> #[trigger] final(ids)@.contains(x),
        forall|k: int| #![trigger final(ids)@[k]] old(ids)@.len() <= k < final(ids)@.len() ==> entry_sound(final(ids)@, final(defs)@, k, *ast) && refers(*ast, final(ids)@[k], false),
        (final(ids)@, derefs(final(defs)@)) == visit(*ast, (old(ids)@, derefs(old(defs)@))),
        forall|x: DefinitionId| refers(*ast, x, false) ==> #[trigger] final(ids)@.contains(x),
    decreases ast,
{
    let ghost len0 = ids@.len();
    match ast {
        Ast::Literal(_) | Ast::Extern(_) | Ast::Builtin(_) => {},
        Ast::Variable(v) => {
            match &v.definition {
                Some(d) => {
                    if !contains_id(ids, v.definition_id) {
                        let ghost before = ids@;
                        let ghost defs_before = defs@;
                        ids.push(v.definition_id);
                        defs.push(d);
                        proof {
                            lemma_derefs_push(defs_before, d);
                            assert(ids@[ids@.len() - 1] == v.definition_id);
                            assert forall|x: DefinitionId| before.contains(x) implies #[trigger] ids@.contains(x) by {
                                let k = choose|k: int| 0 <= k < before.len() && before[k] == x;
                                assert(ids@[k] == x);
                            }
                            assert forall|i: int, j: int| 0 <= i < ids@.len() && 0 <= j < ids@.len() && i != j implies ids@[i] != ids@[j] by {
                                if j == ids@.len() - 1 {
                                    assert(before.contains(before[i]));
                                }
                                if i == ids@.len() - 1 {
                                    assert(before.contains(before[j]));
                                }
                            }
                        }
                    }
                },
                None => {},
            }
        },
        Ast::Lambda(l) => {
            let ghost ids_at1 = ids@.len();
            let from1 = schedule_all(&l.args, ids, defs);
            let ghost ids1 = ids@;
            let ghost defs1 = defs@;
            schedule(&l.body, ids, defs);
            let ghost ids2 = ids@;
            let ghost defs2 = defs@;
            proof {
                assert forall|k: int| len0 <= k < ids@.len() implies #[trigger] entry_sound(ids@, defs@, k, *ast) && refers(*ast, ids@[k], false) by {
                    if len0 <= k < ids1.len() {
                        assert(ids@[k] == ids1[k]);
                        let i = from1@[k - ids_at1];
                        lemma_entry_lift(ids1, defs1, ids@, defs@, k, l.args@[i], *ast);
                    }
                    if ids1.len() <= k < ids2.len() {
                        assert(ids@[k] == ids2[k]);
                        lemma_entry_lift(ids2, defs2, ids@, defs@, k, *l.body, *ast);
                    }
                }
            }
        },
        Ast::FunctionCall(c) => {
            schedule(&c.function, ids, defs);
            let ghost ids1 = ids@;
            let ghost defs1 = defs@;
            let ghost ids_at2 = ids@.len();
            let from2 = schedule_all(&c.args, ids, defs);
            let ghost ids2 = ids@;
            let ghost defs2 = defs@;
            proof {
                assert forall|k: int| len0 <= k < ids@.len() implies #[trigger] entry_sound(ids@, defs@, k, *ast) && refers(*ast, ids@[k], false) by {
                    if len0 <= k < ids1.len() {
                        assert(ids@[k] == ids1[k]);
                        lemma_entry_lift(ids1, defs1, ids@, defs@, k, *c.function, *ast);
                    }
                    if ids1.len() <= k < ids2.len() {
                        assert(ids@[k] == ids2[k]);
                        let i = from2@[k - ids_at2];
                        lemma_entry_lift(ids2, defs2, ids@, defs@, k, c.args@[i], *ast);
                    }
                }
            }
        },
        Ast::Definition(d) => {
            schedule(&d.expr, ids, defs);
            let ghost ids1 = ids@;
            let ghost defs1 = defs@;
            proof {
                assert forall|k: int| len0 <= k < ids@.len() implies #[trigger] entry_sound(ids@, defs@, k, *ast) && refers(*ast, ids@[k], false) by {
                    if len0 <= k < ids1.len() {
                        assert(ids@[k] == ids1[k]);
                        lemma_entry_lift(ids1, defs1, ids@, defs@, k, *d.expr, *ast);
                    }
                }
            }
        },
        Ast::If(If { condition, then: taken, otherwise }) => {
            schedule(condition, ids, defs);
            let ghost ids1 = ids@;
            let ghost defs1 = defs@;
            schedule(taken, ids, defs);
            let ghost ids2 = ids@;
            let ghost defs2 = defs@;
            match otherwise {
                Some(o) => {
                    schedule(o, ids, defs);
                    proof {
                        assert forall|k: int| ids2.len() <= k < ids@.len() implies entry_sound(ids@, defs@, k, *ast) && refers(*ast, ids@[k], false) by {
                            lemma_entry_lift(ids@, defs@, ids@, defs@, k, **o, *ast);
                        }
                    }
                },
                None => {},
            }
            proof {
                assert forall|k: int| len0 <= k < ids@.len() implies #[trigger] entry_sound(ids@, defs@, k, *ast) && refers(*ast, ids@[k], false) by {
                    if len0 <= k < ids1.len() {
                        assert(ids@[k] == ids1[k]);
                        lemma_entry_lift(ids1, defs1, ids@, defs@, k, **condition, *ast);
                    }
                    if ids1.len() <= k < ids2.len() {
                        assert(ids@[k] == ids2[k]);
                        lemma_entry_lift(ids2, defs2, ids@, defs@, k, **taken, *ast);
                    }
                }
            }
        },
        Ast::Match(m) => {
            let ghost ids_at1 = ids@.len();
            let from1 = schedule_all(&m.branches, ids, defs);
            let ghost ids1 = ids@;
            let ghost defs1 = defs@;
            schedule_tree(&m.decision_tree, ids, defs);
            let ghost ids2 = ids@;
            let ghost defs2 = defs@;
            proof {
                assert forall|k: int| len0 <= k < ids@.len() implies #[trigger] entry_sound(ids@, defs@, k, *ast) && refers(*ast, ids@[k], false) by {
                    if len0 <= k < ids1.len() {
                        assert(ids@[k] == ids1[k]);
                        let i = from1@[k - ids_at1];
                        lemma_entry_lift(ids1, defs1, ids@, defs@, k, m.branches@[i], *ast);
                    }
                    if ids1.len() <= k < ids2.len() {
                        assert(ids@[k] == ids2[k]);
                        lemma_tree_entry_lift_to_ast(ids2, defs2, ids@, defs@, k, m.decision_tree, *ast);
                    }
                }
            }
        },
        Ast::Return(r) => {
            schedule(&r.expression, ids, defs);
            let ghost ids1 = ids@;
            let ghost defs1 = defs@;
            proof {
                assert forall|k: int| len0 <= k < ids@.len() implies #[trigger] entry_sound(ids@, defs@, k, *ast) && refers(*ast, ids@[k], false) by {
                    if len0 <= k < ids1.len() {
                        assert(ids@[k] == ids1[k]);
                        lemma_entry_lift(ids1, defs1, ids@, defs@, k, *r.expression, *ast);
                    }
                }
            }
        },
        Ast::Sequence(q) => {
            let ghost ids_at1 = ids@.len();
            let from1 = schedule_all(&q.statements, ids, defs);
            let ghost ids1 = ids@;
            let ghost defs1 = defs@;
            proof {
                assert forall|k: int| len0 <= k < ids@.len() implies #[trigger] entry_sound(ids@, defs@, k, *ast) && refers(*ast, ids@[k], false) by {
                    if len0 <= k < ids1.len() {
                        assert(ids@[k] == ids1[k]);
                        let i = from1@[k - ids_at1];
                        lemma_entry_lift(ids1, defs1, ids@, defs@, k, q.statements@[i], *ast);
                    }
                }
            }
        },
        Ast::Assignment(a) => {
            schedule(&a.lhs, ids, defs);
            let ghost ids1 = ids@;
            let ghost defs1 = defs@;
            schedule(&a.rhs, ids, defs);
            let ghost ids2 = ids@;
            let ghost defs2 = defs@;
            proof {
                assert forall|k: int| len0 <= k < ids@.len() implies #[trigger] entry_sound(ids@, defs@, k, *ast) && refers(*ast, ids@[k], false) by {
                    if len0 <= k < ids1.len() {
                        assert(ids@[k] == ids1[k]);
                        lemma_entry_lift(ids1, defs1, ids@, defs@, k, *a.lhs, *ast);
                    }
                    if ids1.len() <= k < ids2.len() {
                        assert(ids@[k] == ids2[k]);
                        lemma_entry_lift(ids2, defs2, ids@, defs@, k, *a.rhs, *ast);
                    }
                }
            }
        },
        Ast::MemberAccess(m) => {
            schedule(&m.lhs, ids, defs);
            let ghost ids1 = ids@;
            let ghost defs1 = defs@;
            proof {
                assert forall|k: int| len0 <= k < ids@.len() implies #[trigger] entry_sound(ids@, defs@, k, *ast) && refers(*ast, ids@[k], false) by {
                    if len0 <= k < ids1.len() {
                        assert(ids@[k] == ids1[k]);
                        lemma_entry_lift(ids1, defs1, ids@, defs@, k, *m.lhs, *ast);
                    }
                }
            }
        },
        Ast::Tuple(t) => {
            let ghost ids_at1 = ids@.len();
            let from1 = schedule_all(&t.fields, ids, defs);
            let ghost ids1 = ids@;
            let ghost defs1 = defs@;
            proof {
                assert forall|k: int| len0 <= k < ids@.len() implies #[trigger] entry_sound(ids@, defs@, k, *ast) && refers(*ast, ids@[k], false) by {
                    if len0 <= k < ids1.len() {
                        assert(ids@[k] == ids1[k]);
                        let i = from1@[k - ids_at1];
                        lemma_entry_lift(ids1, defs1, ids@, defs@, k, t.fields@[i], *ast);
                    }
                }
            }
        },
        Ast::ReinterpretCast(r) => {
            schedule(&r.lhs, ids, defs);
            let ghost ids1 = ids@;
            let ghost defs1 = defs@;
            proof {
                assert forall|k: int| len0 <= k < ids@.len() implies #[trigger] entry_sound(ids@, defs@, k, *ast) && refers(*ast, ids@[k], false) by {
                    if len0 <= k < ids1.len() {
                        assert(ids@[k] == ids1[k]);
                        lemma_entry_lift(ids1, defs1, ids@, defs@, k, *r.lhs, *ast);
                    }
                }
            }
        },
    }
}

fn schedule_all<'a>(asts: &'a Vec<Ast>, ids: &mut Vec<DefinitionId>, defs: &mut Vec<&'a Ast>) -> (from: Ghost<Seq<int>>)
    requires
        old(ids)@.no_duplicates(),
        old(ids)@.len() == old(defs)@.len(),
    ensures
        final(ids)@.no_duplicates(),
        final(ids)@.len() == final(defs)@.len(),
        old(ids)@.len() <= final(ids)@.len(),
        forall|k: int| 0 <= k < old(ids)@.len() ==> final(ids)@[k] == old(ids)@[k] && final(defs)@[k] == old(defs)@[k],
        forall|x: DefinitionId| old(ids)@.contains(x) ==> #[trigger] final(ids)@.contains(x),
        from@.len() == final(ids)@.len() - old(ids)@.len(),
        forall|k: int|
            old(ids)@.len() <= k < final(ids)@.len() ==> 0 <= #[trigger] from@[k - old(ids)@.len()] < asts@.len() && entry_sound(
                final(ids)@,
                final(defs)@,
                k,
                asts@[from@[k - old(ids)@.len()]],
            ) && refers(asts@[from@[k - old(ids)@.len()]], final(ids)@[k], false),
        (final(ids)@, derefs(final(defs)@)) == visit_all(asts@, 0, (old(ids)@, derefs(old(defs)@))),
        forall|x: DefinitionId| (exists|i: int| 0 <= i < asts.len() && refers(#[trigger] asts@[i], x, false)) ==> #[trigger] final(ids)@.contains(x),
    decreases asts,
{
    let ghost len0 = ids@.len();
    let ghost mut src: Seq<int> = Seq::empty();
    let mut i: usize = 0;
    while i < asts.len()
        invariant
            i <= asts@.len(),
            ids@.no_duplicates(),
            ids@.len() == defs@.len(),
            old(ids)@.len() <= ids@.len(),
            forall|k: int| 0 <= k < old(ids)@.len() ==> ids@[k] == old(ids)@[k] && defs@[k] == old(defs)@[k],
            forall|x: DefinitionId| old(ids)@.contains(x) ==> #[trigger] ids@.contains(x),
            len0 == old(ids)@.len(),
            src.len() == ids@.len() - len0,
            forall|k: int| len0 <= k < ids@.len() ==> 0 <= #[trigger] src[k - len0] < i && entry_sound(ids@, defs@, k, asts@[src[k - len0]]) && refers(asts@[src[k - len0]], ids@[k], false),
            forall|x: DefinitionId, j: int| 0 <= j < i && #[trigger] refers(asts@[j], x, false) ==> ids@.contains(x),
            visit_all(asts@, 0, (old(ids)@, derefs(old(defs)@))) == visit_all(asts@, i as nat, (ids@, derefs(defs@))),
        decreases asts@.len() - i,
    {
        let ghost ids_before = ids@;
        let ghost defs_before = defs@;
        schedule(&asts[i], ids, defs);
        proof {
            let added = (ids@.len() - ids_before.len()) as nat;
            let old_src = src;
            src = src + Seq::new(added, |_x: int| i as int);
            assert forall|k: int| len0 <= k < ids@.len() implies 0 <= #[trigger] src[k - len0] < i + 1 && entry_sound(ids@, defs@, k, asts@[src[k - len0]]) && refers(asts@[src[k - len0]], ids@[k], false) by {
                if k < ids_before.len() {
                    assert(ids@[k] == ids_before[k]);
                    assert(src[k - len0] == old_src[k - len0]);
                    lemma_entry_lift(ids_before, defs_before, ids@, defs@, k, asts@[src[k - len0]], asts@[src[k - len0]]);
                } else {
                    assert(src[k - len0] == i);
                    assert(ids@[k] == ids@[k]);
                }
            }
        }
        i += 1;
    }
    Ghost(src)
}

fn schedule_tree<'a>(tree: &'a DecisionTree, ids: &mut Vec<DefinitionId>, defs: &mut Vec<&'a Ast>)
    requires
        old(ids)@.no_duplicates(),
        old(ids)@.len() == old(defs)@.len(),
    ensures
        final(ids)@.no_duplicates(),
        final(ids)@.len() == final(defs)@.len(),
        old(ids)@.len() <= final(ids)@.len(),
        forall|k: int| 0 <= k < old(ids)@.len() ==> final(ids)@[k] == old(ids)@[k] && final(defs)@[k] == old(defs)@[k],
        forall|x: DefinitionId| old(ids)@.contains(x) ==> #[trigger] final(ids)@.contains(x),
        forall|k: int| #![trigger final(ids)@[k]] old(ids)@.len() <= k < final(ids)@.len() ==> entry_sound_tree(final(ids)@, final(defs)@, k, *tree) && tree_refers(*tree, final(ids)@[k], false),
        (final(ids)@, derefs(final(defs)@)) == visit_tree(*tree, (old(ids)@, derefs(old(defs)@))),
        forall|x: DefinitionId| tree_refers(*tree, x, false) ==> #[trigger] final(ids)@.contains(x),
    decreases tree,
{
    match tree {
        DecisionTree::Leaf(_) => {},
        DecisionTree::Definition(d, rest) => {
            let ghost len0 = ids@.len();
            schedule(&d.expr, ids, defs);
            let ghost ids1 = ids@;
            let ghost defs1 = defs@;
            schedule_tree(rest, ids, defs);
            proof {
                assert forall|k: int| len0 <= k < ids@.len() implies #[trigger] entry_sound_tree(ids@, defs@, k, *tree) && tree_refers(*tree, ids@[k], false) by {
                    if k < ids1.len() {
                        assert(ids@[k] == ids1[k]);
                        lemma_entry_lift_to_tree(ids1, defs1, ids@, defs@, k, *d.expr, *tree);
                    } else {
                        lemma_tree_entry_lift(ids@, defs@, ids@, defs@, k, **rest, *tree);
                    }
                }
            }
        },
        DecisionTree::Switch { int_to_switch_on, cases, else_case } => {
            let ghost len0 = ids@.len();
            schedule(int_to_switch_on, ids, defs);
            let ghost start = ids@;
            let ghost start_defs = defs@;
            proof {
                assert forall|e: int| len0 <= e < ids@.len() implies #[trigger] entry_sound_tree(ids@, defs@, e, *tree) && tree_refers(*tree, ids@[e], false) by {
                    lemma_entry_lift_to_tree(ids@, defs@, ids@, defs@, e, **int_to_switch_on, *tree);
                }
            }
            let mut k: usize = 0;
            while k < cases.len()
                invariant
                    *tree == (DecisionTree::Switch { int_to_switch_on: *int_to_switch_on, cases: *cases, else_case: *else_case }),
                    k <= cases@.len(),
                    ids@.no_duplicates(),
                    ids@.len() == defs@.len(),
                    old(ids)@.len() <= ids@.len(),
                    forall|k: int| 0 <= k < old(ids)@.len() ==> ids@[k] == old(ids)@[k] && defs@[k] == old(defs)@[k],
                    forall|x: DefinitionId| old(ids)@.contains(x) ==> #[trigger] ids@.contains(x),
                    forall|x: DefinitionId| start.contains(x) ==> #[trigger] ids@.contains(x),
                    forall|e: int| old(ids)@.len() <= e < ids@.len() ==> #[trigger] entry_sound_tree(ids@, defs@, e, *tree) && tree_refers(*tree, ids@[e], false),
                    forall|x: DefinitionId, j: int| 0 <= j < k && #[trigger] tree_refers(cases@[j].1, x, false) ==> ids@.contains(x),
                    visit_cases(cases@, 0, (start, derefs(start_defs))) == visit_cases(cases@, k as nat, (ids@, derefs(defs@))),
                decreases cases@.len() - k,
            {
                proof {
                    assert(decreases_to!(*cases => cases[k as int]));
                    assert(decreases_to!(cases[k as int] => cases[k as int].1));
                    assert((*tree)->cases == *cases);
                    assert(decreases_to!(*tree => (*tree)->cases));
                    assert(decreases_to!(*tree => cases[k as int].1));
                }
                let ghost ids_before = ids@;
                let ghost defs_before = defs@;
                schedule_tree(&cases[k].1, ids, defs);
                proof {
                    assert forall|e: int| old(ids)@.len() <= e < ids@.len() implies #[trigger] entry_sound_tree(ids@, defs@, e, *tree) && tree_refers(*tree, ids@[e], false) by {
                        if e < ids_before.len() {
                            assert(ids@[e] == ids_before[e]);
                            assert(entry_sound_tree(ids_before, defs_before, e, *tree));
                            lemma_tree_entry_lift(ids_before, defs_before, ids@, defs@, e, *tree, *tree);
                        } else {
                            assert(ids@[e] == ids@[e]);
                            assert(tree_refers(cases@[k as int].1, ids@[e], false));
                            assert(tree_refers(*tree, ids@[e], false));
                            lemma_tree_entry_lift(ids@, defs@, ids@, defs@, e, cases@[k as int].1, *tree);
                        }
                    }
                }
                k += 1;
            }
            let ghost after_cases = ids@;
            let ghost after_cases_defs = defs@;
            match else_case {
                Some(e) => {
                    schedule_tree(e, ids, defs);
                    proof {
                        assert forall|j: int| old(ids)@.len() <= j < ids@.len() implies #[trigger] entry_sound_tree(ids@, defs@, j, *tree) && tree_refers(*tree, ids@[j], false) by {
                            if j < after_cases.len() {
                                assert(ids@[j] == after_cases[j]);
                                assert(entry_sound_tree(after_cases, after_cases_defs, j, *tree));
                                lemma_tree_entry_lift(after_cases, after_cases_defs, ids@, defs@, j, *tree, *tree);
                            } else {
                                assert(ids@[j] == ids@[j]);
                                assert(tree_refers(**e, ids@[j], false));
                                assert(tree_refers(*tree, ids@[j], false));
                                lemma_tree_entry_lift(ids@, defs@, ids@, defs@, j, **e, *tree);
                            }
                        }
                    }
                },
                None => {},
            }
            assert forall|x: DefinitionId| tree_refers(*tree, x, false) implies #[trigger] ids@.contains(x) by {
                if refers(**int_to_switch_on, x, false) {
                    assert(start.contains(x));
                    assert(after_cases.contains(x));
                } else if exists|j: int| 0 <= j < cases.len() && tree_refers((#[trigger] cases@[j]).1, x, false) {
                    let j = choose|j: int| 0 <= j < cases.len() && tree_refers((#[trigger] cases@[j]).1, x, false);
                    assert(after_cases.contains(x));
                }
            }
        },
    }
}

proof fn lemma_distinct_within(ids: Seq<DefinitionId>, all: Seq<DefinitionId>)
    requires
        ids.no_duplicates(),
        forall|k: int| 0 <= k < ids.len() ==> all.contains(#[trigger] ids[k]),
    ensures
        ids.len() <= all.len(),
{
    ids.unique_seq_to_set();
    all.lemma_cardinality_of_set();
    assert forall|x: DefinitionId| ids.to_set().contains(x) implies all.to_set().contains(x) by {
        let k = choose|k: int| 0 <= k < ids.len() && ids[k] == x;
    }
    vstd::set_lib::lemma_len_subset(ids.to_set(), all.to_set());
}

spec fn shared_of(v: DefinitionInfo) -> Ast {
    *v.definition->0
}

/// Every id has at most one shared definition in `root`.
pub open spec fn one_definition_per_id(root: Ast) -> bool {
    forall|y: DefinitionId, d1: Ast, d2: Ast| #[trigger] shares(root, y, d1, true) && #[trigger] shares(root, y, d2, true) ==> d1 == d2
}

/// A listing that holds every shared definition that `a` refers to
/// directly, and that is closed, holds every one that `a` reaches.
proof fn lemma_listing_reaches(a: Ast, root: Ast, ids: Seq<DefinitionId>, defs: Seq<&Ast>, x: DefinitionId)
    requires
        ids.len() == defs.len(),
        forall|k: int, y: DefinitionId| 0 <= k < defs.len() && #[trigger] refers(*defs[k], y, false) ==> ids.contains(y),
        forall|k: int| 0 <= k < ids.len() ==> shares(root, #[trigger] ids[k], *defs[k], true),
        one_definition_per_id(root),
        forall|y: DefinitionId| refers(a, y, false) ==> #[trigger] ids.contains(y),
        forall|y: DefinitionId, e: Ast| shares(a, y, e, true) ==> #[trigger] shares(root, y, e, true),
        refers(a, x, true),
    ensures
        ids.contains(x),
    decreases a,
{
    match a {
        Ast::Literal(_) | Ast::Extern(_) | Ast::Builtin(_) => {},
        Ast::Variable(v) => {
            if v.definition_id != x {
                let d = shared_of(v);
                assert(refers(a, v.definition_id, false));
                assert(ids.contains(v.definition_id));
                let k = choose|k: int| 0 <= k < ids.len() && ids[k] == v.definition_id;
                assert(shares(a, v.definition_id, d, true));
                assert(shares(root, v.definition_id, d, true));
                assert(shares(root, v.definition_id, *defs[k], true));
                assert(d == *defs[k]);
                lemma_listing_reaches(d, root, ids, defs, x);
            }
        },
        Ast::Lambda(l) => {
            if exists|i: int| 0 <= i < l.args.len() && refers(#[trigger] l.args@[i], x, true) {
                let i = choose|i: int| 0 <= i < l.args.len() && refers(#[trigger] l.args@[i], x, true);
                    assert(decreases_to!(l.args => l.args[i]));
                    lemma_listing_reaches(l.args@[i], root, ids, defs, x);
            } else if refers(*l.body, x, true) {
                lemma_listing_reaches(*l.body, root, ids, defs, x);
            }
        },
        Ast::FunctionCall(c) => {
            if refers(*c.function, x, true) {
                lemma_listing_reaches(*c.function, root, ids, defs, x);
            } else if exists|i: int| 0 <= i < c.args.len() && refers(#[trigger] c.args@[i], x, true) {
                let i = choose|i: int| 0 <= i < c.args.len() && refers(#[trigger] c.args@[i], x, true);
                    assert(decreases_to!(c.args => c.args[i]));
                    lemma_listing_reaches(c.args@[i], root, ids, defs, x);
            }
        },
        Ast::Definition(d) => {
            if refers(*d.expr, x, true) {
                lemma_listing_reaches(*d.expr, root, ids, defs, x);
            }
        },
        Ast::If(If { condition, then: taken, otherwise }) => {
            if refers(*condition, x, true) {
                lemma_listing_reaches(*condition, root, ids, defs, x);
            } else if refers(*taken, x, true) {
                lemma_listing_reaches(*taken, root, ids, defs, x);
            } else if otherwise matches Some(o) && refers(*o, x, true) {
                lemma_listing_reaches(*otherwise->0, root, ids, defs, x);
            }
        },
        Ast::Match(m) => {
            if exists|i: int| 0 <= i < m.branches.len() && refers(#[trigger] m.branches@[i], x, true) {
                let i = choose|i: int| 0 <= i < m.branches.len() && refers(#[trigger] m.branches@[i], x, true);
                    assert(decreases_to!(m.branches => m.branches[i]));
                    lemma_listing_reaches(m.branches@[i], root, ids, defs, x);
            } else if tree_refers(m.decision_tree, x, true) {
                lemma_listing_reaches_tree(m.decision_tree, root, ids, defs, x);
            }
        },
        Ast::Return(r) => {
            if refers(*r.expression, x, true) {
                lemma_listing_reaches(*r.expression, root, ids, defs, x);
            }
        },
        Ast::Sequence(q) => {
            if exists|i: int| 0 <= i < q.statements.len() && refers(#[trigger] q.statements@[i], x, true) {
                let i = choose|i: int| 0 <= i < q.statements.len() && refers(#[trigger] q.statements@[i], x, true);
                    assert(decreases_to!(q.statements => q.statements[i]));
                    lemma_listing_reaches(q.statements@[i], root, ids, defs, x);
            }
        },
        Ast::Assignment(g) => {
            if refers(*g.lhs, x, true) {
                lemma_listing_reaches(*g.lhs, root, ids, defs, x);
            } else if refers(*g.rhs, x, true) {
                lemma_listing_reaches(*g.rhs, root, ids, defs, x);
            }
        },
        Ast::MemberAccess(m) => {
            if refers(*m.lhs, x, true) {
                lemma_listing_reaches(*m.lhs, root, ids, defs, x);
            }
        },
        Ast::Tuple(t) => {
            if exists|i: int| 0 <= i < t.fields.len() && refers(#[trigger] t.fields@[i], x, true) {
                let i = choose|i: int| 0 <= i < t.fields.len() && refers(#[trigger] t.fields@[i], x, true);
                    assert(decreases_to!(t.fields => t.fields[i]));
                    lemma_listing_reaches(t.fields@[i], root, ids, defs, x);
            }
        },
        Ast::ReinterpretCast(r) => {
            if refers(*r.lhs, x, true) {
                lemma_listing_reaches(*r.lhs, root, ids, defs, x);
            }
        },
    }
}

proof fn lemma_listing_reaches_tree(t: DecisionTree, root: Ast, ids: Seq<DefinitionId>, defs: Seq<&Ast>, x: DefinitionId)
    requires
        ids.len() == defs.len(),
        forall|k: int, y: DefinitionId| 0 <= k < defs.len() && #[trigger] refers(*defs[k], y, false) ==> ids.contains(y),
        forall|k: int| 0 <= k < ids.len() ==> shares(root, #[trigger] ids[k], *defs[k], true),
        one_definition_per_id(root),
        forall|y: DefinitionId| tree_refers(t, y, false) ==> #[trigger] ids.contains(y),
        forall|y: DefinitionId, e: Ast| tree_shares(t, y, e, true) ==> #[trigger] shares(root, y, e, true),
        tree_refers(t, x, true),
    ensures
        ids.contains(x),
    decreases t,
{
    match t {
        DecisionTree::Leaf(_) => {},
        DecisionTree::Definition(d, rest) => {
            if refers(*d.expr, x, true) {
                lemma_listing_reaches(*d.expr, root, ids, defs, x);
            } else if tree_refers(*rest, x, true) {
                lemma_listing_reaches_tree(*rest, root, ids, defs, x);
            }
        },
        DecisionTree::Switch { int_to_switch_on, cases, else_case } => {
            if refers(*int_to_switch_on, x, true) {
                lemma_listing_reaches(*int_to_switch_on, root, ids, defs, x);
            } else if exists|k: int| 0 <= k < cases.len() && tree_refers((#[trigger] cases@[k]).1, x, true) {
                let k = choose|k: int| 0 <= k < cases.len() && tree_refers((#[trigger] cases@[k]).1, x, true);
                    assert(decreases_to!(cases => cases[k]));
                    lemma_listing_reaches_tree(cases@[k].1, root, ids, defs, x);
            } else {
                lemma_listing_reaches_tree(*else_case->0, root, ids, defs, x);
            }
        },
    }
}

/// Entry `k` is met directly in `root` or in an earlier entry's definition.
pub open spec fn met_in_order(root: Ast, ids: Seq<DefinitionId>, defs: Seq<&Ast>, k: int) -> bool {
    ||| refers(root, ids[k], false)
    ||| exists|j: int| 0 <= j < k && #[trigger] refers(*defs[j], ids[k], false)
}

impl Ast {
    /// The shared definitions that printing this tree lists after it, with
    /// their ids: the tree is printed first, a variable only by its id, and
    /// each shared definition once, in the order in which printing first
    /// meets it, whatever number of variables share it and even where it
    /// refers to itself.
    ///
    /// The ids come exactly in the order that `listing` states. No id is
    /// listed twice; each listed definition is reached from the
    /// tree, and is met directly in the tree or in the definition of an
    /// earlier entry; and the listing is closed: every shared definition
    /// that the tree or a listed definition refers to is listed.
    pub fn definitions_to_print<'a>(&'a self) -> (r: (Vec<DefinitionId>, Vec<&'a Ast>))
        ensures
            r.0@.len() == r.1@.len(),
            r.0@.no_duplicates(),
            forall|k: int| 0 <= k < r.0@.len() ==> refers(*self, #[trigger] r.0@[k], true),
            forall|k: int| 0 <= k < r.0@.len() ==> shares(*self, #[trigger] r.0@[k], *r.1@[k], true),
            forall|k: int| 0 <= k < r.0@.len() ==> #[trigger] met_in_order(*self, r.0@, r.1@, k),
            r.0@ == listing(*self),
            forall|x: DefinitionId| refers(*self, x, false) ==> #[trigger] r.0@.contains(x),
            forall|k: int, x: DefinitionId| 0 <= k < r.1@.len() && #[trigger] refers(*r.1@[k], x, false) ==> r.0@.contains(x),
    {
        let mut all: Vec<DefinitionId> = Vec::new();
        collect_deep(self, &mut all);
        let mut ids: Vec<DefinitionId> = Vec::new();
        let mut defs: Vec<&'a Ast> = Vec::new();
        schedule(self, &mut ids, &mut defs);
        let ghost init = visit(*self, (Seq::empty(), Seq::empty()));
        proof {
            assert(derefs(Seq::<&Ast>::empty()) =~= Seq::<Ast>::empty());
        }
        let mut i: usize = 0;
        proof {
            assert forall|k: int| 0 <= k < ids@.len() implies all@.contains(#[trigger] ids@[k]) by {
                assert(entry_sound(ids@, defs@, k, *self));
            }
            assert forall|k: int| 0 <= k < ids@.len() implies #[trigger] met_in_order(*self, ids@, defs@, k) by {
                assert(ids@[k] == ids@[k]);
            }
            lemma_distinct_within(ids@, all@);
        }
        while i < ids.len()
            invariant
                i <= ids@.len(),
                ids@.len() <= all@.len(),
                ids@.no_duplicates(),
                ids@.len() == defs@.len(),
                forall|x: DefinitionId| refers(*self, x, true) ==> #[trigger] all@.contains(x),
                forall|k: int| 0 <= k < ids@.len() ==> #[trigger] entry_sound(ids@, defs@, k, *self),
                forall|k: int| 0 <= k < ids@.len() ==> #[trigger] met_in_order(*self, ids@, defs@, k),
                init == visit(*self, (Seq::empty(), Seq::empty())),
                forall|f: nat| #[trigger] drain((ids@, derefs(defs@)), i as nat, f) == drain(init, 0, (f + i) as nat),
                forall|f: nat| #[trigger] drained((ids@, derefs(defs@)), i as nat, f) == drained(init, 0, (f + i) as nat),
                forall|x: DefinitionId| refers(*self, x, false) ==> #[trigger] ids@.contains(x),
                forall|k: int, x: DefinitionId| 0 <= k < i && #[trigger] refers(*defs@[k], x, false) ==> ids@.contains(x),
            decreases all@.len() - i,
        {
            let d = defs[i];
            let ghost ids_before = ids@;
            let ghost defs_before = defs@;
            proof {
                assert(entry_sound(ids_before, defs_before, i as int, *self));
            }
            schedule(d, &mut ids, &mut defs);
            proof {
                assert((ids_before, derefs(defs_before)).1[i as int] == *d);
                assert forall|k: int| 0 <= k < ids@.len() implies #[trigger] entry_sound(ids@, defs@, k, *self) by {
                    if k < ids_before.len() {
                        lemma_entry_lift(ids_before, defs_before, ids@, defs@, k, *self, *self);
                    } else {
                        lemma_entry_lift(ids@, defs@, ids@, defs@, k, *d, *self);
                    }
                }
                assert forall|k: int| 0 <= k < ids@.len() implies #[trigger] met_in_order(*self, ids@, defs@, k) by {
                    if k < ids_before.len() {
                        assert(ids@[k] == ids_before[k]);
                        assert(met_in_order(*self, ids_before, defs_before, k));
                        if !refers(*self, ids@[k], false) {
                            let j = choose|j: int| 0 <= j < k && #[trigger] refers(*defs_before[j], ids_before[k], false);
                            assert(defs@[j] == defs_before[j]);
                        }
                    } else {
                        assert(ids@[k] == ids@[k]);
                        assert(defs@[i as int] == d);
                        assert(refers(*defs@[i as int], ids@[k], false));
                    }
                }
                assert forall|k: int, x: DefinitionId| 0 <= k < i + 1 && #[trigger] refers(*defs@[k], x, false) implies ids@.contains(x) by {
                    assert(defs@[k] == defs_before[k]);
                }
                assert forall|k: int| 0 <= k < ids@.len() implies all@.contains(#[trigger] ids@[k]) by {
                    assert(entry_sound(ids@, defs@, k, *self));
                }
                lemma_distinct_within(ids@, all@);
            }
            let ghost i0 = i as nat;
            i += 1;
            proof {
                let cur = (ids_before, derefs(defs_before));
                assert forall|f: nat| #[trigger] drain((ids@, derefs(defs@)), i as nat, f) == drain(init, 0, (f + i) as nat) by {
                    assert(drain(cur, i0, (f + 1) as nat) == drain(init, 0, (f + 1 + i0) as nat));
                    assert(drain(cur, i0, (f + 1) as nat) == drain((ids@, derefs(defs@)), i as nat, f));
                }
                assert forall|f: nat| #[trigger] drained((ids@, derefs(defs@)), i as nat, f) == drained(init, 0, (f + i) as nat) by {
                    assert(drained(cur, i0, (f + 1) as nat) == drained(init, 0, (f + 1 + i0) as nat));
                    assert(drained(cur, i0, (f + 1) as nat) == drained((ids@, derefs(defs@)), i as nat, f));
                }
            }
        }
        proof {
            let cur = (ids@, derefs(defs@));
            assert(drain(cur, i as nat, 0) == drain(init, 0, i as nat));
            assert(drained(cur, i as nat, 0) == drained(init, 0, i as nat));
            let f = choose|f: nat| drained(init, 0, f);
            lemma_drain_unique(init, 0, f, i as nat);
        }
        assert forall|k: int| 0 <= k < ids@.len() implies refers(*self, #[trigger] ids@[k], true) && shares(*self, ids@[k], *defs@[k], true) by {
            assert(entry_sound(ids@, defs@, k, *self));
        }
        (ids, defs)
    }
}

/// Where each id has one shared definition in the tree, the listing that
/// printing makes holds each shared definition that the tree reaches
/// exactly once, however many variables share it.
pub proof fn lemma_each_definition_listed_once<'a>(root: &'a Ast, r: (Vec<DefinitionId>, Vec<&'a Ast>), x: DefinitionId)
    requires
        Ast::definitions_to_print.ensures((root,), r),
        one_definition_per_id(*root),
        refers(*root, x, true),
    ensures
        exists|k: int|
            0 <= k < r.0@.len() && r.0@[k] == x && forall|j: int| 0 <= j < r.0@.len() && r.0@[j] == x ==> j == k,
{
    lemma_listing_reaches(*root, *root, r.0@, r.1@, x);
    let k = choose|k: int| 0 <= k < r.0@.len() && r.0@[k] == x;
    assert(forall|j: int| 0 <= j < r.0@.len() && r.0@[j] == x ==> j == k);
}

/// Printing a tree twice lists its shared definitions in the same order:
/// the listing depends on the tree alone.
pub proof fn lemma_listing_deterministic<'a>(
    root: &'a Ast,
    r1: (Vec<DefinitionId>, Vec<&'a Ast>),
    r2: (Vec<DefinitionId>, Vec<&'a Ast>),
)
    requires
        Ast::definitions_to_print.ensures((root,), r1),
        Ast::definitions_to_print.ensures((root,), r2),
    ensures
        r1.0@ == r2.0@,
{
}

} // verus!
