//! Compiling the rows of a pattern match into a decision tree.
//!
//! Each pattern has been flattened into tests of the form "discriminant
//! column `c` holds value `v`"; a column names the variable that holds one
//! discriminant of the scrutinee (an enum tag, a boolean, an integer).
//! Rows are tried in order and the first row whose tests all hold selects
//! its branch. The compiled tree switches on one column at a time and keeps
//! that first-match meaning.
use vstd::prelude::*;

use crate::hir::{Ast, DecisionTree, DefinitionId, DefinitionInfo, Match};

verus! {

broadcast use vstd::std_specs::vec::group_vec_axioms;

/// A discriminant of the scrutinee: the variable that holds it and, where
/// the values it can take are exactly `0..n`, that bound `n`.
#[derive(Debug, Copy, Clone)]
pub struct Column {
    pub variable: DefinitionId,
    pub arity: Option<u32>,
}

/// The condition "column `column` holds `value`".
#[derive(Debug, Copy, Clone, PartialEq, Eq, Structural)]
pub struct Test {
    pub column: usize,
    pub value: u32,
}

/// One flattened pattern: every test must hold for the row to select `branch`.
#[derive(Debug)]
pub struct Row {
    pub tests: Vec<Test>,
    pub branch: usize,
}

/// The rows as tests and branch indices.
pub open spec fn rows_view(rows: Seq<Row>) -> Seq<(Seq<Test>, usize)> {
    rows.map_values(|r: Row| (r.tests@, r.branch))
}

/// Every test names a column that exists.
pub open spec fn rows_valid(rows: Seq<(Seq<Test>, usize)>, n_columns: nat) -> bool {
    forall|i: int, t: Test| 0 <= i < rows.len() && #[trigger] rows[i].0.contains(t) ==> t.column < n_columns
}

/// Every discriminant with a known bound `n` has a value below `n`.
pub open spec fn valuation_fits(columns: Seq<Column>, value_of: spec_fn(DefinitionId) -> u32) -> bool {
    forall|c: int| 0 <= c < columns.len() ==> ((#[trigger] columns[c]).arity matches Some(n) ==> value_of(columns[c].variable) < n)
}

pub open spec fn test_holds(t: Test, columns: Seq<Column>, value_of: spec_fn(DefinitionId) -> u32) -> bool {
    t.column < columns.len() && value_of(columns[t.column as int].variable) == t.value
}

pub open spec fn row_matches(tests: Seq<Test>, columns: Seq<Column>, value_of: spec_fn(DefinitionId) -> u32) -> bool {
    forall|t: Test| #[trigger] tests.contains(t) ==> test_holds(t, columns, value_of)
}

/// The branch of the first row whose tests all hold, if any row's do.
pub open spec fn first_match(
    rows: Seq<(Seq<Test>, usize)>,
    columns: Seq<Column>,
    value_of: spec_fn(DefinitionId) -> u32,
) -> Option<usize>
    decreases rows.len(),
{
    if rows.len() == 0 {
        None
    } else if row_matches(rows[0].0, columns, value_of) {
        Some(rows[0].1)
    } else {
        first_match(rows.drop_first(), columns, value_of)
    }
}

/// The leaf that a decision tree reaches when each variable `x` holds
/// `value_of(x)`; `None` where it reaches none. A switch must be on a variable.
pub open spec fn reached(tree: DecisionTree, value_of: spec_fn(DefinitionId) -> u32) -> Option<DecisionTree>
    decreases tree,
{
    match tree {
        DecisionTree::Leaf(_) => Some(tree),
        DecisionTree::Definition(_, rest) => reached(*rest, value_of),
        DecisionTree::Switch { int_to_switch_on, cases, else_case } => {
            match *int_to_switch_on {
                Ast::Variable(v) => {
                    let x = value_of(v.definition_id);
                    if exists|k: int| 0 <= k < cases.len() && (#[trigger] cases@[k]).0 == x {
                        let k = choose|k: int| 0 <= k < cases.len() && (#[trigger] cases@[k]).0 == x;
                        reached(cases@[k].1, value_of)
                    } else {
                        match else_case {
                            Some(e) => reached(*e, value_of),
                            None => None,
                        }
                    }
                },
                _ => None,
            }
        },
    }
}

/// The branch index of the leaf that the tree reaches.
pub open spec fn eval(tree: DecisionTree, value_of: spec_fn(DefinitionId) -> u32) -> Option<usize> {
    match reached(tree, value_of) {
        Some(DecisionTree::Leaf(i)) => Some(i),
        _ => None,
    }
}

pub open spec fn eval_opt(tree: Option<DecisionTree>, value_of: spec_fn(DefinitionId) -> u32) -> Option<usize> {
    match tree {
        Some(t) => eval(t, value_of),
        None => None,
    }
}

/// The tests that are not on column `c`, in order.
pub open spec fn remove_column(tests: Seq<Test>, c: usize) -> Seq<Test>
    decreases tests.len(),
{
    if tests.len() == 0 {
        tests
    } else {
        let init = remove_column(tests.drop_last(), c);
        if tests.last().column != c {
            init.push(tests.last())
        } else {
            init
        }
    }
}

/// Every test on column `c` asks for `v`.
pub open spec fn agrees(tests: Seq<Test>, c: usize, v: u32) -> bool {
    forall|t: Test| #[trigger] tests.contains(t) && t.column == c ==> t.value == v
}

pub open spec fn no_test_on(tests: Seq<Test>, c: usize) -> bool {
    forall|t: Test| #[trigger] tests.contains(t) ==> t.column != c
}

/// The rows that can still match once column `c` is known to hold `v`,
/// without their tests on `c`.
pub open spec fn specialize(rows: Seq<(Seq<Test>, usize)>, c: usize, v: u32) -> Seq<(Seq<Test>, usize)>
    decreases rows.len(),
{
    if rows.len() == 0 {
        rows
    } else {
        let init = specialize(rows.drop_last(), c, v);
        if agrees(rows.last().0, c, v) {
            init.push((remove_column(rows.last().0, c), rows.last().1))
        } else {
            init
        }
    }
}

/// The rows that do not test column `c`.
pub open spec fn default_rows(rows: Seq<(Seq<Test>, usize)>, c: usize) -> Seq<(Seq<Test>, usize)>
    decreases rows.len(),
{
    if rows.len() == 0 {
        rows
    } else {
        let init = default_rows(rows.drop_last(), c);
        if no_test_on(rows.last().0, c) {
            init.push(rows.last())
        } else {
            init
        }
    }
}

/// Every row selects a branch index below `n`.
pub open spec fn branches_below(rows: Seq<(Seq<Test>, usize)>, n: nat) -> bool {
    forall|i: int| 0 <= i < rows.len() ==> (#[trigger] rows[i]).1 < n
}

/// Some row tests column `c` for value `v`.
pub open spec fn tested(rows: Seq<(Seq<Test>, usize)>, c: usize, v: u32) -> bool {
    exists|i: int| 0 <= i < rows.len() && #[trigger] rows[i].0.contains(Test { column: c, value: v })
}

/// A measure that shrinks with each column decided.
pub open spec fn size(rows: Seq<(Seq<Test>, usize)>) -> nat
    decreases rows.len(),
{
    if rows.len() == 0 {
        0
    } else {
        size(rows.drop_last()) + rows.last().0.len() + 1
    }
}

proof fn lemma_remove_column(tests: Seq<Test>, c: usize)
    ensures
        forall|t: Test| #[trigger] remove_column(tests, c).contains(t) <==> tests.contains(t) && t.column != c,
        remove_column(tests, c).len() <= tests.len(),
        !no_test_on(tests, c) ==> remove_column(tests, c).len() < tests.len(),
        no_test_on(tests, c) ==> remove_column(tests, c) == tests,
    decreases tests.len(),
{
    if tests.len() > 0 {
        let init = tests.drop_last();
        lemma_remove_column(init, c);
        assert(tests == init.push(tests.last()));
        let r = remove_column(tests, c);
        let ri = remove_column(init, c);
        assert forall|t: Test| #[trigger] r.contains(t) <==> tests.contains(t) && t.column != c by {
            if r.contains(t) {
                let k = choose|k: int| 0 <= k < r.len() && r[k] == t;
                if k < ri.len() {
                    assert(ri[k] == t);
                    assert(ri.contains(t));
                    let j = choose|j: int| 0 <= j < init.len() && init[j] == t;
                    assert(tests[j] == t);
                } else {
                    assert(tests[tests.len() - 1] == t);
                }
            }
            if tests.contains(t) && t.column != c {
                let k = choose|k: int| 0 <= k < tests.len() && tests[k] == t;
                if k < tests.len() - 1 {
                    assert(init[k] == t);
                    assert(ri.contains(t));
                    let j = choose|j: int| 0 <= j < ri.len() && ri[j] == t;
                    assert(r[j] == t);
                } else {
                    assert(r[r.len() - 1] == t);
                }
            }
        }
        if !no_test_on(tests, c) {
            let t = choose|t: Test| #[trigger] tests.contains(t) && t.column == c;
            let k = choose|k: int| 0 <= k < tests.len() && tests[k] == t;
            if k < tests.len() - 1 {
                assert(init[k] == t);
            }
        }
        if no_test_on(tests, c) {
            assert(tests.contains(tests.last()));
            assert forall|t: Test| #[trigger] init.contains(t) implies t.column != c by {
                let k = choose|k: int| 0 <= k < init.len() && init[k] == t;
                assert(tests[k] == t);
                assert(tests.contains(t));
            }
        }
    }
}

proof fn lemma_first_match_append(
    a: Seq<(Seq<Test>, usize)>,
    b: Seq<(Seq<Test>, usize)>,
    columns: Seq<Column>,
    value_of: spec_fn(DefinitionId) -> u32,
)
    ensures
        first_match(a + b, columns, value_of) == (match first_match(a, columns, value_of) {
            Some(i) => Some(i),
            None => first_match(b, columns, value_of),
        }),
    decreases a.len(),
{
    if a.len() > 0 {
        assert((a + b)[0] == a[0]);
        assert((a + b).drop_first() == a.drop_first() + b);
        lemma_first_match_append(a.drop_first(), b, columns, value_of);
    } else {
        assert(a + b == b);
    }
}

proof fn lemma_first_match_single(r: (Seq<Test>, usize), columns: Seq<Column>, value_of: spec_fn(DefinitionId) -> u32)
    ensures
        first_match(seq![r], columns, value_of) == (if row_matches(r.0, columns, value_of) {
            Some(r.1)
        } else {
            None
        }),
{
    let s = seq![r];
    assert(s[0] == r);
    assert(s.drop_first().len() == 0);
    assert(first_match(s.drop_first(), columns, value_of) == None::<usize>);
}

proof fn lemma_first_match_push(
    rows: Seq<(Seq<Test>, usize)>,
    r: (Seq<Test>, usize),
    columns: Seq<Column>,
    value_of: spec_fn(DefinitionId) -> u32,
)
    ensures
        first_match(rows.push(r), columns, value_of) == (match first_match(rows, columns, value_of) {
            Some(i) => Some(i),
            None => if row_matches(r.0, columns, value_of) {
                Some(r.1)
            } else {
                None
            },
        }),
{
    assert(rows.push(r) == rows + seq![r]);
    lemma_first_match_append(rows, seq![r], columns, value_of);
    lemma_first_match_single(r, columns, value_of);
}

/// Once column `c` is known to hold `x`, the specialized rows select what
/// the rows selected.
proof fn lemma_specialize_first_match(
    rows: Seq<(Seq<Test>, usize)>,
    c: usize,
    x: u32,
    columns: Seq<Column>,
    value_of: spec_fn(DefinitionId) -> u32,
)
    requires
        c < columns.len(),
        value_of(columns[c as int].variable) == x,
    ensures
        first_match(specialize(rows, c, x), columns, value_of) == first_match(rows, columns, value_of),
    decreases rows.len(),
{
    if rows.len() > 0 {
        let init = rows.drop_last();
        let last = rows.last();
        assert(rows == init.push(last));
        lemma_specialize_first_match(init, c, x, columns, value_of);
        lemma_first_match_push(init, last, columns, value_of);
        lemma_remove_column(last.0, c);
        let removed = remove_column(last.0, c);
        if agrees(last.0, c, x) {
            lemma_first_match_push(specialize(init, c, x), (removed, last.1), columns, value_of);
            if row_matches(removed, columns, value_of) {
                assert forall|t: Test| #[trigger] last.0.contains(t) implies test_holds(t, columns, value_of) by {
                    if t.column != c {
                        assert(removed.contains(t));
                    }
                }
            }
        } else {
            let t = choose|t: Test| #[trigger] last.0.contains(t) && t.column == c && t.value != x;
            assert(!test_holds(t, columns, value_of));
        }
    }
}

/// Where no row tests column `c` for `x`, the rows specialized to `x` are
/// the rows that do not test `c`.
proof fn lemma_specialize_untested(rows: Seq<(Seq<Test>, usize)>, c: usize, x: u32)
    requires
        !tested(rows, c, x),
    ensures
        specialize(rows, c, x) == default_rows(rows, c),
    decreases rows.len(),
{
    if rows.len() > 0 {
        let init = rows.drop_last();
        let last = rows.last();
        assert(!tested(init, c, x)) by {
            if tested(init, c, x) {
                let i = choose|i: int| 0 <= i < init.len() && #[trigger] init[i].0.contains(Test { column: c, value: x });
                assert(rows[i] == init[i]);
            }
        }
        lemma_specialize_untested(init, c, x);
        lemma_remove_column(last.0, c);
        if no_test_on(last.0, c) {
            assert(agrees(last.0, c, x));
        } else {
            let t = choose|t: Test| #[trigger] last.0.contains(t) && t.column == c;
            assert(rows[rows.len() - 1].0.contains(t));
            if t.value == x {
                assert(t == (Test { column: c, value: x }));
            }
            assert(!agrees(last.0, c, x));
        }
    }
}

proof fn lemma_default_within_specialize(rows: Seq<(Seq<Test>, usize)>, c: usize, x: u32)
    ensures
        default_rows(rows, c).len() <= specialize(rows, c, x).len(),
    decreases rows.len(),
{
    if rows.len() > 0 {
        lemma_default_within_specialize(rows.drop_last(), c, x);
    }
}

proof fn lemma_size(rows: Seq<(Seq<Test>, usize)>, c: usize, x: u32)
    ensures
        size(specialize(rows, c, x)) <= size(rows),
        size(default_rows(rows, c)) <= size(rows),
        rows.len() > 0 && !no_test_on(rows[0].0, c) ==> size(specialize(rows, c, x)) < size(rows),
        rows.len() > 0 && !no_test_on(rows[0].0, c) ==> size(default_rows(rows, c)) < size(rows),
    decreases rows.len(),
{
    if rows.len() > 0 {
        let init = rows.drop_last();
        let last = rows.last();
        lemma_size(init, c, x);
        lemma_remove_column(last.0, c);
        let si = specialize(init, c, x);
        let di = default_rows(init, c);
        let p = (remove_column(last.0, c), last.1);
        assert(si.push(p).drop_last() == si);
        assert(di.push(last).drop_last() == di);
        if rows.len() > 1 {
            assert(init[0] == rows[0]);
        }
    }
}

proof fn lemma_rows_valid(rows: Seq<(Seq<Test>, usize)>, c: usize, x: u32, n: nat)
    requires
        rows_valid(rows, n),
    ensures
        rows_valid(specialize(rows, c, x), n),
        rows_valid(default_rows(rows, c), n),
        forall|b: nat| #[trigger] branches_below(rows, b) ==> branches_below(specialize(rows, c, x), b) && branches_below(default_rows(rows, c), b),
    decreases rows.len(),
{
    if rows.len() > 0 {
        let init = rows.drop_last();
        let last = rows.last();
        assert forall|b: nat| #[trigger] branches_below(rows, b) implies branches_below(init, b) by {
            assert forall|i: int| 0 <= i < init.len() implies (#[trigger] init[i]).1 < b by {
                assert(rows[i] == init[i]);
            }
        }
        assert forall|i: int, t: Test| 0 <= i < init.len() && #[trigger] init[i].0.contains(t) implies t.column < n by {
            assert(rows[i] == init[i]);
        }
        lemma_rows_valid(init, c, x, n);
        lemma_remove_column(last.0, c);
        assert(rows[rows.len() - 1] == last);
    }
}

fn remove_column_exec(tests: &Vec<Test>, c: usize) -> (r: Vec<Test>)
    ensures
        r@ == remove_column(tests@, c),
{
    let mut r: Vec<Test> = Vec::new();
    let mut i: usize = 0;
    while i < tests.len()
        invariant
            i <= tests.len(),
            r@ == remove_column(tests@.take(i as int), c),
        decreases tests.len() - i,
    {
        assert(tests@.take(i + 1).drop_last() == tests@.take(i as int));
        if tests[i].column != c {
            r.push(tests[i]);
        }
        i += 1;
    }
    assert(tests@.take(i as int) == tests@);
    r
}

fn agrees_exec(tests: &Vec<Test>, c: usize, v: u32) -> (r: bool)
    ensures
        r == agrees(tests@, c, v),
{
    let mut i: usize = 0;
    while i < tests.len()
        invariant
            i <= tests.len(),
            forall|k: int| 0 <= k < i && tests@[k].column == c ==> tests@[k].value == v,
        decreases tests.len() - i,
    {
        if tests[i].column == c && tests[i].value != v {
            assert(tests@.contains(tests@[i as int]));
            return false;
        }
        i += 1;
    }
    assert forall|t: Test| #[trigger] tests@.contains(t) && t.column == c implies t.value == v by {
        let k = choose|k: int| 0 <= k < tests.len() && tests@[k] == t;
    }
    true
}

fn no_test_on_exec(tests: &Vec<Test>, c: usize) -> (r: bool)
    ensures
        r == no_test_on(tests@, c),
{
    let mut i: usize = 0;
    while i < tests.len()
        invariant
            i <= tests.len(),
            forall|k: int| 0 <= k < i ==> tests@[k].column != c,
        decreases tests.len() - i,
    {
        if tests[i].column == c {
            assert(tests@.contains(tests@[i as int]));
            return false;
        }
        i += 1;
    }
    assert forall|t: Test| #[trigger] tests@.contains(t) implies t.column != c by {
        let k = choose|k: int| 0 <= k < tests.len() && tests@[k] == t;
    }
    true
}

proof fn lemma_rows_view_push(rows: Seq<Row>, r: Row)
    ensures
        rows_view(rows.push(r)) == rows_view(rows).push((r.tests@, r.branch)),
{
    assert(rows_view(rows.push(r)) =~= rows_view(rows).push((r.tests@, r.branch)));
}

proof fn lemma_rows_view_take(rows: Seq<Row>, i: int)
    requires
        0 <= i < rows.len(),
    ensures
        rows_view(rows).take(i + 1).drop_last() == rows_view(rows).take(i),
        rows_view(rows).take(i + 1).last() == (rows[i].tests@, rows[i].branch),
{
    assert(rows_view(rows).take(i + 1).drop_last() =~= rows_view(rows).take(i));
}

/// The rows that can still match once column `c` holds `v`, without their tests on `c`.
fn specialize_rows(rows: &Vec<Row>, c: usize, v: u32) -> (r: Vec<Row>)
    ensures
        rows_view(r@) == specialize(rows_view(rows@), c, v),
{
    let mut r: Vec<Row> = Vec::new();
    let mut i: usize = 0;
    while i < rows.len()
        invariant
            i <= rows.len(),
            rows_view(r@) == specialize(rows_view(rows@).take(i as int), c, v),
        decreases rows.len() - i,
    {
        proof {
            lemma_rows_view_take(rows@, i as int);
        }
        if agrees_exec(&rows[i].tests, c, v) {
            let row = Row { tests: remove_column_exec(&rows[i].tests, c), branch: rows[i].branch };
            proof {
                lemma_rows_view_push(r@, row);
            }
            r.push(row);
        }
        i += 1;
    }
    assert(rows_view(rows@).take(i as int) == rows_view(rows@));
    r
}

/// The rows that do not test column `c`.
fn default_rows_exec(rows: &Vec<Row>, c: usize) -> (r: Vec<Row>)
    ensures
        rows_view(r@) == default_rows(rows_view(rows@), c),
{
    let mut r: Vec<Row> = Vec::new();
    let mut i: usize = 0;
    while i < rows.len()
        invariant
            i <= rows.len(),
            rows_view(r@) == default_rows(rows_view(rows@).take(i as int), c),
        decreases rows.len() - i,
    {
        proof {
            lemma_rows_view_take(rows@, i as int);
        }
        if no_test_on_exec(&rows[i].tests, c) {
            let row = Row { tests: remove_column_exec(&rows[i].tests, c), branch: rows[i].branch };
            proof {
                lemma_remove_column(rows@[i as int].tests@, c);
                lemma_rows_view_push(r@, row);
            }
            r.push(row);
        }
        i += 1;
    }
    assert(rows_view(rows@).take(i as int) == rows_view(rows@));
    r
}

fn contains_value(values: &Vec<u32>, v: u32) -> (r: bool)
    ensures
        r == values@.contains(v),
{
    let mut i: usize = 0;
    while i < values.len()
        invariant
            i <= values.len(),
            forall|k: int| 0 <= k < i ==> values@[k] != v,
        decreases values.len() - i,
    {
        if values[i] == v {
            return true;
        }
        i += 1;
    }
    false
}

/// The distinct values that the rows test column `c` for, in order of first appearance.
fn column_values(rows: &Vec<Row>, c: usize) -> (values: Vec<u32>)
    ensures
        values@.no_duplicates(),
        forall|v: u32| #[trigger] values@.contains(v) <==> tested(rows_view(rows@), c, v),
{
    let ghost rv = rows_view(rows@);
    let mut values: Vec<u32> = Vec::new();
    let mut i: usize = 0;
    while i < rows.len()
        invariant
            i <= rows.len(),
            rv == rows_view(rows@),
            values@.no_duplicates(),
            forall|v: u32| #[trigger] values@.contains(v) <==> exists|m: int| 0 <= m < i && #[trigger] rv[m].0.contains(Test { column: c, value: v }),
        decreases rows.len() - i,
    {
        let tests = &rows[i].tests;
        assert(rv[i as int].0 == tests@);
        let mut k: usize = 0;
        while k < tests.len()
            invariant
                i < rows.len(),
                k <= tests.len(),
                tests@ == rv[i as int].0,
                rv == rows_view(rows@),
                values@.no_duplicates(),
                forall|v: u32| #[trigger] values@.contains(v) <==> (
                    (exists|m: int| 0 <= m < i && #[trigger] rv[m].0.contains(Test { column: c, value: v }))
                    || (exists|j: int| 0 <= j < k && tests@[j] == (Test { column: c, value: v }))),
            decreases tests.len() - k,
        {
            let t = tests[k];
            let ghost before = values@;
            if t.column == c && !contains_value(&values, t.value) {
                values.push(t.value);
                proof {
                    assert forall|w: u32| #[trigger] values@.contains(w) <==> (before.contains(w) || w == t.value) by {
                        if values@.contains(w) {
                            let idx = choose|idx: int| 0 <= idx < values@.len() && values@[idx] == w;
                            if idx < before.len() {
                                assert(before[idx] == w);
                            }
                        }
                        if before.contains(w) {
                            let idx = choose|idx: int| 0 <= idx < before.len() && before[idx] == w;
                            assert(values@[idx] == w);
                        }
                        if w == t.value {
                            assert(values@[values@.len() - 1] == w);
                        }
                    }
                }
            }
            proof {
                assert forall|v: u32| #[trigger] values@.contains(v) <==> (
                    (exists|m: int| 0 <= m < i && #[trigger] rv[m].0.contains(Test { column: c, value: v }))
                    || (exists|j: int| 0 <= j < k + 1 && tests@[j] == (Test { column: c, value: v }))) by {
                    if t.column == c && t.value == v {
                        assert(tests@[k as int] == (Test { column: c, value: v }));
                    }
                    if exists|j: int| 0 <= j < k + 1 && tests@[j] == (Test { column: c, value: v }) {
                        let j = choose|j: int| 0 <= j < k + 1 && tests@[j] == (Test { column: c, value: v });
                        if j < k {
                            assert(before.contains(v));
                        }
                    }
                }
            }
            k += 1;
        }
        assert forall|v: u32| #[trigger] values@.contains(v) <==> exists|m: int| 0 <= m < i + 1 && #[trigger] rv[m].0.contains(Test { column: c, value: v }) by {
            if values@.contains(v) {
                if exists|j: int| 0 <= j < k && tests@[j] == (Test { column: c, value: v }) {
                    let j = choose|j: int| 0 <= j < k && tests@[j] == (Test { column: c, value: v });
                    assert(rv[i as int].0.contains(Test { column: c, value: v }));
                }
            }
            if exists|m: int| 0 <= m < i + 1 && #[trigger] rv[m].0.contains(Test { column: c, value: v }) {
                let m = choose|m: int| 0 <= m < i + 1 && #[trigger] rv[m].0.contains(Test { column: c, value: v });
                if m == i {
                    let j = choose|j: int| 0 <= j < tests.len() && tests@[j] == (Test { column: c, value: v });
                }
            }
        }
        i += 1;
    }
    values
}

/// Whether `values` holds every value below `n`.
fn covers(values: &Vec<u32>, n: u32) -> (r: bool)
    ensures
        r == forall|u: u32| u < n ==> #[trigger] values@.contains(u),
{
    let mut u: u32 = 0;
    while u < n
        invariant
            u <= n,
            forall|w: u32| w < u ==> #[trigger] values@.contains(w),
        decreases n - u,
    {
        if !contains_value(values, u) {
            return false;
        }
        u += 1;
    }
    true
}

/// Column `c` is known to take only values below some `n`, and the rows
/// test it for each of them.
pub open spec fn covered(columns: Seq<Column>, rows: Seq<(Seq<Test>, usize)>, c: usize) -> bool {
    columns[c as int].arity matches Some(n) && forall|u: u32| u < n ==> #[trigger] tested(rows, c, u)
}

/// `tree` is the decision tree compiled from `rows`.
///
/// Where the first row has no test, it is `Leaf` of that row's branch.
/// Otherwise it switches on the variable of the column `c` of the first
/// row's first test. It has one case for each value `v` that the rows test
/// `c` for and that some row can still match, whose tree is compiled from
/// `specialize(rows, c, v)`. Its else case is compiled from the rows that
/// do not test `c`; it is left out exactly where the cases cover every
/// value `c` can take, or where every row tests `c`.
pub open spec fn shaped(tree: DecisionTree, columns: Seq<Column>, rows: Seq<(Seq<Test>, usize)>) -> bool
    decreases size(rows),
    via shaped_decreases
{
    if rows.len() == 0 {
        false
    } else if rows[0].0.len() == 0 {
        tree == DecisionTree::Leaf(rows[0].1)
    } else {
        let c = rows[0].0[0].column;
        match tree {
            DecisionTree::Switch { int_to_switch_on, cases, else_case } => {
                &&& *int_to_switch_on == Ast::Variable(
                    DefinitionInfo { definition: None, definition_id: columns[c as int].variable },
                )
                &&& forall|k1: int, k2: int|
                    0 <= k1 < cases.len() && 0 <= k2 < cases.len() && k1 != k2 ==> (#[trigger] cases@[k1]).0
                        != (#[trigger] cases@[k2]).0
                &&& forall|v: u32|
                    (exists|k: int| 0 <= k < cases.len() && (#[trigger] cases@[k]).0 == v) <==> (tested(rows, c, v)
                        && #[trigger] specialize(rows, c, v).len() > 0)
                &&& forall|k: int|
                    0 <= k < cases.len() ==> shaped(
                        (#[trigger] cases@[k]).1,
                        columns,
                        specialize(rows, c, cases@[k].0),
                    )
                &&& (else_case is None <==> (covered(columns, rows, c) || default_rows(rows, c).len() == 0))
                &&& (else_case matches Some(e) ==> shaped(*e, columns, default_rows(rows, c)))
            },
            _ => false,
        }
    }
}

#[via_fn]
proof fn shaped_decreases(tree: DecisionTree, columns: Seq<Column>, rows: Seq<(Seq<Test>, usize)>) {
    if rows.len() > 0 && rows[0].0.len() > 0 {
        let c = rows[0].0[0].column;
        assert(rows[0].0.contains(rows[0].0[0]));
        assert forall|v: u32| #[trigger] size(specialize(rows, c, v)) < size(rows) by {
            lemma_size(rows, c, v);
        }
        lemma_size(rows, c, 0);
    }
}

/// Compiles match rows into a decision tree.
///
/// The tree has the shape that `shaped` states: it switches on the column
/// of the first row's first test, with one case per value that the rows
/// test that column for (listed in order of first appearance), and an else
/// case built from the rows that do not test it; the else case is left out
/// where the cases cover every value the column can take, or where no row
/// leaves the column untested. Where the first row has no test left it
/// wins outright.
///
/// For every valuation of the discriminants the tree selects exactly the
/// branch of the first row that matches, or nothing where no row matches.
/// Returns `None` for no rows.
pub fn build_decision_tree(columns: &Vec<Column>, rows: &Vec<Row>) -> (r: Option<DecisionTree>)
    requires
        rows_valid(rows_view(rows@), columns@.len()),
    ensures
        r is None <==> rows@.len() == 0,
        forall|value_of: spec_fn(DefinitionId) -> u32|
            valuation_fits(columns@, value_of) ==> #[trigger] eval_opt(r, value_of) == first_match(
                rows_view(rows@),
                columns@,
                value_of,
            ),
        forall|n: nat| #[trigger] branches_below(rows_view(rows@), n) ==> (r matches Some(t) ==> t.leaves_below(n)),
        r matches Some(t) ==> shaped(t, columns@, rows_view(rows@)),
    decreases size(rows_view(rows@)),
{
    let ghost rv = rows_view(rows@);
    if rows.len() == 0 {
        return None;
    }
    assert(rv[0] == (rows@[0].tests@, rows@[0].branch));
    if rows[0].tests.len() == 0 {
        assert(row_matches(rv[0].0, columns@, |x: DefinitionId| 0u32)) by {}
        let tree = DecisionTree::Leaf(rows[0].branch);
        assert forall|value_of: spec_fn(DefinitionId) -> u32|
            valuation_fits(columns@, value_of) implies #[trigger] eval_opt(Some(tree), value_of) == first_match(
            rv,
            columns@,
            value_of,
        ) by {
            assert(row_matches(rv[0].0, columns@, value_of));
        }
        assert(forall|n: nat| #[trigger] branches_below(rv, n) ==> tree.leaves_below(n));
        assert(shaped(tree, columns@, rv));
        return Some(tree);
    }
    let c = rows[0].tests[0].column;
    assert(rv[0].0.contains(rv[0].0[0]));
    assert(c < columns.len());
    let values = column_values(rows, c);
    let mut cases: Vec<(u32, DecisionTree)> = Vec::new();
    let mut j: usize = 0;
    while j < values.len()
        invariant
            j <= values.len(),
            rv == rows_view(rows@),
            rows_valid(rv, columns@.len()),
            rv.len() > 0 && !no_test_on(rv[0].0, c),
            values@.no_duplicates(),
            forall|k1: int, k2: int|
                0 <= k1 < cases@.len() && 0 <= k2 < cases@.len() && k1 != k2 ==> (#[trigger] cases@[k1]).0
                    != (#[trigger] cases@[k2]).0,
            forall|k: int|
                0 <= k < cases@.len() ==> exists|m: int| 0 <= m < j && values@[m] == (#[trigger] cases@[k]).0,
            forall|m: int|
                0 <= m < j ==> (exists|k: int| 0 <= k < cases@.len() && (#[trigger] cases@[k]).0 == values@[m])
                    || specialize(rv, c, #[trigger] values@[m]).len() == 0,
            forall|k: int, value_of: spec_fn(DefinitionId) -> u32|
                0 <= k < cases@.len() && valuation_fits(columns@, value_of) ==> #[trigger] eval(cases@[k].1, value_of)
                    == first_match(specialize(rv, c, cases@[k].0), columns@, value_of),
            forall|k: int, n: nat|
                0 <= k < cases@.len() && #[trigger] branches_below(rv, n) ==> (#[trigger] cases@[k]).1.leaves_below(n),
            forall|k: int|
                0 <= k < cases@.len() ==> shaped((#[trigger] cases@[k]).1, columns@, specialize(rv, c, cases@[k].0))
                    && specialize(rv, c, cases@[k].0).len() > 0,
        decreases values.len() - j,
    {
        let v = values[j];
        let sub = specialize_rows(rows, c, v);
        proof {
            lemma_size(rv, c, v);
            lemma_rows_valid(rv, c, v, columns@.len() as nat);
        }
        let built = build_decision_tree(columns, &sub);
        match built {
            Some(t) => {
                let ghost before = cases@;
                cases.push((v, t));
                proof {
                    assert forall|k: int| 0 <= k < before.len() implies (#[trigger] cases@[k]).0 != v by {
                        let m = choose|m: int| 0 <= m < j && values@[m] == before[k].0;
                        assert(cases@[k] == before[k]);
                    }
                    assert(cases@[before.len() as int].0 == values@[j as int]);
                    assert(rows_view(sub@).len() == sub@.len());
                    assert forall|k: int|
                        0 <= k < cases@.len() implies shaped((#[trigger] cases@[k]).1, columns@, specialize(rv, c, cases@[k].0))
                            && specialize(rv, c, cases@[k].0).len() > 0 by {
                        if k < before.len() {
                            assert(cases@[k] == before[k]);
                        }
                    }
                    assert forall|k: int, n: nat|
                        0 <= k < cases@.len() && #[trigger] branches_below(rv, n) implies (#[trigger] cases@[k]).1.leaves_below(n) by {
                        if k < before.len() {
                            assert(cases@[k] == before[k]);
                        } else {
                            assert(branches_below(rows_view(sub@), n));
                        }
                    }
                    assert forall|k: int, value_of: spec_fn(DefinitionId) -> u32|
                        0 <= k < cases@.len() && valuation_fits(columns@, value_of) implies #[trigger] eval(cases@[k].1, value_of)
                            == first_match(specialize(rv, c, cases@[k].0), columns@, value_of) by {
                        if k < before.len() {
                            assert(cases@[k] == before[k]);
                        } else {
                            assert(eval_opt(Some(t), value_of) == eval(t, value_of));
                        }
                    }
                    assert forall|m: int| 0 <= m < j + 1 implies (exists|k: int| 0 <= k < cases@.len() && (#[trigger] cases@[k]).0 == values@[m])
                            || specialize(rv, c, #[trigger] values@[m]).len() == 0 by {
                        if m < j {
                            if exists|k: int| 0 <= k < before.len() && (#[trigger] before[k]).0 == values@[m] {
                                let k = choose|k: int| 0 <= k < before.len() && (#[trigger] before[k]).0 == values@[m];
                                assert(cases@[k] == before[k]);
                            }
                        } else {
                            assert(cases@[before.len() as int].0 == values@[m]);
                        }
                    }
                    assert forall|k: int| 0 <= k < cases@.len() implies exists|m: int| 0 <= m < j + 1 && values@[m] == (#[trigger] cases@[k]).0 by {
                        if k < before.len() {
                            assert(cases@[k] == before[k]);
                            let m = choose|m: int| 0 <= m < j && values@[m] == before[k].0;
                        } else {
                            assert(values@[j as int] == cases@[k].0);
                        }
                    }
                }
            },
            None => {},
        }
        j += 1;
    }
    let exhaustive = match columns[c].arity {
        Some(n) => covers(&values, n),
        None => false,
    };
    let mut else_case: Option<Box<DecisionTree>> = None;
    let ghost default_view = default_rows(rv, c);
    if !exhaustive {
        let d = default_rows_exec(rows, c);
        proof {
            lemma_size(rv, c, 0);
            lemma_rows_valid(rv, c, 0, columns@.len() as nat);
        }
        match build_decision_tree(columns, &d) {
            Some(t) => {
                else_case = Some(Box::new(t));
                assert(shaped(t, columns@, default_view));
                assert(rows_view(d@).len() == d@.len());
                assert forall|value_of: spec_fn(DefinitionId) -> u32|
                    valuation_fits(columns@, value_of) implies #[trigger] eval(t, value_of) == first_match(
                    default_view,
                    columns@,
                    value_of,
                ) by {
                    assert(eval_opt(Some(t), value_of) == eval(t, value_of));
                }
            },
            None => {
                assert(rows_view(d@).len() == d@.len());
                assert(default_view.len() == 0);
            },
        }
    }
    assert(!exhaustive && else_case is None ==> default_view.len() == 0);
    assert(!exhaustive && else_case is Some ==> forall|value_of: spec_fn(DefinitionId) -> u32|
        valuation_fits(columns@, value_of) ==> #[trigger] eval(*else_case->0, value_of) == first_match(
        default_view,
        columns@,
        value_of,
    ));
    let ghost else_view = else_case;
    assert(!exhaustive && else_case is Some ==> default_view.len() > 0 && shaped(*else_case->0, columns@, default_view));
    proof {
        assert(exhaustive <==> covered(columns@, rv, c)) by {
            if columns@[c as int].arity is Some {
                let n = columns@[c as int].arity->0;
                assert forall|u: u32| u < n implies (#[trigger] values@.contains(u) <==> tested(rv, c, u)) by {}
                if forall|u: u32| u < n ==> #[trigger] tested(rv, c, u) {
                    assert forall|u: u32| u < n implies #[trigger] values@.contains(u) by {
                        assert(tested(rv, c, u));
                    }
                }
                if forall|u: u32| u < n ==> #[trigger] values@.contains(u) {
                    assert forall|u: u32| u < n implies #[trigger] tested(rv, c, u) by {
                        assert(values@.contains(u));
                    }
                }
                assert((forall|u: u32| u < n ==> #[trigger] values@.contains(u)) <==> (forall|u: u32|
                    u < n ==> #[trigger] tested(rv, c, u)));
            }
        }
    }
    assert(forall|n: nat| #[trigger] branches_below(rv, n) && else_case is Some ==> else_case->0.leaves_below(n));
    let ghost cv = cases@;
    let tree = DecisionTree::Switch {
        int_to_switch_on: Box::new(Ast::Variable(DefinitionInfo { definition: None, definition_id: columns[c].variable })),
        cases,
        else_case,
    };
    assert forall|value_of: spec_fn(DefinitionId) -> u32|
        valuation_fits(columns@, value_of) implies #[trigger] eval_opt(Some(tree), value_of) == first_match(
        rv,
        columns@,
        value_of,
    ) by {
        let x = value_of(columns@[c as int].variable);
        lemma_specialize_first_match(rv, c, x, columns@, value_of);
        assert(tree matches DecisionTree::Switch { int_to_switch_on, cases, else_case }
            && cases@ == cv && else_case == else_view
            && *int_to_switch_on == Ast::Variable(DefinitionInfo { definition: None, definition_id: columns@[c as int].variable }));
        if exists|k: int| 0 <= k < cv.len() && (#[trigger] cv[k]).0 == x {
            let k = choose|k: int| 0 <= k < cv.len() && (#[trigger] cv[k]).0 == x;
            assert(eval(cv[k].1, value_of) == first_match(specialize(rv, c, cv[k].0), columns@, value_of));
            assert(eval(tree, value_of) == eval(cv[k].1, value_of));
        } else {
            assert(eval(tree, value_of) == match else_view {
                Some(e) => eval(*e, value_of),
                None => None,
            });
            if values@.contains(x) {
                let m = choose|m: int| 0 <= m < values@.len() && values@[m] == x;
                assert(specialize(rv, c, values@[m]).len() == 0);
                lemma_default_within_specialize(rv, c, x);
                assert(first_match(specialize(rv, c, x), columns@, value_of) == None::<usize>);
                if else_view is Some {
                    assert(default_view.len() == 0);
                    assert(default_view =~= Seq::<(Seq<Test>, usize)>::empty());
                    assert(first_match(default_view, columns@, value_of) == None::<usize>);
                }
            } else {
                lemma_specialize_untested(rv, c, x);
                if exhaustive {
                    assert(valuation_fits(columns@, value_of));
                    assert(columns@[c as int].arity matches Some(n) && x < n);
                    assert(values@.contains(x));
                }
                if else_view is None {
                    assert(first_match(default_view, columns@, value_of) == None::<usize>);
                }
            }
        }
    }
    assert forall|n: nat| #[trigger] branches_below(rv, n) implies tree.leaves_below(n) by {
        assert(forall|k: int| 0 <= k < cv.len() ==> (#[trigger] cv[k]).1.leaves_below(n));
    }
    assert(shaped(tree, columns@, rv)) by {
        assert forall|v: u32|
            (exists|k: int| 0 <= k < cv.len() && (#[trigger] cv[k]).0 == v) <==> (tested(rv, c, v)
                && #[trigger] specialize(rv, c, v).len() > 0) by {
            if exists|k: int| 0 <= k < cv.len() && (#[trigger] cv[k]).0 == v {
                let k = choose|k: int| 0 <= k < cv.len() && (#[trigger] cv[k]).0 == v;
                let m = choose|m: int| 0 <= m < values@.len() && values@[m] == cv[k].0;
                assert(values@.contains(v));
            }
            if tested(rv, c, v) && specialize(rv, c, v).len() > 0 {
                assert(values@.contains(v));
                let m = choose|m: int| 0 <= m < values@.len() && values@[m] == v;
                assert(specialize(rv, c, values@[m]).len() > 0);
            }
        }
        assert(forall|k: int|
            0 <= k < cv.len() ==> shaped((#[trigger] cv[k]).1, columns@, specialize(rv, c, cv[k].0)));
    }
    Some(tree)
}

/// Compiles a match: its branch bodies and the rows that select them.
/// Every leaf of the tree names one of `branches`, and under every
/// valuation the tree selects the first matching row's branch.
pub fn compile_match(branches: Vec<Ast>, columns: &Vec<Column>, rows: &Vec<Row>) -> (r: Option<Match>)
    requires
        rows_valid(rows_view(rows@), columns@.len()),
        branches_below(rows_view(rows@), branches@.len() as nat),
    ensures
        r is None <==> rows@.len() == 0,
        r matches Some(m) ==> m.wf() && m.branches@ == branches@ && shaped(m.decision_tree, columns@, rows_view(rows@)),
        r matches Some(m) ==> forall|value_of: spec_fn(DefinitionId) -> u32|
            valuation_fits(columns@, value_of) ==> #[trigger] eval(m.decision_tree, value_of) == first_match(
                rows_view(rows@),
                columns@,
                value_of,
            ),
{
    match build_decision_tree(columns, rows) {
        Some(decision_tree) => {
            let ghost t = decision_tree;
            assert forall|value_of: spec_fn(DefinitionId) -> u32|
                valuation_fits(columns@, value_of) implies #[trigger] eval(t, value_of) == first_match(
                rows_view(rows@),
                columns@,
                value_of,
            ) by {
                assert(eval_opt(Some(t), value_of) == eval(t, value_of));
            }
            Some(Match { branches, decision_tree })
        },
        None => None,
    }
}

/// Rows whose first match under two valuations selects the same branch
/// lead, in the compiled tree, to one and the same leaf node `Leaf(i)`: a
/// branch that several paths select is referred to by its index at each of
/// them, and its body is never copied.
pub proof fn lemma_same_branch_same_leaf(
    columns: &Vec<Column>,
    rows: &Vec<Row>,
    tree: Option<DecisionTree>,
    value_of1: spec_fn(DefinitionId) -> u32,
    value_of2: spec_fn(DefinitionId) -> u32,
)
    requires
        rows_valid(rows_view(rows@), columns@.len()),
        build_decision_tree.ensures((columns, rows), tree),
        valuation_fits(columns@, value_of1),
        valuation_fits(columns@, value_of2),
        first_match(rows_view(rows@), columns@, value_of1) is Some,
        first_match(rows_view(rows@), columns@, value_of1) == first_match(rows_view(rows@), columns@, value_of2),
    ensures
        tree matches Some(t) && reached(t, value_of1) == reached(t, value_of2) && reached(t, value_of1) == Some(
            DecisionTree::Leaf(first_match(rows_view(rows@), columns@, value_of1)->0),
        ),
{
    assert(eval_opt(tree, value_of1) == first_match(rows_view(rows@), columns@, value_of1));
    assert(eval_opt(tree, value_of2) == first_match(rows_view(rows@), columns@, value_of2));
}

} // verus!
