//! The HIR node types and their well-formedness.
//!
//! Compared with the source-level tree, this one has no generic types, no
//! trait calls and no pattern-match sugar. Every binding is a single
//! identifier; a match holds its branch bodies and one decision tree.
use std::rc::Rc;
use vstd::prelude::*;

use crate::types::{FunctionType, IntegerKind, Type};

verus! {

broadcast use vstd::std_specs::vec::group_vec_axioms;

/// Identifies one binding of one compilation; never reused for another.
#[derive(Copy, Clone, Debug, Hash, PartialEq, Eq, Structural, PartialOrd, Ord)]
pub struct DefinitionId(pub usize);

/// A constant value. A float is held as its raw bit pattern.
#[derive(Clone, Debug, PartialEq, Eq, PartialOrd, Ord)]
pub enum Literal {
    Integer(u64, IntegerKind),
    Float(u64),
    CString(String),
    Char(char),
    Bool(bool),
    Unit,
}

/// A use of a binding.
#[derive(Debug, Clone)]
pub struct DefinitionInfo {
    /// The `Ast::Definition` that defines this variable, shared with its
    /// declaration site and every other use. `None` for a variable bound by
    /// a function parameter or a match pattern.
    pub definition: Option<Rc<Ast>>,
    pub definition_id: DefinitionId,
}

pub type Variable = DefinitionInfo;

/// `\a b. expr`. A function definition is a `Definition` whose expression is a lambda.
#[derive(Debug)]
pub struct Lambda {
    pub args: Vec<Ast>,
    pub body: Box<Ast>,
    pub typ: FunctionType,
}

/// `foo a b c`, with every argument given.
#[derive(Debug)]
pub struct FunctionCall {
    pub function: Box<Ast>,
    pub args: Vec<Ast>,
}

/// `variable = expr`: the left-hand side is always a single identifier.
#[derive(Debug)]
pub struct Definition {
    pub variable: DefinitionId,
    pub expr: Box<Ast>,
    pub mutable: bool,
}

/// `if condition then expression else expression`
#[derive(Debug)]
pub struct If {
    pub condition: Box<Ast>,
    pub then: Box<Ast>,
    pub otherwise: Option<Box<Ast>>,
}

/// A compiled match: the branch bodies (what follows each `->`) and the
/// decision tree that selects one of them.
#[derive(Debug)]
pub struct Match {
    pub branches: Vec<Ast>,
    pub decision_tree: DecisionTree,
}

/// Selects a branch of a match. Distinct paths may end in the same leaf
/// index, so that a branch body is written once however many paths lead to it.
#[derive(Debug)]
pub enum DecisionTree {
    Leaf(usize),
    Definition(Definition, Box<DecisionTree>),
    Switch {
        int_to_switch_on: Box<Ast>,
        cases: Vec<(u32, DecisionTree)>,
        else_case: Option<Box<DecisionTree>>,
    },
}

/// `return expression`
#[derive(Debug)]
pub struct Return {
    pub expression: Box<Ast>,
}

/// Statements evaluated in order; the last one gives the value.
#[derive(Debug)]
pub struct Sequence {
    pub statements: Vec<Ast>,
}

/// An external symbol with its declared type.
#[derive(Debug)]
pub struct Extern {
    pub name: String,
    pub typ: Type,
}

/// `lhs := rhs`
#[derive(Debug)]
pub struct Assignment {
    pub lhs: Box<Ast>,
    pub rhs: Box<Ast>,
}

/// Field `member_index` of the tuple `lhs`.
#[derive(Debug)]
pub struct MemberAccess {
    pub lhs: Box<Ast>,
    pub member_index: u32,
}

#[derive(Debug)]
pub struct Tuple {
    pub fields: Vec<Ast>,
}

/// Reads `lhs` as a value of `target_type`, bit for bit. Padded enum
/// variants are lowered to this; both types have the same size.
#[derive(Debug)]
pub struct ReinterpretCast {
    pub lhs: Box<Ast>,
    pub target_type: Type,
}

/// A primitive operation, called through `FunctionCall` like any function.
#[derive(Debug, Copy, Clone, PartialEq, Eq, Structural)]
pub enum Builtin {
    AddInt,
    AddFloat,
    SubInt,
    SubFloat,
    MulInt,
    MulFloat,
    DivInt,
    DivFloat,
    ModInt,
    ModFloat,
    LessInt,
    LessFloat,
    GreaterInt,
    GreaterFloat,
    EqInt,
    EqFloat,
    EqChar,
    EqBool,
    SignExtend,
    ZeroExtend,
    Truncate,
    Deref,
    Offset,
    Transmute,
}

/// Any HIR node.
#[derive(Debug)]
pub enum Ast {
    Literal(Literal),
    Variable(Variable),
    Lambda(Lambda),
    FunctionCall(FunctionCall),
    Definition(Definition),
    If(If),
    Match(Match),
    Return(Return),
    Sequence(Sequence),
    Extern(Extern),
    Assignment(Assignment),
    MemberAccess(MemberAccess),
    Tuple(Tuple),
    ReinterpretCast(ReinterpretCast),
    Builtin(Builtin),
}

impl DefinitionInfo {
    /// A shared definition, where there is one, is the `Definition` node of
    /// this very binding.
    pub open spec fn wf(&self) -> bool {
        match self.definition {
            Some(d) => *d is Definition && (*d)->Definition_0.variable == self.definition_id,
            None => true,
        }
    }
}

impl DecisionTree {
    /// Every leaf names a branch index below `n`.
    pub open spec fn leaves_below(&self, n: nat) -> bool
        decreases self,
    {
        match self {
            DecisionTree::Leaf(i) => *i < n,
            DecisionTree::Definition(_, rest) => rest.leaves_below(n),
            DecisionTree::Switch { cases, else_case, .. } => {
                &&& forall|k: int| 0 <= k < cases.len() ==> (#[trigger] cases@[k]).1.leaves_below(n)
                &&& (else_case matches Some(e) ==> e.leaves_below(n))
            },
        }
    }
}

impl Match {
    /// Every leaf of the decision tree selects one of the branches.
    pub open spec fn wf(&self) -> bool {
        self.decision_tree.leaves_below(self.branches.len() as nat)
    }
}

impl From<Variable> for Ast {
    fn from(v: Variable) -> (r: Ast)
        ensures
            r == Ast::Variable(v),
    {
        Ast::Variable(v)
    }
}

impl vstd::std_specs::convert::FromSpecImpl<Variable> for Ast {
    open spec fn obeys_from_spec() -> bool {
        true
    }

    open spec fn from_spec(v: Variable) -> Ast {
        Ast::Variable(v)
    }
}

impl From<DefinitionId> for Variable {
    fn from(definition_id: DefinitionId) -> (r: Variable)
        ensures
            r.definition_id == definition_id,
            r.definition is None,
            r.wf(),
    {
        Variable { definition_id, definition: None }
    }
}

impl vstd::std_specs::convert::FromSpecImpl<DefinitionId> for Variable {
    open spec fn obeys_from_spec() -> bool {
        true
    }

    open spec fn from_spec(definition_id: DefinitionId) -> Variable {
        Variable { definition_id, definition: None }
    }
}

impl From<Definition> for DefinitionInfo {
    fn from(def: Definition) -> (r: DefinitionInfo)
        ensures
            r.definition_id == def.variable,
            r.definition matches Some(d) && *d == Ast::Definition(def),
            r.wf(),
    {
        DefinitionInfo { definition_id: def.variable, definition: Some(Rc::new(Ast::Definition(def))) }
    }
}

impl vstd::std_specs::convert::FromSpecImpl<Definition> for DefinitionInfo {
    open spec fn obeys_from_spec() -> bool {
        true
    }

    open spec fn from_spec(def: Definition) -> DefinitionInfo {
        DefinitionInfo { definition_id: def.variable, definition: Some(Rc::new(Ast::Definition(def))) }
    }
}

} // verus!
