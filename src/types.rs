//! The monomorphic types that annotate HIR nodes.
use vstd::prelude::*;

verus! {

/// Width and signedness of an integer type.
#[derive(Debug, Copy, Clone, PartialEq, Eq, Structural, Hash, PartialOrd, Ord)]
pub enum IntegerKind {
    I8,
    I16,
    I32,
    I64,
    Isz,
    U8,
    U16,
    U32,
    U64,
    Usz,
}

/// A type without type parameters or type variables.
#[derive(Debug, Copy, Clone, PartialEq, Eq, Structural, Hash)]
pub enum PrimitiveType {
    Integer(IntegerKind),
    Float,
    Char,
    Boolean,
    Unit,
    Pointer,
}

/// The type of a function: its parameter types in order and its return type.
#[derive(Debug)]
pub struct FunctionType {
    pub parameters: Vec<Type>,
    pub return_type: Box<Type>,
    pub is_varargs: bool,
}

/// A fully concrete type: no generics remain at this level.
#[derive(Debug)]
pub enum Type {
    Primitive(PrimitiveType),
    Function(FunctionType),
    Tuple(Vec<Type>),
}

} // verus!
