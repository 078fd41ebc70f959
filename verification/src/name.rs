//! The closed set of atom names: integer literals, function references,
//! free variables and the fixed operators.

use vstd::prelude::*;

verus! {

/// What an atom stands for.
#[derive(Clone, Copy, Debug, PartialEq, Eq, Structural)]
pub enum Name {
    /// An integer literal.
    Int(i64),
    /// A reference to a function of the function table, by its id.
    Function(u32),
    /// A free variable, by its id. Never rewritten.
    Variable(u32),
    Add,
    I,
    T,
    F,
    Mul,
    Div,
    Eq,
    Lt,
    Neg,
    S,
    C,
    B,
    Cons,
    Car,
    Cdr,
    Nil,
    Isnil,
}

/// The strict binary operators on integers.
#[derive(Clone, Copy, Debug, PartialEq, Eq, Structural)]
pub enum BinOp {
    Add,
    Mul,
    Div,
    Eq,
    Lt,
}

} // verus!
