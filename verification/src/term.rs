//! Expressions as finite trees: the mathematical model of a node of the
//! expression graph.

use vstd::prelude::*;
use crate::name::Name;

verus! {

/// An expression: an atom, or the application of a function to an argument.
pub enum Term {
    Atom(Name),
    Ap(Box<Term>, Box<Term>),
}

impl Term {
    /// The application of `func` to `arg`.
    pub open spec fn ap(func: Term, arg: Term) -> Term {
        Term::Ap(Box::new(func), Box::new(arg))
    }

    /// The number of nodes of the tree.
    pub open spec fn size(self) -> nat
        decreases self,
    {
        match self {
            Term::Atom(_) => 1,
            Term::Ap(f, x) => 1 + f.size() + x.size(),
        }
    }

    /// What the expression counts as where a number is asked for: an integer
    /// literal is itself, `t` is 1, `f` is 0, and nothing else is a number.
    pub open spec fn as_num(self) -> Option<int> {
        match self {
            Term::Atom(Name::Int(i)) => Some(i as int),
            Term::Atom(Name::T) => Some(1),
            Term::Atom(Name::F) => Some(0),
            _ => None,
        }
    }
}

} // verus!
