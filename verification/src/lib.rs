//! A lazy graph-reduction evaluator for a point-free combinator language,
//! and the interact protocol that is driven by it.
//!
//! A program is a table of named functions, each a combinator expression in
//! prefix form. Expressions live in a [`Graph`], an arena of shared nodes,
//! each with a slot for its normal form once that is known. The meaning of
//! an expression is defined on finite trees in [`semantics`]; the two
//! engines of [`reduce`] compute it on the graph, one by recursion and one
//! with a work stack, and [`laws`] states what the operators evaluate to.
//! [`interact`] holds the protocol that applies the galaxy function to a
//! state and a click and reads the new state and the images to show.

pub mod codec;
pub mod graph;
pub mod interact;
pub mod laws;
pub mod name;
pub mod parse;
pub mod point;
pub mod reduce;
pub mod semantics;
pub mod spell;
pub mod term;
pub mod text;

pub use codec::DecodeError;
pub use graph::{Constants, Expr, ExprRef, Graph};
pub use interact::{entry_point, Callback, EntryError, InteractError};
pub use name::Name;
pub use parse::{parse_number, ParseError, ScriptError};
pub use point::{request_click_from_user, Point};
pub use semantics::EvalError;
