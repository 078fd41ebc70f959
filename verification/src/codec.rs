//! The list and pair codec: from a normal form that encodes a list with
//! `cons` and `nil` to the sequence of its items, and from a pair of
//! integers to a point.

use vstd::prelude::*;
use crate::graph::{Expr, ExprRef, Graph, GraphView};
use crate::name::Name;
use crate::term::Term;

verus! {

/// Why an expression could not be read as a list or as a point.
#[derive(Clone, Copy, Debug, PartialEq, Eq, Structural)]
pub enum DecodeError {
    /// A list was expected and an atom other than `nil` was found.
    NotAList,
    /// An application that is not `cons` applied to two arguments was found
    /// where a pair was expected.
    NotAPair,
    /// A list ends in an atom other than `nil`.
    ImproperTail,
    /// A coordinate is not an integer literal, `t` or `f`.
    NotANumber,
}

/// `cons` applied to `head` and `tail`.
pub open spec fn pair(head: Term, tail: Term) -> Term {
    Term::ap(Term::ap(Term::Atom(Name::Cons), head), tail)
}

/// The list of `items`, which ends in `nil`.
pub open spec fn list_term(items: Seq<Term>) -> Term
    decreases items.len(),
{
    if items.len() == 0 {
        Term::Atom(Name::Nil)
    } else {
        pair(items[0], list_term(items.drop_first()))
    }
}

/// `rest` with `head` in front, where `rest` is a sequence.
pub open spec fn prepend(head: Term, rest: Result<Seq<Term>, DecodeError>) -> Result<
    Seq<Term>,
    DecodeError,
> {
    match rest {
        Ok(items) => Ok(seq![head] + items),
        Err(e) => Err(e),
    }
}

/// The items of the list that `t` encodes: `nil` gives one item, which is
/// `nil` itself, as the marker of the end; a pair gives its head and then
/// the items of its tail. So a list of n heads gives n + 1 items, the last
/// of them the marker.
pub open spec fn list_items(t: Term) -> Result<Seq<Term>, DecodeError>
    decreases t,
{
    match t {
        Term::Atom(Name::Nil) => Ok(seq![t]),
        Term::Atom(_) => Err(DecodeError::NotAList),
        Term::Ap(f, tail) => match *f {
            Term::Ap(c, head) => if *c == Term::Atom(Name::Cons) {
                if *tail is Atom && *tail != Term::Atom(Name::Nil) {
                    Err(DecodeError::ImproperTail)
                } else {
                    prepend(*head, list_items(*tail))
                }
            } else {
                Err(DecodeError::NotAPair)
            },
            Term::Atom(_) => Err(DecodeError::NotAPair),
        },
    }
}

/// The point that the pair `t` of two numbers encodes.
pub open spec fn point_of(t: Term) -> Result<(int, int), DecodeError> {
    match t {
        Term::Ap(f, second) => match *f {
            Term::Ap(c, first) => if *c == Term::Atom(Name::Cons) {
                match (first.as_num(), second.as_num()) {
                    (Some(x), Some(y)) => Ok((x, y)),
                    _ => Err(DecodeError::NotANumber),
                }
            } else {
                Err(DecodeError::NotAPair)
            },
            Term::Atom(_) => Err(DecodeError::NotAPair),
        },
        Term::Atom(_) => Err(DecodeError::NotAPair),
    }
}

/// The points that the items encode, in order. An item that is `nil` stands
/// for no point and is passed over.
pub open spec fn points_of(items: Seq<Term>) -> Result<Seq<(int, int)>, DecodeError>
    decreases items.len(),
{
    if items.len() == 0 {
        Ok(Seq::empty())
    } else {
        match points_of(items.drop_last()) {
            Err(e) => Err(e),
            Ok(points) => if items.last() == Term::Atom(Name::Nil) {
                Ok(points)
            } else {
                match point_of(items.last()) {
                    Err(e) => Err(e),
                    Ok(p) => Ok(points.push(p)),
                }
            },
        }
    }
}

/// The points of the list that `t` encodes.
pub open spec fn list_points(t: Term) -> Result<Seq<(int, int)>, DecodeError> {
    match list_items(t) {
        Err(e) => Err(e),
        Ok(items) => points_of(items),
    }
}

/// The expressions that the nodes `refs` of `g` stand for.
pub open spec fn terms_of(g: GraphView, refs: Seq<ExprRef>) -> Seq<Term> {
    Seq::new(refs.len(), |i: int| g.term(refs[i]))
}

/// The points `v` as pairs of mathematical integers.
pub open spec fn points_view(v: Seq<(i64, i64)>) -> Seq<(int, int)> {
    Seq::new(v.len(), |i: int| (v[i].0 as int, v[i].1 as int))
}

/// A list is read back as its items and the marker of its end.
pub proof fn lemma_list_round_trip(items: Seq<Term>)
    ensures
        list_items(list_term(items)) == Ok::<Seq<Term>, DecodeError>(
            items.push(Term::Atom(Name::Nil)),
        ),
    decreases items.len(),
{
    let nil = Term::Atom(Name::Nil);
    if items.len() == 0 {
        assert(items.push(nil) =~= seq![nil]);
    } else {
        let rest = items.drop_first();
        lemma_list_round_trip(rest);
        assert(seq![items[0]] + rest.push(nil) =~= items.push(nil));
    }
}

impl Graph {
    /// The items of the list that the node `expr` encodes, as nodes: the
    /// heads of its pairs, and then the `nil` that ends it.
    pub fn get_list_items_from_expr(&self, expr: ExprRef) -> (r: Result<Vec<ExprRef>, DecodeError>)
        requires
            self.wf(),
            self@.contains(expr),
        ensures
            match list_items(self@.term(expr)) {
                Ok(items) => r matches Ok(v) && terms_of(self@, v@) == items && forall|i: int|
                    0 <= i < v@.len() ==> self@.contains(#[trigger] v@[i]),
                Err(e) => r == Err::<Vec<ExprRef>, DecodeError>(e),
            },
    {
        let mut items: Vec<ExprRef> = Vec::new();
        proof {
            assert(self@.node_wf(expr as int));
        }
        match self.expr(expr) {
            Expr::Atom(Name::Nil) => {
                items.push(expr);
                return Ok(items);
            },
            Expr::Atom(_) => {
                return Err(DecodeError::NotAList);
            },
            Expr::Ap(_, _) => {},
        }
        let mut cur = expr;
        loop
            invariant
                self.wf(),
                self@.contains(cur),
                self@.expr(cur) is Ap,
                forall|i: int| 0 <= i < items@.len() ==> self@.contains(#[trigger] items@[i]),
                match list_items(self@.term(cur)) {
                    Ok(rest) => list_items(self@.term(expr)) == Ok::<Seq<Term>, DecodeError>(
                        terms_of(self@, items@) + rest,
                    ),
                    Err(e) => list_items(self@.term(expr)) == Err::<Seq<Term>, DecodeError>(e),
                },
            decreases cur,
        {
            proof {
                assert(self@.node_wf(cur as int));
            }
            let (f, tail) = match self.expr(cur) {
                Expr::Ap(f, tail) => (f, tail),
                Expr::Atom(_) => { return Err(DecodeError::NotAPair); },
            };
            proof {
                assert(self@.node_wf(f as int));
                assert(self@.node_wf(tail as int));
            }
            let head = match self.expr(f) {
                Expr::Ap(c, head) => {
                    proof {
                        assert(self@.node_wf(c as int));
                    }
                    match self.expr(c) {
                        Expr::Atom(Name::Cons) => head,
                        _ => { return Err(DecodeError::NotAPair); },
                    }
                },
                Expr::Atom(_) => { return Err(DecodeError::NotAPair); },
            };
            let ghost before = items@;
            items.push(head);
            proof {
                assert(terms_of(self@, items@) =~= terms_of(self@, before) + seq![
                    self@.term(head),
                ]);
            }
            match self.expr(tail) {
                Expr::Atom(Name::Nil) => {
                    items.push(tail);
                    proof {
                        assert(terms_of(self@, items@) =~= terms_of(self@, before) + (seq![
                            self@.term(head),
                        ] + seq![self@.term(tail)]));
                    }
                    return Ok(items);
                },
                Expr::Atom(_) => {
                    return Err(DecodeError::ImproperTail);
                },
                Expr::Ap(_, _) => {
                    proof {
                        match list_items(self@.term(tail)) {
                            Ok(rest) => {
                                assert((terms_of(self@, before) + seq![self@.term(head)]) + rest
                                    =~= terms_of(self@, before) + (seq![self@.term(head)] + rest));
                            },
                            Err(_) => {},
                        }
                    }
                    cur = tail;
                },
            }
        }
    }

    /// The point that the node `expr`, a pair of two numbers, encodes.
    pub fn flatten_point(&self, expr: ExprRef) -> (r: Result<(i64, i64), DecodeError>)
        requires
            self.wf(),
            self@.contains(expr),
        ensures
            match point_of(self@.term(expr)) {
                Ok(p) => r matches Ok(q) && q.0 == p.0 && q.1 == p.1,
                Err(e) => r == Err::<(i64, i64), DecodeError>(e),
            },
    {
        proof {
            assert(self@.node_wf(expr as int));
        }
        match self.expr(expr) {
            Expr::Atom(_) => Err(DecodeError::NotAPair),
            Expr::Ap(f, second) => {
                proof {
                    assert(self@.node_wf(f as int));
                }
                match self.expr(f) {
                    Expr::Atom(_) => Err(DecodeError::NotAPair),
                    Expr::Ap(c, first) => {
                        proof {
                            assert(self@.node_wf(c as int));
                        }
                        match self.expr(c) {
                            Expr::Atom(Name::Cons) => match (
                                self.as_num(first),
                                self.as_num(second),
                            ) {
                                (Ok(x), Ok(y)) => Ok((x, y)),
                                _ => Err(DecodeError::NotANumber),
                            },
                            _ => Err(DecodeError::NotAPair),
                        }
                    },
                }
            },
        }
    }

    /// The points of the list that the node `expr` encodes: each item but
    /// `nil` is read as a point.
    pub fn vectorize_points_expr(&self, expr: ExprRef) -> (r: Result<Vec<(i64, i64)>, DecodeError>)
        requires
            self.wf(),
            self@.contains(expr),
        ensures
            match list_points(self@.term(expr)) {
                Ok(points) => r matches Ok(v) && points_view(v@) == points,
                Err(e) => r == Err::<Vec<(i64, i64)>, DecodeError>(e),
            },
    {
        let items = match self.get_list_items_from_expr(expr) {
            Ok(items) => items,
            Err(e) => { return Err(e); },
        };
        let ghost terms = terms_of(self@, items@);
        let mut points: Vec<(i64, i64)> = Vec::new();
        let mut i: usize = 0;
        proof {
            assert(points_view(points@) =~= Seq::<(int, int)>::empty());
        }
        while i < items.len()
            invariant
                self.wf(),
                i <= items@.len(),
                terms == terms_of(self@, items@),
                list_items(self@.term(expr)) == Ok::<Seq<Term>, DecodeError>(terms),
                forall|j: int| 0 <= j < items@.len() ==> self@.contains(#[trigger] items@[j]),
                points_of(terms.take(i as int)) == Ok::<Seq<(int, int)>, DecodeError>(
                    points_view(points@),
                ),
            decreases items@.len() - i,
        {
            let item = items[i];
            let c = self.get_constants();
            proof {
                assert(self@.node_wf(c.nil as int));
                assert(terms.take(i + 1).drop_last() =~= terms.take(i as int));
            }
            if !self.equals(item, c.nil) {
                match self.flatten_point(item) {
                    Ok(p) => {
                        let ghost before = points@;
                        points.push(p);
                        proof {
                            assert(points_view(points@) =~= points_view(before).push(
                                (p.0 as int, p.1 as int),
                            ));
                        }
                    },
                    Err(e) => {
                        proof {
                            lemma_points_error(terms, i as int);
                        }
                        return Err(e);
                    },
                }
            }
            i = i + 1;
        }
        proof {
            assert(terms.take(i as int) =~= terms);
        }
        Ok(points)
    }
}

/// An item that cannot be read as a point fails the whole sequence, where
/// the items before it can be read.
pub proof fn lemma_points_error(items: Seq<Term>, i: int)
    requires
        0 <= i < items.len(),
        points_of(items.take(i)) is Ok,
        items[i] != Term::Atom(Name::Nil),
        point_of(items[i]) is Err,
    ensures
        points_of(items) == Err::<Seq<(int, int)>, DecodeError>(point_of(items[i])->Err_0),
    decreases items.len() - i,
{
    assert(items.take(i + 1).drop_last() =~= items.take(i));
    lemma_points_error_extends(items, i + 1);
}

/// A sequence fails as its first part that fails does.
pub proof fn lemma_points_error_extends(items: Seq<Term>, n: int)
    requires
        0 <= n <= items.len(),
        points_of(items.take(n)) is Err,
    ensures
        points_of(items) == points_of(items.take(n)),
    decreases items.len() - n,
{
    if n == items.len() {
        assert(items.take(n) =~= items);
    } else {
        assert(items.take(n + 1).drop_last() =~= items.take(n));
        lemma_points_error_extends(items, n + 1);
    }
}

} // verus!
