//! The reduction engine: the rewrite rules on the nodes of the graph, and
//! evaluation to normal form, once by recursion and once with a work stack
//! in place of the call stack.

use vstd::prelude::*;
use crate::graph::{confined, edges_within, Expr, ExprRef, Graph, GraphView};
use crate::name::{BinOp, Name};
use crate::semantics::{
    arith, converges, eval_term, negate, number, out_of_fuel, rule1, rule2, rule3, step_term, steps,
    truth, EvalError, Functions, Outcome, Rule,
};
use crate::term::Term;

verus! {

/// What one look at a node tells about its next rewrite step.
enum Plan {
    /// The step needs the normal form of this node, which is not known yet.
    /// The number says how many such needs the step can still have, this
    /// one included.
    Need(ExprRef, nat),
    /// The step ends in this way.
    Finish(Outcome),
}

impl Plan {
    spec fn rank(self) -> nat {
        match self {
            Plan::Need(_, rank) => rank,
            Plan::Finish(_) => 0,
        }
    }
}

/// What a rewrite step makes of `rule`, as far as the slots of the operands
/// `y` and `x` tell.
spec fn plan_rule(g: GraphView, rule: Rule, cur: ExprRef, y: ExprRef, x: ExprRef) -> Plan {
    match rule {
        Rule::Rewrite(r) => Plan::Finish(Outcome::Done(r)),
        Rule::Stuck => Plan::Finish(Outcome::Done(g.term(cur))),
        Rule::Negate => match g.evaluated(x) {
            None => Plan::Need(x, 2),
            Some(value) => match g.term(value).as_num() {
                None => Plan::Finish(Outcome::Fail(EvalError::NotANumber)),
                Some(n) => Plan::Finish(negate(n)),
            },
        },
        Rule::Binary(op, x_first) => {
            let first = if x_first {
                x
            } else {
                y
            };
            let second = if x_first {
                y
            } else {
                x
            };
            match g.evaluated(first) {
                None => Plan::Need(first, 2),
                Some(a) => match g.term(a).as_num() {
                    None => Plan::Finish(Outcome::Fail(EvalError::NotANumber)),
                    Some(na) => match g.evaluated(second) {
                        None => Plan::Need(second, 1),
                        Some(b) => match g.term(b).as_num() {
                            None => Plan::Finish(Outcome::Fail(EvalError::NotANumber)),
                            Some(nb) => Plan::Finish(arith(op, na, nb)),
                        },
                    },
                },
            }
        },
        Rule::Pair => match g.evaluated(y) {
            None => Plan::Need(y, 2),
            Some(head) => match g.evaluated(x) {
                None => Plan::Need(x, 1),
                Some(tail) => Plan::Finish(
                    Outcome::Done(
                        Term::ap(Term::ap(Term::Atom(Name::Cons), g.term(head)), g.term(tail)),
                    ),
                ),
            },
        },
    }
}

/// The next rewrite step on the node `cur`, as far as the slots of the nodes
/// that it depends on tell.
spec fn plan(g: GraphView, cur: ExprRef) -> Plan {
    match g.expr(cur) {
        Expr::Atom(Name::Function(id)) => Plan::Finish(
            if g.functions.contains_key(id) {
                Outcome::Done(g.term(g.functions[id]))
            } else {
                Outcome::Fail(EvalError::UnknownFunction(id))
            },
        ),
        Expr::Atom(_) => Plan::Finish(Outcome::Done(g.term(cur))),
        Expr::Ap(f, x) => match g.evaluated(f) {
            None => Plan::Need(f, 5),
            Some(f1) => match g.expr(f1) {
                Expr::Atom(op) => plan_rule(g, rule1(op, g.term(x)), cur, x, x),
                Expr::Ap(f2, y) => match g.evaluated(f2) {
                    None => Plan::Need(f2, 4),
                    Some(g1) => match g.expr(g1) {
                        Expr::Atom(op) => plan_rule(g, rule2(op, g.term(y), g.term(x)), cur, y, x),
                        Expr::Ap(f3, z) => match g.evaluated(f3) {
                            None => Plan::Need(f3, 3),
                            Some(h1) => match g.expr(h1) {
                                Expr::Atom(op) => plan_rule(
                                    g,
                                    rule3(op, g.term(z), g.term(y), g.term(x)),
                                    cur,
                                    y,
                                    x,
                                ),
                                Expr::Ap(_, _) => Plan::Finish(Outcome::Done(g.term(cur))),
                            },
                        },
                    },
                },
            },
        },
    }
}

/// The operator at the head of an application, as the slots of its function
/// parts show it: the application is unwrapped through the normal forms of
/// its function parts, up to three arguments deep.
pub struct Head {
    /// The operator, or nothing where the function part is still an
    /// application at the third unwrapping.
    pub op: Option<Name>,
    /// The number of arguments that the operator has.
    pub arity: nat,
    /// The argument before the last; the last one where there is one only.
    pub y: ExprRef,
    /// The last argument.
    pub x: ExprRef,
}

/// The head of the application `e`, where the slots of its function parts
/// are set as far as the unwrapping needs them.
pub open spec fn head(g: GraphView, e: ExprRef) -> Option<Head> {
    match g.expr(e) {
        Expr::Atom(_) => None,
        Expr::Ap(f, x) => match g.evaluated(f) {
            None => None,
            Some(f1) => match g.expr(f1) {
                Expr::Atom(op) => Some(Head { op: Some(op), arity: 1, y: x, x }),
                Expr::Ap(f2, y) => match g.evaluated(f2) {
                    None => None,
                    Some(g1) => match g.expr(g1) {
                        Expr::Atom(op) => Some(Head { op: Some(op), arity: 2, y, x }),
                        Expr::Ap(f3, _) => match g.evaluated(f3) {
                            None => None,
                            Some(h1) => match g.expr(h1) {
                                Expr::Atom(op) => Some(Head { op: Some(op), arity: 3, y, x }),
                                Expr::Ap(_, _) => Some(Head { op: None, arity: 4, y, x }),
                            },
                        },
                    },
                },
            },
        },
    }
}

/// The node that a rewrite step on `e` gives without evaluating or building
/// anything, as far as the slots tell: the body of a function, the node
/// itself where no rule applies, the argument of `i`, the first argument of
/// `t`, the second of `f`, and the constant `t` for `nil`.
pub open spec fn rests(g: GraphView, e: ExprRef) -> Option<ExprRef> {
    match g.expr(e) {
        Expr::Atom(Name::Function(id)) => if g.functions.contains_key(id) {
            Some(g.functions[id])
        } else {
            None
        },
        Expr::Atom(_) => Some(e),
        Expr::Ap(_, _) => match head(g, e) {
            None => None,
            Some(h) => match h.op {
                None => Some(e),
                Some(op) => if h.arity == 1 {
                    match op {
                        Name::I => Some(h.x),
                        Name::Nil => Some(g.constants.t),
                        Name::Neg | Name::Isnil | Name::Car | Name::Cdr => None,
                        _ => Some(e),
                    }
                } else if h.arity == 2 {
                    match op {
                        Name::T => Some(h.y),
                        Name::F => Some(h.x),
                        Name::Add | Name::Mul | Name::Div | Name::Eq | Name::Lt | Name::Cons => None,
                        _ => Some(e),
                    }
                } else {
                    match op {
                        Name::S | Name::C | Name::B | Name::Cons => None,
                        _ => Some(e),
                    }
                },
            },
        },
    }
}

/// The rewrite step on `e` gives a node that holds itself in its slot: the
/// number of `neg`, `add`, `mul` or `div`, or the pair of `cons`.
pub open spec fn valued(g: GraphView, e: ExprRef) -> bool {
    head(g, e) matches Some(h) && h.op matches Some(op) && ((h.arity == 1 && op == Name::Neg) || (
    h.arity == 2 && (op == Name::Add || op == Name::Mul || op == Name::Div || op == Name::Cons)))
}

/// What the head of an application is, by what its function parts evaluate
/// to: the operator that the unwrapping ends in, with the number of
/// arguments that it went through.
pub open spec fn head_of(fns: Functions, f: Term, h: Head, y: Term) -> bool {
    match crate::semantics::evaluate(fns, f) {
        Outcome::Fail(_) => false,
        Outcome::Done(Term::Atom(op)) => h.arity == 1 && h.op == Some(op),
        Outcome::Done(Term::Ap(g, ty)) => y == *ty && match crate::semantics::evaluate(fns, *g) {
            Outcome::Fail(_) => false,
            Outcome::Done(Term::Atom(op)) => h.arity == 2 && h.op == Some(op),
            Outcome::Done(Term::Ap(k, _)) => match crate::semantics::evaluate(fns, *k) {
                Outcome::Fail(_) => false,
                Outcome::Done(Term::Atom(op)) => h.arity == 3 && h.op == Some(op),
                Outcome::Done(Term::Ap(_, _)) => h.arity == 4 && h.op is None,
            },
        },
    }
}

/// The head that the slots show is the head that the function parts
/// evaluate to.
pub proof fn lemma_head_evaluates(g: GraphView, e: ExprRef)
    requires
        g.wf(),
        g.contains(e),
        head(g, e) is Some,
    ensures
        g.expr(e) matches Expr::Ap(f, x) && head(g, e)->0.x == x && g.contains(head(g, e)->0.y)
            && head_of(g.function_terms(), g.term(f), head(g, e)->0, g.term(head(g, e)->0.y)),
{
    let fns = g.function_terms();
    assert(g.node_wf(e as int));
    match g.expr(e) {
        Expr::Atom(_) => {},
        Expr::Ap(f, x) => {
            assert(g.node_wf(f as int));
            let f1 = g.evaluated(f)->0;
            assert(g.node_wf(f1 as int));
            crate::semantics::lemma_evaluate(fns, g.term(f), Outcome::Done(g.term(f1)));
            match g.expr(f1) {
                Expr::Atom(_) => {},
                Expr::Ap(f2, y) => {
                    assert(g.node_wf(f2 as int));
                    let g1 = g.evaluated(f2)->0;
                    assert(g.node_wf(g1 as int));
                    crate::semantics::lemma_evaluate(fns, g.term(f2), Outcome::Done(g.term(g1)));
                    match g.expr(g1) {
                        Expr::Atom(_) => {},
                        Expr::Ap(f3, _) => {
                            assert(g.node_wf(f3 as int));
                            let h1 = g.evaluated(f3)->0;
                            assert(g.node_wf(h1 as int));
                            crate::semantics::lemma_evaluate(
                                fns,
                                g.term(f3),
                                Outcome::Done(g.term(h1)),
                            );
                        },
                    }
                },
            }
        },
    }
}

/// `new` holds the nodes of `old` as they were, slots and all.
pub open spec fn keeps(new: GraphView, old: GraphView) -> bool {
    &&& old.nodes.len() <= new.nodes.len()
    &&& forall|i: int| 0 <= i < old.nodes.len() ==> #[trigger] new.nodes[i] == old.nodes[i]
}

/// The head of an application and what rests on it stay as they are where
/// the nodes stay as they are.
proof fn lemma_head_keeps(g: GraphView, h: GraphView, e: ExprRef)
    requires
        g.wf(),
        g.contains(e),
        h.extends(g),
        keeps(h, g),
    ensures
        head(h, e) == head(g, e),
        rests(h, e) == rests(g, e),
        valued(h, e) == valued(g, e),
{
    assert(g.node_wf(e as int));
    assert(h.nodes[e as int] == g.nodes[e as int]);
    match g.expr(e) {
        Expr::Atom(_) => {},
        Expr::Ap(f, x) => {
            assert(h.nodes[f as int] == g.nodes[f as int]);
            match g.evaluated(f) {
                None => {},
                Some(f1) => {
                    assert(g.node_wf(f as int));
                    assert(g.node_wf(f1 as int));
                    assert(h.nodes[f1 as int] == g.nodes[f1 as int]);
                    match g.expr(f1) {
                        Expr::Atom(_) => {},
                        Expr::Ap(f2, _) => {
                            assert(h.nodes[f2 as int] == g.nodes[f2 as int]);
                            match g.evaluated(f2) {
                                None => {},
                                Some(g1) => {
                                    assert(g.node_wf(f2 as int));
                                    assert(g.node_wf(g1 as int));
                                    assert(h.nodes[g1 as int] == g.nodes[g1 as int]);
                                    match g.expr(g1) {
                                        Expr::Atom(_) => {},
                                        Expr::Ap(f3, _) => {
                                            assert(h.nodes[f3 as int] == g.nodes[f3 as int]);
                                            match g.evaluated(f3) {
                                                None => {},
                                                Some(h1) => {
                                                    assert(g.node_wf(f3 as int));
                                                    assert(h.nodes[h1 as int] == g.nodes[h1
                                                        as int]);
                                                },
                                            }
                                        },
                                    }
                                },
                            }
                        },
                    }
                },
            }
        },
    }
}

/// The slots show that a rewrite step on `n` gives another node than `n`,
/// or makes one.
pub open spec fn moves(g: GraphView, n: ExprRef) -> bool {
    &&& g.expr(n) is Ap ==> head(g, n) is Some
    &&& rests(g, n) != Some(n)
}

/// The slot of `n`, where it is set, holds `n` itself, unless the slots
/// show that a rewrite step on `n` gives another node or makes one: a node
/// on which the step rests is its own normal form as a node too.
pub open spec fn settled(g: GraphView, n: ExprRef) -> bool {
    match g.evaluated(n) {
        Some(v) => v == n || moves(g, n),
        None => true,
    }
}

/// Every slot that was filled between `old` and `new` is settled.
pub open spec fn settles(old: GraphView, new: GraphView) -> bool {
    forall|n: ExprRef| old.contains(n) && old.evaluated(n) is None ==> #[trigger] settled(new, n)
}

/// The head of an application, once the slots show it, and what rests on
/// it stay as they are while the graph is evaluated.
pub proof fn lemma_head_extends(g: GraphView, h: GraphView, e: ExprRef)
    requires
        g.wf(),
        g.contains(e),
        h.extends(g),
        g.expr(e) is Ap ==> head(g, e) is Some,
    ensures
        head(h, e) == head(g, e),
        rests(h, e) == rests(g, e),
        moves(h, e) == moves(g, e),
{
    assert(g.node_wf(e as int));
    match g.expr(e) {
        Expr::Atom(_) => {},
        Expr::Ap(f, x) => {
            assert(g.node_wf(f as int));
            let f1 = g.evaluated(f)->0;
            assert(g.node_wf(f1 as int));
            match g.expr(f1) {
                Expr::Atom(_) => {},
                Expr::Ap(f2, _) => {
                    assert(g.node_wf(f2 as int));
                    let g1 = g.evaluated(f2)->0;
                    assert(g.node_wf(g1 as int));
                    match g.expr(g1) {
                        Expr::Atom(_) => {},
                        Expr::Ap(f3, _) => {
                            assert(g.node_wf(f3 as int));
                            let h1 = g.evaluated(f3)->0;
                            assert(h.nodes[h1 as int].expr == g.nodes[h1 as int].expr);
                        },
                    }
                },
            }
        },
    }
}

/// A node whose step gives another node stays one while the graph is
/// evaluated.
proof fn lemma_moves_extends(g: GraphView, h: GraphView)
    requires
        g.wf(),
        h.extends(g),
    ensures
        forall|n: ExprRef| g.contains(n) && #[trigger] moves(g, n) ==> moves(h, n),
{
    assert forall|n: ExprRef| g.contains(n) && #[trigger] moves(g, n) implies moves(h, n) by {
        lemma_head_extends(g, h, n);
    }
}

/// Slots that were settled when they were filled stay settled.
pub proof fn lemma_settles_trans(old: GraphView, mid: GraphView, new: GraphView)
    requires
        old.wf(),
        mid.wf(),
        mid.extends(old),
        new.extends(mid),
        settles(old, mid),
        settles(mid, new),
    ensures
        settles(old, new),
{
    assert forall|n: ExprRef| old.contains(n) && old.evaluated(n) is None implies #[trigger] settled(
        new,
        n,
    ) by {
        assert(mid.contains(n));
        match mid.evaluated(n) {
            None => {
                assert(settled(new, n));
            },
            Some(v) => {
                assert(settled(mid, n));
                assert(new.nodes[n as int].evaluated == mid.nodes[n as int].evaluated);
                if v != n {
                    lemma_head_extends(mid, new, n);
                }
            },
        }
    }
}

/// Where the nodes stay as they are, no slot was filled.
proof fn lemma_keeps_settles(old: GraphView, new: GraphView)
    requires
        keeps(new, old),
    ensures
        settles(old, new),
{
    assert forall|n: ExprRef| old.contains(n) && old.evaluated(n) is None implies #[trigger] settled(
        new,
        n,
    ) by {
        assert(new.nodes[n as int] == old.nodes[n as int]);
    }
}

/// What one look at a node gave.
#[derive(Clone, Copy, Debug)]
enum Step {
    /// This node has to be evaluated first.
    Need(ExprRef),
    /// The step rewrites to this node.
    Done(ExprRef),
    Fail(EvalError),
}

/// A rule with the expression that it rewrites to as a node.
#[derive(Clone, Copy, Debug)]
enum Action {
    Rewrite(ExprRef),
    Stuck,
    Negate,
    Binary(BinOp, bool),
    Pair,
}

impl Action {
    /// The node `self` writes down `rule` in the graph `g`.
    spec fn matches_rule(self, g: GraphView, rule: Rule) -> bool {
        match rule {
            Rule::Rewrite(t) => self matches Action::Rewrite(r) && g.contains(r) && g.term(r) == t,
            Rule::Stuck => self is Stuck,
            Rule::Negate => self is Negate,
            Rule::Binary(op, x_first) => self matches Action::Binary(o, xf) && o == op && xf
                == x_first,
            Rule::Pair => self is Pair,
        }
    }
}

/// The name of the atom that a strict binary operator gives on two numbers.
pub fn apply_binary(op: BinOp, a: i64, b: i64) -> (r: Result<Name, EvalError>)
    ensures
        match arith(op, a as int, b as int) {
            Outcome::Done(t) => r matches Ok(name) && t == Term::Atom(name),
            Outcome::Fail(e) => r == Err::<Name, EvalError>(e),
        },
{
    match op {
        BinOp::Add => match a.checked_add(b) {
            Some(v) => Ok(Name::Int(v)),
            None => Err(EvalError::Overflow),
        },
        BinOp::Mul => match a.checked_mul(b) {
            Some(v) => Ok(Name::Int(v)),
            None => Err(EvalError::Overflow),
        },
        BinOp::Div => if b == 0 {
            Err(EvalError::DivisionByZero)
        } else {
            match a.checked_div(b) {
                Some(v) => Ok(Name::Int(v)),
                None => Err(EvalError::Overflow),
            }
        },
        BinOp::Eq => if a == b {
            Ok(Name::T)
        } else {
            Ok(Name::F)
        },
        BinOp::Lt => if a < b {
            Ok(Name::T)
        } else {
            Ok(Name::F)
        },
    }
}

/// The name of the atom that `neg` gives on a number.
pub fn apply_negate(a: i64) -> (r: Result<Name, EvalError>)
    ensures
        match negate(a as int) {
            Outcome::Done(t) => r matches Ok(name) && t == Term::Atom(name),
            Outcome::Fail(e) => r == Err::<Name, EvalError>(e),
        },
{
    match 0i64.checked_sub(a) {
        Some(v) => Ok(Name::Int(v)),
        None => Err(EvalError::Overflow),
    }
}

impl Graph {
    /// The number that the node `e` counts as.
    pub fn as_num(&self, e: ExprRef) -> (r: Result<i64, EvalError>)
        requires
            self.wf(),
            self@.contains(e),
        ensures
            match self@.term(e).as_num() {
                Some(n) => r matches Ok(v) && v == n,
                None => r == Err::<i64, EvalError>(EvalError::NotANumber),
            },
    {
        proof {
            assert(self@.node_wf(e as int));
        }
        match self.expr(e) {
            Expr::Atom(Name::Int(i)) => Ok(i),
            Expr::Atom(Name::T) => Ok(1),
            Expr::Atom(Name::F) => Ok(0),
            _ => Err(EvalError::NotANumber),
        }
    }

    /// The node for an atom that a rule gave: the shared constant for a
    /// truth value, a new node for anything else. Either is its own normal
    /// form.
    fn value_atom(&mut self, name: Name, Ghost(b): Ghost<Bounds>) -> (e: ExprRef)
        requires
            old(self).wf(),
            !(name is Function),
            b.holds(old(self)@),
        ensures
            b.holds(final(self)@),
            b.has(e),
            final(self).wf(),
            final(self)@.extends(old(self)@),
            final(self)@.contains(e),
            final(self)@.term(e) == Term::Atom(name),
            keeps(final(self)@, old(self)@),
            !(name is T) && !(name is F) ==> final(self)@.evaluated(e) == Some(e),
    {
        let c = self.get_constants();
        proof {
            assert(self@.node_wf(c.t as int));
            assert(self@.node_wf(c.f as int));
        }
        proof {
            lemma_constants_within(b, self@);
        }
        match name {
            Name::T => c.t,
            Name::F => c.f,
            _ => {
                let e = self.atom_in(name, Ghost(b));
                proof {
                    crate::semantics::lemma_inert_atom(self@.function_terms(), name);
                }
                self.mark_in(e, Ghost(b));
                e
            },
        }
    }

    /// The rule of the operator `op` on one argument.
    fn action1(&mut self, op: Name, x: ExprRef, Ghost(b): Ghost<Bounds>) -> (a: Action)
        requires
            old(self).wf(),
            old(self)@.contains(x),
            b.holds(old(self)@),
            b.has(x),
        ensures
            b.holds(final(self)@),
            action_within(b, a),
            final(self).wf(),
            final(self)@.extends(old(self)@),
            a.matches_rule(final(self)@, rule1(op, old(self)@.term(x))),
            !(a is Rewrite) ==> final(self)@ == old(self)@,
            keeps(final(self)@, old(self)@),
            op is I ==> rewrites_to(a, x) && final(self)@ == old(self)@,
            op is Nil ==> rewrites_to(a, old(self)@.constants.t) && final(self)@ == old(self)@,
    {
        let c = self.get_constants();
        proof {
            assert(self@.node_wf(c.t as int));
            assert(self@.node_wf(c.f as int));
        }
        proof {
            lemma_constants_within(b, self@);
        }
        match op {
            Name::Neg => Action::Negate,
            Name::I => Action::Rewrite(x),
            Name::Nil => Action::Rewrite(c.t),
            Name::Isnil => {
                let inner = self.ap_in(c.t, c.f, Ghost(b));
                let outer = self.ap_in(c.t, inner, Ghost(b));
                Action::Rewrite(self.ap_in(x, outer, Ghost(b)))
            },
            Name::Car => Action::Rewrite(self.ap_in(x, c.t, Ghost(b))),
            Name::Cdr => Action::Rewrite(self.ap_in(x, c.f, Ghost(b))),
            _ => Action::Stuck,
        }
    }

    /// The rule of the operator `op` on two arguments.
    fn action2(&self, op: Name, y: ExprRef, x: ExprRef) -> (a: Action)
        requires
            self.wf(),
            self@.contains(y),
            self@.contains(x),
        ensures
            a.matches_rule(self@, rule2(op, self@.term(y), self@.term(x))),
            op is T ==> rewrites_to(a, y),
            op is F ==> rewrites_to(a, x),
    {
        match op {
            Name::T => Action::Rewrite(y),
            Name::F => Action::Rewrite(x),
            Name::Add => Action::Binary(BinOp::Add, true),
            Name::Mul => Action::Binary(BinOp::Mul, true),
            Name::Div => Action::Binary(BinOp::Div, false),
            Name::Eq => Action::Binary(BinOp::Eq, true),
            Name::Lt => Action::Binary(BinOp::Lt, false),
            Name::Cons => Action::Pair,
            _ => Action::Stuck,
        }
    }

    /// The rule of the operator `op` on three arguments.
    fn action3(
        &mut self,
        op: Name,
        z: ExprRef,
        y: ExprRef,
        x: ExprRef,
        Ghost(b): Ghost<Bounds>,
    ) -> (a: Action)
        requires
            old(self).wf(),
            old(self)@.contains(z),
            old(self)@.contains(y),
            old(self)@.contains(x),
            b.holds(old(self)@),
            b.has(z),
            b.has(y),
            b.has(x),
        ensures
            b.holds(final(self)@),
            action_within(b, a),
            final(self).wf(),
            final(self)@.extends(old(self)@),
            a.matches_rule(
                final(self)@,
                rule3(op, old(self)@.term(z), old(self)@.term(y), old(self)@.term(x)),
            ),
            a is Rewrite || a is Stuck,
            !(a is Rewrite) ==> final(self)@ == old(self)@,
            keeps(final(self)@, old(self)@),
    {
        match op {
            Name::S => {
                let left = self.ap_in(z, x, Ghost(b));
                let right = self.ap_in(y, x, Ghost(b));
                Action::Rewrite(self.ap_in(left, right, Ghost(b)))
            },
            Name::C => {
                let left = self.ap_in(z, x, Ghost(b));
                Action::Rewrite(self.ap_in(left, y, Ghost(b)))
            },
            Name::B => {
                let right = self.ap_in(y, x, Ghost(b));
                Action::Rewrite(self.ap_in(z, right, Ghost(b)))
            },
            Name::Cons => {
                let left = self.ap_in(x, z, Ghost(b));
                Action::Rewrite(self.ap_in(left, y, Ghost(b)))
            },
            _ => Action::Stuck,
        }
    }
}

/// The bounds of an evaluation: the graph that it started from and the
/// roots that it may reach from.
struct Bounds {
    base: GraphView,
    roots: Seq<ExprRef>,
}

impl Bounds {
    /// The graph `g` came from the base within the bounds.
    spec fn holds(self, g: GraphView) -> bool {
        confined(g, self.base, self.roots)
    }

    /// The node `n` lies within the bounds.
    spec fn has(self, n: ExprRef) -> bool {
        self.base.within(self.roots, n as int)
    }
}

/// The node that the step names lies within the bounds.
spec fn step_within(b: Bounds, s: Step) -> bool {
    match s {
        Step::Done(v) => b.has(v),
        Step::Need(v) => b.has(v),
        Step::Fail(_) => true,
    }
}

/// The node that the action rewrites to lies within the bounds.
spec fn action_within(b: Bounds, a: Action) -> bool {
    match a {
        Action::Rewrite(r) => b.has(r),
        _ => true,
    }
}

/// The constants of a graph within bounds lie within the bounds.
proof fn lemma_constants_within(b: Bounds, g: GraphView)
    requires
        b.holds(g),
    ensures
        b.has(g.constants.cons),
        b.has(g.constants.t),
        b.has(g.constants.f),
        b.has(g.constants.nil),
{
    let c = g.constants;
    if c.cons < b.base.nodes.len() {
        assert(b.base.is_root(b.roots, c.cons as int));
        assert(b.base.reachable_within(b.roots, c.cons as int, 0));
    }
    if c.t < b.base.nodes.len() {
        assert(b.base.is_root(b.roots, c.t as int));
        assert(b.base.reachable_within(b.roots, c.t as int, 0));
    }
    if c.f < b.base.nodes.len() {
        assert(b.base.is_root(b.roots, c.f as int));
        assert(b.base.reachable_within(b.roots, c.f as int, 0));
    }
    if c.nil < b.base.nodes.len() {
        assert(b.base.is_root(b.roots, c.nil as int));
        assert(b.base.reachable_within(b.roots, c.nil as int, 0));
    }
}

impl Graph {
    /// A new application of nodes within the bounds.
    fn ap_in(&mut self, func: ExprRef, arg: ExprRef, Ghost(b): Ghost<Bounds>) -> (e: ExprRef)
        requires
            old(self).wf(),
            old(self)@.contains(func),
            old(self)@.contains(arg),
            b.holds(old(self)@),
            b.has(func),
            b.has(arg),
        ensures
            final(self).wf(),
            final(self)@.extends(old(self)@),
            final(self)@.contains(e),
            final(self)@.term(e) == Term::ap(old(self)@.term(func), old(self)@.term(arg)),
            final(self)@.evaluated(e) is None,
            keeps(final(self)@, old(self)@),
            e >= b.base.nodes.len(),
            e == old(self)@.nodes.len(),
            b.holds(final(self)@),
    {
        let e = self.ap(func, arg);
        proof {
            assert forall|n: int|
                0 <= n < self@.nodes.len() && b.base.within(b.roots, n) implies #[trigger] edges_within(
                self@,
                b.base,
                b.roots,
                n,
            ) by {
                if n < e {
                    assert(edges_within(old(self)@, b.base, b.roots, n));
                }
            }
        }
        e
    }

    /// A new atom.
    fn atom_in(&mut self, name: Name, Ghost(b): Ghost<Bounds>) -> (e: ExprRef)
        requires
            old(self).wf(),
            b.holds(old(self)@),
        ensures
            final(self).wf(),
            final(self)@.extends(old(self)@),
            final(self)@.contains(e),
            final(self)@.term(e) == Term::Atom(name),
            final(self)@.expr(e) == Expr::Atom(name),
            final(self)@.evaluated(e) is None,
            keeps(final(self)@, old(self)@),
            e >= b.base.nodes.len(),
            e == old(self)@.nodes.len(),
            b.holds(final(self)@),
    {
        let e = self.atom(name);
        proof {
            assert forall|n: int|
                0 <= n < self@.nodes.len() && b.base.within(b.roots, n) implies #[trigger] edges_within(
                self@,
                b.base,
                b.roots,
                n,
            ) by {
                if n < e {
                    assert(edges_within(old(self)@, b.base, b.roots, n));
                }
            }
        }
        e
    }

    /// Records of a node that was made within the bounds, and that is its
    /// own normal form, that it is.
    fn mark_in(&mut self, e: ExprRef, Ghost(b): Ghost<Bounds>)
        requires
            old(self).wf(),
            old(self)@.contains(e),
            old(self)@.evaluated(e) is None,
            e >= b.base.nodes.len(),
            b.holds(old(self)@),
            converges(
                old(self)@.function_terms(),
                old(self)@.term(e),
                Outcome::Done(old(self)@.term(e)),
            ),
        ensures
            final(self).wf(),
            final(self)@.extends(old(self)@),
            final(self)@.nodes.len() == old(self)@.nodes.len(),
            final(self)@.evaluated(e) == Some(e),
            forall|i: int|
                0 <= i < old(self)@.nodes.len() && i != e ==> #[trigger] final(self)@.nodes[i]
                    == old(self)@.nodes[i],
            b.holds(final(self)@),
    {
        self.set_evaluated(e, e);
        proof {
            assert forall|n: int|
                0 <= n < self@.nodes.len() && b.base.within(b.roots, n) implies #[trigger] edges_within(
                self@,
                b.base,
                b.roots,
                n,
            ) by {
                assert(edges_within(old(self)@, b.base, b.roots, n));
                assert(self@.nodes[n].expr == old(self)@.nodes[n].expr);
            }
        }
    }
}

/// The step gives the node `n`.
spec fn done_is(s: Step, n: ExprRef) -> bool {
    s matches Step::Done(v) && v == n
}

/// The node that the step gives, where it gives one, holds itself in its
/// slot.
spec fn done_valued(g: GraphView, s: Step) -> bool {
    s matches Step::Done(v) ==> g.evaluated(v) == Some(v)
}

/// The action rewrites to the node `n`.
spec fn rewrites_to(a: Action, n: ExprRef) -> bool {
    a matches Action::Rewrite(r) && r == n
}

/// The step `s` is what the plan `p` of the graph `old` says, and `new` is
/// the graph after the step was taken.
spec fn step_matches(old: GraphView, new: GraphView, s: Step, p: Plan) -> bool {
    match p {
        Plan::Need(sub, _) => s matches Step::Need(e) && e == sub && new == old,
        Plan::Finish(Outcome::Done(t)) => s matches Step::Done(r) && new.contains(r) && new.term(r)
            == t,
        Plan::Finish(Outcome::Fail(e)) => s matches Step::Fail(err) && err == e && new == old,
    }
}

impl Graph {
    /// The node for the pair of the two values `head` and `tail`, which is
    /// its own normal form.
    fn make_pair(&mut self, head: ExprRef, tail: ExprRef, Ghost(b): Ghost<Bounds>) -> (e: ExprRef)
        requires
            b.holds(old(self)@),
            b.has(head),
            b.has(tail),
            old(self).wf(),
            old(self)@.contains(head),
            old(self)@.contains(tail),
            converges(
                old(self)@.function_terms(),
                old(self)@.term(head),
                Outcome::Done(old(self)@.term(head)),
            ),
            converges(
                old(self)@.function_terms(),
                old(self)@.term(tail),
                Outcome::Done(old(self)@.term(tail)),
            ),
        ensures
            final(self).wf(),
            final(self)@.extends(old(self)@),
            final(self)@.contains(e),
            final(self)@.term(e) == Term::ap(
                Term::ap(Term::Atom(Name::Cons), old(self)@.term(head)),
                old(self)@.term(tail),
            ),
            keeps(final(self)@, old(self)@),
            final(self)@.evaluated(e) == Some(e),
            b.holds(final(self)@),
            b.has(e),
    {
        let c = self.get_constants();
        proof {
            assert(self@.node_wf(c.cons as int));
            lemma_constants_within(b, self@);
        }
        let inner = self.ap_in(c.cons, head, Ghost(b));
        let e = self.ap_in(inner, tail, Ghost(b));
        proof {
            assert(self@.function_terms() == old(self)@.function_terms());
            crate::semantics::lemma_pair_value(
                self@.function_terms(),
                old(self)@.term(head),
                old(self)@.term(tail),
            );
        }
        self.mark_in(e, Ghost(b));
        e
    }

    /// Carries out `action`, the rule of the application `cur` with the last
    /// two arguments `y` and `x`, as far as the operands are evaluated.
    fn finish_rule(
        &mut self,
        action: Action,
        cur: ExprRef,
        y: ExprRef,
        x: ExprRef,
        Ghost(rule): Ghost<Rule>,
        Ghost(b): Ghost<Bounds>,
    ) -> (s: Step)
        requires
            b.holds(old(self)@),
            b.has(cur),
            b.has(y),
            b.has(x),
            action_within(b, action),
            old(self).wf(),
            old(self)@.contains(cur),
            old(self)@.contains(y),
            old(self)@.contains(x),
            action.matches_rule(old(self)@, rule),
        ensures
            final(self).wf(),
            final(self)@.extends(old(self)@),
            step_matches(old(self)@, final(self)@, s, plan_rule(old(self)@, rule, cur, y, x)),
            keeps(final(self)@, old(self)@),
            b.holds(final(self)@),
            step_within(b, s),
            action matches Action::Rewrite(r) ==> done_is(s, r) && final(self)@ == old(self)@,
            action is Stuck ==> done_is(s, cur) && final(self)@ == old(self)@,
            action is Negate || action is Pair || (action matches Action::Binary(op, _) && (op is Add
                || op is Mul || op is Div)) ==> done_valued(final(self)@, s),
    {
        proof {
            assert(self@.node_wf(y as int));
            assert(self@.node_wf(x as int));
            assert(edges_within(self@, b.base, b.roots, y as int));
            assert(edges_within(self@, b.base, b.roots, x as int));
        }
        match action {
            Action::Rewrite(r) => Step::Done(r),
            Action::Stuck => Step::Done(cur),
            Action::Negate => match self.evaluated(x) {
                None => Step::Need(x),
                Some(value) => match self.as_num(value) {
                    Err(e) => Step::Fail(e),
                    Ok(n) => match apply_negate(n) {
                        Err(e) => Step::Fail(e),
                        Ok(name) => Step::Done(self.value_atom(name, Ghost(b))),
                    },
                },
            },
            Action::Binary(op, x_first) => {
                let first = if x_first {
                    x
                } else {
                    y
                };
                let second = if x_first {
                    y
                } else {
                    x
                };
                match self.evaluated(first) {
                    None => Step::Need(first),
                    Some(a) => match self.as_num(a) {
                        Err(e) => Step::Fail(e),
                        Ok(na) => match self.evaluated(second) {
                            None => Step::Need(second),
                            Some(other) => match self.as_num(other) {
                                Err(e) => Step::Fail(e),
                                Ok(nb) => match apply_binary(op, na, nb) {
                                    Err(e) => Step::Fail(e),
                                    Ok(name) => Step::Done(self.value_atom(name, Ghost(b))),
                                },
                            },
                        },
                    },
                }
            },
            Action::Pair => match self.evaluated(y) {
                None => Step::Need(y),
                Some(head) => match self.evaluated(x) {
                    None => Step::Need(x),
                    Some(tail) => {
                        proof {
                            let fns = self@.function_terms();
                            crate::semantics::lemma_value_converges(
                                fns,
                                self@.term(y),
                                self@.term(head),
                            );
                            crate::semantics::lemma_value_converges(
                                fns,
                                self@.term(x),
                                self@.term(tail),
                            );
                        }
                        Step::Done(self.make_pair(head, tail, Ghost(b)))
                    },
                },
            },
        }
    }

    /// One look at the node `cur`: the node that its next rewrite step needs
    /// evaluated first, or else what the step gives.
    fn try_step(&mut self, cur: ExprRef, Ghost(b): Ghost<Bounds>) -> (s: Step)
        requires
            old(self).wf(),
            old(self)@.contains(cur),
            b.holds(old(self)@),
            b.has(cur),
        ensures
            b.holds(final(self)@),
            step_within(b, s),
            final(self).wf(),
            final(self)@.extends(old(self)@),
            step_matches(old(self)@, final(self)@, s, plan(old(self)@, cur)),
            keeps(final(self)@, old(self)@),
            rests(old(self)@, cur) matches Some(n) ==> done_is(s, n) && final(self)@ == old(self)@,
            valued(old(self)@, cur) ==> done_valued(final(self)@, s),
            s is Done && old(self)@.expr(cur) is Ap ==> head(old(self)@, cur) is Some,
    {
        proof {
            assert(self@.node_wf(cur as int));
            assert(edges_within(self@, b.base, b.roots, cur as int));
        }
        match self.expr(cur) {
            Expr::Atom(Name::Function(id)) => match self.lookup(id) {
                Some(body) => {
                    proof {
                        assert(b.base.is_root(b.roots, body as int));
                        assert(b.base.reachable_within(b.roots, body as int, 0));
                    }
                    Step::Done(body)
                },
                None => Step::Fail(EvalError::UnknownFunction(id)),
            },
            Expr::Atom(_) => Step::Done(cur),
            Expr::Ap(f, x) => match self.evaluated(f) {
                None => Step::Need(f),
                Some(f1) => {
                    proof {
                        assert(self@.node_wf(f as int));
                        assert(self@.node_wf(f1 as int));
                        assert(edges_within(self@, b.base, b.roots, f as int));
                        assert(edges_within(self@, b.base, b.roots, f1 as int));
                    }
                    match self.expr(f1) {
                        Expr::Atom(op) => {
                            let ghost rule = rule1(op, self@.term(x));
                            let action = self.action1(op, x, Ghost(b));
                            self.finish_rule(action, cur, x, x, Ghost(rule), Ghost(b))
                        },
                        Expr::Ap(f2, y) => match self.evaluated(f2) {
                            None => Step::Need(f2),
                            Some(g1) => {
                                proof {
                                    assert(self@.node_wf(f2 as int));
                                    assert(self@.node_wf(g1 as int));
                                    assert(edges_within(self@, b.base, b.roots, f2 as int));
                                    assert(edges_within(self@, b.base, b.roots, g1 as int));
                                }
                                match self.expr(g1) {
                                    Expr::Atom(op) => {
                                        let ghost rule = rule2(op, self@.term(y), self@.term(x));
                                        let action = self.action2(op, y, x);
                                        self.finish_rule(action, cur, y, x, Ghost(rule), Ghost(b))
                                    },
                                    Expr::Ap(f3, z) => match self.evaluated(f3) {
                                        None => Step::Need(f3),
                                        Some(h1) => {
                                            proof {
                                                assert(self@.node_wf(f3 as int));
                                                assert(edges_within(
                                                    self@,
                                                    b.base,
                                                    b.roots,
                                                    f3 as int,
                                                ));
                                            }
                                            match self.expr(h1) {
                                                Expr::Atom(op) => {
                                                    let ghost rule = rule3(
                                                        op,
                                                        self@.term(z),
                                                        self@.term(y),
                                                        self@.term(x),
                                                    );
                                                    let action = self.action3(op, z, y, x, Ghost(b));
                                                    self.finish_rule(
                                                        action,
                                                        cur,
                                                        y,
                                                        x,
                                                        Ghost(rule),
                                                        Ghost(b),
                                                    )
                                                },
                                                Expr::Ap(_, _) => Step::Done(cur),
                                            }
                                        },
                                    },
                                }
                            },
                        },
                    }
                },
            },
        }
    }
}

/// A bound under which the evaluation of the node `e`, whose slot is set,
/// ends in what the slot holds.
proof fn known_bound(g: GraphView, e: ExprRef) -> (w: nat)
    requires
        g.wf(),
        g.contains(e),
        g.evaluated(e) is Some,
    ensures
        g.contains(g.evaluated(e)->0),
        eval_term(g.function_terms(), g.term(e), w) == Outcome::Done(
            g.term(g.evaluated(e)->0),
        ),
{
    assert(g.node_wf(e as int));
    let fns = g.function_terms();
    let o = Outcome::Done(g.term(g.evaluated(e)->0));
    choose|n: nat| #[trigger] eval_term(fns, g.term(e), n) == o
}

/// What a plan says of the outcome `a` of a rewrite step, or of a rule,
/// under the bound `m + 1`, where the evaluation of the node that the plan
/// needs ends in `sub` under the bound `m`.
spec fn need_propagates(a: Outcome, sub: Outcome, m: nat, big: nat) -> bool {
    sub is Fail ==> (a == out_of_fuel() || a == sub) && (m + 1 >= big ==> a == sub)
}

/// The plan of a rule is what the rule does: under every bound from `big` on
/// the rule ends as the plan says, and where the plan needs a node, the rule
/// fails as the evaluation of that node does.
proof fn lemma_plan_rule(g: GraphView, rule: Rule, cur: ExprRef, y: ExprRef, x: ExprRef) -> (big:
    nat)
    requires
        g.wf(),
        g.contains(cur),
        g.contains(y),
        g.contains(x),
    ensures
        big >= 1,
        match plan_rule(g, rule, cur, y, x) {
            Plan::Finish(o) => {
                &&& o != out_of_fuel()
                &&& forall|n: nat|
                    n >= big ==> #[trigger] apply_rule_at(g, rule, cur, y, x, n) == o
            },
            Plan::Need(sub, rank) => {
                &&& g.contains(sub)
                &&& g.evaluated(sub) is None
                &&& 1 <= rank <= 2
                &&& forall|m: nat|
                    need_propagates(
                        apply_rule_at(g, rule, cur, y, x, m + 1),
                        #[trigger] eval_term(g.function_terms(), g.term(sub), m),
                        m,
                        big,
                    )
            },
        },
{
    let fns = g.function_terms();
    let t = g.term(cur);
    let ty = g.term(y);
    let tx = g.term(x);
    match rule {
        Rule::Rewrite(_) => 1,
        Rule::Stuck => 1,
        Rule::Negate => match g.evaluated(x) {
            None => 1,
            Some(value) => {
                let w = known_bound(g, x);
                assert forall|n: nat| n >= w + 1 implies #[trigger] apply_rule_at(
                    g,
                    rule,
                    cur,
                    y,
                    x,
                    n,
                ) == plan_rule(g, rule, cur, y, x)->Finish_0 by {
                    crate::semantics::lemma_eval_monotonic(fns, tx, w, (n - 1) as nat);
                }
                w + 1
            },
        },
        Rule::Binary(op, x_first) => {
            let first = if x_first {
                x
            } else {
                y
            };
            let second = if x_first {
                y
            } else {
                x
            };
            match g.evaluated(first) {
                None => 1,
                Some(a) => {
                    let wa = known_bound(g, first);
                    let oa = Outcome::Done(g.term(a));
                    match g.term(a).as_num() {
                        None => {
                            assert forall|n: nat| n >= wa + 1 implies #[trigger] apply_rule_at(
                                g,
                                rule,
                                cur,
                                y,
                                x,
                                n,
                            ) == Outcome::Fail(EvalError::NotANumber) by {
                                crate::semantics::lemma_eval_monotonic(
                                    fns,
                                    g.term(first),
                                    wa,
                                    (n - 1) as nat,
                                );
                            }
                            wa + 1
                        },
                        Some(na) => match g.evaluated(second) {
                            None => {
                                assert forall|m: nat|
                                    need_propagates(
                                        apply_rule_at(g, rule, cur, y, x, m + 1),
                                        #[trigger] eval_term(fns, g.term(second), m),
                                        m,
                                        wa + 1,
                                    ) by {
                                    crate::semantics::lemma_num_known(
                                        fns,
                                        g.term(first),
                                        oa,
                                        wa,
                                        m,
                                    );
                                }
                                wa + 1
                            },
                            Some(b) => {
                                let wb = known_bound(g, second);
                                assert forall|n: nat| n >= wa + wb + 1 implies #[trigger]
                                    apply_rule_at(g, rule, cur, y, x, n) == plan_rule(
                                    g,
                                    rule,
                                    cur,
                                    y,
                                    x,
                                )->Finish_0 by {
                                    crate::semantics::lemma_eval_monotonic(
                                        fns,
                                        g.term(first),
                                        wa,
                                        (n - 1) as nat,
                                    );
                                    crate::semantics::lemma_eval_monotonic(
                                        fns,
                                        g.term(second),
                                        wb,
                                        (n - 1) as nat,
                                    );
                                }
                                wa + wb + 1
                            },
                        },
                    }
                },
            }
        },
        Rule::Pair => match g.evaluated(y) {
            None => 1,
            Some(head) => {
                let wy = known_bound(g, y);
                let oy = Outcome::Done(g.term(head));
                match g.evaluated(x) {
                    None => {
                        assert forall|m: nat|
                            need_propagates(
                                apply_rule_at(g, rule, cur, y, x, m + 1),
                                #[trigger] eval_term(fns, tx, m),
                                m,
                                wy + 1,
                            ) by {
                            crate::semantics::lemma_eval_known(fns, ty, oy, wy, m);
                        }
                        wy + 1
                    },
                    Some(tail) => {
                        let wx = known_bound(g, x);
                        assert forall|n: nat| n >= wy + wx + 1 implies #[trigger] apply_rule_at(
                            g,
                            rule,
                            cur,
                            y,
                            x,
                            n,
                        ) == plan_rule(g, rule, cur, y, x)->Finish_0 by {
                            crate::semantics::lemma_eval_monotonic(fns, ty, wy, (n - 1) as nat);
                            crate::semantics::lemma_eval_monotonic(fns, tx, wx, (n - 1) as nat);
                        }
                        wy + wx + 1
                    },
                }
            },
        },
    }
}

/// The rule `rule` on the application `cur` with the last two arguments `y`
/// and `x`, as expressions.
spec fn apply_rule_at(
    g: GraphView,
    rule: Rule,
    cur: ExprRef,
    y: ExprRef,
    x: ExprRef,
    n: nat,
) -> Outcome {
    crate::semantics::apply_rule(g.function_terms(), rule, g.term(cur), g.term(y), g.term(x), n)
}

/// The rewrite step on the node `cur`, as an expression.
spec fn step_at(g: GraphView, cur: ExprRef, n: nat) -> Outcome {
    step_term(g.function_terms(), g.term(cur), n)
}

/// What `lemma_plan` states of a plan: under every bound from `big` on the
/// rewrite step ends as the plan says, and where the plan needs a node, the
/// step fails as the evaluation of that node does.
spec fn plan_holds(g: GraphView, cur: ExprRef, big: nat) -> bool {
    match plan(g, cur) {
        Plan::Finish(o) => {
            &&& o != out_of_fuel()
            &&& forall|n: nat| n >= big ==> #[trigger] step_at(g, cur, n) == o
        },
        Plan::Need(sub, rank) => {
            &&& g.contains(sub)
            &&& g.evaluated(sub) is None
            &&& 1 <= rank <= 5
            &&& forall|m: nat|
                need_propagates(
                    step_at(g, cur, m + 1),
                    #[trigger] eval_term(g.function_terms(), g.term(sub), m),
                    m,
                    big,
                )
        },
    }
}

/// From what the plan of a rule states to what the plan of the step states,
/// where the step is the rule from the bound `w + 1` on and is the rule or
/// out of fuel under every bound.
proof fn lemma_lift_rule(
    g: GraphView,
    rule: Rule,
    cur: ExprRef,
    y: ExprRef,
    x: ExprRef,
    big_rule: nat,
    w: nat,
)
    requires
        big_rule >= 1,
        match plan_rule(g, rule, cur, y, x) {
            Plan::Finish(o) => {
                &&& o != out_of_fuel()
                &&& forall|n: nat|
                    n >= big_rule ==> #[trigger] apply_rule_at(g, rule, cur, y, x, n) == o
            },
            Plan::Need(sub, rank) => {
                &&& g.contains(sub)
                &&& g.evaluated(sub) is None
                &&& 1 <= rank <= 2
                &&& forall|m: nat|
                    need_propagates(
                        apply_rule_at(g, rule, cur, y, x, m + 1),
                        #[trigger] eval_term(g.function_terms(), g.term(sub), m),
                        m,
                        big_rule,
                    )
            },
        },
        forall|n: nat|
            ({
                let s = #[trigger] step_at(g, cur, n + 1);
                let a = apply_rule_at(g, rule, cur, y, x, n + 1);
                (s == out_of_fuel() || s == a) && (n >= w ==> s == a)
            }),
    ensures
        match plan_rule(g, rule, cur, y, x) {
            Plan::Finish(o) => {
                &&& o != out_of_fuel()
                &&& forall|n: nat| n >= big_rule + w + 1 ==> #[trigger] step_at(g, cur, n) == o
            },
            Plan::Need(sub, rank) => {
                &&& g.contains(sub)
                &&& g.evaluated(sub) is None
                &&& 1 <= rank <= 2
                &&& forall|m: nat|
                    need_propagates(
                        step_at(g, cur, m + 1),
                        #[trigger] eval_term(g.function_terms(), g.term(sub), m),
                        m,
                        big_rule + w + 1,
                    )
            },
        },
{
    let big = big_rule + w + 1;
    match plan_rule(g, rule, cur, y, x) {
        Plan::Finish(o) => {
            assert forall|n: nat| n >= big implies #[trigger] step_at(g, cur, n) == o by {
                let k = (n - 1) as nat;
                assert(step_at(g, cur, k + 1) == apply_rule_at(g, rule, cur, y, x, k + 1));
            }
        },
        Plan::Need(sub, rank) => {
            assert forall|m: nat|
                need_propagates(
                    step_at(g, cur, m + 1),
                    #[trigger] eval_term(g.function_terms(), g.term(sub), m),
                    m,
                    big,
                ) by {
                let s = step_at(g, cur, m + 1);
                let a = apply_rule_at(g, rule, cur, y, x, m + 1);
            }
        },
    }
}

/// The plan of a node is what its rewrite step does.
proof fn lemma_plan(g: GraphView, cur: ExprRef) -> (big: nat)
    requires
        g.wf(),
        g.contains(cur),
    ensures
        big >= 1,
        plan_holds(g, cur, big),
{
    let fns = g.function_terms();
    let t = g.term(cur);
    assert(g.node_wf(cur as int));
    match g.expr(cur) {
        Expr::Atom(Name::Function(id)) => {
            assert forall|n: nat| n >= 1 implies #[trigger] step_at(g, cur, n) == plan(
                g,
                cur,
            )->Finish_0 by {}
            1
        },
        Expr::Atom(_) => {
            assert forall|n: nat| n >= 1 implies #[trigger] step_at(g, cur, n) == plan(
                g,
                cur,
            )->Finish_0 by {}
            1
        },
        Expr::Ap(f, x) => {
            let tf = g.term(f);
            let tx = g.term(x);
            match g.evaluated(f) {
                None => 1,
                Some(f1) => {
                    let wf = known_bound(g, f);
                    assert(g.node_wf(f1 as int));
                    match g.expr(f1) {
                        Expr::Atom(op) => {
                            let rule = rule1(op, tx);
                            let big_rule = lemma_plan_rule(g, rule, cur, x, x);
                            assert forall|n: nat|
                                ({
                                    let s = #[trigger] step_at(g, cur, n + 1);
                                    let a = apply_rule_at(g, rule, cur, x, x, n + 1);
                                    (s == out_of_fuel() || s == a) && (n >= wf ==> s == a)
                                }) by {
                                crate::semantics::lemma_unwrap1(fns, tf, tx, op, wf, n);
                            }
                            lemma_lift_rule(g, rule, cur, x, x, big_rule, wf);
                            big_rule + wf + 1
                        },
                        Expr::Ap(f2, y) => {
                            let tg = g.term(f2);
                            let ty = g.term(y);
                            match g.evaluated(f2) {
                                None => {
                                    assert forall|m: nat|
                                        need_propagates(
                                            step_at(g, cur, m + 1),
                                            #[trigger] eval_term(fns, tg, m),
                                            m,
                                            wf + 1,
                                        ) by {
                                        if eval_term(fns, tg, m) is Fail {
                                            crate::semantics::lemma_unwrap2_fails(
                                                fns,
                                                tf,
                                                tx,
                                                tg,
                                                ty,
                                                wf,
                                                m,
                                            );
                                        }
                                    }
                                    wf + 1
                                },
                                Some(g1) => {
                                    let wg = known_bound(g, f2);
                                    assert(g.node_wf(g1 as int));
                                    match g.expr(g1) {
                                        Expr::Atom(op) => {
                                            let rule = rule2(op, ty, tx);
                                            let big_rule = lemma_plan_rule(g, rule, cur, y, x);
                                            assert forall|n: nat|
                                                ({
                                                    let s = #[trigger] step_at(g, cur, n + 1);
                                                    let a = apply_rule_at(
                                                        g,
                                                        rule,
                                                        cur,
                                                        y,
                                                        x,
                                                        n + 1,
                                                    );
                                                    (s == out_of_fuel() || s == a) && (n >= wf
                                                        + wg ==> s == a)
                                                }) by {
                                                crate::semantics::lemma_unwrap2(
                                                    fns,
                                                    tf,
                                                    tx,
                                                    tg,
                                                    ty,
                                                    op,
                                                    wf,
                                                    wg,
                                                    n,
                                                );
                                            }
                                            lemma_lift_rule(g, rule, cur, y, x, big_rule, wf + wg);
                                            big_rule + wf + wg + 1
                                        },
                                        Expr::Ap(f3, z) => {
                                            let th = g.term(f3);
                                            let tz = g.term(z);
                                            match g.evaluated(f3) {
                                                None => {
                                                    assert forall|m: nat|
                                                        need_propagates(
                                                            step_at(g, cur, m + 1),
                                                            #[trigger] eval_term(fns, th, m),
                                                            m,
                                                            wf + wg + 1,
                                                        ) by {
                                                        if eval_term(fns, th, m) is Fail {
                                                            crate::semantics::lemma_unwrap3_fails(
                                                                fns,
                                                                tf,
                                                                tx,
                                                                tg,
                                                                ty,
                                                                th,
                                                                tz,
                                                                wf,
                                                                wg,
                                                                m,
                                                            );
                                                        }
                                                    }
                                                    wf + wg + 1
                                                },
                                                Some(h1) => {
                                                    let wh = known_bound(g, f3);
                                                    assert(g.node_wf(h1 as int));
                                                    match g.expr(h1) {
                                                        Expr::Atom(op) => {
                                                            let rule = rule3(op, tz, ty, tx);
                                                            let big_rule = lemma_plan_rule(
                                                                g,
                                                                rule,
                                                                cur,
                                                                y,
                                                                x,
                                                            );
                                                            assert forall|n: nat|
                                                                ({
                                                                    let s = #[trigger] step_at(
                                                                        g,
                                                                        cur,
                                                                        n + 1,
                                                                    );
                                                                    let a = apply_rule_at(
                                                                        g,
                                                                        rule,
                                                                        cur,
                                                                        y,
                                                                        x,
                                                                        n + 1,
                                                                    );
                                                                    (s == out_of_fuel() || s == a)
                                                                        && (n >= wf + wg + wh
                                                                        ==> s == a)
                                                                }) by {
                                                                crate::semantics::lemma_unwrap3(
                                                                    fns,
                                                                    tf,
                                                                    tx,
                                                                    tg,
                                                                    ty,
                                                                    th,
                                                                    tz,
                                                                    op,
                                                                    wf,
                                                                    wg,
                                                                    wh,
                                                                    n,
                                                                );
                                                            }
                                                            lemma_lift_rule(
                                                                g,
                                                                rule,
                                                                cur,
                                                                y,
                                                                x,
                                                                big_rule,
                                                                wf + wg + wh,
                                                            );
                                                            big_rule + wf + wg + wh + 1
                                                        },
                                                        Expr::Ap(_, _) => {
                                                            let big = wf + wg + wh + 1;
                                                            assert forall|n: nat|
                                                                n >= big implies #[trigger] step_at(
                                                                g,
                                                                cur,
                                                                n,
                                                            ) == Outcome::Done(t) by {
                                                                crate::semantics::lemma_unwrap_deep(
                                                                    fns,
                                                                    tf,
                                                                    tx,
                                                                    tg,
                                                                    ty,
                                                                    th,
                                                                    tz,
                                                                    g.term(h1),
                                                                    wf,
                                                                    wg,
                                                                    wh,
                                                                    (n - 1) as nat,
                                                                );
                                                            }
                                                            big
                                                        },
                                                    }
                                                },
                                            }
                                        },
                                    }
                                },
                            }
                        },
                    }
                },
            }
        },
    }
}

/// What evaluation does to the plan of a rule: it stays what it was until
/// the node that it needs is evaluated, and then needs less.
proof fn lemma_plan_rule_extends(
    g: GraphView,
    h: GraphView,
    rule: Rule,
    cur: ExprRef,
    y: ExprRef,
    x: ExprRef,
)
    requires
        g.wf(),
        h.extends(g),
        g.contains(cur),
        g.contains(y),
        g.contains(x),
    ensures
        match plan_rule(g, rule, cur, y, x) {
            Plan::Finish(o) => plan_rule(h, rule, cur, y, x) == Plan::Finish(o),
            Plan::Need(sub, rank) => if h.evaluated(sub) is None {
                plan_rule(h, rule, cur, y, x) == Plan::Need(sub, rank)
            } else {
                plan_rule(h, rule, cur, y, x).rank() < rank
            },
        },
{
    assert(g.node_wf(y as int));
    assert(g.node_wf(x as int));
    if g.evaluated(y) is Some {
        let v = g.evaluated(y)->0;
    }
    if g.evaluated(x) is Some {
        let v = g.evaluated(x)->0;
    }
}

/// What evaluation does to the plan of a node: it stays what it was until
/// the node that it needs is evaluated, and then needs less.
proof fn lemma_plan_extends(g: GraphView, h: GraphView, cur: ExprRef)
    requires
        g.wf(),
        h.extends(g),
        g.contains(cur),
    ensures
        match plan(g, cur) {
            Plan::Finish(o) => plan(h, cur) == Plan::Finish(o),
            Plan::Need(sub, rank) => if h.evaluated(sub) is None {
                plan(h, cur) == Plan::Need(sub, rank)
            } else {
                plan(h, cur).rank() < rank
            },
        },
        plan(g, cur).rank() <= 5,
{
    assert(g.node_wf(cur as int));
    match g.expr(cur) {
        Expr::Atom(Name::Function(id)) => {
            if g.functions.contains_key(id) {
                let body = g.functions[id];
            }
        },
        Expr::Atom(_) => {},
        Expr::Ap(f, x) => {
            match g.evaluated(f) {
                None => {},
                Some(f1) => {
                    assert(g.node_wf(f as int));
                    assert(g.node_wf(f1 as int));
                    match g.expr(f1) {
                        Expr::Atom(op) => {
                            lemma_plan_rule_extends(g, h, rule1(op, g.term(x)), cur, x, x);
                        },
                        Expr::Ap(f2, y) => {
                            match g.evaluated(f2) {
                                None => {},
                                Some(g1) => {
                                    assert(g.node_wf(f2 as int));
                                    assert(g.node_wf(g1 as int));
                                    match g.expr(g1) {
                                        Expr::Atom(op) => {
                                            lemma_plan_rule_extends(
                                                g,
                                                h,
                                                rule2(op, g.term(y), g.term(x)),
                                                cur,
                                                y,
                                                x,
                                            );
                                        },
                                        Expr::Ap(f3, z) => {
                                            match g.evaluated(f3) {
                                                None => {},
                                                Some(h1) => {
                                                    assert(g.node_wf(f3 as int));
                                                },
                                            }
                                        },
                                    }
                                },
                            }
                        },
                    }
                },
            }
        },
    }
}

/// What both engines promise of the outcome `o` of the evaluation of `t`
/// with the bound `fuel`: unless it is `OutOfFuel`, it is what `t` evaluates
/// to; and it is not `OutOfFuel` where the evaluation ends within `fuel`.
pub open spec fn evaluates_as(fns: Functions, t: Term, fuel: nat, o: Outcome) -> bool {
    &&& o != out_of_fuel() ==> converges(fns, t, o)
    &&& eval_term(fns, t, fuel) != out_of_fuel() ==> o == eval_term(fns, t, fuel)
}

/// An expression whose slot is set is answered from the slot: the result is
/// what the slot holds, whatever the bound, and the graph stays as it is.
pub open spec fn from_slot(
    old: GraphView,
    new: GraphView,
    expr: ExprRef,
    r: Result<ExprRef, EvalError>,
) -> bool {
    match old.evaluated(expr) {
        Some(known) => r == Ok::<ExprRef, EvalError>(known) && new == old,
        None => true,
    }
}

/// What a rewrite step says of the node that it gives. Where the step
/// rests on a node of the graph `old`, it gives that very node and leaves the
/// graph as it is. After a step on an application the slots of the function
/// parts are set as far as the unwrapping went. Where the step rests on a
/// node then, it gives that very node: the expression itself where no rule
/// applies, the argument itself for `i`, `t` and `f`. And the number of an
/// arithmetic operator and the pair of `cons` hold themselves in their slots.
pub open spec fn step_nodes(
    old: GraphView,
    new: GraphView,
    expr: ExprRef,
    r: Result<ExprRef, EvalError>,
) -> bool {
    &&& match rests(old, expr) {
        Some(n) => r == Ok::<ExprRef, EvalError>(n) && new == old,
        None => true,
    }
    &&& match r {
        Ok(v) => {
            &&& old.expr(expr) is Ap ==> head(new, expr) is Some
            &&& match rests(new, expr) {
                Some(n) => v == n,
                None => true,
            }
            &&& valued(new, expr) ==> new.evaluated(v) == Some(v)
        },
        Err(_) => true,
    }
}

/// An evaluation of `expr` stays within what is reached from `expr`, the
/// constants and the bodies of the functions: every other node of the graph
/// is as it was, slot and all, and the result is a node that is reached or
/// one that was made.
pub open spec fn stays_within(
    old: GraphView,
    new: GraphView,
    expr: ExprRef,
    r: Result<ExprRef, EvalError>,
) -> bool {
    &&& confined(new, old, seq![expr])
    &&& match r {
        Ok(v) => old.within(seq![expr], v as int),
        Err(_) => true,
    }
}

/// The function part of `e`, as the roots of an evaluation: nothing for an
/// atom.
pub open spec fn parts(g: GraphView, e: ExprRef) -> Seq<ExprRef> {
    match g.expr(e) {
        Expr::Ap(f, _) => seq![f],
        Expr::Atom(_) => Seq::empty(),
    }
}

/// Where the slot of `e` was empty and a rewrite step rests on `e` itself,
/// what happened stayed within what is reached from the function part of
/// `e`, but for the slot of `e`.
pub open spec fn fine(old: GraphView, new: GraphView, e: ExprRef) -> bool {
    old.evaluated(e) is None && rests(new, e) == Some(e) ==> confined(
        new.forget(e),
        old,
        parts(old, e),
    )
}

/// What an evaluation says of an expression whose slot was empty: where it
/// ends, the slots show the head of the expression; and where the
/// expression is its own normal form, because the step rests on it, only
/// its function parts were evaluated.
pub open spec fn own_form(
    old: GraphView,
    new: GraphView,
    expr: ExprRef,
    r: Result<ExprRef, EvalError>,
) -> bool {
    old.evaluated(expr) is None ==> {
        &&& r is Ok && old.expr(expr) is Ap ==> head(new, expr) is Some
        &&& fine(old, new, expr)
    }
}

/// A rewrite step that rests on a node has evaluated function parts only:
/// it stayed within what is reached from the function part of `expr`, so
/// that an operand that is not reached from there is as it was, slot and
/// all. Where that function part is its own normal form, as `t x` is in
/// `t x y`, the step stayed within what is reached from the function part
/// of the function part, but for the slot of the function part: `x` is as
/// it was too.
pub open spec fn rests_within(old: GraphView, new: GraphView, expr: ExprRef) -> bool {
    match old.expr(expr) {
        Expr::Ap(f, _) => rests(new, expr) is Some ==> confined(new, old, seq![f]) && fine(
            old,
            new,
            f,
        ),
        Expr::Atom(_) => true,
    }
}

/// The slots show that the step on `e` is one that evaluates operands or
/// makes a node.
spec fn strict(g: GraphView, e: ExprRef) -> bool {
    head(g, e) is Some && rests(g, e) is None
}

/// What the step on `expr` did so far stayed within what is reached from
/// its function part, unless the step is one that evaluates operands.
spec fn parts_only(old: GraphView, g: GraphView, expr: ExprRef) -> bool {
    match old.expr(expr) {
        Expr::Ap(f, _) => (confined(g, old, seq![f]) && fine(old, g, f) && parts_seen(old, g, f))
            || strict(g, expr),
        Expr::Atom(_) => true,
    }
}

/// Of the function part `f`, whose slot was empty: while it still is,
/// nothing has happened; once it is set, the slots show the head of `f`.
spec fn parts_seen(old: GraphView, g: GraphView, f: ExprRef) -> bool {
    old.evaluated(f) is None ==> match g.evaluated(f) {
        None => g == old,
        Some(_) => old.expr(f) is Ap ==> head(g, f) is Some,
    }
}

/// Nothing has happened yet.
proof fn lemma_parts_start(g: GraphView, expr: ExprRef)
    requires
        g.wf(),
        g.contains(expr),
    ensures
        parts_only(g, g, expr),
        fine(g, g, expr),
{
    assert(g.node_wf(expr as int));
    crate::graph::lemma_confined_start(g, parts(g, expr));
    if g.evaluated(expr) is None {
        crate::graph::lemma_confined_forget(g, g, g, parts(g, expr), expr);
    }
    match g.expr(expr) {
        Expr::Ap(f, _) => {
            assert(g.node_wf(f as int));
            crate::graph::lemma_confined_start(g, seq![f]);
            crate::graph::lemma_confined_start(g, parts(g, f));
            if g.evaluated(f) is None {
                crate::graph::lemma_confined_forget(g, g, g, parts(g, f), f);
            }
        },
        Expr::Atom(_) => {},
    }
}

/// The head of an application whose function part is its own normal form.
proof fn lemma_head_through(g: GraphView, e: ExprRef, f: ExprRef)
    requires
        g.expr(e) matches Expr::Ap(func, _) && func == f,
        g.evaluated(f) == Some(f),
        g.expr(f) is Ap ==> head(g, f) is Some,
    ensures
        head(g, e) is Some,
{
}

/// The evaluation of the node that the step on `expr` needed keeps what is
/// known of the function part of `expr`.
proof fn lemma_parts_need(
    old: GraphView,
    g: GraphView,
    h: GraphView,
    expr: ExprRef,
    f: ExprRef,
    sub: ExprRef,
    r: Result<ExprRef, EvalError>,
)
    requires
        old.wf(),
        g.wf(),
        h.wf(),
        g.extends(old),
        h.extends(g),
        old.contains(expr),
        old.expr(expr) matches Expr::Ap(func, _) && func == f,
        settles(old, g),
        parts_only(old, g, expr),
        plan(g, expr) matches Plan::Need(n, _) && n == sub,
        g.contains(sub),
        own_form(g, h, sub, r),
        stays_within(g, h, sub, r),
        r matches Ok(v) ==> h.evaluated(sub) == Some(v),
    ensures
        r is Ok ==> parts_only(old, h, expr),
        rests(h, expr) is Some ==> confined(h, old, seq![f]) && fine(old, h, f),
{
    assert(old.node_wf(expr as int));
    assert(g.node_wf(expr as int));
    assert(g.node_wf(f as int));
    if head(g, expr) is Some {
        lemma_need_strict(g, expr);
        lemma_head_extends(g, h, expr);
    } else {
        lemma_need_part(old, g, expr, f, sub);
        lemma_bounds_lift(Bounds { base: old, roots: seq![f] }, g, h, sub);
        if old.evaluated(f) is None {
            match g.evaluated(f) {
                None => {
                    assert(sub == f);
                },
                Some(f1) => {
                    lemma_head_extends(g, h, f);
                    if rests(g, f) == Some(f) {
                        assert(settled(g, f));
                        lemma_head_through(g, expr, f);
                    }
                },
            }
        }
    }
}

/// A step that needs a node though the head is known needs an operand.
proof fn lemma_need_strict(g: GraphView, e: ExprRef)
    requires
        g.wf(),
        g.contains(e),
        plan(g, e) is Need,
        head(g, e) is Some,
    ensures
        strict(g, e),
{
}

/// A step that needs a node while the head is not known needs a function
/// part, which is reached from the function part of the expression.
proof fn lemma_need_part(old: GraphView, g: GraphView, e: ExprRef, f: ExprRef, sub: ExprRef)
    requires
        old.wf(),
        g.wf(),
        g.extends(old),
        old.contains(e),
        old.expr(e) matches Expr::Ap(func, _) && func == f,
        confined(g, old, seq![f]),
        plan(g, e) matches Plan::Need(n, _) && n == sub,
        head(g, e) is None,
    ensures
        old.within(seq![f], sub as int),
{
    let roots = seq![f];
    assert(roots[0] == f);
    assert(old.is_root(roots, f as int));
    assert(old.reachable_within(roots, f as int, 0));
    assert(g.node_wf(e as int));
    assert(g.node_wf(f as int));
    match g.evaluated(f) {
        None => {},
        Some(f1) => {
            assert(edges_within(g, old, roots, f as int));
            assert(g.node_wf(f1 as int));
            assert(edges_within(g, old, roots, f1 as int));
            match g.expr(f1) {
                Expr::Atom(_) => {},
                Expr::Ap(f2, _) => {
                    assert(g.node_wf(f2 as int));
                    match g.evaluated(f2) {
                        None => {},
                        Some(g1) => {
                            assert(edges_within(g, old, roots, f2 as int));
                            assert(g.node_wf(g1 as int));
                            assert(edges_within(g, old, roots, g1 as int));
                        },
                    }
                },
            }
        },
    }
}

/// Where `new` differs in the slot of `expr` alone from the graph `mid`
/// that a rewrite step on `expr` left, and the step rests on `expr`, only
/// function parts of `expr` were evaluated.
proof fn lemma_own_form(old: GraphView, mid: GraphView, new: GraphView, expr: ExprRef)
    requires
        old.wf(),
        old.contains(expr),
        old.evaluated(expr) is None,
        mid.extends(old),
        new.extends(mid),
        rests_within(old, mid, expr),
        old.expr(expr) is Atom && rests(old, expr) is Some ==> mid == old,
        rests(new, expr) == rests(mid, expr),
        new.nodes.len() == mid.nodes.len(),
        forall|i: int| 0 <= i < mid.nodes.len() && i != expr ==> #[trigger] new.nodes[i] == mid.nodes[i],
    ensures
        fine(old, new, expr),
{
    if rests(new, expr) == Some(expr) {
        match old.expr(expr) {
            Expr::Ap(f, _) => {
                crate::graph::lemma_confined_forget(old, mid, new, seq![f], expr);
            },
            Expr::Atom(_) => {
                crate::graph::lemma_confined_start(old, Seq::empty());
                crate::graph::lemma_confined_forget(old, mid, new, Seq::empty(), expr);
            },
        }
    }
}

/// The bounds of an evaluation of `expr` from the graph `g` hold at its
/// start and have `expr`.
proof fn lemma_bounds_start(g: GraphView, expr: ExprRef) -> (b: Bounds)
    requires
        g.wf(),
        g.contains(expr),
    ensures
        b == (Bounds { base: g, roots: seq![expr] }),
        b.holds(g),
        b.has(expr),
{
    let roots = seq![expr];
    crate::graph::lemma_confined_start(g, roots);
    assert(roots[0] == expr);
    assert(g.is_root(roots, expr as int));
    assert(g.reachable_within(roots, expr as int, 0));
    Bounds { base: g, roots }
}

/// An evaluation inside an evaluation stays within the bounds of the outer
/// one.
proof fn lemma_bounds_lift(b: Bounds, mid: GraphView, new: GraphView, sub: ExprRef)
    requires
        b.base.wf(),
        mid.wf(),
        b.holds(mid),
        mid.contains(sub),
        b.has(sub),
        confined(new, mid, seq![sub]),
    ensures
        b.holds(new),
        forall|n: int| 0 <= n && #[trigger] mid.within(seq![sub], n) ==> b.base.within(b.roots, n),
{
    let inner = seq![sub];
    assert forall|i: int| 0 <= i < inner.len() implies mid.contains(#[trigger] inner[i])
        && b.base.within(b.roots, inner[i] as int) by {}
    crate::graph::lemma_confined_lift(b.base, mid, new, b.roots, inner);
}

impl Graph {
    /// Records that `e` evaluates to `value`, both within the bounds.
    fn record(&mut self, e: ExprRef, value: ExprRef, Ghost(b): Ghost<Bounds>) -> (r: ExprRef)
        requires
            old(self).wf(),
            old(self)@.contains(e),
            old(self)@.contains(value),
            converges(
                old(self)@.function_terms(),
                old(self)@.term(e),
                Outcome::Done(old(self)@.term(value)),
            ),
            b.holds(old(self)@),
            b.has(e),
            b.has(value),
            old(self)@.evaluated(e) is None ==> value == e || moves(old(self)@, e),
        ensures
            final(self).wf(),
            final(self)@.extends(old(self)@),
            final(self)@.nodes.len() == old(self)@.nodes.len(),
            final(self)@.evaluated(e) == Some(r),
            r == match old(self)@.evaluated(e) {
                Some(known) => known,
                None => value,
            },
            b.holds(final(self)@),
            b.has(r),
            settles(old(self)@, final(self)@),
            forall|i: int|
                0 <= i < old(self)@.nodes.len() && i != e ==> #[trigger] final(self)@.nodes[i]
                    == old(self)@.nodes[i],
    {
        proof {
            assert(edges_within(self@, b.base, b.roots, e as int));
        }
        let r = self.set_evaluated(e, value);
        proof {
            assert forall|n: ExprRef|
                old(self)@.contains(n) && old(self)@.evaluated(n) is None implies #[trigger] settled(
                self@,
                n,
            ) by {
                if n == e {
                    if value != e {
                        lemma_head_extends(old(self)@, self@, e);
                    }
                } else {
                    assert(self@.nodes[n as int] == old(self)@.nodes[n as int]);
                }
            }
            assert forall|n: int|
                0 <= n < self@.nodes.len() && b.base.within(b.roots, n) implies #[trigger] edges_within(
                self@,
                b.base,
                b.roots,
                n,
            ) by {
                assert(edges_within(old(self)@, b.base, b.roots, n));
                assert(self@.nodes[n].expr == old(self)@.nodes[n].expr);
            }
        }
        r
    }
}

/// The outcome that a result of the engine stands for in the graph `g`.
pub open spec fn outcome_of(g: GraphView, r: Result<ExprRef, EvalError>) -> Outcome {
    match r {
        Ok(e) => Outcome::Done(g.term(e)),
        Err(e) => Outcome::Fail(e),
    }
}

impl Graph {
    /// Evaluates the node `expr` to normal form by recursion: it is
    /// rewritten until a step gives back what it was given. `fuel` bounds
    /// how deep the rewriting and the evaluations inside it may nest. The
    /// result is what the expression evaluates to, where that is found
    /// within the bound, and it is recorded in the slot of `expr`.
    ///
    /// An expression whose slot is set is answered from the slot. Every
    /// slot that is filled is settled: a node on which its own step rests
    /// holds itself, so that such an expression evaluates to itself as a
    /// node. Nothing is touched but what is reached from `expr`, the
    /// constants and the bodies of the functions; and where `expr` is its
    /// own normal form in this way, nothing but what is reached from its
    /// function part, and its own slot.
    pub fn eval(&mut self, expr: ExprRef, fuel: u64) -> (r: Result<ExprRef, EvalError>)
        requires
            old(self).wf(),
            old(self)@.contains(expr),
        ensures
            final(self).wf(),
            final(self)@.extends(old(self)@),
            r matches Ok(v) ==> final(self)@.contains(v) && final(self)@.evaluated(expr) == Some(
                v,
            ),
            evaluates_as(
                old(self)@.function_terms(),
                old(self)@.term(expr),
                fuel as nat,
                outcome_of(final(self)@, r),
            ),
            from_slot(old(self)@, final(self)@, expr, r),
            stays_within(old(self)@, final(self)@, expr, r),
            settles(old(self)@, final(self)@),
            own_form(old(self)@, final(self)@, expr, r),
        decreases fuel, 1nat,
    {
        let ghost fns = self@.function_terms();
        let ghost root = self@.term(expr);
        let ghost bounds = lemma_bounds_start(self@, expr);
        proof {
            lemma_keeps_settles(self@, self@);
            lemma_parts_start(self@, expr);
        }
        if let Some(v) = self.evaluated(expr) {
            proof {
                assert(self@.node_wf(expr as int));
                assert(edges_within(self@, bounds.base, bounds.roots, expr as int));
                crate::semantics::lemma_converges_at(
                    fns,
                    root,
                    Outcome::Done(self@.term(v)),
                    fuel as nat,
                );
            }
            return Ok(v);
        }
        let mut cur = expr;
        let mut k = fuel;
        loop
            invariant
                self.wf(),
                self@.extends(old(self)@),
                old(self).wf(),
                old(self)@.contains(expr),
                self@.contains(cur),
                fns == old(self)@.function_terms(),
                root == old(self)@.term(expr),
                old(self)@.evaluated(expr) is None,
                bounds == (Bounds { base: old(self)@, roots: seq![expr] }),
                bounds.holds(self@),
                bounds.has(cur),
                bounds.has(expr),
                settles(old(self)@, self@),
                cur == expr || moves(self@, expr),
                moves(self@, expr) || self@ == old(self)@,
                fine(old(self)@, old(self)@, expr),
                k <= fuel,
                forall|o: Outcome| #[trigger]
                    converges(fns, self@.term(cur), o) ==> converges(fns, root, o),
                eval_term(fns, self@.term(cur), k as nat) == out_of_fuel() ==> eval_term(
                    fns,
                    root,
                    fuel as nat,
                ) == out_of_fuel(),
            decreases k,
        {
            proof {
                crate::graph::lemma_extends_functions(old(self)@, self@);
            }
            let ghost tc = self@.term(cur);
            let ghost start = self@;
            if let Some(m) = self.evaluated(cur) {
                proof {
                    assert(self@.node_wf(cur as int));
                    assert(edges_within(self@, bounds.base, bounds.roots, cur as int));
                }
                let v = self.record(expr, m, Ghost(bounds));
                proof {
                    lemma_settles_trans(old(self)@, start, self@);
                    lemma_head_extends(start, self@, expr);
                    crate::graph::lemma_extends_functions(old(self)@, self@);
                    assert(self@.node_wf(expr as int));
                    crate::semantics::lemma_converges_at(
                        fns,
                        root,
                        Outcome::Done(self@.term(v)),
                        fuel as nat,
                    );
                }
                return Ok(v);
            }
            if k == 0 {
                return Err(EvalError::OutOfFuel);
            }
            let ghost before = self@;
            match self.try_eval(cur, k) {
                Err(e) => {
                    proof {
                        lemma_bounds_lift(bounds, before, self@, cur);
                        lemma_settles_trans(old(self)@, before, self@);
                        if moves(before, expr) {
                            lemma_head_extends(before, self@, expr);
                        } else {
                            lemma_own_form(old(self)@, self@, self@, expr);
                        }
                        if e != EvalError::OutOfFuel {
                            crate::semantics::lemma_step_fails(fns, tc, e);
                            crate::semantics::lemma_converges_at(
                                fns,
                                root,
                                Outcome::Fail(e),
                                fuel as nat,
                            );
                        }
                    }
                    return Err(e);
                },
                Ok(r) => {
                    let ghost mid = self@;
                    proof {
                        crate::graph::lemma_extends_functions(old(self)@, self@);
                        lemma_bounds_lift(bounds, before, self@, cur);
                        assert(before.within(seq![cur], r as int));
                        lemma_settles_trans(old(self)@, before, mid);
                        lemma_moves_extends(before, mid);
                        assert(r == expr || moves(mid, expr));
                        assert(old(self)@.expr(expr) is Ap ==> head(mid, expr) is Some);
                    }
                    if self.equals(r, cur) {
                        proof {
                            crate::semantics::lemma_step_fixed(fns, tc);
                        }
                        self.record(r, r, Ghost(bounds));
                        let ghost mid2 = self@;
                        proof {
                            crate::graph::lemma_extends_functions(old(self)@, mid2);
                            lemma_settles_trans(old(self)@, mid, mid2);
                            lemma_moves_extends(mid, mid2);
                        }
                        let v = self.record(expr, r, Ghost(bounds));
                        proof {
                            lemma_settles_trans(old(self)@, mid2, self@);
                            lemma_head_extends(mid, self@, expr);
                            if !moves(mid, expr) {
                                lemma_own_form(old(self)@, mid, self@, expr);
                            }
                            crate::graph::lemma_extends_functions(old(self)@, self@);
                            assert(self@.node_wf(expr as int));
                            crate::semantics::lemma_converges_at(
                                fns,
                                root,
                                Outcome::Done(self@.term(v)),
                                fuel as nat,
                            );
                        }
                        return Ok(v);
                    }
                    proof {
                        let tr = self@.term(r);
                        assert forall|o: Outcome| #[trigger]
                            converges(fns, tr, o) implies converges(fns, root, o) by {
                            crate::semantics::lemma_step_then_eval(fns, tc, tr, o);
                        }
                    }
                    cur = r;
                    k = k - 1;
                },
            }
        }
    }

    /// One rewrite step on the node `expr`, with the nodes that the step
    /// depends on evaluated by recursion. `fuel` bounds how deep those
    /// evaluations may nest.
    ///
    /// The step gives a node of the graph where it can: the expression
    /// itself where no rule applies, the body of a function, and the
    /// operand itself for `i`, `t` and `f`. Such a step evaluates function
    /// parts only, so that an operand that is not reached from them stays
    /// as it is, slot and all.
    pub fn try_eval(&mut self, expr: ExprRef, fuel: u64) -> (r: Result<ExprRef, EvalError>)
        requires
            old(self).wf(),
            old(self)@.contains(expr),
        ensures
            final(self).wf(),
            final(self)@.extends(old(self)@),
            r matches Ok(v) ==> final(self)@.contains(v),
            outcome_of(final(self)@, r) != out_of_fuel() ==> steps(
                old(self)@.function_terms(),
                old(self)@.term(expr),
                outcome_of(final(self)@, r),
            ),
            step_term(old(self)@.function_terms(), old(self)@.term(expr), fuel as nat)
                != out_of_fuel() ==> outcome_of(final(self)@, r) == step_term(
                old(self)@.function_terms(),
                old(self)@.term(expr),
                fuel as nat,
            ),
            step_nodes(old(self)@, final(self)@, expr, r),
            stays_within(old(self)@, final(self)@, expr, r),
            settles(old(self)@, final(self)@),
            rests_within(old(self)@, final(self)@, expr),
        decreases fuel, 0nat,
    {
        let ghost fns = self@.function_terms();
        let ghost t = self@.term(expr);
        let ghost bounds = lemma_bounds_start(self@, expr);
        proof {
            lemma_keeps_settles(self@, self@);
            lemma_parts_start(self@, expr);
        }
        loop
            invariant
                self.wf(),
                settles(old(self)@, self@),
                parts_only(old(self)@, self@, expr),
                self@.extends(old(self)@),
                old(self).wf(),
                old(self)@.contains(expr),
                fns == old(self)@.function_terms(),
                t == old(self)@.term(expr),
                rests(old(self)@, expr) is Some ==> self@ == old(self)@,
                bounds == (Bounds { base: old(self)@, roots: seq![expr] }),
                bounds.holds(self@),
                bounds.has(expr),
            decreases plan(self@, expr).rank(),
        {
            let ghost before = self@;
            let ghost big: nat = 0;
            proof {
                crate::graph::lemma_extends_functions(old(self)@, self@);
                big = lemma_plan(before, expr);
                assert(before.node_wf(expr as int));
            }
            let step = self.try_step(expr, Ghost(bounds));
            let ghost stepped = self@;
            proof {
                lemma_keeps_settles(before, stepped);
                lemma_settles_trans(old(self)@, before, stepped);
                lemma_head_keeps(before, stepped, expr);
                if step is Done && rests(before, expr) is None && before.expr(expr) is Ap {
                    assert(strict(stepped, expr));
                }
                assert(rests_within(old(self)@, stepped, expr));
            }
            match step {
                Step::Done(r) => {
                    proof {
                        let o = Outcome::Done(self@.term(r));
                        assert(step_at(before, expr, big) == o);
                        crate::semantics::lemma_steps_at(fns, t, o, fuel as nat);
                        lemma_head_keeps(before, self@, expr);
                    }
                    return Ok(r);
                },
                Step::Fail(e) => {
                    proof {
                        let o = Outcome::Fail(e);
                        crate::semantics::lemma_steps_at(fns, t, o, fuel as nat);
                    }
                    return Err(e);
                },
                Step::Need(sub) => {
                    let ghost ts = before.term(sub);
                    if fuel == 0 {
                        return Err(EvalError::OutOfFuel);
                    }
                    let sub_result = self.eval(sub, fuel - 1);
                    proof {
                        match old(self)@.expr(expr) {
                            Expr::Ap(f, _) => {
                                lemma_parts_need(
                                    old(self)@,
                                    before,
                                    self@,
                                    expr,
                                    f,
                                    sub,
                                    sub_result,
                                );
                            },
                            Expr::Atom(_) => {},
                        }
                    }
                    match sub_result {
                        Err(e) => {
                            proof {
                                lemma_bounds_lift(bounds, before, self@, sub);
                                lemma_settles_trans(old(self)@, stepped, self@);
                                let m = (fuel - 1) as nat;
                                if e == EvalError::OutOfFuel {
                                } else {
                                    let o = Outcome::Fail(e);
                                    let w = choose|w: nat| #[trigger] eval_term(fns, ts, w) == o;
                                    let m2 = w + big;
                                    crate::semantics::lemma_eval_monotonic(fns, ts, w, m2);
                                }
                            }
                            return Err(e);
                        },
                        Ok(_) => {
                            proof {
                                lemma_bounds_lift(bounds, before, self@, sub);
                                lemma_settles_trans(old(self)@, stepped, self@);
                                lemma_plan_extends(before, self@, expr);
                            }
                        },
                    }
                },
            }
        }
    }
}

/// An evaluation in progress on the work stack: the node of which the
/// normal form is wanted, the node that it was rewritten to so far, and how
/// deep the rest of the evaluation may nest.
#[derive(Clone, Copy, Debug)]
struct Frame {
    initial: ExprRef,
    current: ExprRef,
    fuel: u64,
}

/// A bound on the number of turns of the work loop that an evaluation with
/// the bound `k` on its depth takes.
spec fn work(k: nat) -> nat
    decreases k,
{
    if k == 0 {
        1
    } else {
        6 * (1 + work((k - 1) as nat))
    }
}

/// A bound on the number of turns that the evaluation on top of the work
/// stack still takes.
spec fn top_potential(g: GraphView, frame: Frame) -> nat {
    if frame.fuel == 0 {
        1
    } else {
        (plan(g, frame.current).rank() + 1) * (1 + work((frame.fuel - 1) as nat))
    }
}

/// The sum of a sequence of numbers.
spec fn total(s: Seq<nat>) -> nat
    decreases s.len(),
{
    if s.len() == 0 {
        0
    } else {
        total(s.drop_last()) + s.last()
    }
}

/// What is known of an evaluation in progress: what its current node
/// evaluates to, its initial node evaluates to; an error of its current node
/// is an error of the root; and where the current node runs out of fuel
/// under the bound that is left, the root does under its bound.
spec fn frame_ok(
    fns: Functions,
    root: Term,
    fuel: nat,
    initial: Term,
    current: Term,
    left: nat,
) -> bool {
    &&& forall|o: Outcome| #[trigger]
        converges(fns, current, o) ==> (o is Done ==> converges(fns, initial, o)) && (o is Fail
            ==> converges(fns, root, o))
    &&& eval_term(fns, current, left) == out_of_fuel() ==> eval_term(fns, root, fuel)
        == out_of_fuel()
}

/// `frame_ok` of the frame at `i` of the work stack.
spec fn frame_at(
    g: GraphView,
    fns: Functions,
    root: Term,
    fuel: nat,
    stack: Seq<Frame>,
    i: int,
) -> bool {
    &&& g.contains(stack[i].initial)
    &&& g.contains(stack[i].current)
    &&& frame_ok(
        fns,
        root,
        fuel,
        g.term(stack[i].initial),
        g.term(stack[i].current),
        stack[i].fuel as nat,
    )
}

/// What is known of the frame at `i`, which waits for the frame above it:
/// it has fuel left, its step needed the initial node of the frame above,
/// and `reserves[i]` turns are kept for it.
spec fn waiting_at(
    g: GraphView,
    stack: Seq<Frame>,
    ranks: Seq<nat>,
    reserves: Seq<nat>,
    i: int,
) -> bool {
    let p = plan(g, stack[i].current);
    &&& stack[i].fuel >= 1
    &&& 1 <= ranks[i] <= 5
    &&& reserves[i] == ranks[i] * (1 + work((stack[i].fuel - 1) as nat))
    &&& p.rank() <= ranks[i]
    &&& p.rank() == ranks[i] ==> p == Plan::Need(stack[i + 1].initial, ranks[i])
}

/// The invariant of the work stack.
spec fn stack_ok(
    g: GraphView,
    fns: Functions,
    root: Term,
    fuel: nat,
    stack: Seq<Frame>,
    ranks: Seq<nat>,
    reserves: Seq<nat>,
) -> bool {
    &&& stack.len() >= 1
    &&& ranks.len() == stack.len() - 1
    &&& reserves.len() == stack.len() - 1
    &&& forall|i: int| 0 <= i < stack.len() ==> #[trigger] frame_at(g, fns, root, fuel, stack, i)
    &&& forall|i: int|
        0 <= i < stack.len() - 1 ==> #[trigger] waiting_at(g, stack, ranks, reserves, i)
}

/// Evaluation keeps the invariant of the work stack.
proof fn lemma_stack_extends(
    g: GraphView,
    h: GraphView,
    fns: Functions,
    root: Term,
    fuel: nat,
    stack: Seq<Frame>,
    ranks: Seq<nat>,
    reserves: Seq<nat>,
)
    requires
        g.wf(),
        h.extends(g),
        stack_ok(g, fns, root, fuel, stack, ranks, reserves),
    ensures
        stack_ok(h, fns, root, fuel, stack, ranks, reserves),
{
    assert forall|i: int| 0 <= i < stack.len() implies #[trigger] frame_at(
        h,
        fns,
        root,
        fuel,
        stack,
        i,
    ) by {
        assert(frame_at(g, fns, root, fuel, stack, i));
    }
    assert forall|i: int| 0 <= i < stack.len() - 1 implies #[trigger] waiting_at(
        h,
        stack,
        ranks,
        reserves,
        i,
    ) by {
        assert(waiting_at(g, stack, ranks, reserves, i));
        assert(frame_at(g, fns, root, fuel, stack, i));
        lemma_plan_extends(g, h, stack[i].current);
    }
}

/// A fresh evaluation with the bound `k` takes at most `work(k)` turns.
proof fn lemma_fresh_potential(g: GraphView, frame: Frame)
    ensures
        top_potential(g, frame) <= work(frame.fuel as nat),
        top_potential(g, frame) >= 1,
{
    if frame.fuel != 0 {
        let c = 1 + work((frame.fuel - 1) as nat);
        let r = plan(g, frame.current).rank();
        assert((r + 1) * c <= 6 * c) by (nonlinear_arith)
            requires
                r <= 5,
                c >= 0,
        ;
        assert((r + 1) * c >= 1) by (nonlinear_arith)
            requires
                r >= 0,
                c >= 1,
        ;
    }
}

/// The turns that are kept for a frame that waits cover what the frame
/// takes once the node that it waited for is evaluated.
proof fn lemma_resume_potential(g: GraphView, frame: Frame, rank: nat, reserve: nat)
    requires
        frame.fuel >= 1,
        reserve == rank * (1 + work((frame.fuel - 1) as nat)),
        plan(g, frame.current).rank() < rank,
    ensures
        top_potential(g, frame) <= reserve,
{
    let c = 1 + work((frame.fuel - 1) as nat);
    let r = plan(g, frame.current).rank();
    assert((r + 1) * c <= rank * c) by (nonlinear_arith)
        requires
            r + 1 <= rank,
            c >= 0,
    ;
}

/// A frame that comes to wait keeps turns for itself and leaves more than
/// its turns to the evaluation that it waits for.
proof fn lemma_wait_potential(g: GraphView, frame: Frame, rank: nat)
    requires
        frame.fuel >= 1,
        plan(g, frame.current).rank() == rank,
    ensures
        rank * (1 + work((frame.fuel - 1) as nat)) + work((frame.fuel - 1) as nat) < top_potential(
            g,
            frame,
        ),
{
    let c = 1 + work((frame.fuel - 1) as nat);
    assert((rank + 1) * c == rank * c + c) by (nonlinear_arith);
}

/// The sum of a sequence that was made longer by one number.
proof fn lemma_total_push(s: Seq<nat>, x: nat)
    ensures
        total(s.push(x)) == total(s) + x,
{
    assert(s.push(x).drop_last() =~= s);
}

/// Of every evaluation in progress on the work stack: its current node is
/// still its initial node, or the slots show that the step on its initial
/// node gave another node.
#[verifier::opaque]
spec fn frames_moved(g: GraphView, stack: Seq<Frame>) -> bool {
    forall|i: int|
        0 <= i < stack.len() ==> (#[trigger] stack[i]).current == stack[i].initial || moves(
            g,
            stack[i].initial,
        )
}

/// What is known of the evaluation on top of the work stack.
proof fn lemma_frames_top(g: GraphView, stack: Seq<Frame>)
    requires
        frames_moved(g, stack),
        stack.len() >= 1,
    ensures
        stack.last().current == stack.last().initial || moves(g, stack.last().initial),
{
    reveal(frames_moved);
    assert(stack[stack.len() - 1] == stack.last());
}

/// What is known of the evaluations in progress stays so while the graph
/// is evaluated.
proof fn lemma_frames_extend(
    g: GraphView,
    h: GraphView,
    fns: Functions,
    root: Term,
    fuel: nat,
    stack: Seq<Frame>,
    ranks: Seq<nat>,
    reserves: Seq<nat>,
)
    requires
        g.wf(),
        h.extends(g),
        frames_moved(g, stack),
        stack_ok(g, fns, root, fuel, stack, ranks, reserves),
    ensures
        frames_moved(h, stack),
{
    reveal(frames_moved);
    assert forall|i: int| 0 <= i < stack.len() implies (#[trigger] stack[i]).current
        == stack[i].initial || moves(h, stack[i].initial) by {
        assert(frame_at(g, fns, root, fuel, stack, i));
        if stack[i].current != stack[i].initial {
            lemma_head_extends(g, h, stack[i].initial);
        }
    }
}

/// A new evaluation, whose current node is its initial node, goes on the
/// work stack.
proof fn lemma_frames_push(g: GraphView, stack: Seq<Frame>, child: Frame)
    requires
        frames_moved(g, stack) || stack.len() == 0,
        child.current == child.initial,
    ensures
        frames_moved(g, stack.push(child)),
{
    reveal(frames_moved);
}

/// The evaluation on top of the work stack goes on with another node.
proof fn lemma_frames_set(g: GraphView, stack: Seq<Frame>, next: Frame)
    requires
        frames_moved(g, stack),
        stack.len() >= 1,
        next.current == next.initial || moves(g, next.initial),
    ensures
        frames_moved(g, stack.update(stack.len() - 1, next)),
{
    reveal(frames_moved);
}

/// The evaluation on top of the work stack leaves it.
proof fn lemma_frames_pop(g: GraphView, stack: Seq<Frame>)
    requires
        frames_moved(g, stack),
        stack.len() >= 1,
    ensures
        frames_moved(g, stack.drop_last()),
{
    reveal(frames_moved);
}

impl Graph {
    /// Evaluates the node `expr` to normal form as `eval` does, with a work
    /// stack in place of recursion: where a rewrite step needs the normal
    /// form of a node, the evaluation in progress waits on the stack while
    /// that node is evaluated, and takes the step again once the slot of the
    /// node is set. The call stack does not grow with the depth of the
    /// evaluation.
    ///
    /// As with `eval`, an expression whose slot is set is answered from the
    /// slot, every slot that is filled is settled, and nothing is touched
    /// but what is reached from `expr`, the constants and the bodies of the
    /// functions.
    pub fn eval_iterative(&mut self, expr: ExprRef, fuel: u64) -> (r: Result<ExprRef, EvalError>)
        requires
            old(self).wf(),
            old(self)@.contains(expr),
        ensures
            final(self).wf(),
            final(self)@.extends(old(self)@),
            r matches Ok(v) ==> final(self)@.contains(v) && final(self)@.evaluated(expr) == Some(
                v,
            ),
            evaluates_as(
                old(self)@.function_terms(),
                old(self)@.term(expr),
                fuel as nat,
                outcome_of(final(self)@, r),
            ),
            from_slot(old(self)@, final(self)@, expr, r),
            stays_within(old(self)@, final(self)@, expr, r),
            settles(old(self)@, final(self)@),
    {
        let ghost fns = self@.function_terms();
        let ghost root = self@.term(expr);
        let ghost bounds = lemma_bounds_start(self@, expr);
        proof {
            lemma_keeps_settles(self@, self@);
        }
        if let Some(v) = self.evaluated(expr) {
            proof {
                assert(self@.node_wf(expr as int));
                assert(edges_within(self@, bounds.base, bounds.roots, expr as int));
                crate::semantics::lemma_converges_at(
                    fns,
                    root,
                    Outcome::Done(self@.term(v)),
                    fuel as nat,
                );
            }
            return Ok(v);
        }
        let mut stack: Vec<Frame> = Vec::new();
        stack.push(Frame { initial: expr, current: expr, fuel });
        let ghost mut ranks: Seq<nat> = Seq::empty();
        let ghost mut reserves: Seq<nat> = Seq::empty();
        proof {
            lemma_frames_push(self@, Seq::empty(), stack@[0]);
            assert(stack@ =~= Seq::<Frame>::empty().push(stack@[0]));
        }
        loop
            invariant
                self.wf(),
                self@.extends(old(self)@),
                old(self).wf(),
                old(self)@.contains(expr),
                fns == old(self)@.function_terms(),
                root == old(self)@.term(expr),
                old(self)@.evaluated(expr) is None,
                stack@[0].initial == expr,
                stack_ok(self@, fns, root, fuel as nat, stack@, ranks, reserves),
                bounds == (Bounds { base: old(self)@, roots: seq![expr] }),
                bounds.holds(self@),
                forall|i: int|
                    0 <= i < stack@.len() ==> bounds.has((#[trigger] stack@[i]).initial)
                        && bounds.has(stack@[i].current),
                settles(old(self)@, self@),
                frames_moved(self@, stack@),
            decreases total(reserves) + top_potential(self@, stack@[stack.len() - 1]),
        {
            let n = stack.len();
            let top = stack[n - 1];
            let ghost before = self@;
            let ghost tc = before.term(top.current);
            let ghost ti = before.term(top.initial);
            let ghost big: nat = 0;
            proof {
                crate::graph::lemma_extends_functions(old(self)@, self@);
                assert(frame_at(before, fns, root, fuel as nat, stack@, n - 1));
                assert(before.node_wf(top.current as int));
                big = lemma_plan(before, top.current);
                lemma_fresh_potential(before, top);
                lemma_frames_top(before, stack@);
            }
            let mut finished: Option<ExprRef> = None;
            match self.evaluated(top.current) {
                Some(m) => {
                    proof {
                        assert(edges_within(self@, bounds.base, bounds.roots, top.current as int));
                    }
                    finished = Some(m);
                },
                None => {
                    if top.fuel == 0 {
                        return Err(EvalError::OutOfFuel);
                    }
                    let step = self.try_step(top.current, Ghost(bounds));
                    proof {
                        lemma_keeps_settles(before, self@);
                        lemma_settles_trans(old(self)@, before, self@);
                        lemma_frames_extend(before, self@, fns, root, fuel as nat, stack@, ranks, reserves);
                    }
                    match step {
                        Step::Fail(e) => {
                            proof {
                                let o = Outcome::Fail(e);
                                assert(step_at(before, top.current, big) == o);
                                crate::semantics::lemma_step_fails(fns, tc, e);
                                crate::semantics::lemma_converges_at(fns, root, o, fuel as nat);
                            }
                            return Err(e);
                        },
                        Step::Need(sub) => {
                            let child = Frame { initial: sub, current: sub, fuel: top.fuel - 1 };
                            let ghost rank = plan(before, top.current).rank();
                            let ghost reserve = rank * (1 + work((top.fuel - 1) as nat));
                            let ghost old_stack = stack@;
                            let ghost old_ranks = ranks;
                            let ghost old_reserves = reserves;
                            stack.push(child);
                            proof {
                                ranks = ranks.push(rank);
                                reserves = reserves.push(reserve);
                                let ts = before.term(sub);
                                let left = (top.fuel - 1) as nat;
                                assert forall|o: Outcome| #[trigger]
                                    converges(fns, ts, o) && o is Fail implies converges(
                                    fns,
                                    root,
                                    o,
                                ) by {
                                    if o is Fail {
                                        let w = choose|w: nat| #[trigger] eval_term(fns, ts, w)
                                            == o;
                                        let m2 = w + big;
                                        crate::semantics::lemma_eval_monotonic(fns, ts, w, m2);
                                        crate::semantics::lemma_step_fails(fns, tc, o->Fail_0);
                                    }
                                }
                                assert forall|i: int| 0 <= i < stack@.len() implies #[trigger]
                                    frame_at(self@, fns, root, fuel as nat, stack@, i) by {
                                    if i < n {
                                        assert(frame_at(
                                            before,
                                            fns,
                                            root,
                                            fuel as nat,
                                            old_stack,
                                            i,
                                        ));
                                    }
                                }
                                assert forall|i: int| 0 <= i < stack@.len() - 1 implies #[trigger]
                                    waiting_at(self@, stack@, ranks, reserves, i) by {
                                    if i < n - 1 {
                                        assert(waiting_at(
                                            before,
                                            old_stack,
                                            old_ranks,
                                            old_reserves,
                                            i,
                                        ));
                                    }
                                }
                                lemma_frames_push(self@, old_stack, child);
                                lemma_total_push(old_reserves, reserve);
                                lemma_wait_potential(before, top, rank);
                                lemma_fresh_potential(self@, child);
                            }
                        },
                        Step::Done(r) => {
                            let ghost mid = self@;
                            proof {
                                if top.current == top.initial {
                                    assert(r == top.current || moves(before, top.current));
                                }
                                lemma_head_extends(before, mid, top.initial);
                                assert(r == top.initial || moves(mid, top.initial));
                                crate::graph::lemma_extends_functions(old(self)@, mid);
                                lemma_stack_extends(
                                    before,
                                    mid,
                                    fns,
                                    root,
                                    fuel as nat,
                                    stack@,
                                    ranks,
                                    reserves,
                                );
                            }
                            if self.equals(r, top.current) {
                                proof {
                                    crate::semantics::lemma_step_fixed(fns, tc);
                                }
                                self.record(r, r, Ghost(bounds));
                                proof {
                                    lemma_settles_trans(old(self)@, mid, self@);
                                    lemma_frames_extend(mid, self@, fns, root, fuel as nat, stack@, ranks, reserves);
                                    lemma_head_extends(mid, self@, top.initial);
                                    crate::graph::lemma_extends_functions(old(self)@, self@);
                                    lemma_stack_extends(
                                        mid,
                                        self@,
                                        fns,
                                        root,
                                        fuel as nat,
                                        stack@,
                                        ranks,
                                        reserves,
                                    );
                                }
                                finished = Some(r);
                            } else {
                                let ghost old_stack = stack@;
                                let next = Frame {
                                    initial: top.initial,
                                    current: r,
                                    fuel: top.fuel - 1,
                                };
                                stack.set(n - 1, next);
                                proof {
                                    let tr = mid.term(r);
                                    let left = (top.fuel - 1) as nat;
                                    assert forall|o: Outcome| #[trigger]
                                        converges(fns, tr, o) implies (o is Done ==> converges(
                                        fns,
                                        ti,
                                        o,
                                    )) && (o is Fail ==> converges(fns, root, o)) by {
                                        crate::semantics::lemma_step_then_eval(fns, tc, tr, o);
                                    }
                                    if eval_term(fns, tr, left) == out_of_fuel() {
                                        crate::semantics::lemma_step_then_timeout(
                                            fns,
                                            tc,
                                            tr,
                                            top.fuel as nat,
                                        );
                                    }
                                    assert forall|i: int| 0 <= i < stack@.len() implies #[trigger]
                                        frame_at(self@, fns, root, fuel as nat, stack@, i) by {
                                        if i < n - 1 {
                                            assert(frame_at(
                                                mid,
                                                fns,
                                                root,
                                                fuel as nat,
                                                old_stack,
                                                i,
                                            ));
                                        }
                                    }
                                    assert forall|i: int|
                                        0 <= i < stack@.len() - 1 implies #[trigger] waiting_at(
                                        self@,
                                        stack@,
                                        ranks,
                                        reserves,
                                        i,
                                    ) by {
                                        assert(waiting_at(mid, old_stack, ranks, reserves, i));
                                    }
                                    lemma_frames_set(self@, old_stack, next);
                                    lemma_fresh_potential(self@, next);
                                    let c = 1 + work(left);
                                    let rk = plan(before, top.current).rank();
                                    assert((rk + 1) * c >= c) by (nonlinear_arith)
                                        requires
                                            rk >= 0,
                                            c >= 0,
                                    ;
                                }
                            }
                        },
                    }
                },
            }
            if let Some(v) = finished {
                let ghost mid = self@;
                let value = self.record(top.initial, v, Ghost(bounds));
                let ghost old_stack = stack@;
                let ghost old_ranks = ranks;
                let ghost old_reserves = reserves;
                proof {
                    lemma_settles_trans(old(self)@, mid, self@);
                    lemma_frames_extend(mid, self@, fns, root, fuel as nat, stack@, ranks, reserves);
                    crate::graph::lemma_extends_functions(old(self)@, self@);
                    lemma_stack_extends(
                        mid,
                        self@,
                        fns,
                        root,
                        fuel as nat,
                        stack@,
                        ranks,
                        reserves,
                    );
                }
                stack.pop();
                if stack.len() == 0 {
                    proof {
                        assert(self@.node_wf(expr as int));
                        crate::semantics::lemma_converges_at(
                            fns,
                            root,
                            Outcome::Done(self@.term(value)),
                            fuel as nat,
                        );
                    }
                    return Ok(value);
                }
                proof {
                    ranks = ranks.drop_last();
                    reserves = reserves.drop_last();
                    let parent = stack@[n - 2];
                    assert forall|i: int| 0 <= i < stack@.len() implies #[trigger] frame_at(
                        self@,
                        fns,
                        root,
                        fuel as nat,
                        stack@,
                        i,
                    ) by {
                        assert(frame_at(self@, fns, root, fuel as nat, old_stack, i));
                    }
                    assert forall|i: int| 0 <= i < stack@.len() - 1 implies #[trigger] waiting_at(
                        self@,
                        stack@,
                        ranks,
                        reserves,
                        i,
                    ) by {
                        assert(waiting_at(self@, old_stack, old_ranks, old_reserves, i));
                    }
                    lemma_frames_pop(self@, old_stack);
                    assert(waiting_at(self@, old_stack, old_ranks, old_reserves, n - 2));
                    assert(frame_at(self@, fns, root, fuel as nat, old_stack, n - 2));
                    let big2 = lemma_plan(self@, parent.current);
                    lemma_resume_potential(
                        self@,
                        parent,
                        old_ranks[n - 2],
                        old_reserves[n - 2],
                    );
                }
            }
        }
    }
}

} // verus!
