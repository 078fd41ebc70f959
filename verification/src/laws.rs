//! Laws of the language: what the arithmetic operators, the comparisons, the
//! combinators and the list primitives evaluate to, for every argument and
//! under every function table; and what a rewrite step on the nodes of `i`,
//! `t` and `f` gives and leaves alone.

use vstd::prelude::*;
use crate::codec::pair;
use crate::graph::{Expr, ExprRef, GraphView};
use crate::name::{BinOp, Name};
use crate::semantics::{
    apply_rule, arith, converges, eval_term, evaluate, lemma_eval_monotonic, lemma_evaluate,
    lemma_evaluate_at, lemma_pair_value, lemma_step_monotonic, lemma_step_then_eval, lemma_steps_at, lemma_stuck1_value,
    lemma_unwrap1, lemma_unwrap2, lemma_unwrap3, negate, number, out_of_fuel, rule1, rule2, rule3,
    step_term, steps, truth, EvalError, Functions, Outcome,
};
use crate::term::Term;

verus! {

/// The application of the operator `op` to one argument.
pub open spec fn apply1(op: Name, x: Term) -> Term {
    Term::ap(Term::Atom(op), x)
}

/// The application of the operator `op` to two arguments.
pub open spec fn apply2(op: Name, x: Term, y: Term) -> Term {
    Term::ap(Term::ap(Term::Atom(op), x), y)
}

/// The application of the operator `op` to three arguments.
pub open spec fn apply3(op: Name, x: Term, y: Term, z: Term) -> Term {
    Term::ap(Term::ap(Term::ap(Term::Atom(op), x), y), z)
}

/// An inert atom is its own normal form under every bound but zero.
pub proof fn lemma_atom_at(fns: Functions, name: Name, n: nat)
    requires
        !(name is Function),
        n >= 1,
    ensures
        eval_term(fns, Term::Atom(name), n) == Outcome::Done(Term::Atom(name)),
{
    let t = Term::Atom(name);
    assert(step_term(fns, t, 1) == Outcome::Done(t));
    lemma_eval_monotonic(fns, t, 1, n);
}

/// An operator with fewer arguments than its rule takes is its own normal
/// form: here with one argument.
pub proof fn lemma_partial1_at(fns: Functions, op: Name, x: Term, n: nat)
    requires
        !(op is Function),
        rule1(op, x) is Stuck,
        n >= 2,
    ensures
        eval_term(fns, apply1(op, x), n) == Outcome::Done(apply1(op, x)),
{
    lemma_stuck1_value(fns, op, x);
    lemma_eval_monotonic(fns, apply1(op, x), 2, n);
}

/// The rewrite step on an operator with one argument is its rule.
pub proof fn lemma_step1(fns: Functions, op: Name, x: Term, n: nat)
    requires
        !(op is Function),
        n >= 2,
    ensures
        step_term(fns, apply1(op, x), n) == apply_rule(
            fns,
            rule1(op, x),
            apply1(op, x),
            x,
            x,
            n,
        ),
{
    lemma_atom_at(fns, op, 1);
    lemma_unwrap1(fns, Term::Atom(op), x, op, 1, (n - 1) as nat);
}

/// The rewrite step on an operator with two arguments is its rule.
pub proof fn lemma_step2(fns: Functions, op: Name, y: Term, x: Term, n: nat)
    requires
        !(op is Function),
        rule1(op, y) is Stuck,
        n >= 3,
    ensures
        step_term(fns, apply2(op, y, x), n) == apply_rule(
            fns,
            rule2(op, y, x),
            apply2(op, y, x),
            y,
            x,
            n,
        ),
{
    lemma_atom_at(fns, op, 1);
    lemma_partial1_at(fns, op, y, 2);
    lemma_unwrap2(fns, apply1(op, y), x, Term::Atom(op), y, op, 2, 1, (n - 1) as nat);
}

/// An operator with two arguments and no rule for one or two is its own
/// normal form.
pub proof fn lemma_partial2_at(fns: Functions, op: Name, y: Term, x: Term, n: nat)
    requires
        !(op is Function),
        rule1(op, y) is Stuck,
        rule2(op, y, x) is Stuck,
        n >= 3,
    ensures
        eval_term(fns, apply2(op, y, x), n) == Outcome::Done(apply2(op, y, x)),
{
    lemma_step2(fns, op, y, x, n);
}

/// The rewrite step on an operator with three arguments is its rule.
pub proof fn lemma_step3(fns: Functions, op: Name, z: Term, y: Term, x: Term, n: nat)
    requires
        !(op is Function),
        rule1(op, z) is Stuck,
        rule2(op, z, y) is Stuck,
        n >= 4,
    ensures
        step_term(fns, apply3(op, z, y, x), n) == apply_rule(
            fns,
            rule3(op, z, y, x),
            apply3(op, z, y, x),
            y,
            x,
            n,
        ),
{
    lemma_atom_at(fns, op, 1);
    lemma_partial1_at(fns, op, z, 2);
    lemma_partial2_at(fns, op, z, y, 3);
    lemma_unwrap3(
        fns,
        apply2(op, z, y),
        x,
        apply1(op, z),
        y,
        Term::Atom(op),
        z,
        op,
        3,
        2,
        1,
        (n - 1) as nat,
    );
}

/// Where a rewrite step turns `t` into another expression `r`, both
/// evaluate to the same: the same normal form, the same error, or neither
/// evaluates at all.
pub proof fn lemma_evaluate_rewrite(fns: Functions, t: Term, r: Term)
    requires
        steps(fns, t, Outcome::Done(r)),
        r != t,
    ensures
        evaluate(fns, t) == evaluate(fns, r),
{
    if exists|n: nat| #[trigger] eval_term(fns, r, n) != out_of_fuel() {
        let n = choose|n: nat| #[trigger] eval_term(fns, r, n) != out_of_fuel();
        let o = eval_term(fns, r, n);
        lemma_step_then_eval(fns, t, r, o);
        lemma_evaluate(fns, t, o);
    } else if exists|n: nat| #[trigger] eval_term(fns, t, n) != out_of_fuel() {
        let n = choose|n: nat| #[trigger] eval_term(fns, t, n) != out_of_fuel();
        lemma_steps_at(fns, t, Outcome::Done(r), n);
        assert(eval_term(fns, r, (n - 1) as nat) != out_of_fuel());
    }
}

/// What evaluates to a normal form, evaluates to it by `evaluate`.
pub proof fn lemma_evaluate_value(fns: Functions, t: Term, n: nat)
    requires
        eval_term(fns, t, n) == Outcome::Done(t),
    ensures
        evaluate(fns, t) == Outcome::Done(t),
{
    lemma_evaluate_at(fns, t, n);
}

/// Arithmetic and comparison: a strict binary operator on two integer
/// literals evaluates to the result of the operator on the two numbers:
/// `add` to the sum, `mul` to the product, `div` to the quotient rounded
/// toward zero, `eq` and `lt` to the truth value of the comparison. A result
/// that does not fit in 64 bits is an overflow, and a zero divisor is an
/// error.
pub proof fn law_arithmetic(fns: Functions, op: BinOp, a: i64, b: i64)
    ensures
        evaluate(
            fns,
            apply2(operator(op), Term::Atom(Name::Int(a)), Term::Atom(Name::Int(b))),
        ) == arith(op, a as int, b as int),
{
    let name = operator(op);
    let ta = Term::Atom(Name::Int(a));
    let tb = Term::Atom(Name::Int(b));
    let t = apply2(name, ta, tb);
    let o = arith(op, a as int, b as int);
    lemma_step2(fns, name, ta, tb, 3);
    assert(a * b == b * a) by (nonlinear_arith);
    match o {
        Outcome::Fail(_) => {},
        Outcome::Done(r) => {
            lemma_atom_at(fns, r->Atom_0, 2);
        },
    }
    lemma_evaluate_at(fns, t, 3);
}

/// The name of a strict binary operator.
pub open spec fn operator(op: BinOp) -> Name {
    match op {
        BinOp::Add => Name::Add,
        BinOp::Mul => Name::Mul,
        BinOp::Div => Name::Div,
        BinOp::Eq => Name::Eq,
        BinOp::Lt => Name::Lt,
    }
}

/// Addition: `add a b` evaluates to the sum of `a` and `b`, where 64 bits
/// hold it.
pub proof fn law_add(fns: Functions, a: i64, b: i64)
    requires
        i64::MIN <= a + b <= i64::MAX,
    ensures
        evaluate(fns, apply2(Name::Add, Term::Atom(Name::Int(a)), Term::Atom(Name::Int(b))))
            == Outcome::Done(Term::Atom(Name::Int((a + b) as i64))),
{
    law_arithmetic(fns, BinOp::Add, a, b);
}

/// Multiplication: `mul a b` evaluates to the product of `a` and `b`,
/// where 64 bits hold it.
pub proof fn law_mul(fns: Functions, a: i64, b: i64)
    requires
        i64::MIN <= a * b <= i64::MAX,
    ensures
        evaluate(fns, apply2(Name::Mul, Term::Atom(Name::Int(a)), Term::Atom(Name::Int(b))))
            == Outcome::Done(Term::Atom(Name::Int((a * b) as i64))),
{
    law_arithmetic(fns, BinOp::Mul, a, b);
}

/// Equality: `eq a a` evaluates to `t`, and `eq a b` to `f` where `a` and
/// `b` differ.
pub proof fn law_eq(fns: Functions, a: i64, b: i64)
    ensures
        evaluate(fns, apply2(Name::Eq, Term::Atom(Name::Int(a)), Term::Atom(Name::Int(b))))
            == Outcome::Done(truth(a == b)),
{
    law_arithmetic(fns, BinOp::Eq, a, b);
}

/// Order: `lt a b` evaluates to `t` where `a` is less than `b`, as it is
/// for a number and its successor, and to `f` where it is not.
pub proof fn law_lt(fns: Functions, a: i64, b: i64)
    ensures
        evaluate(fns, apply2(Name::Lt, Term::Atom(Name::Int(a)), Term::Atom(Name::Int(b))))
            == Outcome::Done(truth(a < b)),
        b == a + 1 ==> evaluate(
            fns,
            apply2(Name::Lt, Term::Atom(Name::Int(a)), Term::Atom(Name::Int(b))),
        ) == Outcome::Done(Term::Atom(Name::T)),
{
    law_arithmetic(fns, BinOp::Lt, a, b);
}

/// Negation: `neg a` evaluates to the negative of `a`, where 64 bits hold
/// it.
pub proof fn law_neg(fns: Functions, a: i64)
    ensures
        evaluate(fns, apply1(Name::Neg, Term::Atom(Name::Int(a)))) == negate(a as int),
{
    let ta = Term::Atom(Name::Int(a));
    let t = apply1(Name::Neg, ta);
    let o = negate(a as int);
    lemma_step1(fns, Name::Neg, ta, 2);
    match o {
        Outcome::Fail(_) => {},
        Outcome::Done(r) => {
            lemma_atom_at(fns, r->Atom_0, 1);
        },
    }
    lemma_evaluate_at(fns, t, 2);
}

/// The S combinator: `s x0 x1 x2` rewrites to `(x0 x2) (x1 x2)` and
/// evaluates to what that evaluates to.
pub proof fn law_s(fns: Functions, x0: Term, x1: Term, x2: Term)
    ensures
        steps(
            fns,
            apply3(Name::S, x0, x1, x2),
            Outcome::Done(Term::ap(Term::ap(x0, x2), Term::ap(x1, x2))),
        ),
        evaluate(fns, apply3(Name::S, x0, x1, x2)) == evaluate(
            fns,
            Term::ap(Term::ap(x0, x2), Term::ap(x1, x2)),
        ),
{
    let t = apply3(Name::S, x0, x1, x2);
    let r = Term::ap(Term::ap(x0, x2), Term::ap(x1, x2));
    lemma_step3(fns, Name::S, x0, x1, x2, 4);
    lemma_evaluate_rewrite(fns, t, r);
}

/// The C combinator: `c x0 x1 x2` rewrites to `(x0 x2) x1` and evaluates to
/// what that evaluates to.
pub proof fn law_c(fns: Functions, x0: Term, x1: Term, x2: Term)
    ensures
        steps(fns, apply3(Name::C, x0, x1, x2), Outcome::Done(Term::ap(Term::ap(x0, x2), x1))),
        evaluate(fns, apply3(Name::C, x0, x1, x2)) == evaluate(
            fns,
            Term::ap(Term::ap(x0, x2), x1),
        ),
{
    let t = apply3(Name::C, x0, x1, x2);
    let r = Term::ap(Term::ap(x0, x2), x1);
    lemma_step3(fns, Name::C, x0, x1, x2, 4);
    lemma_evaluate_rewrite(fns, t, r);
}

/// The B combinator: `b x0 x1 x2` rewrites to `x0 (x1 x2)` and evaluates to
/// what that evaluates to.
pub proof fn law_b(fns: Functions, x0: Term, x1: Term, x2: Term)
    ensures
        steps(fns, apply3(Name::B, x0, x1, x2), Outcome::Done(Term::ap(x0, Term::ap(x1, x2)))),
        evaluate(fns, apply3(Name::B, x0, x1, x2)) == evaluate(
            fns,
            Term::ap(x0, Term::ap(x1, x2)),
        ),
{
    let t = apply3(Name::B, x0, x1, x2);
    let r = Term::ap(x0, Term::ap(x1, x2));
    lemma_step3(fns, Name::B, x0, x1, x2, 4);
    lemma_evaluate_rewrite(fns, t, r);
}

/// The identity: `i x` rewrites to `x` and evaluates to what `x` evaluates
/// to.
pub proof fn law_i(fns: Functions, x: Term)
    ensures
        steps(fns, apply1(Name::I, x), Outcome::Done(x)),
        evaluate(fns, apply1(Name::I, x)) == evaluate(fns, x),
{
    let t = apply1(Name::I, x);
    lemma_step1(fns, Name::I, x, 2);
    lemma_evaluate_rewrite(fns, t, x);
}

/// Selection: `t x y` rewrites to `x` and evaluates to what `x` evaluates
/// to.
pub proof fn law_t(fns: Functions, x: Term, y: Term)
    ensures
        steps(fns, apply2(Name::T, x, y), Outcome::Done(x)),
        evaluate(fns, apply2(Name::T, x, y)) == evaluate(fns, x),
{
    let t = apply2(Name::T, x, y);
    lemma_step2(fns, Name::T, x, y, 3);
    lemma_evaluate_rewrite(fns, t, x);
}

/// Selection: `f x y` rewrites to `y` and evaluates to what `y` evaluates
/// to.
pub proof fn law_f(fns: Functions, x: Term, y: Term)
    ensures
        steps(fns, apply2(Name::F, x, y), Outcome::Done(y)),
        evaluate(fns, apply2(Name::F, x, y)) == evaluate(fns, y),
{
    let t = apply2(Name::F, x, y);
    lemma_step2(fns, Name::F, x, y, 3);
    lemma_evaluate_rewrite(fns, t, y);
}

/// The bound of a rewrite: where a rewrite step within the bound `k` turns
/// `t` into another expression `r`, and `r` evaluates within the bound `n`,
/// `t` evaluates to the same within every bound from `k` and from `n + 1`
/// on.
pub proof fn lemma_rewrite_within(fns: Functions, t: Term, r: Term, k: nat, n: nat, m: nat)
    requires
        step_term(fns, t, k) == Outcome::Done(r),
        r != t,
        eval_term(fns, r, n) != out_of_fuel(),
        m >= k,
        m > n,
    ensures
        eval_term(fns, t, m) == eval_term(fns, r, n),
{
    lemma_step_monotonic(fns, t, k, m);
    lemma_eval_monotonic(fns, r, n, (m - 1) as nat);
}

/// The identity under a bound: where `x` evaluates within the bound `n`,
/// `i x` evaluates to the same within every larger bound, so that an engine
/// that runs with such a bound gives that outcome.
pub proof fn law_i_within(fns: Functions, x: Term, n: nat, fuel: nat, o: Outcome)
    requires
        eval_term(fns, x, n) != out_of_fuel(),
        fuel > n,
        crate::reduce::evaluates_as(fns, apply1(Name::I, x), fuel, o),
    ensures
        eval_term(fns, apply1(Name::I, x), fuel) == eval_term(fns, x, n),
        o == eval_term(fns, x, n),
        o == evaluate(fns, x),
{
    lemma_step1(fns, Name::I, x, 2);
    lemma_rewrite_within(fns, apply1(Name::I, x), x, 2, n, fuel);
    lemma_evaluate_at(fns, x, n);
}

/// Selection under a bound: where `x` evaluates within the bound `n`,
/// `t x y` evaluates to the same within every bound above `n + 1`, whatever
/// `y` is, so that an engine that runs with such a bound gives that outcome.
pub proof fn law_t_within(fns: Functions, x: Term, y: Term, n: nat, fuel: nat, o: Outcome)
    requires
        eval_term(fns, x, n) != out_of_fuel(),
        fuel > n + 1,
        crate::reduce::evaluates_as(fns, apply2(Name::T, x, y), fuel, o),
    ensures
        eval_term(fns, apply2(Name::T, x, y), fuel) == eval_term(fns, x, n),
        o == eval_term(fns, x, n),
        o == evaluate(fns, x),
{
    lemma_step2(fns, Name::T, x, y, 3);
    lemma_rewrite_within(fns, apply2(Name::T, x, y), x, 3, n, fuel);
    lemma_evaluate_at(fns, x, n);
}

/// Selection under a bound: where `y` evaluates within the bound `n`,
/// `f x y` evaluates to the same within every bound above `n + 1`, whatever
/// `x` is, so that an engine that runs with such a bound gives that outcome.
pub proof fn law_f_within(fns: Functions, x: Term, y: Term, n: nat, fuel: nat, o: Outcome)
    requires
        eval_term(fns, y, n) != out_of_fuel(),
        fuel > n + 1,
        crate::reduce::evaluates_as(fns, apply2(Name::F, x, y), fuel, o),
    ensures
        eval_term(fns, apply2(Name::F, x, y), fuel) == eval_term(fns, y, n),
        o == eval_term(fns, y, n),
        o == evaluate(fns, y),
{
    lemma_step2(fns, Name::F, x, y, 3);
    lemma_rewrite_within(fns, apply2(Name::F, x, y), y, 3, n, fuel);
    lemma_evaluate_at(fns, y, n);
}

/// The engines under a common bound: where the evaluation of `t` ends
/// within the smaller of the two bounds that the engines ran with, both
/// give the same outcome, which is what `t` evaluates to.
pub proof fn law_engines_agree_within(
    fns: Functions,
    t: Term,
    n: nat,
    fuel_recursive: nat,
    fuel_iterative: nat,
    recursive: Outcome,
    iterative: Outcome,
)
    requires
        eval_term(fns, t, n) != out_of_fuel(),
        n <= fuel_recursive,
        n <= fuel_iterative,
        crate::reduce::evaluates_as(fns, t, fuel_recursive, recursive),
        crate::reduce::evaluates_as(fns, t, fuel_iterative, iterative),
    ensures
        recursive == eval_term(fns, t, n),
        iterative == eval_term(fns, t, n),
{
    lemma_eval_monotonic(fns, t, n, fuel_recursive);
    lemma_eval_monotonic(fns, t, n, fuel_iterative);
}

/// A free variable, alone or applied to one or two arguments, is its own
/// normal form.
pub proof fn law_variable(fns: Functions, id: u32, x: Term, y: Term)
    ensures
        evaluate(fns, Term::Atom(Name::Variable(id))) == Outcome::Done(
            Term::Atom(Name::Variable(id)),
        ),
        evaluate(fns, apply1(Name::Variable(id), x)) == Outcome::Done(
            apply1(Name::Variable(id), x),
        ),
        evaluate(fns, apply2(Name::Variable(id), x, y)) == Outcome::Done(
            apply2(Name::Variable(id), x, y),
        ),
{
    let v = Name::Variable(id);
    lemma_atom_at(fns, v, 1);
    lemma_evaluate_value(fns, Term::Atom(v), 1);
    lemma_partial1_at(fns, v, x, 2);
    lemma_evaluate_value(fns, apply1(v, x), 2);
    lemma_partial2_at(fns, v, x, y, 3);
    lemma_evaluate_value(fns, apply2(v, x, y), 3);
}

/// The combinators on free variables: the results of `s`, `c` and `b` on
/// three variables, of `i` on one and of `t` and `f` on two, are normal
/// forms.
pub proof fn law_combinators_on_variables(fns: Functions, i0: u32, i1: u32, i2: u32)
    ensures
        ({
            let x0 = Term::Atom(Name::Variable(i0));
            let x1 = Term::Atom(Name::Variable(i1));
            let x2 = Term::Atom(Name::Variable(i2));
            &&& evaluate(fns, apply3(Name::S, x0, x1, x2)) == Outcome::Done(
                Term::ap(Term::ap(x0, x2), Term::ap(x1, x2)),
            )
            &&& evaluate(fns, apply3(Name::C, x0, x1, x2)) == Outcome::Done(
                Term::ap(Term::ap(x0, x2), x1),
            )
            &&& evaluate(fns, apply3(Name::B, x0, x1, x2)) == Outcome::Done(
                Term::ap(x0, Term::ap(x1, x2)),
            )
            &&& evaluate(fns, apply1(Name::I, x0)) == Outcome::Done(x0)
            &&& evaluate(fns, apply2(Name::T, x0, x1)) == Outcome::Done(x0)
            &&& evaluate(fns, apply2(Name::F, x0, x1)) == Outcome::Done(x1)
        }),
{
    let x0 = Term::Atom(Name::Variable(i0));
    let x1 = Term::Atom(Name::Variable(i1));
    let x2 = Term::Atom(Name::Variable(i2));
    law_s(fns, x0, x1, x2);
    law_c(fns, x0, x1, x2);
    law_b(fns, x0, x1, x2);
    law_i(fns, x0);
    law_t(fns, x0, x1);
    law_f(fns, x0, x1);
    law_variable(fns, i0, x2, Term::ap(x1, x2));
    law_variable(fns, i0, x2, x1);
    law_variable(fns, i0, Term::ap(x1, x2), x1);
    law_variable(fns, i1, x2, x1);
}

/// What a pair of two expressions evaluates to: the pair of what they
/// evaluate to.
pub proof fn lemma_pair_evaluates(fns: Functions, x: Term, y: Term, xv: Term, yv: Term)
    requires
        converges(fns, x, Outcome::Done(xv)),
        converges(fns, y, Outcome::Done(yv)),
    ensures
        converges(fns, pair(x, y), Outcome::Done(pair(xv, yv))),
{
    let t = pair(x, y);
    let r = pair(xv, yv);
    let nx = choose|n: nat| #[trigger] eval_term(fns, x, n) == Outcome::Done(xv);
    let ny = choose|n: nat| #[trigger] eval_term(fns, y, n) == Outcome::Done(yv);
    let n = nx + ny + 3;
    lemma_eval_monotonic(fns, x, nx, (n - 1) as nat);
    lemma_eval_monotonic(fns, y, ny, (n - 1) as nat);
    lemma_step2(fns, Name::Cons, x, y, n);
    crate::semantics::lemma_value_converges(fns, x, xv);
    crate::semantics::lemma_value_converges(fns, y, yv);
    lemma_pair_value(fns, xv, yv);
    if r == t {
    } else {
        lemma_step_then_eval(fns, t, r, Outcome::Done(r));
    }
}

/// A pair applied to a selector: `cons x y` applied to `sel` evaluates to
/// what `sel` applied to the values of `x` and `y` evaluates to.
pub proof fn lemma_pair_select(fns: Functions, x: Term, y: Term, xv: Term, yv: Term, sel: Term)
    requires
        converges(fns, x, Outcome::Done(xv)),
        converges(fns, y, Outcome::Done(yv)),
    ensures
        steps(
            fns,
            Term::ap(pair(x, y), sel),
            Outcome::Done(Term::ap(Term::ap(sel, xv), yv)),
        ),
{
    let p = pair(x, y);
    let pv = pair(xv, yv);
    lemma_pair_evaluates(fns, x, y, xv, yv);
    let np = choose|n: nat| #[trigger] eval_term(fns, p, n) == Outcome::Done(pv);
    lemma_partial1_at(fns, Name::Cons, xv, 2);
    lemma_atom_at(fns, Name::Cons, 1);
    let n = np + 2;
    lemma_unwrap3(
        fns,
        p,
        sel,
        apply1(Name::Cons, xv),
        yv,
        Term::Atom(Name::Cons),
        xv,
        Name::Cons,
        np,
        2,
        1,
        n,
    );
}

/// The head of a pair: `car (cons x y)` evaluates to what `x` evaluates to,
/// where `y` evaluates too.
pub proof fn law_car(fns: Functions, x: Term, y: Term, xv: Term, yv: Term)
    requires
        converges(fns, x, Outcome::Done(xv)),
        converges(fns, y, Outcome::Done(yv)),
    ensures
        evaluate(fns, apply1(Name::Car, pair(x, y))) == Outcome::Done(xv),
{
    let t = Name::T;
    let p = pair(x, y);
    let t0 = apply1(Name::Car, p);
    let t1 = Term::ap(p, Term::Atom(t));
    let t2 = apply2(t, xv, yv);
    lemma_step1(fns, Name::Car, p, 2);
    lemma_evaluate_rewrite(fns, t0, t1);
    lemma_pair_select(fns, x, y, xv, yv, Term::Atom(t));
    lemma_evaluate_rewrite(fns, t1, t2);
    law_t(fns, xv, yv);
    crate::semantics::lemma_value_converges(fns, x, xv);
    lemma_evaluate(fns, xv, Outcome::Done(xv));
}

/// The tail of a pair: `cdr (cons x y)` evaluates to what `y` evaluates to,
/// where `x` evaluates too.
pub proof fn law_cdr(fns: Functions, x: Term, y: Term, xv: Term, yv: Term)
    requires
        converges(fns, x, Outcome::Done(xv)),
        converges(fns, y, Outcome::Done(yv)),
    ensures
        evaluate(fns, apply1(Name::Cdr, pair(x, y))) == Outcome::Done(yv),
{
    let f = Name::F;
    let p = pair(x, y);
    let t0 = apply1(Name::Cdr, p);
    let t1 = Term::ap(p, Term::Atom(f));
    let t2 = apply2(f, xv, yv);
    lemma_step1(fns, Name::Cdr, p, 2);
    lemma_evaluate_rewrite(fns, t0, t1);
    lemma_pair_select(fns, x, y, xv, yv, Term::Atom(f));
    lemma_evaluate_rewrite(fns, t1, t2);
    law_f(fns, xv, yv);
    crate::semantics::lemma_value_converges(fns, y, yv);
    lemma_evaluate(fns, yv, Outcome::Done(yv));
}

/// The empty list: `isnil nil` evaluates to `t`.
pub proof fn law_isnil_nil(fns: Functions)
    ensures
        evaluate(fns, apply1(Name::Isnil, Term::Atom(Name::Nil))) == Outcome::Done(
            Term::Atom(Name::T),
        ),
{
    let nil = Term::Atom(Name::Nil);
    let t = Term::Atom(Name::T);
    let f = Term::Atom(Name::F);
    let test = Term::ap(t, Term::ap(t, f));
    let t0 = apply1(Name::Isnil, nil);
    let t1 = Term::ap(nil, test);
    lemma_step1(fns, Name::Isnil, nil, 2);
    lemma_evaluate_rewrite(fns, t0, t1);
    lemma_step1(fns, Name::Nil, test, 2);
    lemma_evaluate_rewrite(fns, t1, t);
    lemma_atom_at(fns, Name::T, 1);
    lemma_evaluate_value(fns, t, 1);
}

/// A pair is not empty: `isnil (cons x y)` evaluates to `f`, where `x` and
/// `y` evaluate.
pub proof fn law_isnil_pair(fns: Functions, x: Term, y: Term, xv: Term, yv: Term)
    requires
        converges(fns, x, Outcome::Done(xv)),
        converges(fns, y, Outcome::Done(yv)),
    ensures
        evaluate(fns, apply1(Name::Isnil, pair(x, y))) == Outcome::Done(Term::Atom(Name::F)),
{
    let t = Term::Atom(Name::T);
    let f = Term::Atom(Name::F);
    let inner = Term::ap(t, f);
    let test = Term::ap(t, inner);
    let p = pair(x, y);
    let t0 = apply1(Name::Isnil, p);
    let t1 = Term::ap(p, test);
    let t2 = Term::ap(Term::ap(test, xv), yv);
    let t3 = Term::ap(inner, yv);
    lemma_step1(fns, Name::Isnil, p, 2);
    lemma_evaluate_rewrite(fns, t0, t1);
    lemma_pair_select(fns, x, y, xv, yv, test);
    lemma_evaluate_rewrite(fns, t1, t2);
    // `(t (t f)) xv` evaluates to `t f`, which then takes `yv` and gives `f`.
    law_t(fns, inner, xv);
    lemma_partial1_at(fns, Name::T, f, 2);
    lemma_evaluate_value(fns, inner, 2);
    let head = Term::ap(test, xv);
    let nh = choose|n: nat| #[trigger] eval_term(fns, head, n) != out_of_fuel();
    lemma_atom_at(fns, Name::T, 1);
    lemma_unwrap2(fns, head, yv, t, f, Name::T, nh, 1, nh + 1);
    lemma_evaluate_rewrite(fns, t2, f);
    lemma_atom_at(fns, Name::F, 1);
    lemma_evaluate_value(fns, f, 1);
}

/// Recursion: where the function `id` is defined as `c t` applied to
/// itself, its application to `x` evaluates to what `x` evaluates to,
/// though the definition unrolls without end.
pub proof fn law_recursion(fns: Functions, id: u32, x: Term)
    requires
        fns.contains_key(id),
        fns[id] == apply2(Name::C, Term::Atom(Name::T), Term::Atom(Name::Function(id))),
    ensures
        evaluate(fns, Term::ap(Term::Atom(Name::Function(id)), x)) == evaluate(fns, x),
{
    let me = Term::Atom(Name::Function(id));
    let t = Term::Atom(Name::T);
    let body = apply2(Name::C, t, me);
    let t0 = Term::ap(me, x);
    let t1 = apply2(Name::T, x, me);
    // The function reference evaluates to its body, which is a normal form.
    lemma_partial2_at(fns, Name::C, t, me, 3);
    assert(step_term(fns, me, 4) == Outcome::Done(body));
    lemma_partial1_at(fns, Name::C, t, 2);
    lemma_atom_at(fns, Name::C, 1);
    lemma_unwrap3(fns, me, x, apply1(Name::C, t), me, Term::Atom(Name::C), t, Name::C, 4, 2, 1, 4);
    lemma_evaluate_rewrite(fns, t0, t1);
    law_t(fns, x, me);
}

/// Engine equivalence: the recursive and the iterative engine give the same
/// outcome for the same expression, whatever the graphs held when they ran
/// and whatever bounds they ran with, unless one of them ran out of fuel;
/// and neither does where the evaluation ends within its bound.
pub proof fn law_engines_agree(
    fns: Functions,
    t: Term,
    fuel_recursive: nat,
    fuel_iterative: nat,
    recursive: Outcome,
    iterative: Outcome,
)
    requires
        crate::reduce::evaluates_as(fns, t, fuel_recursive, recursive),
        crate::reduce::evaluates_as(fns, t, fuel_iterative, iterative),
    ensures
        recursive != out_of_fuel() && iterative != out_of_fuel() ==> recursive == iterative,
        recursive != out_of_fuel() ==> recursive == evaluate(fns, t),
        iterative != out_of_fuel() ==> iterative == evaluate(fns, t),
        eval_term(fns, t, fuel_recursive) != out_of_fuel() ==> recursive == evaluate(fns, t),
        eval_term(fns, t, fuel_iterative) != out_of_fuel() ==> iterative == evaluate(fns, t),
{
    if recursive != out_of_fuel() {
        lemma_evaluate(fns, t, recursive);
    }
    if iterative != out_of_fuel() {
        lemma_evaluate(fns, t, iterative);
    }
}

/// With every bound from `n` on, an engine gives the outcome `o` for `t`.
pub open spec fn from_on(fns: Functions, t: Term, o: Outcome, n: nat) -> bool {
    forall|fuel: nat, got: Outcome|
        fuel >= n && #[trigger] crate::reduce::evaluates_as(fns, t, fuel, got) ==> got == o
}

/// With every bound that is large enough, an engine gives the outcome `o`
/// for `t`.
pub open spec fn in_the_end(fns: Functions, t: Term, o: Outcome) -> bool {
    exists|n: nat| from_on(fns, t, o, n)
}

/// Where the evaluation of `t` ends within the bound `n` in `o`, an engine
/// gives `o` with every bound from `n` on.
pub proof fn lemma_from_on(fns: Functions, t: Term, o: Outcome, n: nat)
    requires
        eval_term(fns, t, n) == o,
        o != out_of_fuel(),
    ensures
        from_on(fns, t, o, n),
        in_the_end(fns, t, o),
{
    assert forall|fuel: nat, got: Outcome|
        fuel >= n && #[trigger] crate::reduce::evaluates_as(fns, t, fuel, got) implies got == o by {
        lemma_eval_monotonic(fns, t, n, fuel);
    }
}

/// Engine equivalence in the end: the outcome that one engine gave for an
/// expression, with whatever bound and from whatever graph, unless it ran
/// out of fuel, is the outcome that each engine gives for it with every
/// bound that is large enough.
pub proof fn law_engines_agree_in_the_end(fns: Functions, t: Term, fuel: nat, o: Outcome)
    requires
        crate::reduce::evaluates_as(fns, t, fuel, o),
        o != out_of_fuel(),
    ensures
        in_the_end(fns, t, o),
{
    let n = choose|n: nat| #[trigger] eval_term(fns, t, n) == o;
    lemma_from_on(fns, t, o, n);
}

/// The identity in the end: the outcome that an engine gave for `x`,
/// unless it ran out of fuel, is the outcome that each engine gives for
/// `i x` with every bound that is large enough.
pub proof fn law_i_in_the_end(fns: Functions, x: Term, fuel: nat, o: Outcome)
    requires
        crate::reduce::evaluates_as(fns, x, fuel, o),
        o != out_of_fuel(),
    ensures
        in_the_end(fns, apply1(Name::I, x), o),
{
    let n = choose|n: nat| #[trigger] eval_term(fns, x, n) == o;
    lemma_step1(fns, Name::I, x, 2);
    lemma_rewrite_within(fns, apply1(Name::I, x), x, 2, n, n + 2);
    lemma_from_on(fns, apply1(Name::I, x), o, n + 2);
}

/// Selection in the end: the outcome that an engine gave for `x`, unless
/// it ran out of fuel, is the outcome that each engine gives for `t x y`
/// with every bound that is large enough, whatever `y` is; and the outcome
/// that it gave for `y` is the one that each engine gives for `f x y`,
/// whatever `x` is.
pub proof fn law_selects_in_the_end(fns: Functions, x: Term, y: Term, fuel: nat, o: Outcome)
    ensures
        crate::reduce::evaluates_as(fns, x, fuel, o) && o != out_of_fuel() ==> in_the_end(
            fns,
            apply2(Name::T, x, y),
            o,
        ),
        crate::reduce::evaluates_as(fns, y, fuel, o) && o != out_of_fuel() ==> in_the_end(
            fns,
            apply2(Name::F, x, y),
            o,
        ),
{
    if crate::reduce::evaluates_as(fns, x, fuel, o) && o != out_of_fuel() {
        let n = choose|n: nat| #[trigger] eval_term(fns, x, n) == o;
        lemma_step2(fns, Name::T, x, y, 3);
        lemma_rewrite_within(fns, apply2(Name::T, x, y), x, 3, n, n + 3);
        lemma_from_on(fns, apply2(Name::T, x, y), o, n + 3);
    }
    if crate::reduce::evaluates_as(fns, y, fuel, o) && o != out_of_fuel() {
        let n = choose|n: nat| #[trigger] eval_term(fns, y, n) == o;
        lemma_step2(fns, Name::F, x, y, 3);
        lemma_rewrite_within(fns, apply2(Name::F, x, y), y, 3, n, n + 3);
        lemma_from_on(fns, apply2(Name::F, x, y), o, n + 3);
    }
}

/// What a rewrite step of the recursive engine on the node `expr` says of
/// its result `r` and of the graph `new` that it leaves, where it started
/// from the graph `old` with the bound `fuel`.
pub open spec fn step_of(
    old: GraphView,
    new: GraphView,
    expr: ExprRef,
    fuel: nat,
    r: Result<ExprRef, EvalError>,
) -> bool {
    let fns = old.function_terms();
    let o = crate::reduce::outcome_of(new, r);
    &&& new.wf()
    &&& new.extends(old)
    &&& o != out_of_fuel() ==> steps(fns, old.term(expr), o)
    &&& step_term(fns, old.term(expr), fuel) != out_of_fuel() ==> o == step_term(
        fns,
        old.term(expr),
        fuel,
    )
    &&& crate::reduce::step_nodes(old, new, expr, r)
    &&& crate::reduce::settles(old, new)
    &&& crate::reduce::rests_within(old, new, expr)
}

/// The identity on nodes: a rewrite step on `i x`, with a bound of 2 or
/// more, gives the node `x` itself and evaluates nothing: but for the slot
/// of the atom `i`, every node that is not reached from the constants and
/// the bodies of the functions is as it was, `x` among them where it is
/// such a node.
pub proof fn law_step_i(
    old: GraphView,
    new: GraphView,
    e: ExprRef,
    i: ExprRef,
    x: ExprRef,
    fuel: nat,
    r: Result<ExprRef, EvalError>,
)
    requires
        old.wf(),
        old.contains(e),
        old.expr(e) == Expr::Ap(i, x),
        old.expr(i) == Expr::Atom(Name::I),
        old.evaluated(i) is None || old.evaluated(i) == Some(i),
        fuel >= 2,
        step_of(old, new, e, fuel, r),
    ensures
        r == Ok::<ExprRef, EvalError>(x),
        forall|n: ExprRef|
            old.contains(n) && n != i && !old.reachable(Seq::empty(), n as int)
                ==> #[trigger] new.nodes[n as int] == old.nodes[n as int],
{
    assert(old.node_wf(e as int));
    assert(old.node_wf(i as int));
    lemma_step1(old.function_terms(), Name::I, old.term(x), fuel);
    assert(crate::reduce::settled(new, i));
    assert(crate::reduce::head(new, e) is Some);
    assert(crate::reduce::rests(new, i) == Some(i));
    assert(crate::reduce::parts(old, i) =~= Seq::<ExprRef>::empty());
    assert forall|n: ExprRef|
        old.contains(n) && n != i && !old.reachable(Seq::empty(), n as int) implies #[trigger] new.nodes[n as int]
        == old.nodes[n as int] by {
        assert(new.forget(i).nodes[n as int] == old.nodes[n as int]);
    }
}

/// Selection on nodes: a rewrite step on `t a b`, with a bound of 3 or
/// more, gives the node `a` itself, and one on `f a b` the node `b`
/// itself; and neither evaluates an operand: but for the slots of the
/// selector `s` and of the function part `s a`, every node that is not
/// reached from the selector, the constants and the bodies of the functions
/// is as it was, `a` and `b` among them where they are such nodes.
pub proof fn law_step_selects(
    old: GraphView,
    new: GraphView,
    e: ExprRef,
    part: ExprRef,
    s: ExprRef,
    a: ExprRef,
    b: ExprRef,
    fuel: nat,
    r: Result<ExprRef, EvalError>,
)
    requires
        old.wf(),
        old.contains(e),
        old.expr(e) == Expr::Ap(part, b),
        old.expr(part) == Expr::Ap(s, a),
        old.expr(s) == Expr::Atom(Name::T) || old.expr(s) == Expr::Atom(Name::F),
        old.evaluated(part) is None,
        old.evaluated(s) is None || old.evaluated(s) == Some(s),
        fuel >= 3,
        step_of(old, new, e, fuel, r),
    ensures
        old.expr(s) == Expr::Atom(Name::T) ==> r == Ok::<ExprRef, EvalError>(a),
        old.expr(s) == Expr::Atom(Name::F) ==> r == Ok::<ExprRef, EvalError>(b),
        forall|n: ExprRef|
            old.contains(n) && n != part && !old.reachable(seq![s], n as int)
                ==> #[trigger] new.nodes[n as int] == old.nodes[n as int],
{
    let fns = old.function_terms();
    assert(old.node_wf(e as int));
    assert(old.node_wf(part as int));
    assert(old.node_wf(s as int));
    if old.expr(s) == Expr::Atom(Name::T) {
        lemma_step2(fns, Name::T, old.term(a), old.term(b), fuel);
    } else {
        lemma_step2(fns, Name::F, old.term(a), old.term(b), fuel);
    }
    assert(crate::reduce::settled(new, s));
    assert(crate::reduce::settled(new, part));
    assert(crate::reduce::head(new, e) is Some);
    assert(new.evaluated(s) == Some(s));
    assert(crate::reduce::rests(new, part) == Some(part));
    assert(new.evaluated(part) == Some(part));
    assert(crate::reduce::parts(old, part) == seq![s]);
    assert forall|n: ExprRef|
        old.contains(n) && n != part && !old.reachable(seq![s], n as int) implies #[trigger] new.nodes[n as int]
        == old.nodes[n as int] by {
        assert(new.forget(part).nodes[n as int] == old.nodes[n as int]);
    }
}

/// No rule on nodes: a rewrite step on an atom that is no function
/// reference gives the atom itself and leaves the graph as it is.
pub proof fn law_step_atom(
    old: GraphView,
    new: GraphView,
    e: ExprRef,
    name: Name,
    fuel: nat,
    r: Result<ExprRef, EvalError>,
)
    requires
        old.wf(),
        old.contains(e),
        old.expr(e) == Expr::Atom(name),
        !(name is Function),
        step_of(old, new, e, fuel, r),
    ensures
        r == Ok::<ExprRef, EvalError>(e),
        new == old,
{
}

/// No rule on nodes: a rewrite step on an operator with one argument and
/// no rule for one, with a bound of 2 or more, gives the node that it was
/// given. `op x` is such a node for a variable, a number, and every
/// operator but `neg`, `i`, `nil`, `isnil`, `car` and `cdr`. But for the
/// slot of the operator, every node that is not reached from the constants
/// and the bodies of the functions is as it was.
pub proof fn law_step_partial1(
    old: GraphView,
    new: GraphView,
    e: ExprRef,
    o: ExprRef,
    x: ExprRef,
    op: Name,
    fuel: nat,
    r: Result<ExprRef, EvalError>,
)
    requires
        old.wf(),
        old.contains(e),
        old.expr(e) == Expr::Ap(o, x),
        old.expr(o) == Expr::Atom(op),
        !(op is Function),
        rule1(op, old.term(x)) is Stuck,
        old.evaluated(o) is None || old.evaluated(o) == Some(o),
        fuel >= 2,
        step_of(old, new, e, fuel, r),
    ensures
        r == Ok::<ExprRef, EvalError>(e),
        forall|n: ExprRef|
            old.contains(n) && n != o && !old.reachable(Seq::empty(), n as int)
                ==> #[trigger] new.nodes[n as int] == old.nodes[n as int],
{
    assert(old.node_wf(e as int));
    assert(old.node_wf(o as int));
    lemma_step1(old.function_terms(), op, old.term(x), fuel);
    assert(crate::reduce::settled(new, o));
    assert(crate::reduce::head(new, e) is Some);
    assert(crate::reduce::rests(new, o) == Some(o));
    assert(crate::reduce::parts(old, o) =~= Seq::<ExprRef>::empty());
    assert forall|n: ExprRef|
        old.contains(n) && n != o && !old.reachable(Seq::empty(), n as int) implies #[trigger] new.nodes[n as int]
        == old.nodes[n as int] by {
        assert(new.forget(o).nodes[n as int] == old.nodes[n as int]);
    }
}

/// No rule on nodes: a rewrite step on an operator with two arguments and
/// no rule for one or two, with a bound of 3 or more, gives the node that
/// it was given. `op y x` is such a node for a variable, a number, and the
/// operators `s`, `c` and `b`. But for the slots of the operator and of the
/// function part `op y`, every node that is not reached from the operator,
/// the constants and the bodies of the functions is as it was.
pub proof fn law_step_partial2(
    old: GraphView,
    new: GraphView,
    e: ExprRef,
    part: ExprRef,
    o: ExprRef,
    y: ExprRef,
    x: ExprRef,
    op: Name,
    fuel: nat,
    r: Result<ExprRef, EvalError>,
)
    requires
        old.wf(),
        old.contains(e),
        old.expr(e) == Expr::Ap(part, x),
        old.expr(part) == Expr::Ap(o, y),
        old.expr(o) == Expr::Atom(op),
        !(op is Function),
        rule1(op, old.term(y)) is Stuck,
        rule2(op, old.term(y), old.term(x)) is Stuck,
        old.evaluated(part) is None,
        old.evaluated(o) is None || old.evaluated(o) == Some(o),
        fuel >= 3,
        step_of(old, new, e, fuel, r),
    ensures
        r == Ok::<ExprRef, EvalError>(e),
        forall|n: ExprRef|
            old.contains(n) && n != part && !old.reachable(seq![o], n as int)
                ==> #[trigger] new.nodes[n as int] == old.nodes[n as int],
{
    assert(old.node_wf(e as int));
    assert(old.node_wf(part as int));
    assert(old.node_wf(o as int));
    lemma_step2(old.function_terms(), op, old.term(y), old.term(x), fuel);
    assert(crate::reduce::settled(new, o));
    assert(crate::reduce::settled(new, part));
    assert(crate::reduce::head(new, e) is Some);
    assert(new.evaluated(o) == Some(o));
    assert(crate::reduce::rests(new, part) == Some(part));
    assert(crate::reduce::parts(old, part) == seq![o]);
    assert forall|n: ExprRef|
        old.contains(n) && n != part && !old.reachable(seq![o], n as int) implies #[trigger] new.nodes[n as int]
        == old.nodes[n as int] by {
        assert(new.forget(part).nodes[n as int] == old.nodes[n as int]);
    }
}

/// Pairs on nodes: the node that a rewrite step on `cons x y` gives holds
/// itself in its slot: the pair is its own normal form as a node.
pub proof fn law_step_pair(
    old: GraphView,
    new: GraphView,
    e: ExprRef,
    part: ExprRef,
    c: ExprRef,
    x: ExprRef,
    y: ExprRef,
    fuel: nat,
    r: Result<ExprRef, EvalError>,
)
    requires
        old.wf(),
        old.contains(e),
        old.expr(e) == Expr::Ap(part, y),
        old.expr(part) == Expr::Ap(c, x),
        old.expr(c) == Expr::Atom(Name::Cons),
        old.evaluated(part) is None,
        old.evaluated(c) is None || old.evaluated(c) == Some(c),
        step_of(old, new, e, fuel, r),
    ensures
        r matches Ok(v) ==> new.evaluated(v) == Some(v),
{
    assert(old.node_wf(e as int));
    assert(old.node_wf(part as int));
    assert(old.node_wf(c as int));
    if r is Ok {
        assert(crate::reduce::settled(new, c));
        assert(crate::reduce::settled(new, part));
        assert(crate::reduce::head(new, e) is Some);
        assert(new.evaluated(c) == Some(c));
        assert(crate::reduce::rests(new, part) == Some(part));
    }
}

/// What both engines say of the result `r` of the evaluation of the node
/// `expr` and of the graph `new` that it leaves, where it started from the
/// graph `old` with the bound `fuel`.
pub open spec fn eval_of(
    old: GraphView,
    new: GraphView,
    expr: ExprRef,
    fuel: nat,
    r: Result<ExprRef, EvalError>,
) -> bool {
    &&& new.wf()
    &&& new.extends(old)
    &&& match r {
        Ok(v) => new.contains(v) && new.evaluated(expr) == Some(v),
        Err(_) => true,
    }
    &&& crate::reduce::evaluates_as(
        old.function_terms(),
        old.term(expr),
        fuel,
        crate::reduce::outcome_of(new, r),
    )
    &&& crate::reduce::from_slot(old, new, expr, r)
    &&& crate::reduce::stays_within(old, new, expr, r)
    &&& crate::reduce::settles(old, new)
}

/// Memoization: an expression whose slot is set is answered from the slot,
/// whatever the bound, and the graph stays as it is.
pub proof fn law_eval_known(
    old: GraphView,
    new: GraphView,
    e: ExprRef,
    v: ExprRef,
    fuel: nat,
    r: Result<ExprRef, EvalError>,
)
    requires
        old.evaluated(e) == Some(v),
        eval_of(old, new, e, fuel, r),
    ensures
        r == Ok::<ExprRef, EvalError>(v),
        new == old,
{
}

/// An atom that is no function reference evaluates to itself as a node,
/// under every bound but zero.
pub proof fn law_eval_atom(
    old: GraphView,
    new: GraphView,
    e: ExprRef,
    name: Name,
    fuel: nat,
    r: Result<ExprRef, EvalError>,
)
    requires
        old.wf(),
        old.contains(e),
        old.expr(e) == Expr::Atom(name),
        !(name is Function),
        old.evaluated(e) is None,
        fuel >= 1,
        eval_of(old, new, e, fuel, r),
    ensures
        r == Ok::<ExprRef, EvalError>(e),
{
    assert(old.node_wf(e as int));
    lemma_atom_at(old.function_terms(), name, fuel);
    assert(crate::reduce::settled(new, e));
}

/// An operator with one argument and no rule for one evaluates to itself
/// as a node, under every bound from 2 on.
pub proof fn law_eval_partial1(
    old: GraphView,
    new: GraphView,
    e: ExprRef,
    o: ExprRef,
    x: ExprRef,
    op: Name,
    fuel: nat,
    r: Result<ExprRef, EvalError>,
)
    requires
        old.wf(),
        old.contains(e),
        old.expr(e) == Expr::Ap(o, x),
        old.expr(o) == Expr::Atom(op),
        !(op is Function),
        rule1(op, old.term(x)) is Stuck,
        old.evaluated(e) is None,
        old.evaluated(o) is None || old.evaluated(o) == Some(o),
        fuel >= 2,
        eval_of(old, new, e, fuel, r),
    ensures
        r == Ok::<ExprRef, EvalError>(e),
{
    assert(old.node_wf(e as int));
    assert(old.node_wf(o as int));
    lemma_partial1_at(old.function_terms(), op, old.term(x), fuel);
    assert(crate::reduce::settled(new, e));
    assert(crate::reduce::settled(new, o));
}

} // verus!
