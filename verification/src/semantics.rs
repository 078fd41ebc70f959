//! The meaning of an expression: the rewrite rules of the combinator
//! language, and evaluation to normal form by repeated rewriting.
//!
//! Evaluation need not end, so the defining functions take a bound `fuel` on
//! how deep rewriting and the evaluations inside it may nest, and answer
//! `OutOfFuel` where the bound is too small. A larger bound never changes an
//! answer that a smaller one gave.

use vstd::prelude::*;
use crate::name::{BinOp, Name};
use crate::term::Term;

verus! {

/// Why an evaluation stopped without a result.
#[derive(Clone, Copy, Debug, PartialEq, Eq, Structural)]
pub enum EvalError {
    /// A function reference whose id the function table does not hold.
    UnknownFunction(u32),
    /// An operand of an arithmetic operator or of a comparison did not
    /// evaluate to an integer literal, `t` or `f`.
    NotANumber,
    /// The result of an arithmetic operator does not fit in 64 bits.
    Overflow,
    /// The divisor of `div` evaluated to zero.
    DivisionByZero,
    /// The bound on the depth of the evaluation was reached.
    OutOfFuel,
}

/// How an evaluation, or one rewrite step, ends.
pub enum Outcome {
    Done(Term),
    Fail(EvalError),
}

/// The table of named function bodies.
pub type Functions = Map<u32, Term>;

/// What an operator does once it has all its arguments.
pub enum Rule {
    /// The application rewrites to this expression; no operand is evaluated.
    Rewrite(Term),
    /// No rule applies: the application stays as it is.
    Stuck,
    /// The last argument is evaluated to a number and negated.
    Negate,
    /// Both arguments are evaluated to numbers, the last one first where the
    /// flag is set, and the operator is applied to them in that order.
    Binary(BinOp, bool),
    /// Both arguments are evaluated, the first one first, and paired.
    Pair,
}

pub open spec fn out_of_fuel() -> Outcome {
    Outcome::Fail(EvalError::OutOfFuel)
}

pub open spec fn fits_i64(i: int) -> bool {
    i64::MIN <= i <= i64::MAX
}

/// The quotient of `a` by `b`, rounded toward zero.
pub open spec fn trunc_div(a: int, b: int) -> int
    recommends
        b != 0,
{
    if a >= 0 && b > 0 {
        a / b
    } else if a < 0 && b < 0 {
        (-a) / (-b)
    } else if a < 0 {
        -((-a) / b)
    } else {
        -(a / (-b))
    }
}

/// The atom that a truth value is written as.
pub open spec fn truth(b: bool) -> Term {
    if b {
        Term::Atom(Name::T)
    } else {
        Term::Atom(Name::F)
    }
}

/// The integer atom for `i`, or an overflow where 64 bits cannot hold it.
pub open spec fn number(i: int) -> Outcome {
    if fits_i64(i) {
        Outcome::Done(Term::Atom(Name::Int(i as i64)))
    } else {
        Outcome::Fail(EvalError::Overflow)
    }
}

/// `neg` on a number.
pub open spec fn negate(a: int) -> Outcome {
    number(-a)
}

/// A strict binary operator on two numbers, in the order in which the
/// operands were evaluated.
pub open spec fn arith(op: BinOp, a: int, b: int) -> Outcome {
    match op {
        BinOp::Add => number(a + b),
        BinOp::Mul => number(a * b),
        BinOp::Div => if b == 0 {
            Outcome::Fail(EvalError::DivisionByZero)
        } else {
            number(trunc_div(a, b))
        },
        BinOp::Eq => Outcome::Done(truth(a == b)),
        BinOp::Lt => Outcome::Done(truth(a < b)),
    }
}

/// The rule of an operator that was applied to one argument, `x`.
pub open spec fn rule1(op: Name, x: Term) -> Rule {
    match op {
        Name::Neg => Rule::Negate,
        Name::I => Rule::Rewrite(x),
        Name::Nil => Rule::Rewrite(Term::Atom(Name::T)),
        Name::Isnil => Rule::Rewrite(
            Term::ap(
                x,
                Term::ap(
                    Term::Atom(Name::T),
                    Term::ap(Term::Atom(Name::T), Term::Atom(Name::F)),
                ),
            ),
        ),
        Name::Car => Rule::Rewrite(Term::ap(x, Term::Atom(Name::T))),
        Name::Cdr => Rule::Rewrite(Term::ap(x, Term::Atom(Name::F))),
        _ => Rule::Stuck,
    }
}

/// The rule of an operator that was applied to two arguments, `y` and then
/// `x`.
pub open spec fn rule2(op: Name, y: Term, x: Term) -> Rule {
    match op {
        Name::T => Rule::Rewrite(y),
        Name::F => Rule::Rewrite(x),
        Name::Add => Rule::Binary(BinOp::Add, true),
        Name::Mul => Rule::Binary(BinOp::Mul, true),
        Name::Div => Rule::Binary(BinOp::Div, false),
        Name::Eq => Rule::Binary(BinOp::Eq, true),
        Name::Lt => Rule::Binary(BinOp::Lt, false),
        Name::Cons => Rule::Pair,
        _ => Rule::Stuck,
    }
}

/// The rule of an operator that was applied to three arguments, `z`, `y` and
/// then `x`.
pub open spec fn rule3(op: Name, z: Term, y: Term, x: Term) -> Rule {
    match op {
        Name::S => Rule::Rewrite(Term::ap(Term::ap(z, x), Term::ap(y, x))),
        Name::C => Rule::Rewrite(Term::ap(Term::ap(z, x), y)),
        Name::B => Rule::Rewrite(Term::ap(z, Term::ap(y, x))),
        Name::Cons => Rule::Rewrite(Term::ap(Term::ap(x, z), y)),
        _ => Rule::Stuck,
    }
}

/// The number that `t` evaluates to within `fuel`.
pub open spec fn eval_num(fns: Functions, t: Term, fuel: nat) -> Result<int, EvalError>
    decreases fuel, 3nat,
{
    match eval_term(fns, t, fuel) {
        Outcome::Fail(e) => Err(e),
        Outcome::Done(v) => match v.as_num() {
            Some(n) => Ok(n),
            None => Err(EvalError::NotANumber),
        },
    }
}

/// The normal form of `t`: `t` is rewritten until a rewrite step gives back
/// what it was given.
pub open spec fn eval_term(fns: Functions, t: Term, fuel: nat) -> Outcome
    decreases fuel, 2nat,
{
    if fuel == 0 {
        out_of_fuel()
    } else {
        match step_term(fns, t, fuel) {
            Outcome::Fail(e) => Outcome::Fail(e),
            Outcome::Done(r) => if r == t {
                Outcome::Done(r)
            } else {
                eval_term(fns, r, (fuel - 1) as nat)
            },
        }
    }
}

/// One rewrite step on `t`. A function reference is replaced by its body. In
/// an application the function part is evaluated and, while it is itself an
/// application, unwrapped up to three arguments deep, until an operator with
/// a rule for that many arguments is found. Anything else is left as it is.
pub open spec fn step_term(fns: Functions, t: Term, fuel: nat) -> Outcome
    decreases fuel, 1nat,
{
    match t {
        Term::Atom(Name::Function(id)) => if fns.contains_key(id) {
            Outcome::Done(fns[id])
        } else {
            Outcome::Fail(EvalError::UnknownFunction(id))
        },
        Term::Atom(_) => Outcome::Done(t),
        Term::Ap(f, x) => if fuel == 0 {
            out_of_fuel()
        } else {
            match eval_term(fns, *f, (fuel - 1) as nat) {
                Outcome::Fail(e) => Outcome::Fail(e),
                Outcome::Done(Term::Atom(op)) => apply_rule(fns, rule1(op, *x), t, *x, *x, fuel),
                Outcome::Done(Term::Ap(g, y)) => match eval_term(fns, *g, (fuel - 1) as nat) {
                    Outcome::Fail(e) => Outcome::Fail(e),
                    Outcome::Done(Term::Atom(op)) => apply_rule(
                        fns,
                        rule2(op, *y, *x),
                        t,
                        *y,
                        *x,
                        fuel,
                    ),
                    Outcome::Done(Term::Ap(h, z)) => match eval_term(fns, *h, (fuel - 1) as nat) {
                        Outcome::Fail(e) => Outcome::Fail(e),
                        Outcome::Done(Term::Atom(op)) => apply_rule(
                            fns,
                            rule3(op, *z, *y, *x),
                            t,
                            *y,
                            *x,
                            fuel,
                        ),
                        Outcome::Done(Term::Ap(_, _)) => Outcome::Done(t),
                    },
                },
            }
        },
    }
}

/// What `rule` makes of the application `t`, whose last two arguments are `y`
/// and then `x`.
pub open spec fn apply_rule(
    fns: Functions,
    rule: Rule,
    t: Term,
    y: Term,
    x: Term,
    fuel: nat,
) -> Outcome
    decreases fuel, 0nat,
{
    if fuel == 0 {
        out_of_fuel()
    } else {
        match rule {
            Rule::Rewrite(r) => Outcome::Done(r),
            Rule::Stuck => Outcome::Done(t),
            Rule::Negate => match eval_num(fns, x, (fuel - 1) as nat) {
                Err(e) => Outcome::Fail(e),
                Ok(n) => negate(n),
            },
            Rule::Binary(op, x_first) => {
                let first = if x_first {
                    x
                } else {
                    y
                };
                let second = if x_first {
                    y
                } else {
                    x
                };
                match eval_num(fns, first, (fuel - 1) as nat) {
                    Err(e) => Outcome::Fail(e),
                    Ok(a) => match eval_num(fns, second, (fuel - 1) as nat) {
                        Err(e) => Outcome::Fail(e),
                        Ok(b) => arith(op, a, b),
                    },
                }
            },
            Rule::Pair => match eval_term(fns, y, (fuel - 1) as nat) {
                Outcome::Fail(e) => Outcome::Fail(e),
                Outcome::Done(head) => match eval_term(fns, x, (fuel - 1) as nat) {
                    Outcome::Fail(e) => Outcome::Fail(e),
                    Outcome::Done(tail) => Outcome::Done(
                        Term::ap(Term::ap(Term::Atom(Name::Cons), head), tail),
                    ),
                },
            },
        }
    }
}

/// `t` evaluates to `o`: some bound is large enough for the evaluation to end
/// in `o`.
pub open spec fn converges(fns: Functions, t: Term, o: Outcome) -> bool {
    o != out_of_fuel() && exists|n: nat| #[trigger] eval_term(fns, t, n) == o
}

/// One rewrite step on `t` ends in `o` under some bound.
pub open spec fn steps(fns: Functions, t: Term, o: Outcome) -> bool {
    o != out_of_fuel() && exists|n: nat| #[trigger] step_term(fns, t, n) == o
}

/// A number that was found within `n` is found within every larger bound.
pub proof fn lemma_num_monotonic(fns: Functions, t: Term, n: nat, m: nat)
    requires
        n <= m,
        eval_num(fns, t, n) != Err::<int, EvalError>(EvalError::OutOfFuel),
    ensures
        eval_num(fns, t, m) == eval_num(fns, t, n),
    decreases n, 3nat,
{
    lemma_eval_monotonic(fns, t, n, m);
}

/// An evaluation that ended within `n` ends in the same way within every
/// larger bound.
pub proof fn lemma_eval_monotonic(fns: Functions, t: Term, n: nat, m: nat)
    requires
        n <= m,
        eval_term(fns, t, n) != out_of_fuel(),
    ensures
        eval_term(fns, t, m) == eval_term(fns, t, n),
    decreases n, 2nat,
{
    lemma_step_monotonic(fns, t, n, m);
    match step_term(fns, t, n) {
        Outcome::Fail(_) => {},
        Outcome::Done(r) => {
            if r != t {
                lemma_eval_monotonic(fns, r, (n - 1) as nat, (m - 1) as nat);
            }
        },
    }
}

/// A rewrite step that ended within `n` ends in the same way within every
/// larger bound.
pub proof fn lemma_step_monotonic(fns: Functions, t: Term, n: nat, m: nat)
    requires
        n <= m,
        step_term(fns, t, n) != out_of_fuel(),
    ensures
        step_term(fns, t, m) == step_term(fns, t, n),
    decreases n, 1nat,
{
    match t {
        Term::Atom(_) => {},
        Term::Ap(f, x) => {
            let n1 = (n - 1) as nat;
            let m1 = (m - 1) as nat;
            lemma_eval_monotonic(fns, *f, n1, m1);
            match eval_term(fns, *f, n1) {
                Outcome::Fail(_) => {},
                Outcome::Done(Term::Atom(op)) => {
                    lemma_apply_monotonic(fns, rule1(op, *x), t, *x, *x, n, m);
                },
                Outcome::Done(Term::Ap(g, y)) => {
                    lemma_eval_monotonic(fns, *g, n1, m1);
                    match eval_term(fns, *g, n1) {
                        Outcome::Fail(_) => {},
                        Outcome::Done(Term::Atom(op)) => {
                            lemma_apply_monotonic(fns, rule2(op, *y, *x), t, *y, *x, n, m);
                        },
                        Outcome::Done(Term::Ap(h, z)) => {
                            lemma_eval_monotonic(fns, *h, n1, m1);
                        },
                    }
                },
            }
        },
    }
}

/// A rule that ended within `n` ends in the same way within every larger
/// bound.
pub proof fn lemma_apply_monotonic(
    fns: Functions,
    rule: Rule,
    t: Term,
    y: Term,
    x: Term,
    n: nat,
    m: nat,
)
    requires
        n <= m,
        apply_rule(fns, rule, t, y, x, n) != out_of_fuel(),
    ensures
        apply_rule(fns, rule, t, y, x, m) == apply_rule(fns, rule, t, y, x, n),
    decreases n, 0nat,
{
    let n1 = (n - 1) as nat;
    let m1 = (m - 1) as nat;
    match rule {
        Rule::Rewrite(_) => {},
        Rule::Stuck => {},
        Rule::Negate => {
            lemma_num_monotonic(fns, x, n1, m1);
        },
        Rule::Binary(op, x_first) => {
            let first = if x_first {
                x
            } else {
                y
            };
            let second = if x_first {
                y
            } else {
                x
            };
            lemma_num_monotonic(fns, first, n1, m1);
            if eval_num(fns, first, n1) is Ok {
                lemma_num_monotonic(fns, second, n1, m1);
            }
        },
        Rule::Pair => {
            lemma_eval_monotonic(fns, y, n1, m1);
            if eval_term(fns, y, n1) is Done {
                lemma_eval_monotonic(fns, x, n1, m1);
            }
        },
    }
}

/// An evaluation has one result: two bounds under which it ends give the
/// same outcome.
pub proof fn lemma_eval_deterministic(fns: Functions, t: Term, n: nat, m: nat)
    requires
        eval_term(fns, t, n) != out_of_fuel(),
        eval_term(fns, t, m) != out_of_fuel(),
    ensures
        eval_term(fns, t, n) == eval_term(fns, t, m),
{
    if n <= m {
        lemma_eval_monotonic(fns, t, n, m);
    } else {
        lemma_eval_monotonic(fns, t, m, n);
    }
}

/// A rewrite step has one result.
pub proof fn lemma_step_deterministic(fns: Functions, t: Term, n: nat, m: nat)
    requires
        step_term(fns, t, n) != out_of_fuel(),
        step_term(fns, t, m) != out_of_fuel(),
    ensures
        step_term(fns, t, n) == step_term(fns, t, m),
{
    if n <= m {
        lemma_step_monotonic(fns, t, n, m);
    } else {
        lemma_step_monotonic(fns, t, m, n);
    }
}

/// What an expression evaluates to is unique.
pub proof fn lemma_converges_unique(fns: Functions, t: Term, o1: Outcome, o2: Outcome)
    requires
        converges(fns, t, o1),
        converges(fns, t, o2),
    ensures
        o1 == o2,
{
    let n = choose|n: nat| #[trigger] eval_term(fns, t, n) == o1;
    let m = choose|m: nat| #[trigger] eval_term(fns, t, m) == o2;
    lemma_eval_deterministic(fns, t, n, m);
}

/// Under any bound an evaluation either runs out of fuel or ends in the one
/// outcome that the expression evaluates to.
pub proof fn lemma_converges_at(fns: Functions, t: Term, o: Outcome, n: nat)
    requires
        converges(fns, t, o),
    ensures
        eval_term(fns, t, n) == out_of_fuel() || eval_term(fns, t, n) == o,
{
    let m = choose|m: nat| #[trigger] eval_term(fns, t, m) == o;
    if eval_term(fns, t, n) != out_of_fuel() {
        lemma_eval_deterministic(fns, t, n, m);
    }
}

/// Under any bound a rewrite step either runs out of fuel or ends in the one
/// outcome that the step has.
pub proof fn lemma_steps_at(fns: Functions, t: Term, o: Outcome, n: nat)
    requires
        steps(fns, t, o),
    ensures
        step_term(fns, t, n) == out_of_fuel() || step_term(fns, t, n) == o,
{
    let m = choose|m: nat| #[trigger] step_term(fns, t, m) == o;
    if step_term(fns, t, n) != out_of_fuel() {
        lemma_step_deterministic(fns, t, n, m);
    }
}

/// A normal form evaluates to itself.
pub proof fn lemma_eval_idempotent(fns: Functions, t: Term, r: Term, n: nat)
    requires
        eval_term(fns, t, n) == Outcome::Done(r),
    ensures
        eval_term(fns, r, n) == Outcome::Done(r),
    decreases n,
{
    match step_term(fns, t, n) {
        Outcome::Fail(_) => {},
        Outcome::Done(s) => {
            if s != t {
                lemma_eval_idempotent(fns, s, r, (n - 1) as nat);
                lemma_eval_monotonic(fns, r, (n - 1) as nat, n);
            }
        },
    }
}

/// What an expression evaluates to is a normal form: it evaluates to itself.
pub proof fn lemma_value_converges(fns: Functions, t: Term, r: Term)
    requires
        converges(fns, t, Outcome::Done(r)),
    ensures
        converges(fns, r, Outcome::Done(r)),
{
    let n = choose|n: nat| #[trigger] eval_term(fns, t, n) == Outcome::Done(r);
    lemma_eval_idempotent(fns, t, r, n);
}

/// A name other than a function reference evaluates to itself, whatever the
/// function table holds.
pub proof fn lemma_inert_atom(fns: Functions, name: Name)
    requires
        !(name is Function),
    ensures
        converges(fns, Term::Atom(name), Outcome::Done(Term::Atom(name))),
        steps(fns, Term::Atom(name), Outcome::Done(Term::Atom(name))),
{
    let t = Term::Atom(name);
    assert(step_term(fns, t, 1) == Outcome::Done(t));
    assert(eval_term(fns, t, 1) == Outcome::Done(t));
}

/// A partial application of an operator whose rule for one argument leaves
/// it as it is, is its own normal form.
pub proof fn lemma_stuck1_value(fns: Functions, op: Name, x: Term)
    requires
        !(op is Function),
        rule1(op, x) is Stuck,
    ensures
        eval_term(fns, Term::ap(Term::Atom(op), x), 2) == Outcome::Done(
            Term::ap(Term::Atom(op), x),
        ),
{
    let f = Term::Atom(op);
    let t = Term::ap(f, x);
    assert(step_term(fns, f, 1) == Outcome::Done(f));
    assert(step_term(fns, t, 2) == Outcome::Done(t));
}

/// The pair of two normal forms is its own normal form.
pub proof fn lemma_pair_value(fns: Functions, head: Term, tail: Term)
    requires
        converges(fns, head, Outcome::Done(head)),
        converges(fns, tail, Outcome::Done(tail)),
    ensures
        converges(
            fns,
            Term::ap(Term::ap(Term::Atom(Name::Cons), head), tail),
            Outcome::Done(Term::ap(Term::ap(Term::Atom(Name::Cons), head), tail)),
        ),
{
    let cons = Term::Atom(Name::Cons);
    let f = Term::ap(cons, head);
    let t = Term::ap(f, tail);
    let nh = choose|n: nat| #[trigger] eval_term(fns, head, n) == Outcome::Done(head);
    let nt = choose|n: nat| #[trigger] eval_term(fns, tail, n) == Outcome::Done(tail);
    let n = nh + nt + 2;
    lemma_eval_monotonic(fns, head, nh, n);
    lemma_eval_monotonic(fns, tail, nt, n);
    lemma_stuck1_value(fns, Name::Cons, head);
    lemma_eval_monotonic(fns, f, 2, n);
    assert(step_term(fns, cons, 1) == Outcome::Done(cons));
    lemma_eval_monotonic(fns, cons, 1, n);
    assert(step_term(fns, t, n + 1) == Outcome::Done(t));
    assert(eval_term(fns, t, n + 1) == Outcome::Done(t));
}

/// Under the bound `n` an evaluation that ends in `o` under the bound `w`
/// either runs out of fuel or ends in `o`, and it ends in `o` where `n` is at
/// least `w`.
pub proof fn lemma_eval_known(fns: Functions, t: Term, o: Outcome, w: nat, n: nat)
    requires
        eval_term(fns, t, w) == o,
        o != out_of_fuel(),
    ensures
        eval_term(fns, t, n) == out_of_fuel() || eval_term(fns, t, n) == o,
        n >= w ==> eval_term(fns, t, n) == o,
{
    if n >= w {
        lemma_eval_monotonic(fns, t, w, n);
    } else if eval_term(fns, t, n) != out_of_fuel() {
        lemma_eval_monotonic(fns, t, n, w);
    }
}

/// The same for the number that an expression evaluates to.
pub proof fn lemma_num_known(fns: Functions, t: Term, o: Outcome, w: nat, n: nat)
    requires
        eval_term(fns, t, w) == o,
        o != out_of_fuel(),
    ensures
        eval_num(fns, t, n) == Err::<int, EvalError>(EvalError::OutOfFuel) || eval_num(fns, t, n)
            == eval_num(fns, t, w),
        n >= w ==> eval_num(fns, t, n) == eval_num(fns, t, w),
{
    lemma_eval_known(fns, t, o, w, n);
}

/// A rewrite step on an application whose function part evaluates to an
/// atom is the rule of that atom for one argument.
pub proof fn lemma_unwrap1(fns: Functions, f: Term, x: Term, op: Name, w: nat, n: nat)
    requires
        eval_term(fns, f, w) == Outcome::Done(Term::Atom(op)),
    ensures
        ({
            let t = Term::ap(f, x);
            let s = step_term(fns, t, n + 1);
            let a = apply_rule(fns, rule1(op, x), t, x, x, n + 1);
            (s == out_of_fuel() || s == a) && (n >= w ==> s == a)
        }),
{
    lemma_eval_known(fns, f, Outcome::Done(Term::Atom(op)), w, n);
}

/// A rewrite step on an application whose function part evaluates to an
/// application, the function part of which evaluates to an atom, is the rule
/// of that atom for two arguments.
pub proof fn lemma_unwrap2(
    fns: Functions,
    f: Term,
    x: Term,
    g: Term,
    y: Term,
    op: Name,
    wf: nat,
    wg: nat,
    n: nat,
)
    requires
        eval_term(fns, f, wf) == Outcome::Done(Term::ap(g, y)),
        eval_term(fns, g, wg) == Outcome::Done(Term::Atom(op)),
    ensures
        ({
            let t = Term::ap(f, x);
            let s = step_term(fns, t, n + 1);
            let a = apply_rule(fns, rule2(op, y, x), t, y, x, n + 1);
            (s == out_of_fuel() || s == a) && (n >= wf && n >= wg ==> s == a)
        }),
{
    lemma_eval_known(fns, f, Outcome::Done(Term::ap(g, y)), wf, n);
    lemma_eval_known(fns, g, Outcome::Done(Term::Atom(op)), wg, n);
}

/// A rewrite step on an application whose function part unwraps to an atom
/// at the third evaluation is the rule of that atom for three arguments.
pub proof fn lemma_unwrap3(
    fns: Functions,
    f: Term,
    x: Term,
    g: Term,
    y: Term,
    h: Term,
    z: Term,
    op: Name,
    wf: nat,
    wg: nat,
    wh: nat,
    n: nat,
)
    requires
        eval_term(fns, f, wf) == Outcome::Done(Term::ap(g, y)),
        eval_term(fns, g, wg) == Outcome::Done(Term::ap(h, z)),
        eval_term(fns, h, wh) == Outcome::Done(Term::Atom(op)),
    ensures
        ({
            let t = Term::ap(f, x);
            let s = step_term(fns, t, n + 1);
            let a = apply_rule(fns, rule3(op, z, y, x), t, y, x, n + 1);
            (s == out_of_fuel() || s == a) && (n >= wf && n >= wg && n >= wh ==> s == a)
        }),
{
    lemma_eval_known(fns, f, Outcome::Done(Term::ap(g, y)), wf, n);
    lemma_eval_known(fns, g, Outcome::Done(Term::ap(h, z)), wg, n);
    lemma_eval_known(fns, h, Outcome::Done(Term::Atom(op)), wh, n);
}

/// A rewrite step on an application whose function part is still an
/// application at the third evaluation leaves it as it is.
pub proof fn lemma_unwrap_deep(
    fns: Functions,
    f: Term,
    x: Term,
    g: Term,
    y: Term,
    h: Term,
    z: Term,
    h1: Term,
    wf: nat,
    wg: nat,
    wh: nat,
    n: nat,
)
    requires
        eval_term(fns, f, wf) == Outcome::Done(Term::ap(g, y)),
        eval_term(fns, g, wg) == Outcome::Done(Term::ap(h, z)),
        eval_term(fns, h, wh) == Outcome::Done(h1),
        h1 is Ap,
    ensures
        ({
            let t = Term::ap(f, x);
            let s = step_term(fns, t, n + 1);
            (s == out_of_fuel() || s == Outcome::Done(t)) && (n >= wf && n >= wg && n >= wh ==> s
                == Outcome::Done(t))
        }),
{
    lemma_eval_known(fns, f, Outcome::Done(Term::ap(g, y)), wf, n);
    lemma_eval_known(fns, g, Outcome::Done(Term::ap(h, z)), wg, n);
    lemma_eval_known(fns, h, Outcome::Done(h1), wh, n);
}

/// Where the second evaluation of the function part fails, the rewrite step
/// fails in the same way.
pub proof fn lemma_unwrap2_fails(
    fns: Functions,
    f: Term,
    x: Term,
    g: Term,
    y: Term,
    wf: nat,
    n: nat,
)
    requires
        eval_term(fns, f, wf) == Outcome::Done(Term::ap(g, y)),
        eval_term(fns, g, n) is Fail,
    ensures
        ({
            let s = step_term(fns, Term::ap(f, x), n + 1);
            (s == out_of_fuel() || s == eval_term(fns, g, n)) && (n >= wf ==> s == eval_term(
                fns,
                g,
                n,
            ))
        }),
{
    lemma_eval_known(fns, f, Outcome::Done(Term::ap(g, y)), wf, n);
}

/// Where the third evaluation of the function part fails, the rewrite step
/// fails in the same way.
pub proof fn lemma_unwrap3_fails(
    fns: Functions,
    f: Term,
    x: Term,
    g: Term,
    y: Term,
    h: Term,
    z: Term,
    wf: nat,
    wg: nat,
    n: nat,
)
    requires
        eval_term(fns, f, wf) == Outcome::Done(Term::ap(g, y)),
        eval_term(fns, g, wg) == Outcome::Done(Term::ap(h, z)),
        eval_term(fns, h, n) is Fail,
    ensures
        ({
            let s = step_term(fns, Term::ap(f, x), n + 1);
            (s == out_of_fuel() || s == eval_term(fns, h, n)) && (n >= wf && n >= wg ==> s
                == eval_term(fns, h, n))
        }),
{
    lemma_eval_known(fns, f, Outcome::Done(Term::ap(g, y)), wf, n);
    lemma_eval_known(fns, g, Outcome::Done(Term::ap(h, z)), wg, n);
}

/// A rewrite step that fails is an evaluation that fails.
pub proof fn lemma_step_fails(fns: Functions, t: Term, e: EvalError)
    requires
        steps(fns, t, Outcome::Fail(e)),
    ensures
        converges(fns, t, Outcome::Fail(e)),
{
    let n = choose|n: nat| #[trigger] step_term(fns, t, n) == Outcome::Fail(e);
    lemma_step_monotonic(fns, t, n, n + 1);
    assert(eval_term(fns, t, n + 1) == Outcome::Fail(e));
}

/// An expression that a rewrite step leaves as it is, is its own normal
/// form.
pub proof fn lemma_step_fixed(fns: Functions, t: Term)
    requires
        steps(fns, t, Outcome::Done(t)),
    ensures
        converges(fns, t, Outcome::Done(t)),
{
    let n = choose|n: nat| #[trigger] step_term(fns, t, n) == Outcome::Done(t);
    lemma_step_monotonic(fns, t, n, n + 1);
    assert(eval_term(fns, t, n + 1) == Outcome::Done(t));
}

/// An expression evaluates to what the result of its rewrite step evaluates
/// to.
pub proof fn lemma_step_then_eval(fns: Functions, t: Term, r: Term, o: Outcome)
    requires
        steps(fns, t, Outcome::Done(r)),
        r != t,
        converges(fns, r, o),
    ensures
        converges(fns, t, o),
{
    let n = choose|n: nat| #[trigger] step_term(fns, t, n) == Outcome::Done(r);
    let m = choose|m: nat| #[trigger] eval_term(fns, r, m) == o;
    let k = n + m + 1;
    lemma_step_monotonic(fns, t, n, k);
    lemma_eval_monotonic(fns, r, m, (k - 1) as nat);
    assert(eval_term(fns, t, k) == o);
}

/// Under the bound `n` the evaluation of an expression, whose rewrite step
/// gives another expression `r`, runs out of fuel where that of `r` does
/// under the bound before `n`.
pub proof fn lemma_step_then_timeout(fns: Functions, t: Term, r: Term, n: nat)
    requires
        steps(fns, t, Outcome::Done(r)),
        r != t,
        n >= 1,
        eval_term(fns, r, (n - 1) as nat) == out_of_fuel(),
    ensures
        eval_term(fns, t, n) == out_of_fuel(),
{
    lemma_steps_at(fns, t, Outcome::Done(r), n);
}

/// What `t` evaluates to: the one outcome of its evaluation under a bound
/// that is large enough, and `OutOfFuel` where no bound is.
pub open spec fn evaluate(fns: Functions, t: Term) -> Outcome {
    if exists|n: nat| #[trigger] eval_term(fns, t, n) != out_of_fuel() {
        let n = choose|n: nat| #[trigger] eval_term(fns, t, n) != out_of_fuel();
        eval_term(fns, t, n)
    } else {
        out_of_fuel()
    }
}

/// An evaluation that ends under some bound ends in what the expression
/// evaluates to.
pub proof fn lemma_evaluate_at(fns: Functions, t: Term, n: nat)
    requires
        eval_term(fns, t, n) != out_of_fuel(),
    ensures
        evaluate(fns, t) == eval_term(fns, t, n),
{
    let m = choose|m: nat| #[trigger] eval_term(fns, t, m) != out_of_fuel();
    lemma_eval_deterministic(fns, t, n, m);
}

/// The outcome that an expression converges to is what it evaluates to.
pub proof fn lemma_evaluate(fns: Functions, t: Term, o: Outcome)
    requires
        converges(fns, t, o),
    ensures
        evaluate(fns, t) == o,
{
    let n = choose|n: nat| #[trigger] eval_term(fns, t, n) == o;
    lemma_evaluate_at(fns, t, n);
}

} // verus!
