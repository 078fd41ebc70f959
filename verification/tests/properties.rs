use galaxypad::graph::{ExprRef, Graph};
use galaxypad::name::Name;
use galaxypad::semantics::EvalError;

const FUEL: u64 = 1_000_000;

fn both(text: &str, functions: &str) -> (Graph, Result<ExprRef, EvalError>, Result<ExprRef, EvalError>) {
    let mut graph = Graph::new();
    graph.load_function_definitions(functions).unwrap();
    let first = graph.deserialize(text).unwrap();
    let second = graph.deserialize(text).unwrap();
    let recursive = graph.eval(first, FUEL);
    let iterative = graph.eval_iterative(second, FUEL);
    (graph, recursive, iterative)
}

fn both_give_atom(text: &str, functions: &str, name: Name) {
    let (mut graph, recursive, iterative) = both(text, functions);
    let expected = graph.atom(name);
    let recursive = recursive.unwrap();
    let iterative = iterative.unwrap();
    assert!(graph.equals(recursive, expected), "recursive: {}", text);
    assert!(graph.equals(iterative, expected), "iterative: {}", text);
}

fn both_fail(text: &str, functions: &str, error: EvalError) {
    let (_, recursive, iterative) = both(text, functions);
    assert_eq!(recursive, Err(error), "recursive: {}", text);
    assert_eq!(iterative, Err(error), "iterative: {}", text);
}

#[test]
fn sums_and_products_over_a_range() {
    for a in -12i64..12 {
        for b in -12i64..12 {
            both_give_atom(&format!("ap ap add {} {}", a, b), "", Name::Int(a + b));
            both_give_atom(&format!("ap ap mul {} {}", a, b), "", Name::Int(a * b));
        }
    }
}

#[test]
fn division_rounds_toward_zero() {
    both_give_atom("ap ap div -9 4", "", Name::Int(-2));
    both_give_atom("ap ap div 9 4", "", Name::Int(2));
    both_give_atom("ap ap div 9 -4", "", Name::Int(-2));
    both_give_atom("ap ap div -9 -4", "", Name::Int(2));
    both_give_atom("ap ap div 0 -4", "", Name::Int(0));
    both_give_atom("ap ap div 7 7", "", Name::Int(1));
}

#[test]
fn division_by_zero_is_an_error() {
    both_fail("ap ap div 5 0", "", EvalError::DivisionByZero);
    both_fail("ap ap div 0 0", "", EvalError::DivisionByZero);
}

#[test]
fn results_beyond_64_bits_overflow() {
    both_fail("ap ap add 9223372036854775807 1", "", EvalError::Overflow);
    both_fail("ap ap add -9223372036854775808 -1", "", EvalError::Overflow);
    both_fail("ap ap mul 4611686018427387904 2", "", EvalError::Overflow);
    both_fail("ap neg -9223372036854775808", "", EvalError::Overflow);
    both_fail("ap ap div -9223372036854775808 -1", "", EvalError::Overflow);
    both_give_atom("ap ap add 9223372036854775806 1", "", Name::Int(i64::MAX));
    both_give_atom("ap neg 9223372036854775807", "", Name::Int(-i64::MAX));
    both_give_atom("ap ap mul -4611686018427387904 2", "", Name::Int(i64::MIN));
}

#[test]
fn comparisons_over_a_range() {
    for a in -12i64..12 {
        both_give_atom(&format!("ap ap eq {} {}", a, a), "", Name::T);
        both_give_atom(&format!("ap ap lt {} {}", a - 1, a), "", Name::T);
        both_give_atom(&format!("ap ap lt {} {}", a, a), "", Name::F);
        both_give_atom(&format!("ap ap lt {} {}", a, a - 1), "", Name::F);
        for b in -12i64..12 {
            if a != b {
                both_give_atom(&format!("ap ap eq {} {}", a, b), "", Name::F);
            }
        }
    }
}

#[test]
fn truth_values_count_as_numbers() {
    both_give_atom("ap ap add t t", "", Name::Int(2));
    both_give_atom("ap ap add f 5", "", Name::Int(5));
    both_give_atom("ap neg t", "", Name::Int(-1));
    both_give_atom("ap ap eq t 1", "", Name::T);
    both_give_atom("ap ap eq f 0", "", Name::T);
}

#[test]
fn operands_that_are_no_numbers_fail() {
    both_fail("ap ap add x0 1", "", EvalError::NotANumber);
    both_fail("ap ap add 1 x0", "", EvalError::NotANumber);
    both_fail("ap neg nil", "", EvalError::NotANumber);
    both_fail("ap ap lt cons 1", "", EvalError::NotANumber);
    both_fail("ap ap mul ap ap cons 1 2 3", "", EvalError::NotANumber);
}

#[test]
fn unknown_functions_fail() {
    both_fail(":99", "", EvalError::UnknownFunction(99));
    both_fail("ap :99 x0", "", EvalError::UnknownFunction(99));
    both_fail("ap ap add 1 :7", ":8 = 1", EvalError::UnknownFunction(7));
    both_give_atom("ap ap add 1 :8", ":8 = 1", Name::Int(2));
}

#[test]
fn unused_arguments_are_not_evaluated() {
    both_give_atom("ap ap t 1 :99", "", Name::Int(1));
    both_give_atom("ap ap f :99 2", "", Name::Int(2));
    both_give_atom("ap ap t 1 ap ap div 1 0", "", Name::Int(1));
    both_give_atom("ap nil :99", "", Name::T);
}

#[test]
fn combinators_on_variables() {
    let (mut g, recursive, iterative) = both("ap ap ap s x0 x1 x2", "");
    let x0 = g.atom(Name::Variable(0));
    let x1 = g.atom(Name::Variable(1));
    let x2 = g.atom(Name::Variable(2));
    let left = g.ap(x0, x2);
    let right = g.ap(x1, x2);
    let expected = g.ap(left, right);
    assert!(g.equals(recursive.unwrap(), expected));
    assert!(g.equals(iterative.unwrap(), expected));

    let (mut g, recursive, iterative) = both("ap ap ap c x0 x1 x2", "");
    let x0 = g.atom(Name::Variable(0));
    let x1 = g.atom(Name::Variable(1));
    let x2 = g.atom(Name::Variable(2));
    let left = g.ap(x0, x2);
    let expected = g.ap(left, x1);
    assert!(g.equals(recursive.unwrap(), expected));
    assert!(g.equals(iterative.unwrap(), expected));

    let (mut g, recursive, iterative) = both("ap ap ap b x0 x1 x2", "");
    let x0 = g.atom(Name::Variable(0));
    let x1 = g.atom(Name::Variable(1));
    let x2 = g.atom(Name::Variable(2));
    let right = g.ap(x1, x2);
    let expected = g.ap(x0, right);
    assert!(g.equals(recursive.unwrap(), expected));
    assert!(g.equals(iterative.unwrap(), expected));

    both_give_atom("ap i x5", "", Name::Variable(5));
    both_give_atom("ap ap t x3 x4", "", Name::Variable(3));
    both_give_atom("ap ap f x3 x4", "", Name::Variable(4));
}

#[test]
fn identity_gives_what_its_argument_evaluates_to() {
    both_give_atom("ap i ap ap add 1 2", "", Name::Int(3));
    both_give_atom("ap i ap i ap i nil", "", Name::Nil);
}

#[test]
fn pairs_and_lists() {
    both_give_atom("ap car ap ap cons 1 2", "", Name::Int(1));
    both_give_atom("ap cdr ap ap cons 1 2", "", Name::Int(2));
    both_give_atom("ap car ap ap cons ap ap add 1 2 nil", "", Name::Int(3));
    both_give_atom("ap cdr ap ap cons 1 ap ap mul 2 3", "", Name::Int(6));
    both_give_atom("ap isnil nil", "", Name::T);
    both_give_atom("ap isnil ap ap cons 1 2", "", Name::F);
    both_give_atom("ap isnil ap ap cons x0 x1", "", Name::F);
    both_give_atom("ap car ap cdr ap ap cons 1 ap ap cons 2 nil", "", Name::Int(2));
}

#[test]
fn a_pair_is_evaluated_in_both_parts() {
    let (mut g, recursive, iterative) = both("ap ap cons ap ap add 1 2 ap i x7", "");
    let cons = g.atom(Name::Cons);
    let three = g.atom(Name::Int(3));
    let x7 = g.atom(Name::Variable(7));
    let inner = g.ap(cons, three);
    let expected = g.ap(inner, x7);
    assert!(g.equals(recursive.unwrap(), expected));
    assert!(g.equals(iterative.unwrap(), expected));
    both_fail("ap car ap ap cons 1 :99", "", EvalError::UnknownFunction(99));
}

#[test]
fn a_function_that_unrolls_without_end() {
    let functions = ":2000 = ap ap c t :2000";
    both_give_atom("ap :2000 x0", functions, Name::Variable(0));
    both_give_atom("ap :2000 42", functions, Name::Int(42));
    both_give_atom("ap :2000 ap ap add 1 2", functions, Name::Int(3));
    both_give_atom("ap :2000 ap :2000 nil", functions, Name::Nil);
}

#[test]
fn a_function_that_calls_itself() {
    // :1 n = if n == 0 then 0 else n + :1 (n - 1), the sum of the numbers up to n.
    let functions = ":1 = ap ap s ap ap c ap eq 0 0 ap ap s add ap ap b :1 ap add -1";
    both_give_atom("ap :1 0", functions, Name::Int(0));
    both_give_atom("ap :1 1", functions, Name::Int(1));
    both_give_atom("ap :1 10", functions, Name::Int(55));
    both_give_atom("ap :1 100", functions, Name::Int(5050));
}

#[test]
fn evaluation_that_does_not_end_runs_out_of_fuel() {
    // Rewriting without end, at one depth.
    both_fail(":7", ":7 = ap i :7", EvalError::OutOfFuel);
    // Nesting without end: the recursive engine is given a bound that the
    // call stack can take.
    let nesting = [("ap :8 1", ":8 = ap :8 :8"), (":9", ":9 = ap ap add 1 :9")];
    for (text, functions) in nesting {
        let mut g = Graph::new();
        g.load_function_definitions(functions).unwrap();
        let first = g.deserialize(text).unwrap();
        assert_eq!(g.eval(first, 500), Err(EvalError::OutOfFuel));
        let second = g.deserialize(text).unwrap();
        assert_eq!(g.eval_iterative(second, FUEL), Err(EvalError::OutOfFuel));
    }
}

#[test]
fn the_bound_is_on_the_depth() {
    let mut g = Graph::new();
    let a = g.deserialize("x0").unwrap();
    assert_eq!(g.eval(a, 0), Err(EvalError::OutOfFuel));
    assert_eq!(g.eval_iterative(a, 0), Err(EvalError::OutOfFuel));
    assert_eq!(g.eval(a, 1), Ok(a));
    let b = g.deserialize("x0").unwrap();
    assert_eq!(g.eval_iterative(b, 1), Ok(b));

    let c = g.deserialize("ap i x1").unwrap();
    assert_eq!(g.eval(c, 1), Err(EvalError::OutOfFuel));
    assert!(g.eval(c, 2).is_ok());
    let d = g.deserialize("ap i x1").unwrap();
    assert_eq!(g.eval_iterative(d, 1), Err(EvalError::OutOfFuel));
    assert!(g.eval_iterative(d, 2).is_ok());

    let e = g.deserialize("ap ap add 1 2").unwrap();
    assert_eq!(g.eval(e, 2), Err(EvalError::OutOfFuel));
    let f = g.deserialize("ap ap add 1 2").unwrap();
    assert_eq!(g.eval_iterative(f, 2), Err(EvalError::OutOfFuel));
    let h = g.deserialize("ap ap add 1 2").unwrap();
    let three = g.atom(Name::Int(3));
    let r = g.eval(h, 3).unwrap();
    assert!(g.equals(r, three));
    let k = g.deserialize("ap ap add 1 2").unwrap();
    let r = g.eval_iterative(k, 3).unwrap();
    assert!(g.equals(r, three));
}

#[test]
fn the_result_is_remembered() {
    let mut g = Graph::new();
    let e = g.deserialize("ap ap add 1 2").unwrap();
    assert_eq!(g.evaluated(e), None);
    let r = g.eval_iterative(e, FUEL).unwrap();
    assert_eq!(g.evaluated(e), Some(r));
    assert_eq!(g.evaluated(r), Some(r));
    // With the slot set no fuel is needed.
    assert_eq!(g.eval(e, 0), Ok(r));
    assert_eq!(g.eval_iterative(e, 0), Ok(r));
    assert_eq!(g.try_eval(e, FUEL).map(|s| g.equals(s, r)), Ok(true));
}

#[test]
fn one_rewrite_step() {
    let mut g = Graph::new();
    g.load_function_definitions(":5 = ap i 1").unwrap();
    let e = g.deserialize(":5").unwrap();
    let body = g.lookup(5).unwrap();
    assert_eq!(g.try_eval(e, FUEL), Ok(body));
    let next = g.try_eval(body, FUEL).unwrap();
    let one = g.atom(Name::Int(1));
    assert!(g.equals(next, one));
    assert_eq!(g.try_eval(next, FUEL), Ok(next));

    let s = g.deserialize("ap ap ap s add i 4").unwrap();
    let step = g.try_eval(s, FUEL).unwrap();
    let expected = g.deserialize("ap ap add 4 ap i 4").unwrap();
    assert!(g.equals(step, expected));
    let stuck = g.deserialize("ap ap ap x0 1 2 3").unwrap();
    assert_eq!(g.try_eval(stuck, FUEL), Ok(stuck));
    let car = g.deserialize("ap car x1").unwrap();
    let step = g.try_eval(car, FUEL).unwrap();
    let expected = g.deserialize("ap x1 t").unwrap();
    assert!(g.equals(step, expected));
    let isnil = g.deserialize("ap isnil x1").unwrap();
    let step = g.try_eval(isnil, FUEL).unwrap();
    let expected = g.deserialize("ap x1 ap t ap t f").unwrap();
    assert!(g.equals(step, expected));
    let unknown = g.deserialize("ap :6 1").unwrap();
    assert_eq!(g.try_eval(unknown, FUEL), Err(EvalError::UnknownFunction(6)));
}

#[test]
fn an_application_without_a_rule_stays_as_it_is() {
    let texts = [
        "ap ap i x0 x1",
        "ap x0 ap ap add 1 2",
        "ap ap x0 1 2",
        "ap s x0",
        "ap ap s x0 x1",
        "ap ap ap ap x0 1 2 3 4",
        "ap add 1",
        "ap 5 6",
    ];
    for text in texts {
        let (g, recursive, iterative) = both(text, "");
        let recursive = recursive.unwrap();
        let iterative = iterative.unwrap();
        assert!(g.equals(recursive, iterative), "engines differ on {}", text);
        let mut g = g;
        let again = g.deserialize(text).unwrap();
        assert!(g.equals(recursive, again), "{} was rewritten", text);
    }
}

#[test]
fn engines_agree_on_a_corpus() {
    let functions = ":1 = ap ap s ap ap c ap eq 0 0 ap ap s add ap ap b :1 ap add -1
:2 = ap ap c t :2
:3 = ap ap b ap b ap cons 0 ap ap c ap ap b b cons ap ap c cons nil
:4 = ap ap cons 1 ap ap cons 2 ap ap cons 3 nil";
    let corpus = [
        "ap ap add ap ap mul 3 4 ap neg ap ap div 9 2",
        "ap ap ap s ap ap b add neg ap mul 2 7",
        "ap ap ap c ap ap b b ap ap b cons i nil 5",
        "ap :1 25",
        "ap :2 ap :1 4",
        "ap ap :3 1 2",
        ":4",
        "ap car ap cdr :4",
        "ap :4 f",
        "ap ap :4 t x9",
        "ap isnil ap cdr ap cdr ap cdr :4",
        "ap ap ap ap cons x0 x1 cons x2",
        "ap ap ap ap s b c i x0",
        "ap ap ap ap ap s s s s s x0",
        "ap ap eq ap :1 5 15",
        "ap ap ap ap i i i i 3",
    ];
    for text in corpus {
        let (g, recursive, iterative) = both(text, functions);
        let recursive = recursive.unwrap();
        let iterative = iterative.unwrap();
        assert!(g.equals(recursive, iterative), "engines differ on {}", text);
    }
    let failing = ["ap :1 x0", "ap ap add 1 :77", "ap ap div :1 0"];
    for text in failing {
        let (_, recursive, iterative) = both(text, functions);
        assert!(recursive.is_err());
        assert_eq!(recursive, iterative, "engines differ on {}", text);
    }
}

#[test]
fn engines_agree_on_deep_expressions() {
    // Ten thousand applications of the identity, nested in the argument.
    let mut text = String::new();
    for _ in 0..10_000 {
        text.push_str("ap i ");
    }
    text.push_str("ap ap add 20 22");
    both_give_atom(&text, "", Name::Int(42));

    // Ten thousand selections, each with a large argument that is dropped.
    let mut text = String::new();
    for _ in 0..10_000 {
        text.push_str("ap ap t ");
    }
    text.push_str("7");
    for i in 0..10_000 {
        text.push_str(&format!(" x{}", i));
    }
    both_give_atom(&text, "", Name::Int(7));
}

#[test]
fn the_iterative_engine_takes_deep_recursion() {
    // The sum of the numbers up to 20000 nests twenty thousand evaluations.
    let functions = ":1 = ap ap s ap ap c ap eq 0 0 ap ap s add ap ap b :1 ap add -1";
    let mut g = Graph::new();
    g.load_function_definitions(functions).unwrap();
    let e = g.deserialize("ap :1 20000").unwrap();
    let r = g.eval_iterative(e, FUEL).unwrap();
    let expected = g.atom(Name::Int(200_010_000));
    assert!(g.equals(r, expected));

    // A sum of ten thousand ones, nested in the second operand.
    let mut text = String::new();
    for _ in 0..10_000 {
        text.push_str("ap ap add 1 ");
    }
    text.push_str("0");
    let e = g.deserialize(&text).unwrap();
    let r = g.eval_iterative(e, FUEL).unwrap();
    let expected = g.atom(Name::Int(10_000));
    assert!(g.equals(r, expected));
}

#[test]
fn selecting_hands_back_the_operand_itself() {
    let mut g = Graph::new();
    let a = g.deserialize("ap ap add 1 2").unwrap();
    let b = g.deserialize("ap ap div 1 0").unwrap();
    let t = g.atom(Name::T);
    let ta = g.ap(t, a);
    let tab = g.ap(ta, b);
    assert_eq!(g.try_eval(tab, FUEL), Ok(a));
    assert_eq!(g.evaluated(a), None);
    assert_eq!(g.evaluated(b), None);

    let f = g.atom(Name::F);
    let fb = g.ap(f, b);
    let fba = g.ap(fb, a);
    assert_eq!(g.try_eval(fba, FUEL), Ok(a));
    assert_eq!(g.evaluated(a), None);
    assert_eq!(g.evaluated(b), None);

    let i = g.atom(Name::I);
    let ib = g.ap(i, b);
    assert_eq!(g.try_eval(ib, FUEL), Ok(b));
    assert_eq!(g.evaluated(b), None);

    // The whole evaluation fills the slot of the expression that was asked
    // for and leaves the operand that was not chosen alone.
    let three = g.eval(tab, FUEL).unwrap();
    assert_eq!(g.name(three), Some(Name::Int(3)));
    assert_eq!(g.evaluated(tab), Some(three));
    assert_eq!(g.evaluated(b), None);
    let again = g.eval_iterative(fba, FUEL).unwrap();
    assert_eq!(g.name(again), Some(Name::Int(3)));
    assert_eq!(g.evaluated(fba), Some(again));
    assert_eq!(g.evaluated(b), None);
}

#[test]
fn a_step_without_a_rule_changes_nothing() {
    let mut g = Graph::new();
    let five = g.atom(Name::Int(5));
    let nodes = g.len();
    assert_eq!(g.try_eval(five, FUEL), Ok(five));
    assert_eq!(g.len(), nodes);
    assert_eq!(g.evaluated(five), None);

    let x = g.atom(Name::Variable(3));
    assert_eq!(g.try_eval(x, FUEL), Ok(x));
    assert_eq!(g.evaluated(x), None);

    let stuck = g.deserialize("ap ap x0 1 2").unwrap();
    let nodes = g.len();
    assert_eq!(g.try_eval(stuck, FUEL), Ok(stuck));
    assert_eq!(g.len(), nodes);
    assert_eq!(g.evaluated(stuck), None);

    let partial = g.deserialize("ap add 1").unwrap();
    assert_eq!(g.try_eval(partial, FUEL), Ok(partial));
    assert_eq!(g.eval(partial, FUEL), Ok(partial));
    assert_eq!(g.evaluated(partial), Some(partial));
}

#[test]
fn a_pair_holds_itself() {
    let mut g = Graph::new();
    let e = g.deserialize("ap ap cons ap ap add 1 2 nil").unwrap();
    let pair = g.try_eval(e, FUEL).unwrap();
    assert_eq!(g.evaluated(pair), Some(pair));
    let expected = g.deserialize("ap ap cons 3 nil").unwrap();
    assert!(g.equals(pair, expected));
    assert_eq!(g.eval_iterative(pair, 0), Ok(pair));
    let whole = g.eval(e, FUEL).unwrap();
    assert!(g.equals(whole, expected));
    assert_eq!(g.evaluated(whole), Some(whole));
    assert_eq!(g.evaluated(e), Some(whole));

    let sum = g.deserialize("ap ap add 20 22").unwrap();
    let value = g.try_eval(sum, FUEL).unwrap();
    assert_eq!(g.name(value), Some(Name::Int(42)));
    assert_eq!(g.evaluated(value), Some(value));
}

#[test]
fn evaluation_fills_no_slot_elsewhere() {
    let mut g = Graph::new();
    let other = g.deserialize("ap ap mul 6 7").unwrap();
    let e = g.deserialize("ap ap ap s add i 4").unwrap();
    let r = g.eval(e, FUEL).unwrap();
    assert_eq!(g.name(r), Some(Name::Int(8)));
    assert_eq!(g.evaluated(other), None);
    let e = g.deserialize("ap ap ap b neg neg 9").unwrap();
    let r = g.eval_iterative(e, FUEL).unwrap();
    assert_eq!(g.name(r), Some(Name::Int(9)));
    assert_eq!(g.evaluated(other), None);
    assert_eq!(g.func(other).and_then(|f| g.evaluated(f)), None);
}

#[test]
fn an_application_without_a_rule_leaves_its_argument_alone() {
    let mut g = Graph::new();
    let b = g.deserialize("ap ap div 1 0").unwrap();
    let x = g.atom(Name::Variable(0));
    let e = g.ap(x, b);
    assert_eq!(g.eval(e, FUEL), Ok(e));
    assert_eq!(g.evaluated(e), Some(e));
    assert_eq!(g.evaluated(b), None);
    let again = g.ap(x, b);
    assert_eq!(g.eval_iterative(again, FUEL), Ok(again));
    assert_eq!(g.evaluated(again), Some(again));
    assert_eq!(g.evaluated(b), None);
    let add = g.atom(Name::Add);
    let partial = g.ap(add, b);
    assert_eq!(g.eval(partial, 2), Ok(partial));
    assert_eq!(g.eval_iterative(partial, 0), Ok(partial));
    assert_eq!(g.evaluated(b), None);
}

#[test]
fn a_selector_needs_a_bound_of_three() {
    let mut g = Graph::new();
    let a = g.deserialize("ap ap add 1 2").unwrap();
    let b = g.deserialize("ap neg nil").unwrap();
    let t = g.atom(Name::T);
    let part = g.ap(t, a);
    let e = g.ap(part, b);
    assert_eq!(g.try_eval(e, 3), Ok(a));
    assert_eq!(g.evaluated(part), Some(part));
    assert_eq!(g.evaluated(t), Some(t));
    assert_eq!(g.evaluated(a), None);
    assert_eq!(g.evaluated(b), None);
    let i = g.atom(Name::I);
    let e = g.ap(i, b);
    assert_eq!(g.try_eval(e, 2), Ok(b));
    assert_eq!(g.evaluated(b), None);
    assert_eq!(g.try_eval(b, FUEL), Err(EvalError::NotANumber));
}
