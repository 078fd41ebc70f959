use galaxypad::graph::{ExprRef, Graph};
use galaxypad::name::Name;

const FUEL: u64 = 100_000;

fn load(functions: &str) -> Graph {
    let mut graph = Graph::new();
    graph.load_function_definitions(functions).unwrap();
    graph
}

fn evaluate(graph: &mut Graph, expr: ExprRef) -> ExprRef {
    graph.eval_iterative(expr, FUEL).unwrap()
}

fn variable(graph: &mut Graph, id: u32) -> ExprRef {
    graph.atom(Name::Variable(id))
}

fn assert_expression_evaluates_to(graph: &mut Graph, text: &str, expected: ExprRef) {
    let parsed = graph.deserialize(text).unwrap();
    let result = evaluate(graph, parsed);
    assert!(
        graph.equals(result, expected),
        "{} => {} != {}",
        text,
        String::from_utf8(graph.serialize(result)).unwrap(),
        String::from_utf8(graph.serialize(expected)).unwrap()
    );
}

fn assert_evaluates_to_atom(graph: &mut Graph, text: &str, name: Name) {
    let expected = graph.atom(name);
    assert_expression_evaluates_to(graph, text, expected);
}

#[test]
fn application_order_preserved() {
    let mut g = load("");
    assert_evaluates_to_atom(&mut g, "ap ap mul 2 ap ap add 3 4", Name::Int(14));
}

#[test]
fn addition() {
    let mut g = load("");
    assert_evaluates_to_atom(&mut g, "ap ap add ap ap add 2 2 3", Name::Int(7));
    assert_evaluates_to_atom(&mut g, "ap ap add ap ap add 2 ap ap add 3 2 3", Name::Int(10));
    assert_evaluates_to_atom(&mut g, "ap ap add 2 3", Name::Int(5));
    assert_evaluates_to_atom(&mut g, "ap ap add 2 -3", Name::Int(-1));
    assert_evaluates_to_atom(&mut g, "ap ap add -2 -3", Name::Int(-5));
    assert_evaluates_to_atom(&mut g, "ap ap add -2 3", Name::Int(1));
    assert_evaluates_to_atom(&mut g, "ap ap add -2 0", Name::Int(-2));
    assert_evaluates_to_atom(&mut g, "ap ap add 2 0", Name::Int(2));
    assert_evaluates_to_atom(&mut g, "ap ap add 0 -2", Name::Int(-2));
    assert_evaluates_to_atom(&mut g, "ap ap add 0 2", Name::Int(2));
}

#[test]
fn division() {
    let mut g = load("");
    assert_evaluates_to_atom(&mut g, "ap ap div -9 4", Name::Int(-2));
}

#[test]
fn multiplication() {
    let mut g = load("");
    assert_evaluates_to_atom(&mut g, "ap ap mul 10 2", Name::Int(20));
}

#[test]
fn cons_pairing() {
    let mut g = load("");
    let cons = g.atom(Name::Cons);
    let x0 = variable(&mut g, 0);
    let x1 = variable(&mut g, 1);
    let inner = g.ap(cons, x0);
    let expected = g.ap(inner, x1);
    assert_expression_evaluates_to(&mut g, "ap ap cons x0 x1", expected);
}

#[test]
fn cons_application() {
    let mut g = load("");
    let x0 = variable(&mut g, 0);
    let x1 = variable(&mut g, 1);
    let x2 = variable(&mut g, 2);
    let inner = g.ap(x2, x0);
    let expected = g.ap(inner, x1);
    assert_expression_evaluates_to(&mut g, "ap ap ap cons x0 x1 x2", expected);
    assert_expression_evaluates_to(&mut g, "ap ap ap ap cons x0 x1 cons x2", expected);
}

#[test]
fn isnil() {
    let mut g = load("");
    assert_evaluates_to_atom(&mut g, "ap isnil nil", Name::T);
    assert_evaluates_to_atom(&mut g, "ap isnil ap ap cons x0 x1", Name::F);
}

#[test]
fn true_combinator() {
    let mut g = load(
        ":0 = ap ap c add 1
            :1 = ap ap c add -1",
    );
    assert_evaluates_to_atom(&mut g, "ap ap t x0 x1", Name::Variable(0));
    assert_evaluates_to_atom(&mut g, "ap ap t x0 x1", Name::Variable(0));
    assert_evaluates_to_atom(&mut g, "ap ap t 1 5", Name::Int(1));
    assert_evaluates_to_atom(&mut g, "ap ap t t i", Name::T);
    assert_evaluates_to_atom(&mut g, "ap ap t t ap :0 5", Name::T);
    assert_evaluates_to_atom(&mut g, "ap ap t ap :0 5 t", Name::Int(6));
}

#[test]
fn false_combinator() {
    let mut g = load("");
    assert_evaluates_to_atom(&mut g, "ap ap f x0 x1", Name::Variable(1));
}

#[test]
fn identity() {
    let mut g = load("");
    assert_evaluates_to_atom(&mut g, "ap i x0", Name::Variable(0));
    assert_evaluates_to_atom(&mut g, "ap i ap i x0", Name::Variable(0));
    assert_evaluates_to_atom(&mut g, "ap i i", Name::I);
}

#[test]
fn equals() {
    let mut g = load("");

    for num in -20..20 {
        let expr_string = format!("ap ap eq {} {}", num, num);
        assert_evaluates_to_atom(&mut g, &expr_string, Name::T);
    }

    for num in -20..20 {
        let expr_string = format!("ap ap eq 30 {}", num);
        assert_evaluates_to_atom(&mut g, &expr_string, Name::F);
        let expr_string = format!("ap ap eq {} 30 ", num);
        assert_evaluates_to_atom(&mut g, &expr_string, Name::F);
        let expr_string = format!("ap ap eq {} -30", num);
        assert_evaluates_to_atom(&mut g, &expr_string, Name::F);
        let expr_string = format!("ap ap eq {} -30", num);
        assert_evaluates_to_atom(&mut g, &expr_string, Name::F);
    }
    assert_evaluates_to_atom(&mut g, "ap ap eq t f", Name::F);
    assert_evaluates_to_atom(&mut g, "ap ap eq f t", Name::F);

    assert_evaluates_to_atom(&mut g, "ap ap eq t ap i t", Name::T);
    assert_evaluates_to_atom(&mut g, "ap ap eq t ap ap eq t t", Name::T);
    assert_evaluates_to_atom(&mut g, "ap ap eq ap ap eq t t t", Name::T);
}

#[test]
fn less_than() {
    let mut g = load("");

    for num in -20..20 {
        let expr_string = format!("ap ap lt {} {}", num - 1, num);
        assert_evaluates_to_atom(&mut g, &expr_string, Name::T);
    }
}

#[test]
fn negate() {
    let mut g = load("");

    for num in -20..20 {
        let expr_string = format!("ap neg {}", num);
        assert_evaluates_to_atom(&mut g, &expr_string, Name::Int(-num));
    }
}

#[test]
fn s_combinator() {
    let mut g = load("");
    let x0 = variable(&mut g, 0);
    let x1 = variable(&mut g, 1);
    let x2 = variable(&mut g, 2);
    let left = g.ap(x0, x2);
    let right = g.ap(x1, x2);
    let expected = g.ap(left, right);
    assert_expression_evaluates_to(&mut g, "ap ap ap s x0 x1 x2", expected);
    assert_evaluates_to_atom(&mut g, "ap ap ap s mul ap add 1 6", Name::Int(42));
    assert_evaluates_to_atom(&mut g, "ap ap ap s add ap add 1 1", Name::Int(3));
}

#[test]
fn c_combinator() {
    let mut g = load("");
    let x0 = variable(&mut g, 0);
    let x1 = variable(&mut g, 1);
    let x2 = variable(&mut g, 2);
    let left = g.ap(x0, x2);
    let expected = g.ap(left, x1);
    assert_expression_evaluates_to(&mut g, "ap ap ap c x0 x1 x2", expected);
    assert_evaluates_to_atom(&mut g, "ap ap ap c add 1 2", Name::Int(3));
}

#[test]
fn b_combinator() {
    let mut g = load(
        ":0 = ap ap c add 1
            :1 = ap ap c add -1",
    );
    assert_evaluates_to_atom(&mut g, "ap ap ap b :0 :1 0", Name::Int(0));
    let x0 = variable(&mut g, 0);
    let x1 = variable(&mut g, 1);
    let x2 = variable(&mut g, 2);
    let right = g.ap(x1, x2);
    let expected = g.ap(x0, right);
    assert_expression_evaluates_to(&mut g, "ap ap ap b x0 x1 x2", expected);
}

#[test]
fn car() {
    let mut g = load("");
    assert_evaluates_to_atom(&mut g, "ap car ap ap cons x0 x1", Name::Variable(0));
    let x0 = variable(&mut g, 0);
    let t = g.atom(Name::T);
    let expected = g.ap(x0, t);
    assert_expression_evaluates_to(&mut g, "ap car x0", expected);
}

#[test]
fn cdr() {
    let mut g = load("");
    assert_evaluates_to_atom(&mut g, "ap cdr ap ap cons x0 x2", Name::Variable(2));
    let x0 = variable(&mut g, 0);
    let f = g.atom(Name::F);
    let expected = g.ap(x0, f);
    assert_expression_evaluates_to(&mut g, "ap cdr x0", expected);
}

#[test]
fn nil() {
    let mut g = load("");
    assert_evaluates_to_atom(&mut g, "ap nil x0", Name::T);
}

#[test]
fn simple_recursion() {
    let mut g = load(
        ":2000 = ap ap c t :2000
            :1000 = ap f :1000",
    );
    assert_evaluates_to_atom(&mut g, "ap :2000 x0", Name::Variable(0));
    assert_evaluates_to_atom(&mut g, "ap :1000 x0", Name::Variable(0));
}
