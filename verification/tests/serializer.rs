use galaxypad::graph::Graph;
use galaxypad::name::Name;
use galaxypad::spell::{write_digits, write_integer, write_name};

fn text(g: &Graph, e: usize) -> String {
    String::from_utf8(g.serialize(e)).unwrap()
}

#[test]
fn digits_of_numbers() {
    let cases: [(u64, &str); 6] = [
        (0, "0"),
        (7, "7"),
        (10, "10"),
        (909, "909"),
        (4294967295, "4294967295"),
        (u64::MAX, "18446744073709551615"),
    ];
    for (n, expected) in cases {
        let mut out = b"> ".to_vec();
        write_digits(n, &mut out);
        assert_eq!(String::from_utf8(out).unwrap(), format!("> {}", expected));
    }
}

#[test]
fn decimal_text_of_integers() {
    for i in [0i64, 1, -1, 42, -42, 1000, i64::MAX, i64::MIN, i64::MIN + 1] {
        let mut out = Vec::new();
        write_integer(i, &mut out);
        assert_eq!(String::from_utf8(out).unwrap(), i.to_string());
    }
}

#[test]
fn text_of_names() {
    let cases = [
        (Name::Int(-5), "-5"),
        (Name::Function(841463), ":841463"),
        (Name::Variable(0), "x0"),
        (Name::Add, "add"),
        (Name::I, "i"),
        (Name::T, "t"),
        (Name::F, "f"),
        (Name::Mul, "mul"),
        (Name::Div, "div"),
        (Name::Eq, "eq"),
        (Name::Lt, "lt"),
        (Name::Neg, "neg"),
        (Name::S, "s"),
        (Name::C, "c"),
        (Name::B, "b"),
        (Name::Cons, "cons"),
        (Name::Car, "car"),
        (Name::Cdr, "cdr"),
        (Name::Nil, "nil"),
        (Name::Isnil, "isnil"),
    ];
    for (name, expected) in cases {
        let mut out = Vec::new();
        write_name(name, &mut out);
        assert_eq!(String::from_utf8(out).unwrap(), expected);
    }
}

#[test]
fn text_of_expressions() {
    let mut g = Graph::new();
    let e = g.deserialize("  ap   ap add  1 ap neg   x2 ").unwrap();
    assert_eq!(text(&g, e), "ap ap add 1 ap neg x2");
    let e = g.deserialize("nil").unwrap();
    assert_eq!(text(&g, e), "nil");
    let e = g.deserialize("ap ap ap s :1 +7 -0").unwrap();
    assert_eq!(text(&g, e), "ap ap ap s :1 7 0");
    let c = g.get_constants();
    assert_eq!(text(&g, c.cons), "cons");
}

#[test]
fn what_is_written_is_read_back() {
    let texts = [
        "ap ap ap s ap ap b add neg ap mul 2 7",
        "ap ap cons 1 ap ap cons -9223372036854775808 ap ap cons 9223372036854775807 nil",
        "ap :4294967295 x4294967295",
        "ap ap ap ap ap ap i t f eq lt div isnil",
        "ap car ap cdr ap ap c b s",
    ];
    let mut g = Graph::new();
    for source in texts {
        let e = g.deserialize(source).unwrap();
        let written = text(&g, e);
        assert_eq!(written, source);
        let again = g.deserialize(&written).unwrap();
        assert!(g.equals(e, again));
    }
}

#[test]
fn the_result_of_an_evaluation_as_text() {
    let mut g = Graph::new();
    let e = g.deserialize("ap ap cons ap ap add 1 2 ap ap ap c x0 x1 x2").unwrap();
    let r = g.eval_iterative(e, 1000).unwrap();
    assert_eq!(text(&g, r), "ap ap cons 3 ap ap x0 x2 x1");
}

#[test]
fn a_deep_expression_is_written_without_recursion() {
    let mut source = String::new();
    for _ in 0..100_000 {
        source.push_str("ap i ");
    }
    source.push_str("x0");
    let mut g = Graph::new();
    let e = g.deserialize(&source).unwrap();
    assert_eq!(text(&g, e), source);
    let mut source = String::new();
    for _ in 0..100_000 {
        source.push_str("ap ");
    }
    source.push_str("x0");
    for i in 0..100_000 {
        source.push_str(&format!(" {}", i));
    }
    let e = g.deserialize(&source).unwrap();
    assert_eq!(text(&g, e), source);
}
