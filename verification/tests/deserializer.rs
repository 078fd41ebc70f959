use galaxypad::graph::{Expr, Graph};
use galaxypad::name::Name;
use galaxypad::parse::{parse_number, parse_operator, parse_token, token_at, ParseError, ScriptError, Token};
use galaxypad::text::{find_single, parse_id, parse_integer, same_bytes, split_tokens};

#[test]
fn tokens_are_the_runs_between_separators() {
    assert_eq!(split_tokens(b"", b' '), vec![]);
    assert_eq!(split_tokens(b"   ", b' '), vec![]);
    assert_eq!(split_tokens(b"ap", b' '), vec![(0, 2)]);
    assert_eq!(split_tokens(b"ap  add 1", b' '), vec![(0, 2), (4, 7), (8, 9)]);
    assert_eq!(split_tokens(b"  a b  ", b' '), vec![(2, 3), (4, 5)]);
    assert_eq!(split_tokens(b"one\n\ntwo\n", b'\n'), vec![(0, 3), (5, 8)]);
    assert_eq!(split_tokens(b"a\tb", b' '), vec![(0, 3)]);
}

#[test]
fn the_single_place_of_a_byte() {
    assert_eq!(find_single(b":1 = ap i i", b'='), Some(3));
    assert_eq!(find_single(b"= x", b'='), Some(0));
    assert_eq!(find_single(b"no sign", b'='), None);
    assert_eq!(find_single(b"a = b = c", b'='), None);
    assert_eq!(find_single(b"", b'='), None);
}

#[test]
fn texts_are_compared_byte_by_byte() {
    assert!(same_bytes(b"cons", b"cons"));
    assert!(same_bytes(b"", b""));
    assert!(!same_bytes(b"cons", b"con"));
    assert!(!same_bytes(b"cons", b"conz"));
}

#[test]
fn integers_in_decimal() {
    assert_eq!(parse_integer(b"0"), Some(0));
    assert_eq!(parse_integer(b"42"), Some(42));
    assert_eq!(parse_integer(b"-42"), Some(-42));
    assert_eq!(parse_integer(b"+42"), Some(42));
    assert_eq!(parse_integer(b"007"), Some(7));
    assert_eq!(parse_integer(b"-0"), Some(0));
    assert_eq!(parse_integer(b"9223372036854775807"), Some(i64::MAX));
    assert_eq!(parse_integer(b"-9223372036854775808"), Some(i64::MIN));
    assert_eq!(parse_integer(b"00000000000000000000000000012"), Some(12));
    assert_eq!(parse_integer(b"9223372036854775808"), None);
    assert_eq!(parse_integer(b"-9223372036854775809"), None);
    assert_eq!(parse_integer(b"+9223372036854775808"), None);
    assert_eq!(parse_integer(b"99999999999999999999999"), None);
    assert_eq!(parse_integer(b""), None);
    assert_eq!(parse_integer(b"-"), None);
    assert_eq!(parse_integer(b"+"), None);
    assert_eq!(parse_integer(b"--1"), None);
    assert_eq!(parse_integer(b"+-1"), None);
    assert_eq!(parse_integer(b"1-"), None);
    assert_eq!(parse_integer(b"12a"), None);
    assert_eq!(parse_integer(b" 12"), None);
    assert_eq!(parse_integer(b"1.5"), None);
}

#[test]
fn ids_in_decimal() {
    assert_eq!(parse_id(b"0"), Some(0));
    assert_eq!(parse_id(b"841463"), Some(841463));
    assert_eq!(parse_id(b"+7"), Some(7));
    assert_eq!(parse_id(b"4294967295"), Some(u32::MAX));
    assert_eq!(parse_id(b"4294967296"), None);
    assert_eq!(parse_id(b"-1"), None);
    assert_eq!(parse_id(b"-0"), None);
    assert_eq!(parse_id(b""), None);
    assert_eq!(parse_id(b"+"), None);
    assert_eq!(parse_id(b"1x"), None);
}

#[test]
fn numbers_where_a_number_is_asked_for() {
    assert_eq!(parse_number("12"), Ok(12));
    assert_eq!(parse_number("-3"), Ok(-3));
    assert_eq!(parse_number("t"), Ok(1));
    assert_eq!(parse_number("f"), Ok(0));
    assert_eq!(parse_number("nil"), Err(ParseError::NotANumber));
    assert_eq!(parse_number(""), Err(ParseError::NotANumber));
    assert_eq!(parse_number("tt"), Err(ParseError::NotANumber));
    assert_eq!(parse_number("9223372036854775808"), Err(ParseError::NotANumber));
}

#[test]
fn operator_keywords() {
    let table = [
        ("add", Name::Add),
        ("i", Name::I),
        ("t", Name::T),
        ("f", Name::F),
        ("mul", Name::Mul),
        ("div", Name::Div),
        ("eq", Name::Eq),
        ("lt", Name::Lt),
        ("neg", Name::Neg),
        ("s", Name::S),
        ("c", Name::C),
        ("b", Name::B),
        ("cons", Name::Cons),
        ("car", Name::Car),
        ("cdr", Name::Cdr),
        ("nil", Name::Nil),
        ("isnil", Name::Isnil),
    ];
    for (word, name) in table {
        assert_eq!(parse_operator(word.as_bytes()), Some(name));
        assert_eq!(parse_token(word.as_bytes()), Some(Token::Atom(name)));
    }
    assert_eq!(parse_operator(b"ap"), None);
    assert_eq!(parse_operator(b"inc"), None);
    assert_eq!(parse_operator(b"Add"), None);
    assert_eq!(parse_operator(b"ad"), None);
    assert_eq!(parse_operator(b"addd"), None);
    assert_eq!(parse_operator(b""), None);
}

#[test]
fn every_kind_of_token() {
    assert_eq!(parse_token(b"ap"), Some(Token::Ap));
    assert_eq!(parse_token(b"cons"), Some(Token::Atom(Name::Cons)));
    assert_eq!(parse_token(b"-17"), Some(Token::Atom(Name::Int(-17))));
    assert_eq!(parse_token(b":841463"), Some(Token::Atom(Name::Function(841463))));
    assert_eq!(parse_token(b"x0"), Some(Token::Atom(Name::Variable(0))));
    assert_eq!(parse_token(b"x12"), Some(Token::Atom(Name::Variable(12))));
    assert_eq!(parse_token(b":"), None);
    assert_eq!(parse_token(b"x"), None);
    assert_eq!(parse_token(b":galaxy"), None);
    assert_eq!(parse_token(b":-1"), None);
    assert_eq!(parse_token(b"x1y"), None);
    assert_eq!(parse_token(b"y1"), None);
    assert_eq!(parse_token(b"AP"), None);
    assert_eq!(parse_token(b"inc"), None);
    assert_eq!(parse_token(b""), None);
    assert_eq!(parse_token(b":4294967296"), None);
}

#[test]
fn an_expression_in_prefix_form() {
    let mut g = Graph::new();
    let e = g.deserialize("ap ap add 1 x2").unwrap();
    let f = g.func(e).unwrap();
    let x = g.arg(e).unwrap();
    assert_eq!(g.name(x), Some(Name::Variable(2)));
    assert_eq!(g.name(e), None);
    let op = g.func(f).unwrap();
    let y = g.arg(f).unwrap();
    assert_eq!(g.name(op), Some(Name::Add));
    assert_eq!(g.name(y), Some(Name::Int(1)));
    assert_eq!(g.func(op), None);
    assert_eq!(g.arg(op), None);
    assert!(g.is_ap(e) && !g.is_atom(e));
    assert!(g.is_atom(x) && !g.is_ap(x));
    assert_eq!(g.expr(e), Expr::Ap(f, x));
    assert_eq!(g.expr(op), Expr::Atom(Name::Add));
    assert_eq!(g.evaluated(e), None);

    let single = g.deserialize("  nil ").unwrap();
    assert_eq!(g.name(single), Some(Name::Nil));
}

#[test]
fn the_function_part_comes_first() {
    let mut g = Graph::new();
    let e = g.deserialize("ap ap x1 x2 ap x3 x4").unwrap();
    let x1 = g.atom(Name::Variable(1));
    let x2 = g.atom(Name::Variable(2));
    let x3 = g.atom(Name::Variable(3));
    let x4 = g.atom(Name::Variable(4));
    let left = g.ap(x1, x2);
    let right = g.ap(x3, x4);
    let expected = g.ap(left, right);
    assert!(g.equals(e, expected));
    let swapped = g.ap(right, left);
    assert!(!g.equals(e, swapped));
}

#[test]
fn texts_that_are_no_expression() {
    let mut g = Graph::new();
    assert_eq!(g.deserialize(""), Err(ParseError::Empty));
    assert_eq!(g.deserialize("    "), Err(ParseError::Empty));
    assert_eq!(g.deserialize("ap"), Err(ParseError::MissingOperand(0)));
    assert_eq!(g.deserialize("ap 1"), Err(ParseError::MissingOperand(0)));
    assert_eq!(g.deserialize("1 ap 2"), Err(ParseError::MissingOperand(1)));
    assert_eq!(g.deserialize("ap ap add 1"), Err(ParseError::MissingOperand(0)));
    assert_eq!(g.deserialize("1 2"), Err(ParseError::ExtraTokens));
    assert_eq!(g.deserialize("ap add 1 2"), Err(ParseError::ExtraTokens));
    assert_eq!(g.deserialize("inc"), Err(ParseError::UnknownToken(0)));
    assert_eq!(g.deserialize("ap add foo"), Err(ParseError::UnknownToken(2)));
    assert_eq!(g.deserialize("ap foo bar"), Err(ParseError::UnknownToken(2)));
    assert_eq!(g.deserialize("foo ap"), Err(ParseError::MissingOperand(1)));
    assert_eq!(g.deserialize("ap\tadd 1"), Err(ParseError::UnknownToken(0)));
}

#[test]
fn a_definition_line() {
    let mut g = Graph::new();
    let (id, body) = g.load_function(":12 = ap ap c add 1").unwrap();
    assert_eq!(id, 12);
    let expected = g.deserialize("ap ap c add 1").unwrap();
    assert!(g.equals(body, expected));
    // Loading alone does not define.
    assert_eq!(g.lookup(12), None);
    let (id, body) = g.load_function("   :7   =   nil   ").unwrap();
    assert_eq!(id, 7);
    assert_eq!(g.name(body), Some(Name::Nil));
    let (id, _) = g.load_function(":7=x1").unwrap();
    assert_eq!(id, 7);
}

#[test]
fn lines_that_are_no_definition() {
    let mut g = Graph::new();
    assert_eq!(g.load_function(":1 ap i i"), Err(ParseError::MalformedDefinition));
    assert_eq!(g.load_function(":1 = i = i"), Err(ParseError::MalformedDefinition));
    assert_eq!(g.load_function("=:1=i"), Err(ParseError::MalformedDefinition));
    assert_eq!(g.load_function("   "), Err(ParseError::MalformedDefinition));
    assert_eq!(g.load_function(" = i"), Err(ParseError::BadFunctionName));
    assert_eq!(g.load_function(":1 :2 = i"), Err(ParseError::BadFunctionName));
    assert_eq!(g.load_function("1 = i"), Err(ParseError::BadFunctionName));
    assert_eq!(g.load_function("x1 = i"), Err(ParseError::BadFunctionName));
    assert_eq!(g.load_function(":inc = i"), Err(ParseError::BadFunctionName));
    assert_eq!(g.load_function(":1 ="), Err(ParseError::EmptyBody));
    assert_eq!(g.load_function(":1 =    "), Err(ParseError::EmptyBody));
    assert_eq!(g.load_function(":1 = ap i"), Err(ParseError::MissingOperand(0)));
    assert_eq!(g.load_function(":1 = i i"), Err(ParseError::ExtraTokens));
    assert_eq!(g.load_function(":1 = ap i what"), Err(ParseError::UnknownToken(2)));
}

#[test]
fn a_script_of_definitions() {
    let mut g = Graph::new();
    let script = ":1 = ap add 1\n\n:2 = ap :1 2\n:841463 = nil\n";
    assert_eq!(g.load_function_definitions(script), Ok(()));
    let one = g.lookup(1).unwrap();
    let expected = g.deserialize("ap add 1").unwrap();
    assert!(g.equals(one, expected));
    assert!(g.lookup(2).is_some());
    assert!(g.lookup(841463).is_some());
    assert_eq!(g.lookup(3), None);
    assert_eq!(g.load_function_definitions(""), Ok(()));
    assert_eq!(g.load_function_definitions("\n\n"), Ok(()));
}

#[test]
fn the_last_definition_of_an_id_stays() {
    let mut g = Graph::new();
    g.load_function_definitions(":1 = 10\n:1 = 20").unwrap();
    let e = g.deserialize(":1").unwrap();
    let r = g.eval_iterative(e, 100).unwrap();
    assert_eq!(g.name(r), Some(Name::Int(20)));
    // A definition that comes after an evaluation is seen by the next one.
    g.load_function_definitions(":1 = 30").unwrap();
    let r = g.eval_iterative(e, 100).unwrap();
    assert_eq!(g.name(r), Some(Name::Int(30)));
    let r = g.eval(e, 100).unwrap();
    assert_eq!(g.name(r), Some(Name::Int(30)));
}

#[test]
fn a_script_stops_at_its_first_bad_line() {
    let mut g = Graph::new();
    let script = ":1 = 1\n\n:2 = ap\n:3 = 3";
    assert_eq!(
        g.load_function_definitions(script),
        Err(ScriptError { line: 1, error: ParseError::MissingOperand(0) })
    );
    assert!(g.lookup(1).is_some());
    assert_eq!(g.lookup(2), None);
    assert_eq!(g.lookup(3), None);
    assert_eq!(
        g.load_function_definitions("garbage"),
        Err(ScriptError { line: 0, error: ParseError::MalformedDefinition })
    );
    assert_eq!(
        g.load_function_definitions(":1 = 1\n   \n"),
        Err(ScriptError { line: 1, error: ParseError::MalformedDefinition })
    );
}

#[test]
fn a_fresh_graph_holds_the_constants() {
    let g = Graph::new();
    let c = g.get_constants();
    assert_eq!(g.len(), 4);
    assert_eq!(g.name(c.cons), Some(Name::Cons));
    assert_eq!(g.name(c.t), Some(Name::T));
    assert_eq!(g.name(c.f), Some(Name::F));
    assert_eq!(g.name(c.nil), Some(Name::Nil));
    assert_eq!(g.evaluated(c.cons), Some(c.cons));
    assert_eq!(g.evaluated(c.t), Some(c.t));
    assert_eq!(g.evaluated(c.f), Some(c.f));
    assert_eq!(g.evaluated(c.nil), Some(c.nil));
    assert!(g.contains(3));
    assert!(!g.contains(4));
}

#[test]
fn a_slot_is_set_once() {
    let mut g = Graph::new();
    let a = g.atom(Name::Int(1));
    let b = g.atom(Name::Int(1));
    assert_eq!(g.evaluated(a), None);
    assert_eq!(g.set_evaluated(a, a), a);
    assert_eq!(g.evaluated(a), Some(a));
    // A second value for the same node is the same expression; the first stays.
    assert_eq!(g.set_evaluated(a, b), a);
    assert_eq!(g.evaluated(a), Some(a));
    assert_eq!(g.evaluated(b), None);
}

#[test]
fn equality_is_by_structure() {
    let mut g = Graph::new();
    let a = g.deserialize("ap ap cons 1 ap ap cons 2 nil").unwrap();
    let b = g.deserialize("ap ap cons 1 ap ap cons 2 nil").unwrap();
    let c = g.deserialize("ap ap cons 1 ap ap cons 3 nil").unwrap();
    let d = g.deserialize("ap ap cons 1 nil").unwrap();
    assert!(a != b);
    assert!(g.equals(a, a));
    assert!(g.equals(a, b));
    assert!(g.equals(b, a));
    assert!(!g.equals(a, c));
    assert!(!g.equals(a, d));
    assert!(!g.equals(d, a));
    let x = g.atom(Name::Variable(1));
    let y = g.atom(Name::Function(1));
    let z = g.atom(Name::Int(1));
    assert!(!g.equals(x, y));
    assert!(!g.equals(x, z));
    assert!(!g.equals(x, a));
    assert!(!g.equals(a, x));
}

#[test]
fn an_unknown_token_is_found_by_its_place() {
    let mut g = Graph::new();
    let text = "ap  add   foo";
    assert_eq!(g.deserialize(text), Err(ParseError::UnknownToken(2)));
    assert_eq!(token_at(text, 2), Some(b"foo".to_vec()));
    assert_eq!(token_at(text, 0), Some(b"ap".to_vec()));
    assert_eq!(token_at(text, 1), Some(b"add".to_vec()));
    assert_eq!(token_at(text, 3), None);
    assert_eq!(token_at("", 0), None);
    assert_eq!(token_at("   ", 0), None);
    let text = "ap inc ap dec 1";
    assert_eq!(g.deserialize(text), Err(ParseError::UnknownToken(3)));
    assert_eq!(token_at(text, 3), Some(b"dec".to_vec()));
}
