use galaxypad::codec::DecodeError;
use galaxypad::graph::Graph;
use galaxypad::name::Name;
use galaxypad::interact::{bootup_sequence, entry_point, Callback, EntryError, InteractError, GALAXY};
use galaxypad::parse::{ParseError, ScriptError};
use galaxypad::point::{request_click_from_user, Point};
use galaxypad::semantics::EvalError;

const FUEL: u64 = 100_000;

// galaxy state event = [0, event, [[event]]]: the click becomes the state and the one point
// of the one image.
const ECHO: &str = ":841463 = ap t ap ap b ap cons 0 ap ap s cons ap ap b ap ap c cons nil ap ap b ap ap c cons nil ap ap c cons nil";

// galaxy state event = [1, state, nil]: the flag asks for the remote peer.
const REMOTE: &str =
    ":841463 = ap ap b t ap ap b ap cons 1 ap ap c cons ap ap cons nil nil";

#[test]
fn the_items_of_a_list() {
    let mut g = Graph::new();
    let nil = g.deserialize("nil").unwrap();
    assert_eq!(g.get_list_items_from_expr(nil), Ok(vec![nil]));
    let list = g.deserialize("ap ap cons 1 ap ap cons x2 ap ap cons nil nil").unwrap();
    // Three heads, the last of them `nil`, and then the marker of the end.
    let items = g.get_list_items_from_expr(list).unwrap();
    assert_eq!(items.len(), 4);
    let one = g.deserialize("1").unwrap();
    let x2 = g.deserialize("x2").unwrap();
    assert!(g.equals(items[0], one));
    assert!(g.equals(items[1], x2));
    assert!(g.equals(items[2], nil));
    assert_eq!(g.name(items[3]), Some(Name::Nil));
    let single = g.deserialize("ap ap cons ap ap cons 1 2 nil").unwrap();
    let items = g.get_list_items_from_expr(single).unwrap();
    assert_eq!(items.len(), 2);
    assert_eq!(g.flatten_point(items[0]), Ok((1, 2)));
    assert_eq!(g.name(items[1]), Some(Name::Nil));
    let zero = g.deserialize("ap ap cons 0 nil").unwrap();
    let items = g.get_list_items_from_expr(zero).unwrap();
    assert_eq!(items.len(), 2);
    assert_eq!(g.name(items[0]), Some(Name::Int(0)));
    assert_eq!(g.name(items[1]), Some(Name::Nil));
}

#[test]
fn what_is_no_list() {
    let mut g = Graph::new();
    let atom = g.deserialize("5").unwrap();
    assert_eq!(g.get_list_items_from_expr(atom), Err(DecodeError::NotAList));
    let t = g.deserialize("t").unwrap();
    assert_eq!(g.get_list_items_from_expr(t), Err(DecodeError::NotAList));
    let partial = g.deserialize("ap cons 1").unwrap();
    assert_eq!(g.get_list_items_from_expr(partial), Err(DecodeError::NotAPair));
    let other = g.deserialize("ap ap add 1 nil").unwrap();
    assert_eq!(g.get_list_items_from_expr(other), Err(DecodeError::NotAPair));
    let deep = g.deserialize("ap ap ap cons 1 2 nil").unwrap();
    assert_eq!(g.get_list_items_from_expr(deep), Err(DecodeError::NotAPair));
    let improper = g.deserialize("ap ap cons 1 2").unwrap();
    assert_eq!(g.get_list_items_from_expr(improper), Err(DecodeError::ImproperTail));
    let late = g.deserialize("ap ap cons 1 ap ap cons 2 ap x0 nil").unwrap();
    assert_eq!(g.get_list_items_from_expr(late), Err(DecodeError::NotAPair));
    let late = g.deserialize("ap ap cons 1 ap ap cons 2 x0").unwrap();
    assert_eq!(g.get_list_items_from_expr(late), Err(DecodeError::ImproperTail));
}

#[test]
fn a_long_list_is_walked_without_recursion() {
    let mut g = Graph::new();
    let mut text = String::new();
    for i in 0..50_000 {
        text.push_str(&format!("ap ap cons {} ", i));
    }
    text.push_str("nil");
    let list = g.deserialize(&text).unwrap();
    let items = g.get_list_items_from_expr(list).unwrap();
    assert_eq!(items.len(), 50_001);
    assert_eq!(g.as_num(items[49_999]), Ok(49_999));
    assert_eq!(g.name(items[50_000]), Some(Name::Nil));
    let copy = g.deserialize(&text).unwrap();
    assert!(g.equals(list, copy));
}

#[test]
fn a_pair_of_numbers_is_a_point() {
    let mut g = Graph::new();
    let p = g.deserialize("ap ap cons 3 -4").unwrap();
    assert_eq!(g.flatten_point(p), Ok((3, -4)));
    let p = g.deserialize("ap ap cons t f").unwrap();
    assert_eq!(g.flatten_point(p), Ok((1, 0)));
    let p = g.deserialize("ap ap cons 3 nil").unwrap();
    assert_eq!(g.flatten_point(p), Err(DecodeError::NotANumber));
    let p = g.deserialize("ap ap cons x0 4").unwrap();
    assert_eq!(g.flatten_point(p), Err(DecodeError::NotANumber));
    let p = g.deserialize("ap ap cons ap ap cons 1 2 4").unwrap();
    assert_eq!(g.flatten_point(p), Err(DecodeError::NotANumber));
    let p = g.deserialize("7").unwrap();
    assert_eq!(g.flatten_point(p), Err(DecodeError::NotAPair));
    let p = g.deserialize("ap cons 7").unwrap();
    assert_eq!(g.flatten_point(p), Err(DecodeError::NotAPair));
    let p = g.deserialize("ap ap add 3 4").unwrap();
    assert_eq!(g.flatten_point(p), Err(DecodeError::NotAPair));
    let p = g.deserialize("ap ap ap cons 1 3 4").unwrap();
    assert_eq!(g.flatten_point(p), Err(DecodeError::NotAPair));
}

#[test]
fn numbers_of_nodes() {
    let mut g = Graph::new();
    let e = g.deserialize("-5").unwrap();
    assert_eq!(g.as_num(e), Ok(-5));
    let e = g.deserialize("t").unwrap();
    assert_eq!(g.as_num(e), Ok(1));
    let e = g.deserialize("f").unwrap();
    assert_eq!(g.as_num(e), Ok(0));
    let e = g.deserialize("nil").unwrap();
    assert_eq!(g.as_num(e), Err(EvalError::NotANumber));
    let e = g.deserialize("ap neg 1").unwrap();
    assert_eq!(g.as_num(e), Err(EvalError::NotANumber));
}

#[test]
fn the_points_of_a_list() {
    let mut g = Graph::new();
    let list = g.deserialize("ap ap cons ap ap cons 1 2 ap ap cons ap ap cons -3 4 nil").unwrap();
    assert_eq!(g.vectorize_points_expr(list), Ok(vec![(1, 2), (-3, 4)]));
    let nil = g.deserialize("nil").unwrap();
    assert_eq!(g.vectorize_points_expr(nil), Ok(vec![]));
    let with_nil = g.deserialize("ap ap cons nil ap ap cons ap ap cons 5 6 nil").unwrap();
    assert_eq!(g.vectorize_points_expr(with_nil), Ok(vec![(5, 6)]));
    let bad = g.deserialize("ap ap cons ap ap cons 1 2 ap ap cons 7 nil").unwrap();
    assert_eq!(g.vectorize_points_expr(bad), Err(DecodeError::NotAPair));
    let bad = g.deserialize("ap ap cons ap ap cons 1 x2 nil").unwrap();
    assert_eq!(g.vectorize_points_expr(bad), Err(DecodeError::NotANumber));
    let bad = g.deserialize("ap ap cons ap ap cons 1 2 7").unwrap();
    assert_eq!(g.vectorize_points_expr(bad), Err(DecodeError::ImproperTail));
    let bad = g.deserialize("8").unwrap();
    assert_eq!(g.vectorize_points_expr(bad), Err(DecodeError::NotAList));
}

#[test]
fn the_images_of_the_data() {
    let mut g = Graph::new();
    let data = g
        .deserialize("ap ap cons ap ap cons ap ap cons 1 2 nil ap ap cons nil ap ap cons ap ap cons ap ap cons 3 4 ap ap cons ap ap cons 5 6 nil nil")
        .unwrap();
    assert_eq!(
        g.decode_images(data),
        Ok(vec![vec![(1, 2)], vec![], vec![(3, 4), (5, 6)], vec![]])
    );
    let nil = g.deserialize("nil").unwrap();
    assert_eq!(g.decode_images(nil), Ok(vec![vec![]]));
    let bad = g.deserialize("ap ap cons 5 nil").unwrap();
    assert_eq!(g.decode_images(bad), Err(DecodeError::NotAList));
}

#[test]
fn the_response_of_the_galaxy() {
    let mut g = Graph::new();
    let nf = g.deserialize("ap ap cons 0 ap ap cons x1 ap ap cons x2 nil").unwrap();
    let (state, data) = g.decode_response(nf).unwrap();
    let x1 = g.deserialize("x1").unwrap();
    let x2 = g.deserialize("x2").unwrap();
    assert!(g.equals(state, x1));
    assert!(g.equals(data, x2));
    let longer = g.deserialize("ap ap cons f ap ap cons x1 ap ap cons x2 ap ap cons x3 nil").unwrap();
    assert!(g.decode_response(longer).is_ok());
    let flagged = g.deserialize("ap ap cons 1 ap ap cons x1 ap ap cons x2 nil").unwrap();
    assert_eq!(g.decode_response(flagged), Err(InteractError::RemoteExchange));
    // Two heads and the marker are three items: the marker is the data.
    let short = g.deserialize("ap ap cons 0 ap ap cons x1 nil").unwrap();
    let (state, data) = g.decode_response(short).unwrap();
    assert!(g.equals(state, x1));
    assert_eq!(g.name(data), Some(Name::Nil));
    let shorter = g.deserialize("ap ap cons 0 nil").unwrap();
    assert_eq!(g.decode_response(shorter), Err(InteractError::ShortResponse(2)));
    let nil = g.deserialize("nil").unwrap();
    assert_eq!(g.decode_response(nil), Err(InteractError::ShortResponse(1)));
    let no_flag = g.deserialize("ap ap cons nil ap ap cons x1 ap ap cons x2 nil").unwrap();
    assert_eq!(
        g.decode_response(no_flag),
        Err(InteractError::Decode(DecodeError::NotANumber))
    );
    let no_list = g.deserialize("ap x0 x1").unwrap();
    assert_eq!(
        g.decode_response(no_list),
        Err(InteractError::Decode(DecodeError::NotAPair))
    );
}

#[test]
fn one_exchange() {
    let mut g = Graph::new();
    g.load_function_definitions(ECHO).unwrap();
    let state = g.get_constants().nil;
    let event = g.deserialize("ap ap cons 3 4").unwrap();
    let (new_state, data) = g.interact(state, event, FUEL).unwrap();
    assert_eq!(g.flatten_point(new_state), Ok((3, 4)));
    assert_eq!(g.decode_images(data), Ok(vec![vec![(3, 4)], vec![]]));
    assert_eq!(
        g.interact(state, event, 3),
        Err(InteractError::Eval(EvalError::OutOfFuel))
    );
}

#[test]
fn one_step() {
    let mut g = Graph::new();
    g.load_function_definitions(ECHO).unwrap();
    let state = g.get_constants().nil;
    let (new_state, images) = g.iterate(state, Point { x: -7, y: 9 }, FUEL).unwrap();
    assert_eq!(g.flatten_point(new_state), Ok((-7, 9)));
    assert_eq!(images, vec![vec![(-7, 9)], vec![]]);
}

#[test]
fn a_step_without_a_galaxy() {
    let mut g = Graph::new();
    let state = g.get_constants().nil;
    assert_eq!(
        g.iterate(state, Point { x: 0, y: 0 }, FUEL),
        Err(InteractError::Eval(EvalError::UnknownFunction(GALAXY)))
    );
}

#[test]
fn a_step_that_asks_for_the_remote_peer() {
    let mut g = Graph::new();
    g.load_function_definitions(REMOTE).unwrap();
    let state = g.get_constants().nil;
    assert_eq!(
        g.iterate(state, Point { x: 1, y: 1 }, FUEL),
        Err(InteractError::RemoteExchange)
    );
    let event = g.deserialize("ap ap cons 1 1").unwrap();
    assert_eq!(g.interact(state, event, FUEL), Err(InteractError::RemoteExchange));
    assert_eq!(
        entry_point(REMOTE, FUEL).err(),
        Some(EntryError::Step(0, InteractError::RemoteExchange))
    );
}

#[test]
fn a_session_keeps_the_state() {
    let mut graph = Graph::new();
    graph.load_function_definitions(ECHO).unwrap();
    let mut session = Callback::new(graph);
    let nil = session.graph().get_constants().nil;
    assert_eq!(session.state(), nil);
    assert_eq!(session.call(Point { x: 1, y: 2 }, FUEL), Ok(vec![vec![(1, 2)], vec![]]));
    let state = session.state();
    assert_eq!(session.graph().flatten_point(state), Ok((1, 2)));
    assert_eq!(session.call(Point { x: 5, y: -6 }, FUEL), Ok(vec![vec![(5, -6)], vec![]]));
    let state = session.state();
    assert_eq!(session.graph().flatten_point(state), Ok((5, -6)));
    // A step that fails leaves the state.
    assert_eq!(
        session.call(Point { x: 0, y: 0 }, 2),
        Err(InteractError::Eval(EvalError::OutOfFuel))
    );
    let state = session.state();
    assert_eq!(session.graph().flatten_point(state), Ok((5, -6)));
}

#[test]
fn the_bootstrap_clicks() {
    let clicks = bootup_sequence();
    assert_eq!(clicks.len(), 16);
    for click in &clicks[..8] {
        assert_eq!(*click, Point { x: 0, y: 0 });
    }
    assert_eq!(clicks[8], Point { x: 8, y: 4 });
    assert_eq!(clicks[9], Point { x: 2, y: -8 });
    assert_eq!(clicks[10], Point { x: 3, y: 6 });
    assert_eq!(clicks[11], Point { x: 0, y: -14 });
    assert_eq!(clicks[12], Point { x: -4, y: 10 });
    assert_eq!(clicks[13], Point { x: 9, y: -3 });
    assert_eq!(clicks[14], Point { x: -4, y: 10 });
    assert_eq!(clicks[15], Point { x: 1, y: 4 });
}

#[test]
fn a_session_from_a_script() {
    let (session, frames) = entry_point(ECHO, FUEL).unwrap();
    assert_eq!(frames.len(), 16);
    let clicks = bootup_sequence();
    for (i, images) in frames.iter().enumerate() {
        assert!(!images.is_empty());
        assert_eq!(*images, vec![vec![(clicks[i].x, clicks[i].y)], vec![]]);
    }
    let state = session.state();
    assert_eq!(session.graph().flatten_point(state), Ok((1, 4)));
}

#[test]
fn a_session_that_cannot_be_opened() {
    assert_eq!(
        entry_point(":841463 = ap", FUEL).err(),
        Some(EntryError::Script(ScriptError { line: 0, error: ParseError::MissingOperand(0) }))
    );
    assert_eq!(
        entry_point("", FUEL).err(),
        Some(EntryError::Step(0, InteractError::Eval(EvalError::UnknownFunction(GALAXY))))
    );
    assert_eq!(
        entry_point(":841463 = 5", FUEL).err(),
        Some(EntryError::Step(0, InteractError::Decode(DecodeError::NotAPair)))
    );
    assert_eq!(
        entry_point(ECHO, 2).err(),
        Some(EntryError::Step(0, InteractError::Eval(EvalError::OutOfFuel)))
    );
}

#[test]
fn steps_for_given_clicks() {
    let mut graph = Graph::new();
    graph.load_function_definitions(ECHO).unwrap();
    let mut session = Callback::new(graph);
    let clicks = vec![Point { x: 1, y: 1 }, Point { x: 2, y: 2 }];
    assert_eq!(
        session.run(&clicks, FUEL),
        Ok(vec![vec![vec![(1, 1)], vec![]], vec![vec![(2, 2)], vec![]]])
    );
    assert_eq!(session.run(&vec![], FUEL), Ok(vec![]));
    assert_eq!(
        session.run(&clicks, 1),
        Err(EntryError::Step(0, InteractError::Eval(EvalError::OutOfFuel)))
    );
}

#[test]
fn a_click_from_its_coordinates() {
    assert_eq!(request_click_from_user(3, -4), Point { x: 3, y: -4 });
    assert_eq!(Point::default(), Point { x: 0, y: 0 });
}
