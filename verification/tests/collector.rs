use galaxypad::graph::Graph;
use galaxypad::interact::Callback;
use galaxypad::name::Name;
use galaxypad::point::Point;

const ECHO: &str = ":841463 = ap t ap ap b ap cons 0 ap ap s cons ap ap b ap ap c cons nil ap ap b ap ap c cons nil ap ap c cons nil";

fn text(g: &Graph, e: usize) -> String {
    String::from_utf8(g.serialize(e)).unwrap()
}

#[test]
fn what_nothing_refers_to_is_dropped() {
    let mut g = Graph::new();
    let garbage = g.deserialize("ap ap add 1 2").unwrap();
    let kept = g.deserialize("ap ap cons x1 ap i x2").unwrap();
    let more = g.deserialize("ap neg 5").unwrap();
    assert_eq!(g.len(), 4 + 5 + 7 + 3);
    let moved = g.collect(&vec![kept]);
    assert_eq!(moved.len(), 19);
    // The four constants and the seven nodes of the root stay.
    assert_eq!(g.len(), 11);
    assert_eq!(moved[garbage], None);
    assert_eq!(moved[more], None);
    let kept = moved[kept].unwrap();
    assert_eq!(text(&g, kept), "ap ap cons x1 ap i x2");
    let c = g.get_constants();
    assert_eq!(g.name(c.cons), Some(Name::Cons));
    assert_eq!(g.name(c.t), Some(Name::T));
    assert_eq!(g.name(c.f), Some(Name::F));
    assert_eq!(g.name(c.nil), Some(Name::Nil));
    assert_eq!(g.evaluated(c.nil), Some(c.nil));
    // The order of the nodes is kept, and every place is taken.
    let places: Vec<usize> = moved.iter().flatten().copied().collect();
    assert_eq!(places, (0..11).collect::<Vec<usize>>());
}

#[test]
fn without_roots_the_constants_and_the_functions_stay() {
    let mut g = Graph::new();
    g.load_function_definitions(":1 = ap ap c add 1\n:2 = ap :1 :1").unwrap();
    let _ = g.deserialize("ap ap ap s x0 x1 x2").unwrap();
    let moved = g.collect(&vec![]);
    assert_eq!(g.len(), 4 + 5 + 3);
    assert_eq!(moved.iter().flatten().count(), 12);
    let one = g.lookup(1).unwrap();
    let two = g.lookup(2).unwrap();
    assert_eq!(text(&g, one), "ap ap c add 1");
    assert_eq!(text(&g, two), "ap :1 :1");
    let e = g.deserialize("ap :1 41").unwrap();
    let r = g.eval_iterative(e, 1000).unwrap();
    assert_eq!(g.name(r), Some(Name::Int(42)));
}

#[test]
fn what_was_evaluated_stays_evaluated() {
    let mut g = Graph::new();
    g.load_function_definitions(":1 = ap ap add 20 22").unwrap();
    let e = g.deserialize("ap i :1").unwrap();
    let r = g.eval_iterative(e, 1000).unwrap();
    let other = g.deserialize("ap ap mul 6 7").unwrap();
    g.eval_iterative(other, 1000).unwrap();
    let size = g.len();
    let moved = g.collect(&vec![e]);
    assert!(g.len() < size);
    assert_eq!(moved[other], None);
    let e = moved[e].unwrap();
    let r = moved[r].unwrap();
    assert_eq!(g.evaluated(e), Some(r));
    assert_eq!(g.evaluated(r), Some(r));
    assert_eq!(g.name(r), Some(Name::Int(42)));
    assert_eq!(text(&g, e), "ap i :1");
    // With the slot no fuel is needed.
    assert_eq!(g.eval(e, 0), Ok(r));
    assert_eq!(g.eval_iterative(e, 0), Ok(r));
    // A second collection changes nothing.
    let again = g.collect(&vec![e]);
    assert_eq!(again.len(), g.len());
    assert!(again.iter().enumerate().all(|(i, place)| *place == Some(i)));
}

#[test]
fn shared_nodes_are_kept_once() {
    let mut g = Graph::new();
    let x = g.atom(Name::Variable(1));
    let pair = g.ap(x, x);
    let both = g.ap(pair, pair);
    let _unused = g.ap(both, x);
    let moved = g.collect(&vec![both, pair, both]);
    assert_eq!(g.len(), 4 + 3);
    let both = moved[both].unwrap();
    let pair = moved[pair].unwrap();
    let x = moved[x].unwrap();
    assert_eq!(g.func(both), Some(pair));
    assert_eq!(g.arg(both), Some(pair));
    assert_eq!(g.func(pair), Some(x));
    assert_eq!(g.arg(pair), Some(x));
    assert_eq!(text(&g, both), "ap ap x1 x1 ap x1 x1");
}

#[test]
fn a_long_chain_is_marked_without_recursion() {
    let mut g = Graph::new();
    let mut source = String::new();
    for _ in 0..200_000 {
        source.push_str("ap i ");
    }
    source.push_str("x0");
    let e = g.deserialize(&source).unwrap();
    let _ = g.deserialize(&source).unwrap();
    let moved = g.collect(&vec![e]);
    assert_eq!(g.len(), 4 + 400_001);
    assert!(moved[e].is_some());
}

#[test]
fn a_session_does_not_grow() {
    let mut graph = Graph::new();
    graph.load_function_definitions(ECHO).unwrap();
    let mut session = Callback::new(graph);
    session.call(Point { x: 0, y: 0 }, 100_000).unwrap();
    let size = session.graph().len();
    for i in 0..200 {
        let images = session.call(Point { x: i, y: -i }, 100_000).unwrap();
        assert_eq!(images, vec![vec![(i, -i)], vec![]]);
        assert!(session.graph().len() <= size + 8, "the graph grew to {}", session.graph().len());
    }
    let state = session.state();
    assert_eq!(session.graph().flatten_point(state), Ok((199, -199)));
}
