//! The interact driver: one step of the protocol applies the galaxy
//! function to the state and a click, reads the normal form as a flag, a new
//! state and the images to show, and the session keeps the state between
//! steps.

use vstd::prelude::*;
use vstd::string::StringSliceAdditionalSpecFns;
use crate::codec::{
    list_items, list_points, pair, points_view, terms_of, DecodeError,
};
use crate::graph::{ExprRef, Graph, GraphView};
use crate::name::Name;
use crate::parse::{load_lines, ScriptError};
use crate::point::Point;
use crate::semantics::{
    eval_term, evaluate, out_of_fuel, EvalError, Functions, Outcome,
};
use crate::term::Term;
use crate::text::{tokens, NEWLINE};

verus! {

/// The id of the function that the protocol applies.
pub const GALAXY: u32 = 841463;

/// Why a step of the protocol gave no result.
#[derive(Clone, Copy, Debug, PartialEq, Eq, Structural)]
pub enum InteractError {
    /// The evaluation of the galaxy function failed.
    Eval(EvalError),
    /// The normal form is not the list that the protocol asks for.
    Decode(DecodeError),
    /// The normal form is a list of fewer than three items: so many.
    ShortResponse(usize),
    /// The flag is not zero: the data would have to be sent to a remote peer
    /// and its reply be taken as the next event, which is not provided.
    RemoteExchange,
}

/// Why a session could not be opened.
#[derive(Clone, Copy, Debug, PartialEq, Eq, Structural)]
pub enum EntryError {
    /// The script could not be loaded.
    Script(ScriptError),
    /// The step at this place of the bootstrap sequence failed.
    Step(usize, InteractError),
}

/// The images of one step: each a sequence of points.
pub type Images = Seq<Seq<(int, int)>>;

/// The galaxy function applied to a state and an event.
pub open spec fn galaxy_call(state: Term, event: Term) -> Term {
    Term::ap(Term::ap(Term::Atom(Name::Function(GALAXY)), state), event)
}

/// The event that a click is: the pair of its coordinates.
pub open spec fn click_term(p: Point) -> Term {
    pair(Term::Atom(Name::Int(p.x)), Term::Atom(Name::Int(p.y)))
}

/// What the normal form `nf` of the galaxy call says: the new state and the
/// data, where the flag is zero. The normal form is read as a list, and its
/// first three items are the flag, the state and the data; the marker that
/// ends a list counts as an item, so a list of two heads has three.
pub open spec fn response_of(nf: Term) -> Result<(Term, Term), InteractError> {
    match list_items(nf) {
        Err(e) => Err(InteractError::Decode(e)),
        Ok(items) => if items.len() < 3 {
            Err(InteractError::ShortResponse(items.len() as usize))
        } else {
            match items[0].as_num() {
                None => Err(InteractError::Decode(DecodeError::NotANumber)),
                Some(flag) => if flag == 0 {
                    Ok((items[1], items[2]))
                } else {
                    Err(InteractError::RemoteExchange)
                },
            }
        },
    }
}

/// What the outcome of the evaluation of the galaxy call says.
pub open spec fn interact_outcome(o: Outcome) -> Result<(Term, Term), InteractError> {
    match o {
        Outcome::Fail(e) => Err(InteractError::Eval(e)),
        Outcome::Done(nf) => response_of(nf),
    }
}

/// The images that the items of the data encode, each item a list of
/// points. The marker that ends the data is an item like the others and
/// encodes, as every `nil` does, an image without points: the images of a
/// step end with one empty image.
pub open spec fn images_from(items: Seq<Term>) -> Result<Images, DecodeError>
    decreases items.len(),
{
    if items.len() == 0 {
        Ok(Seq::empty())
    } else {
        match images_from(items.drop_last()) {
            Err(e) => Err(e),
            Ok(images) => match list_points(items.last()) {
                Err(e) => Err(e),
                Ok(points) => Ok(images.push(points)),
            },
        }
    }
}

/// The images that the data of a step encodes.
pub open spec fn images_of(data: Term) -> Result<Images, DecodeError> {
    match list_items(data) {
        Err(e) => Err(e),
        Ok(items) => images_from(items),
    }
}

/// What a step of the protocol gives, from the outcome of the evaluation of
/// the galaxy call: the new state and the images.
pub open spec fn step_outcome(o: Outcome) -> Result<(Term, Images), InteractError> {
    match interact_outcome(o) {
        Err(e) => Err(e),
        Ok(response) => match images_of(response.1) {
            Err(e) => Err(InteractError::Decode(e)),
            Ok(images) => Ok((response.0, images)),
        },
    }
}

/// The step ran out of fuel.
pub open spec fn starved<T>(r: Result<T, InteractError>) -> bool {
    r == Err::<T, InteractError>(InteractError::Eval(EvalError::OutOfFuel))
}

/// The result of `interact` as expressions.
pub open spec fn response_view(g: GraphView, r: Result<(ExprRef, ExprRef), InteractError>) -> Result<
    (Term, Term),
    InteractError,
> {
    match r {
        Ok(got) => Ok((g.term(got.0), g.term(got.1))),
        Err(e) => Err(e),
    }
}

/// The images `v` as sequences of pairs of mathematical integers.
pub open spec fn images_view(v: Seq<Vec<(i64, i64)>>) -> Images {
    Seq::new(v.len(), |i: int| points_view(v[i]@))
}

/// The result of a step as an expression and images.
pub open spec fn step_view(
    g: GraphView,
    r: Result<(ExprRef, Vec<Vec<(i64, i64)>>), InteractError>,
) -> Result<(Term, Images), InteractError> {
    match r {
        Ok(got) => Ok((g.term(got.0), images_view(got.1@))),
        Err(e) => Err(e),
    }
}

/// The images that some of the items encode fail as a whole as their first
/// part that fails does.
pub proof fn lemma_images_fail(items: Seq<Term>, n: int)
    requires
        0 <= n <= items.len(),
        images_from(items.take(n)) is Err,
    ensures
        images_from(items) == images_from(items.take(n)),
    decreases items.len() - n,
{
    if n == items.len() {
        assert(items.take(n) =~= items);
    } else {
        assert(items.take(n + 1).drop_last() =~= items.take(n));
        lemma_images_fail(items, n + 1);
    }
}

impl Graph {
    /// Reads the normal form of the galaxy call: the new state and the data,
    /// where the flag is zero.
    pub fn decode_response(&self, nf: ExprRef) -> (r: Result<(ExprRef, ExprRef), InteractError>)
        requires
            self.wf(),
            self@.contains(nf),
        ensures
            response_view(self@, r) == response_of(self@.term(nf)),
            r matches Ok(got) ==> self@.contains(got.0) && self@.contains(got.1),
    {
        let items = match self.get_list_items_from_expr(nf) {
            Ok(items) => items,
            Err(e) => { return Err(InteractError::Decode(e)); },
        };
        if items.len() < 3 {
            return Err(InteractError::ShortResponse(items.len()));
        }
        match self.as_num(items[0]) {
            Err(_) => Err(InteractError::Decode(DecodeError::NotANumber)),
            Ok(flag) => if flag == 0 {
                Ok((items[1], items[2]))
            } else {
                Err(InteractError::RemoteExchange)
            },
        }
    }

    /// One exchange of the protocol: evaluates the galaxy function on
    /// `state` and `event` and reads the normal form.
    pub fn interact(&mut self, state: ExprRef, event: ExprRef, fuel: u64) -> (r: Result<
        (ExprRef, ExprRef),
        InteractError,
    >)
        requires
            old(self).wf(),
            old(self)@.contains(state),
            old(self)@.contains(event),
        ensures
            final(self).wf(),
            final(self)@.extends(old(self)@),
            r matches Ok(got) ==> final(self)@.contains(got.0) && final(self)@.contains(got.1),
            ({
                let fns = old(self)@.function_terms();
                let call = galaxy_call(old(self)@.term(state), old(self)@.term(event));
                let view = response_view(final(self)@, r);
                &&& !starved(view) ==> view == interact_outcome(evaluate(fns, call))
                &&& eval_term(fns, call, fuel as nat) != out_of_fuel() ==> !starved(view)
            }),
    {
        let ghost fns = self@.function_terms();
        let ghost call = galaxy_call(self@.term(state), self@.term(event));
        let galaxy = self.atom(Name::Function(GALAXY));
        let partial = self.ap(galaxy, state);
        let expr = self.ap(partial, event);
        let ghost built = self@;
        proof {
            crate::graph::lemma_extends_functions(old(self)@, built);
        }
        match self.eval_iterative(expr, fuel) {
            Err(e) => {
                proof {
                    if e != EvalError::OutOfFuel {
                        crate::semantics::lemma_evaluate(fns, call, Outcome::Fail(e));
                    }
                }
                Err(InteractError::Eval(e))
            },
            Ok(nf) => {
                proof {
                    crate::semantics::lemma_evaluate(fns, call, Outcome::Done(self@.term(nf)));
                }
                self.decode_response(nf)
            },
        }
    }

    /// The images that the node `data` encodes: a list of lists of points,
    /// and one image without points for the `nil` that ends the list.
    pub fn decode_images(&self, data: ExprRef) -> (r: Result<Vec<Vec<(i64, i64)>>, DecodeError>)
        requires
            self.wf(),
            self@.contains(data),
        ensures
            match images_of(self@.term(data)) {
                Ok(images) => r matches Ok(v) && images_view(v@) == images,
                Err(e) => r == Err::<Vec<Vec<(i64, i64)>>, DecodeError>(e),
            },
    {
        let items = match self.get_list_items_from_expr(data) {
            Ok(items) => items,
            Err(e) => { return Err(e); },
        };
        let ghost terms = terms_of(self@, items@);
        let mut images: Vec<Vec<(i64, i64)>> = Vec::new();
        let mut i: usize = 0;
        proof {
            assert(images_view(images@) =~= Seq::<Seq<(int, int)>>::empty());
        }
        while i < items.len()
            invariant
                self.wf(),
                i <= items@.len(),
                terms == terms_of(self@, items@),
                list_items(self@.term(data)) == Ok::<Seq<Term>, DecodeError>(terms),
                forall|j: int| 0 <= j < items@.len() ==> self@.contains(#[trigger] items@[j]),
                images_from(terms.take(i as int)) == Ok::<Images, DecodeError>(
                    images_view(images@),
                ),
            decreases items@.len() - i,
        {
            let item = items[i];
            proof {
                assert(terms.take(i + 1).drop_last() =~= terms.take(i as int));
            }
            match self.vectorize_points_expr(item) {
                Ok(points) => {
                    let ghost before = images@;
                    images.push(points);
                    proof {
                        assert(images_view(images@) =~= images_view(before).push(
                            points_view(points@),
                        ));
                    }
                },
                Err(e) => {
                    proof {
                        lemma_images_fail(terms, i + 1);
                    }
                    return Err(e);
                },
            }
            i = i + 1;
        }
        proof {
            assert(terms.take(i as int) =~= terms);
        }
        Ok(images)
    }

    /// One step of the protocol: the click becomes an event, the galaxy
    /// function is applied to the state and the event, and the images are
    /// read from the data.
    pub fn iterate(&mut self, state: ExprRef, point: Point, fuel: u64) -> (r: Result<
        (ExprRef, Vec<Vec<(i64, i64)>>),
        InteractError,
    >)
        requires
            old(self).wf(),
            old(self)@.contains(state),
        ensures
            final(self).wf(),
            final(self)@.extends(old(self)@),
            r matches Ok(got) ==> final(self)@.contains(got.0),
            ({
                let fns = old(self)@.function_terms();
                let call = galaxy_call(old(self)@.term(state), click_term(point));
                let view = step_view(final(self)@, r);
                &&& !starved(view) ==> view == step_outcome(evaluate(fns, call))
                &&& eval_term(fns, call, fuel as nat) != out_of_fuel() ==> !starved(view)
            }),
    {
        let c = self.get_constants();
        proof {
            assert(self@.node_wf(c.cons as int));
        }
        let x = self.atom(Name::Int(point.x));
        let y = self.atom(Name::Int(point.y));
        let inner = self.ap(c.cons, x);
        let click = self.ap(inner, y);
        let ghost built = self@;
        proof {
            crate::graph::lemma_extends_functions(old(self)@, built);
        }
        match self.interact(state, click, fuel) {
            Err(e) => {
                Err(e)
            },
            Ok((new_state, data)) => {
                match self.decode_images(data) {
                    Err(e) => Err(InteractError::Decode(e)),
                    Ok(images) => Ok((new_state, images)),
                }
            },
        }
    }
}

/// The clicks that open a session.
pub open spec fn bootup_clicks() -> Seq<Point> {
    seq![
        Point { x: 0, y: 0 },
        Point { x: 0, y: 0 },
        Point { x: 0, y: 0 },
        Point { x: 0, y: 0 },
        Point { x: 0, y: 0 },
        Point { x: 0, y: 0 },
        Point { x: 0, y: 0 },
        Point { x: 0, y: 0 },
        Point { x: 8, y: 4 },
        Point { x: 2, y: -8i64 },
        Point { x: 3, y: 6 },
        Point { x: 0, y: -14i64 },
        Point { x: -4i64, y: 10 },
        Point { x: 9, y: -3i64 },
        Point { x: -4i64, y: 10 },
        Point { x: 1, y: 4 },
    ]
}

/// The clicks that open a session.
pub fn bootup_sequence() -> (clicks: Vec<Point>)
    ensures
        clicks@ == bootup_clicks(),
{
    let mut clicks: Vec<Point> = Vec::new();
    clicks.push(Point { x: 0, y: 0 });
    clicks.push(Point { x: 0, y: 0 });
    clicks.push(Point { x: 0, y: 0 });
    clicks.push(Point { x: 0, y: 0 });
    clicks.push(Point { x: 0, y: 0 });
    clicks.push(Point { x: 0, y: 0 });
    clicks.push(Point { x: 0, y: 0 });
    clicks.push(Point { x: 0, y: 0 });
    clicks.push(Point { x: 8, y: 4 });
    clicks.push(Point { x: 2, y: -8 });
    clicks.push(Point { x: 3, y: 6 });
    clicks.push(Point { x: 0, y: -14 });
    clicks.push(Point { x: -4, y: 10 });
    clicks.push(Point { x: 9, y: -3 });
    clicks.push(Point { x: -4, y: 10 });
    clicks.push(Point { x: 1, y: 4 });
    clicks
}

/// The state after the steps for `clicks` were taken from `state` in order,
/// with the images of each step; or the first step that failed, with its
/// place and its error.
pub open spec fn boot(fns: Functions, state: Term, clicks: Seq<Point>) -> Result<
    (Term, Seq<Images>),
    EntryError,
>
    decreases clicks.len(),
{
    if clicks.len() == 0 {
        Ok((state, Seq::empty()))
    } else {
        match boot(fns, state, clicks.drop_last()) {
            Err(e) => Err(e),
            Ok(before) => match step_outcome(
                evaluate(fns, galaxy_call(before.0, click_term(clicks.last()))),
            ) {
                Err(e) => Err(EntryError::Step((clicks.len() - 1) as usize, e)),
                Ok(step) => Ok((step.0, before.1.push(step.1))),
            },
        }
    }
}

/// Every step for `clicks` from `state` that is taken evaluates the galaxy
/// call within `fuel`.
pub open spec fn boot_within(fns: Functions, state: Term, clicks: Seq<Point>, fuel: nat) -> bool
    decreases clicks.len(),
{
    if clicks.len() == 0 {
        true
    } else {
        &&& boot_within(fns, state, clicks.drop_last(), fuel)
        &&& match boot(fns, state, clicks.drop_last()) {
            Err(_) => true,
            Ok(before) => eval_term(
                fns,
                galaxy_call(before.0, click_term(clicks.last())),
                fuel,
            ) != out_of_fuel(),
        }
    }
}

/// The steps fail as a whole as their first part that fails does.
pub proof fn lemma_boot_fails(fns: Functions, state: Term, clicks: Seq<Point>, n: int)
    requires
        0 <= n <= clicks.len(),
        boot(fns, state, clicks.take(n)) is Err,
    ensures
        boot(fns, state, clicks) == boot(fns, state, clicks.take(n)),
    decreases clicks.len() - n,
{
    if n == clicks.len() {
        assert(clicks.take(n) =~= clicks);
    } else {
        assert(clicks.take(n + 1).drop_last() =~= clicks.take(n));
        lemma_boot_fails(fns, state, clicks, n + 1);
    }
}

/// Where all the steps stay within the fuel, the first ones do.
pub proof fn lemma_boot_within(fns: Functions, state: Term, clicks: Seq<Point>, fuel: nat, n: int)
    requires
        0 <= n <= clicks.len(),
        boot_within(fns, state, clicks, fuel),
    ensures
        boot_within(fns, state, clicks.take(n), fuel),
    decreases clicks.len() - n,
{
    if n == clicks.len() {
        assert(clicks.take(n) =~= clicks);
    } else {
        lemma_boot_within(fns, state, clicks, fuel, n + 1);
        assert(clicks.take(n + 1).drop_last() =~= clicks.take(n));
    }
}

/// The images of several steps as sequences of pairs of mathematical
/// integers.
pub open spec fn frames_view(v: Seq<Vec<Vec<(i64, i64)>>>) -> Seq<Images> {
    Seq::new(v.len(), |i: int| images_view(v[i]@))
}

/// A session as a mathematical value.
pub struct CallbackView {
    /// The function table, as expressions.
    pub functions: Functions,
    /// The state of the protocol.
    pub state: Term,
}

/// A session: the graph with the loaded function table, and the state of
/// the protocol, which each step replaces.
pub struct Callback {
    graph: Graph,
    state: ExprRef,
}

impl View for Callback {
    type V = CallbackView;

    closed spec fn view(&self) -> CallbackView {
        CallbackView {
            functions: self.graph@.function_terms(),
            state: self.graph@.term(self.state),
        }
    }
}

impl Callback {
    /// The invariant of a session.
    pub closed spec fn wf(&self) -> bool {
        self.graph.wf() && self.graph@.contains(self.state)
    }

    /// A session on `graph`, in the initial state `nil`.
    pub fn new(graph: Graph) -> (session: Callback)
        requires
            graph.wf(),
        ensures
            session.wf(),
            session@.functions == graph@.function_terms(),
            session@.state == Term::Atom(Name::Nil),
    {
        let c = graph.get_constants();
        proof {
            assert(graph@.node_wf(c.nil as int));
        }
        Callback { graph, state: c.nil }
    }

    /// The graph of the session as a mathematical value.
    pub closed spec fn graph_view(&self) -> GraphView {
        self.graph@
    }

    /// The graph of the session.
    pub fn graph(&self) -> (g: &Graph)
        requires
            self.wf(),
        ensures
            g.wf(),
            g@ == self.graph_view(),
            g@.function_terms() == self@.functions,
    {
        &self.graph
    }

    /// The node that holds the state of the protocol.
    pub fn state(&self) -> (e: ExprRef)
        requires
            self.wf(),
        ensures
            self.graph_view().contains(e),
            self.graph_view().term(e) == self@.state,
    {
        self.state
    }

    /// One step of the protocol for a click: gives the images to show and
    /// keeps the new state. Where the step fails the state stays. The nodes
    /// that the step left behind and that neither the state nor the function
    /// table nor a slot of theirs refers to are dropped, so that handles
    /// from before the call name nothing afterwards.
    pub fn call(&mut self, click: Point, fuel: u64) -> (r: Result<
        Vec<Vec<(i64, i64)>>,
        InteractError,
    >)
        requires
            old(self).wf(),
        ensures
            final(self).wf(),
            final(self)@.functions == old(self)@.functions,
            ({
                let call = galaxy_call(old(self)@.state, click_term(click));
                let expected = step_outcome(evaluate(old(self)@.functions, call));
                &&& !starved(r) ==> match expected {
                    Ok(step) => r matches Ok(v) && images_view(v@) == step.1 && final(self)@.state
                        == step.0,
                    Err(e) => r == Err::<Vec<Vec<(i64, i64)>>, InteractError>(e)
                        && final(self)@.state == old(self)@.state,
                }
                &&& starved(r) ==> final(self)@.state == old(self)@.state
                &&& eval_term(old(self)@.functions, call, fuel as nat) != out_of_fuel()
                    ==> !starved(r)
            }),
    {
        let state = self.state;
        let result = self.graph.iterate(state, click, fuel);
        let (kept, images) = match result {
            Err(e) => (state, Err(e)),
            Ok((new_state, images)) => (new_state, Ok(images)),
        };
        let mut roots: Vec<ExprRef> = Vec::new();
        roots.push(kept);
        let ghost stepped = self.graph@;
        let moved = self.graph.collect(&roots);
        proof {
            assert(roots@[0] == kept);
            assert(stepped.reachable_within(roots@, kept as int, 0));
        }
        if let Some(place) = moved[kept] {
            self.state = place;
        }
        images
    }
}

/// The result of the steps for some clicks ran out of fuel.
pub open spec fn boot_starved<T>(r: Result<T, EntryError>) -> bool {
    r matches Err(EntryError::Step(_, e)) && e == InteractError::Eval(EvalError::OutOfFuel)
}

impl Callback {
    /// Takes the steps for `clicks` in order and gives the images of each,
    /// or the first step that failed, with its place and its error.
    pub fn run(&mut self, clicks: &Vec<Point>, fuel: u64) -> (r: Result<
        Vec<Vec<Vec<(i64, i64)>>>,
        EntryError,
    >)
        requires
            old(self).wf(),
        ensures
            final(self).wf(),
            final(self)@.functions == old(self)@.functions,
            !boot_starved(r) ==> match boot(old(self)@.functions, old(self)@.state, clicks@) {
                Ok(booted) => r matches Ok(frames) && final(self)@.state == booted.0
                    && frames_view(frames@) == booted.1,
                Err(e) => r matches Err(err) && err == e,
            },
            boot_within(old(self)@.functions, old(self)@.state, clicks@, fuel as nat)
                ==> !boot_starved(r),
    {
        let ghost fns = self@.functions;
        let ghost start = self@.state;
        let mut frames: Vec<Vec<Vec<(i64, i64)>>> = Vec::new();
        let mut i: usize = 0;
        proof {
            assert(frames_view(frames@) =~= Seq::<Images>::empty());
        }
        while i < clicks.len()
            invariant
                self.wf(),
                self@.functions == fns,
                fns == old(self)@.functions,
                start == old(self)@.state,
                i <= clicks@.len(),
                boot(fns, start, clicks@.take(i as int)) == Ok::<(Term, Seq<Images>), EntryError>(
                    (self@.state, frames_view(frames@)),
                ),
            decreases clicks@.len() - i,
        {
            let click = clicks[i];
            proof {
                assert(clicks@.take(i + 1).drop_last() =~= clicks@.take(i as int));
            }
            match self.call(click, fuel) {
                Err(e) => {
                    proof {
                        if e != InteractError::Eval(EvalError::OutOfFuel) {
                            lemma_boot_fails(fns, start, clicks@, i + 1);
                        } else if boot_within(fns, start, clicks@, fuel as nat) {
                            lemma_boot_within(fns, start, clicks@, fuel as nat, i + 1);
                        }
                    }
                    return Err(EntryError::Step(i, e));
                },
                Ok(images) => {
                    let ghost before = frames@;
                    frames.push(images);
                    proof {
                        assert(frames_view(frames@) =~= frames_view(before).push(
                            images_view(images@),
                        ));
                    }
                },
            }
            i = i + 1;
        }
        proof {
            assert(clicks@.take(i as int) =~= clicks@);
        }
        Ok(frames)
    }
}

/// Loads `script`, opens a session in the initial state `nil`, and takes
/// the steps for the bootstrap clicks: the session, and the images of each
/// of those steps.
pub fn entry_point(script: &str, fuel: u64) -> (r: Result<
    (Callback, Vec<Vec<Vec<(i64, i64)>>>),
    EntryError,
>)
    ensures
        ({
            let loaded = load_lines(Map::empty(), tokens(script.spec_bytes(), NEWLINE));
            let nil = Term::Atom(Name::Nil);
            match loaded.1 {
                Some(e) => r matches Err(err) && err == EntryError::Script(e),
                None => {
                    &&& !boot_starved(r) ==> match boot(loaded.0, nil, bootup_clicks()) {
                        Ok(booted) => r matches Ok(got) && got.0.wf() && got.0@.functions
                            == loaded.0 && got.0@.state == booted.0 && frames_view(got.1@)
                            == booted.1,
                        Err(e) => r matches Err(err) && err == e,
                    }
                    &&& boot_within(loaded.0, nil, bootup_clicks(), fuel as nat) ==> !boot_starved(
                        r,
                    )
                },
            }
        }),
{
    let mut graph = Graph::new();
    proof {
        assert(graph@.function_terms() =~= Map::<u32, Term>::empty());
    }
    match graph.load_function_definitions(script) {
        Err(e) => { return Err(EntryError::Script(e)); },
        Ok(()) => {},
    }
    let mut session = Callback::new(graph);
    let clicks = bootup_sequence();
    match session.run(&clicks, fuel) {
        Err(e) => Err(e),
        Ok(frames) => Ok((session, frames)),
    }
}

} // verus!
