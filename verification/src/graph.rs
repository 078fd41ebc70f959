//! The expression graph: an arena of nodes that are shared by handle, each
//! with a slot for the normal form that it was found to evaluate to, and the
//! table of named function bodies.

use vstd::prelude::*;
use std::collections::HashMap;
use crate::name::Name;
use crate::semantics::{converges, lemma_inert_atom, Functions, Outcome};
use crate::term::Term;

verus! {

broadcast use vstd::std_specs::hash::group_hash_axioms;

/// The handle of a node: its place in the arena.
pub type ExprRef = usize;

/// A node is an atom or the application of one node to another.
#[derive(Clone, Copy, Debug, PartialEq, Eq, Structural)]
pub enum Expr {
    Atom(Name),
    Ap(ExprRef, ExprRef),
}

/// A node of the graph: what it is, and what it evaluates to if that is
/// known.
#[derive(Clone, Copy, Debug)]
pub struct Node {
    pub expr: Expr,
    pub evaluated: Option<ExprRef>,
}

/// The four nodes that the rewrite rules hand out again and again.
#[derive(Clone, Copy, Debug)]
pub struct Constants {
    pub cons: ExprRef,
    pub t: ExprRef,
    pub f: ExprRef,
    pub nil: ExprRef,
}

impl Constants {
    /// The node at `i` is one of the four constants.
    pub open spec fn holds(self, i: int) -> bool {
        i == self.cons || i == self.t || i == self.f || i == self.nil
    }
}

/// The graph as a mathematical value.
pub struct GraphView {
    /// The nodes, by handle.
    pub nodes: Seq<Node>,
    /// The expression that each node stands for.
    pub terms: Seq<Term>,
    /// The function table: the node that holds the body, by function id.
    pub functions: Map<u32, ExprRef>,
    pub constants: Constants,
    /// The ids of the function table, in the order of their definitions.
    pub ids: Seq<u32>,
}

impl GraphView {
    pub open spec fn contains(self, e: ExprRef) -> bool {
        e < self.nodes.len()
    }

    /// The expression that the node `e` stands for.
    pub open spec fn term(self, e: ExprRef) -> Term {
        self.terms[e as int]
    }

    pub open spec fn expr(self, e: ExprRef) -> Expr {
        self.nodes[e as int].expr
    }

    pub open spec fn evaluated(self, e: ExprRef) -> Option<ExprRef> {
        self.nodes[e as int].evaluated
    }

    /// The function table as expressions.
    pub open spec fn function_terms(self) -> Functions {
        Map::new(
            |id: u32| self.functions.contains_key(id),
            |id: u32| self.terms[self.functions[id] as int],
        )
    }

    /// The node at `i` is made of earlier nodes, stands for the expression
    /// that it spells, and its slot, where set, holds a node that stands for
    /// its normal form.
    pub open spec fn node_wf(self, i: int) -> bool {
        &&& match self.nodes[i].expr {
            Expr::Atom(name) => self.terms[i] == Term::Atom(name),
            Expr::Ap(func, arg) => {
                &&& func < i
                &&& arg < i
                &&& self.terms[i] == Term::ap(self.terms[func as int], self.terms[arg as int])
            },
        }
        &&& match self.nodes[i].evaluated {
            None => true,
            Some(value) => {
                &&& value < self.nodes.len()
                &&& converges(
                    self.function_terms(),
                    self.terms[i],
                    Outcome::Done(self.terms[value as int]),
                )
            },
        }
    }

    pub open spec fn constants_wf(self) -> bool {
        &&& self.contains(self.constants.cons)
        &&& self.contains(self.constants.t)
        &&& self.contains(self.constants.f)
        &&& self.contains(self.constants.nil)
        &&& self.expr(self.constants.cons) == Expr::Atom(Name::Cons)
        &&& self.expr(self.constants.t) == Expr::Atom(Name::T)
        &&& self.expr(self.constants.f) == Expr::Atom(Name::F)
        &&& self.expr(self.constants.nil) == Expr::Atom(Name::Nil)
    }

    /// The invariant of the graph.
    pub open spec fn wf(self) -> bool {
        &&& self.terms.len() == self.nodes.len()
        &&& forall|i: int| 0 <= i < self.nodes.len() ==> #[trigger] self.node_wf(i)
        &&& forall|id: u32| #[trigger]
            self.functions.contains_key(id) ==> self.functions[id] < self.nodes.len()
                && self.ids.contains(id)
        &&& self.constants_wf()
    }

    /// `self` has the nodes of `old`, as they were, and maybe more.
    pub open spec fn same_nodes(self, old: GraphView) -> bool {
        &&& old.nodes.len() <= self.nodes.len()
        &&& old.terms.len() <= self.terms.len()
        &&& forall|i: int|
            0 <= i < old.nodes.len() ==> (#[trigger] self.nodes[i]).expr == old.nodes[i].expr
        &&& forall|i: int| 0 <= i < old.terms.len() ==> #[trigger] self.terms[i] == old.terms[i]
        &&& self.constants == old.constants
    }

    /// `self` came from `old` by evaluation: nodes were added and slots were
    /// filled, and nothing that `old` held has changed.
    pub open spec fn extends(self, old: GraphView) -> bool {
        &&& self.same_nodes(old)
        &&& self.functions == old.functions
        &&& forall|i: int|
            0 <= i < old.nodes.len() && old.nodes[i].evaluated is Some ==> (
            #[trigger] self.nodes[i]).evaluated == old.nodes[i].evaluated
    }
}

/// Evaluation leaves the function table as it is, as expressions too.
pub proof fn lemma_extends_functions(old: GraphView, new: GraphView)
    requires
        old.wf(),
        new.extends(old),
    ensures
        new.function_terms() == old.function_terms(),
{
}

/// Each of the pairs of nodes holds two nodes that stand for the same
/// expression.
pub open spec fn pairs_equal(g: GraphView, pairs: Seq<(ExprRef, ExprRef)>) -> bool {
    forall|i: int| 0 <= i < pairs.len() ==> g.term((#[trigger] pairs[i]).0) == g.term(pairs[i].1)
}

/// The sizes of the expressions of the first nodes of the pairs, summed up.
pub open spec fn pairs_size(g: GraphView, pairs: Seq<(ExprRef, ExprRef)>) -> nat
    decreases pairs.len(),
{
    if pairs.len() == 0 {
        0
    } else {
        pairs_size(g, pairs.drop_last()) + g.term(pairs.last().0).size()
    }
}

/// The expression graph and the function table.
pub struct Graph {
    nodes: Vec<Node>,
    functions: HashMap<u32, ExprRef>,
    constants: Constants,
    ids: Vec<u32>,
    terms: Ghost<Seq<Term>>,
}

impl View for Graph {
    type V = GraphView;

    closed spec fn view(&self) -> GraphView {
        GraphView {
            nodes: self.nodes@,
            terms: self.terms@,
            functions: self.functions@,
            constants: self.constants,
            ids: self.ids@,
        }
    }
}

impl Graph {
    pub open spec fn wf(&self) -> bool {
        self@.wf()
    }

    /// A graph that holds the four constants, each of them its own normal
    /// form, and an empty function table.
    pub fn new() -> (g: Graph)
        ensures
            g.wf(),
            g@.functions == Map::<u32, ExprRef>::empty(),
            g@.nodes.len() == 4,
            g@.evaluated(g@.constants.cons) == Some(g@.constants.cons),
            g@.evaluated(g@.constants.t) == Some(g@.constants.t),
            g@.evaluated(g@.constants.f) == Some(g@.constants.f),
            g@.evaluated(g@.constants.nil) == Some(g@.constants.nil),
    {
        let mut nodes: Vec<Node> = Vec::new();
        nodes.push(Node { expr: Expr::Atom(Name::Cons), evaluated: Some(0) });
        nodes.push(Node { expr: Expr::Atom(Name::T), evaluated: Some(1) });
        nodes.push(Node { expr: Expr::Atom(Name::F), evaluated: Some(2) });
        nodes.push(Node { expr: Expr::Atom(Name::Nil), evaluated: Some(3) });
        let ghost terms = seq![
            Term::Atom(Name::Cons),
            Term::Atom(Name::T),
            Term::Atom(Name::F),
            Term::Atom(Name::Nil),
        ];
        let g = Graph {
            nodes,
            functions: HashMap::new(),
            constants: Constants { cons: 0, t: 1, f: 2, nil: 3 },
            ids: Vec::new(),
            terms: Ghost(terms),
        };
        proof {
            let fns = g@.function_terms();
            lemma_inert_atom(fns, Name::Cons);
            lemma_inert_atom(fns, Name::T);
            lemma_inert_atom(fns, Name::F);
            lemma_inert_atom(fns, Name::Nil);
        }
        g
    }

    /// The four constants.
    pub fn get_constants(&self) -> (c: Constants)
        ensures
            c == self@.constants,
    {
        self.constants
    }

    /// The number of nodes.
    pub fn len(&self) -> (n: usize)
        ensures
            n == self@.nodes.len(),
    {
        self.nodes.len()
    }

    /// Whether `e` is the handle of a node of this graph.
    pub fn contains(&self, e: ExprRef) -> (b: bool)
        ensures
            b == self@.contains(e),
    {
        e < self.nodes.len()
    }

    /// A new atom.
    pub fn atom(&mut self, name: Name) -> (e: ExprRef)
        requires
            old(self).wf(),
        ensures
            final(self).wf(),
            final(self)@.extends(old(self)@),
            final(self)@.nodes.len() == old(self)@.nodes.len() + 1,
            e == old(self)@.nodes.len(),
            final(self)@.expr(e) == Expr::Atom(name),
            final(self)@.evaluated(e) is None,
            final(self)@.term(e) == Term::Atom(name),
            forall|i: int|
                0 <= i < old(self)@.nodes.len() ==> #[trigger] final(self)@.nodes[i] == old(
                    self,
                )@.nodes[i],
    {
        let e = self.nodes.len();
        self.nodes.push(Node { expr: Expr::Atom(name), evaluated: None });
        self.terms = Ghost(self.terms@.push(Term::Atom(name)));
        proof {
            assert(self@.function_terms() =~= old(self)@.function_terms());
            assert forall|i: int| 0 <= i < self@.nodes.len() implies #[trigger] self@.node_wf(
                i,
            ) by {
                if i < e {
                    assert(old(self)@.node_wf(i));
                }
            }
        }
        e
    }

    /// A new application of `func` to `arg`.
    pub fn ap(&mut self, func: ExprRef, arg: ExprRef) -> (e: ExprRef)
        requires
            old(self).wf(),
            old(self)@.contains(func),
            old(self)@.contains(arg),
        ensures
            final(self).wf(),
            final(self)@.extends(old(self)@),
            final(self)@.nodes.len() == old(self)@.nodes.len() + 1,
            e == old(self)@.nodes.len(),
            final(self)@.expr(e) == Expr::Ap(func, arg),
            final(self)@.evaluated(e) is None,
            final(self)@.term(e) == Term::ap(old(self)@.term(func), old(self)@.term(arg)),
            forall|i: int|
                0 <= i < old(self)@.nodes.len() ==> #[trigger] final(self)@.nodes[i] == old(
                    self,
                )@.nodes[i],
    {
        let e = self.nodes.len();
        let ghost term = Term::ap(self.terms@[func as int], self.terms@[arg as int]);
        self.nodes.push(Node { expr: Expr::Ap(func, arg), evaluated: None });
        self.terms = Ghost(self.terms@.push(term));
        proof {
            assert(self@.function_terms() =~= old(self)@.function_terms());
            assert forall|i: int| 0 <= i < self@.nodes.len() implies #[trigger] self@.node_wf(
                i,
            ) by {
                if i < e {
                    assert(old(self)@.node_wf(i));
                }
            }
        }
        e
    }

    /// What the node `e` is.
    pub fn expr(&self, e: ExprRef) -> (x: Expr)
        requires
            self@.contains(e),
        ensures
            x == self@.expr(e),
    {
        self.nodes[e].expr
    }

    pub fn is_atom(&self, e: ExprRef) -> (b: bool)
        requires
            self@.contains(e),
        ensures
            b == (self@.expr(e) is Atom),
    {
        match self.nodes[e].expr {
            Expr::Atom(_) => true,
            Expr::Ap(_, _) => false,
        }
    }

    pub fn is_ap(&self, e: ExprRef) -> (b: bool)
        requires
            self@.contains(e),
        ensures
            b == (self@.expr(e) is Ap),
    {
        match self.nodes[e].expr {
            Expr::Atom(_) => false,
            Expr::Ap(_, _) => true,
        }
    }

    /// The name of an atom; nothing for an application.
    pub fn name(&self, e: ExprRef) -> (n: Option<Name>)
        requires
            self@.contains(e),
        ensures
            n == match self@.expr(e) {
                Expr::Atom(name) => Some(name),
                Expr::Ap(_, _) => None,
            },
    {
        match self.nodes[e].expr {
            Expr::Atom(name) => Some(name),
            Expr::Ap(_, _) => None,
        }
    }

    /// The function part of an application; nothing for an atom.
    pub fn func(&self, e: ExprRef) -> (r: Option<ExprRef>)
        requires
            self@.contains(e),
        ensures
            r == match self@.expr(e) {
                Expr::Atom(_) => None,
                Expr::Ap(func, _) => Some(func),
            },
    {
        match self.nodes[e].expr {
            Expr::Atom(_) => None,
            Expr::Ap(func, _) => Some(func),
        }
    }

    /// The argument of an application; nothing for an atom.
    pub fn arg(&self, e: ExprRef) -> (r: Option<ExprRef>)
        requires
            self@.contains(e),
        ensures
            r == match self@.expr(e) {
                Expr::Atom(_) => None,
                Expr::Ap(_, arg) => Some(arg),
            },
    {
        match self.nodes[e].expr {
            Expr::Atom(_) => None,
            Expr::Ap(_, arg) => Some(arg),
        }
    }

    /// The normal form of `e`, where it is known.
    pub fn evaluated(&self, e: ExprRef) -> (r: Option<ExprRef>)
        requires
            self@.contains(e),
        ensures
            r == self@.evaluated(e),
    {
        self.nodes[e].evaluated
    }

    /// Records that `e` evaluates to `value`, unless the slot of `e` is set
    /// already, and gives back what the slot then holds.
    pub fn set_evaluated(&mut self, e: ExprRef, value: ExprRef) -> (r: ExprRef)
        requires
            old(self).wf(),
            old(self)@.contains(e),
            old(self)@.contains(value),
            converges(
                old(self)@.function_terms(),
                old(self)@.term(e),
                Outcome::Done(old(self)@.term(value)),
            ),
        ensures
            final(self).wf(),
            final(self)@.extends(old(self)@),
            final(self)@.nodes.len() == old(self)@.nodes.len(),
            final(self)@.evaluated(e) == Some(r),
            r == match old(self)@.evaluated(e) {
                Some(known) => known,
                None => value,
            },
            forall|i: int|
                0 <= i < old(self)@.nodes.len() && i != e ==> #[trigger] final(self)@.nodes[i]
                    == old(self)@.nodes[i],
    {
        let node = self.nodes[e];
        match node.evaluated {
            Some(known) => {
                known
            },
            None => {
                self.nodes.set(e, Node { expr: node.expr, evaluated: Some(value) });
                proof {
                    assert forall|i: int| 0 <= i < self@.nodes.len() implies #[trigger]
                        self@.node_wf(i) by {
                        assert(old(self)@.node_wf(i));
                    }
                }
                value
            },
        }
    }

    /// Whether `a` and `b` stand for the same expression: atoms of the same
    /// name, or applications with the same function part and the same
    /// argument. The pairs of nodes that are still to be compared wait on a
    /// stack, so that the call stack does not grow with the depth of the
    /// expressions.
    pub fn equals(&self, a: ExprRef, b: ExprRef) -> (same: bool)
        requires
            self.wf(),
            self@.contains(a),
            self@.contains(b),
        ensures
            same == (self@.term(a) == self@.term(b)),
    {
        let mut stack: Vec<(ExprRef, ExprRef)> = Vec::new();
        stack.push((a, b));
        proof {
            assert(stack@[0] == (a, b));
        }
        while stack.len() > 0
            invariant
                self.wf(),
                forall|i: int|
                    0 <= i < stack@.len() ==> self@.contains((#[trigger] stack@[i]).0)
                        && self@.contains(stack@[i].1),
                (self@.term(a) == self@.term(b)) == pairs_equal(self@, stack@),
            decreases pairs_size(self@, stack@),
        {
            let ghost before = stack@;
            let (x, y) = stack[stack.len() - 1];
            stack.pop();
            let ghost rest = stack@;
            proof {
                assert(self@.node_wf(x as int));
                assert(self@.node_wf(y as int));
                assert(pairs_equal(self@, before) == (pairs_equal(self@, rest) && self@.term(x)
                    == self@.term(y))) by {
                    if pairs_equal(self@, rest) && self@.term(x) == self@.term(y) {
                        assert forall|i: int| 0 <= i < before.len() implies self@.term(
                            (#[trigger] before[i]).0,
                        ) == self@.term(before[i].1) by {
                            if i < rest.len() {
                                assert(before[i] == rest[i]);
                            }
                        }
                    }
                    if pairs_equal(self@, before) {
                        assert forall|i: int| 0 <= i < rest.len() implies self@.term(
                            (#[trigger] rest[i]).0,
                        ) == self@.term(rest[i].1) by {}
                    }
                }
                assert(pairs_size(self@, before) == pairs_size(self@, rest) + self@.term(x).size());
            }
            if x != y {
                match self.nodes[x].expr {
                    Expr::Atom(name_x) => match self.nodes[y].expr {
                        Expr::Atom(name_y) => {
                            if name_x != name_y {
                                return false;
                            }
                        },
                        Expr::Ap(_, _) => {
                            return false;
                        },
                    },
                    Expr::Ap(func_x, arg_x) => match self.nodes[y].expr {
                        Expr::Atom(_) => {
                            return false;
                        },
                        Expr::Ap(func_y, arg_y) => {
                            stack.push((arg_x, arg_y));
                            let ghost mid = stack@;
                            stack.push((func_x, func_y));
                            proof {
                                assert(mid.drop_last() =~= rest);
                                assert(stack@.drop_last() =~= mid);
                                assert(pairs_size(self@, mid) == pairs_size(self@, rest)
                                    + self@.term(arg_x).size());
                                assert(pairs_equal(self@, stack@) == (pairs_equal(self@, rest)
                                    && self@.term(x) == self@.term(y))) by {
                                    if pairs_equal(self@, rest) && self@.term(x) == self@.term(y) {
                                        assert forall|i: int|
                                            0 <= i < stack@.len() implies self@.term(
                                            (#[trigger] stack@[i]).0,
                                        ) == self@.term(stack@[i].1) by {}
                                    }
                                    if pairs_equal(self@, stack@) {
                                        assert forall|i: int| 0 <= i < rest.len() implies self@.term(
                                            (#[trigger] rest[i]).0,
                                        ) == self@.term(rest[i].1) by {}
                                    }
                                }
                            }
                        },
                    },
                }
            }
        }
        true
    }

    /// The body of the function `id`, where the table holds one.
    pub fn lookup(&self, id: u32) -> (r: Option<ExprRef>)
        ensures
            r == if self@.functions.contains_key(id) {
                Some(self@.functions[id])
            } else {
                None
            },
    {
        match self.functions.get(&id) {
            Some(body) => Some(*body),
            None => None,
        }
    }

    /// Makes `body` the body of the function `id`, in place of an earlier
    /// one if there was one. What the nodes were found to evaluate to under
    /// the old table is forgotten, but for the four constants.
    pub fn define_function(&mut self, id: u32, body: ExprRef)
        requires
            old(self).wf(),
            old(self)@.contains(body),
        ensures
            final(self).wf(),
            final(self)@.same_nodes(old(self)@),
            final(self)@.nodes.len() == old(self)@.nodes.len(),
            final(self)@.functions == old(self)@.functions.insert(id, body),
            forall|i: int|
                0 <= i < final(self)@.nodes.len() ==> (#[trigger] final(self)@.nodes[i]).evaluated
                    == if final(self)@.constants.holds(i) {
                    Some(i as usize)
                } else {
                    None
                },
    {
        let n = self.nodes.len();
        let mut i: usize = 0;
        while i < n
            invariant
                self.wf(),
                self@.same_nodes(old(self)@),
                self@.nodes.len() == n,
                n == old(self)@.nodes.len(),
                self@.functions == old(self)@.functions,
                i <= n,
                forall|j: int| 0 <= j < i ==> (#[trigger] self@.nodes[j]).evaluated is None,
            decreases n - i,
        {
            let node = self.nodes[i];
            let ghost before = self@;
            self.nodes.set(i, Node { expr: node.expr, evaluated: None });
            proof {
                assert forall|j: int| 0 <= j < self@.nodes.len() implies #[trigger] self@.node_wf(
                    j,
                ) by {
                    assert(before.node_wf(j));
                }
            }
            i = i + 1;
        }
        let ghost cleared = self@;
        self.functions.insert(id, body);
        self.ids.push(id);
        proof {
            assert(self@.ids.last() == id);
            assert forall|other: u32| #[trigger]
                self@.functions.contains_key(other) implies self@.ids.contains(other) by {
                if other != id {
                    let k = choose|k: int| 0 <= k < cleared.ids.len() && cleared.ids[k] == other;
                    assert(self@.ids[k] == other);
                }
            }
            assert forall|j: int| 0 <= j < self@.nodes.len() implies #[trigger] self@.node_wf(
                j,
            ) by {
                assert(cleared.node_wf(j));
            }
        }
        let c = self.constants;
        self.mark_constant(c.cons);
        self.mark_constant(c.t);
        self.mark_constant(c.f);
        self.mark_constant(c.nil);
    }

    /// Records of an atom that is no function reference that it is its own
    /// normal form.
    fn mark_constant(&mut self, e: ExprRef)
        requires
            old(self).wf(),
            old(self)@.contains(e),
            old(self)@.expr(e) is Atom,
            !(old(self)@.expr(e)->Atom_0 is Function),
        ensures
            final(self).wf(),
            final(self)@.extends(old(self)@),
            final(self)@.nodes.len() == old(self)@.nodes.len(),
            final(self)@.functions == old(self)@.functions,
            forall|i: int|
                0 <= i < old(self)@.nodes.len() ==> (#[trigger] final(self)@.nodes[i]).evaluated
                    == if i == e && old(self)@.nodes[i].evaluated is None {
                    Some(e)
                } else {
                    old(self)@.nodes[i].evaluated
                },
    {
        proof {
            assert(self@.node_wf(e as int));
            lemma_inert_atom(self@.function_terms(), self@.expr(e)->Atom_0);
        }
        self.set_evaluated(e, e);
    }
}

impl GraphView {
    /// An edge of the graph: `to` is the function part or the argument of
    /// `from`, or what the slot of `from` holds.
    pub open spec fn points_to(self, from: int, to: int) -> bool {
        ||| self.nodes[from].expr matches Expr::Ap(f, x) && (to == f || to == x)
        ||| self.nodes[from].evaluated matches Some(v) && to == v
    }

    /// A node that is kept for its own sake: one of `roots`, a constant, or
    /// the body of a function.
    pub open spec fn is_root(self, roots: Seq<ExprRef>, n: int) -> bool {
        ||| exists|i: int| 0 <= i < roots.len() && #[trigger] roots[i] == n
        ||| self.constants.holds(n)
        ||| exists|id: u32| #[trigger] self.functions.contains_key(id) && self.functions[id] == n
    }

    /// `n` is reached from a root along at most `steps` edges.
    pub open spec fn reachable_within(self, roots: Seq<ExprRef>, n: int, steps: nat) -> bool
        decreases steps,
    {
        ||| self.is_root(roots, n)
        ||| steps > 0 && exists|m: int|
            0 <= m < self.nodes.len() && self.reachable_within(roots, m, (steps - 1) as nat)
                && #[trigger] self.points_to(m, n)
    }

    /// `n` is reached from a root along the edges of the graph.
    pub open spec fn reachable(self, roots: Seq<ExprRef>, n: int) -> bool {
        exists|steps: nat| self.reachable_within(roots, n, steps)
    }

    /// The nodes that `m` points to are marked.
    pub open spec fn successors_marked(self, marked: Seq<bool>, m: int) -> bool {
        &&& self.nodes[m].expr matches Expr::Ap(f, x) ==> marked[f as int] && marked[x as int]
        &&& self.nodes[m].evaluated matches Some(v) ==> marked[v as int]
    }

    /// The state of a marking in progress: only nodes that are reached are
    /// marked, the nodes on the work list are marked, and the nodes that a
    /// marked node points to are marked unless the node waits on the work
    /// list or is the one at hand.
    pub open spec fn marking(
        self,
        roots: Seq<ExprRef>,
        marked: Seq<bool>,
        work: Seq<ExprRef>,
        at_hand: int,
    ) -> bool {
        &&& marked.len() == self.nodes.len()
        &&& forall|k: int|
            0 <= k < work.len() ==> (#[trigger] work[k]) < self.nodes.len() && marked[work[k] as int]
        &&& forall|i: int| 0 <= i < marked.len() && #[trigger] marked[i] ==> self.reachable(roots, i)
        &&& forall|m: int|
            0 <= m < marked.len() && #[trigger] marked[m] ==> m == at_hand || work.contains(
                m as usize,
            ) || self.successors_marked(marked, m)
    }
}

/// The number of nodes that are not marked.
pub open spec fn unmarked(marked: Seq<bool>) -> nat
    decreases marked.len(),
{
    if marked.len() == 0 {
        0
    } else {
        unmarked(marked.drop_last()) + if marked.last() {
            0nat
        } else {
            1nat
        }
    }
}

/// A mark on a node that had none leaves one node less without a mark.
proof fn lemma_mark_counts(marked: Seq<bool>, n: int)
    requires
        0 <= n < marked.len(),
        !marked[n],
    ensures
        unmarked(marked.update(n, true)) + 1 == unmarked(marked),
    decreases marked.len(),
{
    let after = marked.update(n, true);
    if n == marked.len() - 1 {
        assert(after.drop_last() =~= marked.drop_last());
    } else {
        lemma_mark_counts(marked.drop_last(), n);
        assert(after.drop_last() =~= marked.drop_last().update(n, true));
    }
}

/// A node that is reached from a root lies in the graph.
proof fn lemma_reached_is_node(g: GraphView, roots: Seq<ExprRef>, n: int, steps: nat)
    requires
        g.wf(),
        forall|i: int| 0 <= i < roots.len() ==> g.contains(#[trigger] roots[i]),
        g.reachable_within(roots, n, steps),
    ensures
        0 <= n < g.nodes.len(),
    decreases steps,
{
    if !g.is_root(roots, n) {
        let m = choose|m: int|
            0 <= m < g.nodes.len() && g.reachable_within(roots, m, (steps - 1) as nat)
                && #[trigger] g.points_to(m, n);
        assert(g.node_wf(m));
    }
}

/// Where the roots are marked and every marked node points to marked
/// nodes only, every node that is reached from a root is marked.
proof fn lemma_closed_marks(
    g: GraphView,
    roots: Seq<ExprRef>,
    marked: Seq<bool>,
    n: int,
    steps: nat,
)
    requires
        g.wf(),
        marked.len() == g.nodes.len(),
        forall|i: int| 0 <= i < roots.len() ==> g.contains(#[trigger] roots[i]),
        forall|r: int| 0 <= r < marked.len() && g.is_root(roots, r) ==> #[trigger] marked[r],
        forall|m: int|
            0 <= m < marked.len() && #[trigger] marked[m] ==> g.successors_marked(marked, m),
        g.reachable_within(roots, n, steps),
    ensures
        0 <= n < marked.len(),
        marked[n],
    decreases steps,
{
    lemma_reached_is_node(g, roots, n, steps);
    if !g.is_root(roots, n) {
        let m = choose|m: int|
            0 <= m < g.nodes.len() && g.reachable_within(roots, m, (steps - 1) as nat)
                && #[trigger] g.points_to(m, n);
        lemma_closed_marks(g, roots, marked, m, (steps - 1) as nat);
    }
}

impl Graph {
    /// Marks the node `n`, which is reached from a root, and puts it on the
    /// work list, unless it is marked already.
    fn mark_node(
        &self,
        n: ExprRef,
        marked: &mut Vec<bool>,
        work: &mut Vec<ExprRef>,
        Ghost(roots): Ghost<Seq<ExprRef>>,
        Ghost(at_hand): Ghost<int>,
    )
        requires
            self.wf(),
            self@.contains(n),
            self@.reachable(roots, n as int),
            self@.marking(roots, old(marked)@, old(work)@, at_hand),
        ensures
            self@.marking(roots, final(marked)@, final(work)@, at_hand),
            final(marked)@[n as int],
            forall|i: int|
                0 <= i < old(marked)@.len() && old(marked)@[i] ==> #[trigger] final(marked)@[i],
            2 * unmarked(final(marked)@) + final(work)@.len() <= 2 * unmarked(old(marked)@) + old(
                work,
            )@.len(),
    {
        if !marked[n] {
            let ghost before = marked@;
            let ghost waiting = work@;
            marked.set(n, true);
            work.push(n);
            proof {
                lemma_mark_counts(before, n as int);
                assert(work@.last() == n);
                assert forall|m: int| 0 <= m < marked@.len() && #[trigger] marked@[m] implies m
                    == at_hand || work@.contains(m as usize) || self@.successors_marked(
                    marked@,
                    m,
                ) by {
                    if m == n {
                    } else if m != at_hand {
                        assert(self@.node_wf(m));
                        if waiting.contains(m as usize) {
                            let k = choose|k: int|
                                0 <= k < waiting.len() && waiting[k] == m as usize;
                            assert(work@[k] == m as usize);
                        }
                    }
                }
            }
        }
    }

    /// The nodes that are reached from the roots, the constants and the
    /// bodies of the functions.
    fn mark(&self, roots: &Vec<ExprRef>) -> (marked: Vec<bool>)
        requires
            self.wf(),
            forall|i: int| 0 <= i < roots@.len() ==> self@.contains(#[trigger] roots@[i]),
        ensures
            marked@.len() == self@.nodes.len(),
            forall|i: int|
                0 <= i < marked@.len() ==> (#[trigger] marked@[i] <==> self@.reachable(roots@, i)),
    {
        let n = self.nodes.len();
        let mut marked: Vec<bool> = Vec::new();
        let mut i: usize = 0;
        while i < n
            invariant
                i <= n,
                marked@.len() == i,
                forall|k: int| 0 <= k < i ==> !(#[trigger] marked@[k]),
            decreases n - i,
        {
            marked.push(false);
            i = i + 1;
        }
        let mut work: Vec<ExprRef> = Vec::new();
        let ghost none: int = -1;
        // The roots.
        let mut i: usize = 0;
        while i < roots.len()
            invariant
                self.wf(),
                n == self@.nodes.len(),
                i <= roots@.len(),
                forall|k: int| 0 <= k < roots@.len() ==> self@.contains(#[trigger] roots@[k]),
                self@.marking(roots@, marked@, work@, none),
                forall|k: int| 0 <= k < i ==> marked@[(#[trigger] roots@[k]) as int],
            decreases roots@.len() - i,
        {
            let root = roots[i];
            proof {
                assert(self@.reachable_within(roots@, root as int, 0));
            }
            self.mark_node(root, &mut marked, &mut work, Ghost(roots@), Ghost(none));
            i = i + 1;
        }
        let c = self.constants;
        proof {
            assert(self@.reachable_within(roots@, c.cons as int, 0));
            assert(self@.reachable_within(roots@, c.t as int, 0));
            assert(self@.reachable_within(roots@, c.f as int, 0));
            assert(self@.reachable_within(roots@, c.nil as int, 0));
        }
        self.mark_node(c.cons, &mut marked, &mut work, Ghost(roots@), Ghost(none));
        self.mark_node(c.t, &mut marked, &mut work, Ghost(roots@), Ghost(none));
        self.mark_node(c.f, &mut marked, &mut work, Ghost(roots@), Ghost(none));
        self.mark_node(c.nil, &mut marked, &mut work, Ghost(roots@), Ghost(none));
        // The bodies of the functions.
        let mut i: usize = 0;
        while i < self.ids.len()
            invariant
                self.wf(),
                n == self@.nodes.len(),
                i <= self@.ids.len(),
                self@.marking(roots@, marked@, work@, none),
                forall|k: int| 0 <= k < roots@.len() ==> self@.contains(#[trigger] roots@[k]),
                forall|k: int| 0 <= k < roots@.len() ==> marked@[(#[trigger] roots@[k]) as int],
                marked@[self@.constants.cons as int],
                marked@[self@.constants.t as int],
                marked@[self@.constants.f as int],
                marked@[self@.constants.nil as int],
                forall|k: int|
                    0 <= k < i && self@.functions.contains_key(#[trigger] self@.ids[k])
                        ==> marked@[self@.functions[self@.ids[k]] as int],
            decreases self@.ids.len() - i,
        {
            let id = self.ids[i];
            match self.lookup(id) {
                Some(body) => {
                    proof {
                        assert(self@.reachable_within(roots@, body as int, 0));
                    }
                    self.mark_node(body, &mut marked, &mut work, Ghost(roots@), Ghost(none));
                },
                None => {},
            }
            i = i + 1;
        }
        proof {
            assert forall|r: int| 0 <= r < marked@.len() && self@.is_root(
                roots@,
                r,
            ) implies #[trigger] marked@[r] by {
                if exists|id: u32| #[trigger]
                    self@.functions.contains_key(id) && self@.functions[id] == r {
                    let id = choose|id: u32| #[trigger]
                        self@.functions.contains_key(id) && self@.functions[id] == r;
                    let k = choose|k: int| 0 <= k < self@.ids.len() && self@.ids[k] == id;
                } else if exists|k: int| 0 <= k < roots@.len() && #[trigger] roots@[k] == r {
                    let k = choose|k: int| 0 <= k < roots@.len() && #[trigger] roots@[k] == r;
                }
            }
        }
        // The nodes that marked nodes point to.
        while work.len() > 0
            invariant
                self.wf(),
                n == self@.nodes.len(),
                none == -1,
                self@.marking(roots@, marked@, work@, none),
                forall|r: int|
                    0 <= r < marked@.len() && self@.is_root(roots@, r) ==> #[trigger] marked@[r],
            decreases 2 * unmarked(marked@) + work@.len(),
        {
            let ghost waiting = work@;
            let m = work[work.len() - 1];
            work.pop();
            proof {
                assert(self@.node_wf(m as int));
                assert forall|k: int| 0 <= k < marked@.len() && #[trigger] marked@[k] implies k
                    == m || work@.contains(k as usize) || self@.successors_marked(marked@, k) by {
                    if k != m as int {
                        if waiting.contains(k as usize) {
                            let j = choose|j: int|
                                0 <= j < waiting.len() && waiting[j] == k as usize;
                            assert(work@[j] == k as usize);
                        }
                    }
                }
                let steps = choose|steps: nat| self@.reachable_within(roots@, m as int, steps);
                assert forall|to: int| self@.points_to(m as int, to) implies self@.reachable(
                    roots@,
                    to,
                ) by {
                    assert(self@.reachable_within(roots@, to, steps + 1));
                }
            }
            match self.nodes[m].expr {
                Expr::Atom(_) => {},
                Expr::Ap(f, x) => {
                    proof {
                        assert(self@.points_to(m as int, f as int));
                        assert(self@.points_to(m as int, x as int));
                    }
                    self.mark_node(f, &mut marked, &mut work, Ghost(roots@), Ghost(m as int));
                    self.mark_node(x, &mut marked, &mut work, Ghost(roots@), Ghost(m as int));
                },
            }
            match self.nodes[m].evaluated {
                None => {},
                Some(v) => {
                    proof {
                        assert(self@.points_to(m as int, v as int));
                    }
                    self.mark_node(v, &mut marked, &mut work, Ghost(roots@), Ghost(m as int));
                },
            }
        }
        proof {
            assert forall|i: int| 0 <= i < marked@.len() implies (#[trigger] marked@[i]
                <==> self@.reachable(roots@, i)) by {
                if self@.reachable(roots@, i) {
                    let steps = choose|steps: nat| self@.reachable_within(roots@, i, steps);
                    lemma_closed_marks(self@, roots@, marked@, i, steps);
                }
            }
        }
        marked
    }
}

/// The number of marked nodes before the node at `i`: the place of that
/// node among the marked ones.
pub open spec fn marks_before(marked: Seq<bool>, i: int) -> nat
    decreases i,
{
    if i <= 0 {
        0
    } else {
        marks_before(marked, i - 1) + if marked[i - 1] {
            1nat
        } else {
            0nat
        }
    }
}

/// The place among the marked nodes grows with the place among all nodes,
/// and past a marked node it has grown.
proof fn lemma_marks_before_grows(marked: Seq<bool>, i: int, j: int)
    requires
        0 <= i <= j <= marked.len(),
    ensures
        marks_before(marked, i) <= marks_before(marked, j),
        i < j && marked[i] ==> marks_before(marked, i) < marks_before(marked, j),
        marks_before(marked, j) <= j,
    decreases j,
{
    if i < j {
        lemma_marks_before_grows(marked, i, j - 1);
    } else if j > 0 {
        lemma_marks_before_grows(marked, 0, j - 1);
    }
}

/// Every place among the marked nodes is the place of a marked node.
proof fn lemma_marks_before_onto(marked: Seq<bool>, n: int, r: int) -> (i: int)
    requires
        0 <= n <= marked.len(),
        0 <= r < marks_before(marked, n),
    ensures
        0 <= i < n,
        marked[i],
        marks_before(marked, i) == r,
    decreases n,
{
    if marked[n - 1] && marks_before(marked, n - 1) == r {
        n - 1
    } else {
        lemma_marks_before_onto(marked, n - 1, r)
    }
}

impl GraphView {
    /// The marks hold every node that a marked node points to.
    pub open spec fn closed(self, marked: Seq<bool>) -> bool {
        &&& marked.len() == self.nodes.len()
        &&& forall|m: int|
            0 <= m < marked.len() && #[trigger] marked[m] ==> self.successors_marked(marked, m)
    }

    /// The node at `i` with its handles replaced by the new places
    /// `forward` of the nodes that they name.
    pub open spec fn moved_node(self, forward: Seq<usize>, i: int) -> Node {
        Node {
            expr: match self.nodes[i].expr {
                Expr::Atom(name) => Expr::Atom(name),
                Expr::Ap(f, x) => Expr::Ap(forward[f as int], forward[x as int]),
            },
            evaluated: match self.nodes[i].evaluated {
                None => None,
                Some(v) => Some(forward[v as int]),
            },
        }
    }
}

/// The new places `forward` are the places among the marked nodes.
pub open spec fn addresses(marked: Seq<bool>, forward: Seq<usize>) -> bool {
    &&& forward.len() == marked.len()
    &&& forall|i: int| 0 <= i < forward.len() ==> #[trigger] forward[i] == marks_before(marked, i)
}

/// What is reached from the roots points to what is reached from the
/// roots.
proof fn lemma_reachable_closed(g: GraphView, roots: Seq<ExprRef>, marked: Seq<bool>)
    requires
        g.wf(),
        marked.len() == g.nodes.len(),
        forall|i: int| 0 <= i < roots.len() ==> g.contains(#[trigger] roots[i]),
        forall|i: int| 0 <= i < marked.len() ==> (#[trigger] marked[i] <==> g.reachable(roots, i)),
    ensures
        g.closed(marked),
{
    assert forall|m: int| 0 <= m < marked.len() && #[trigger] marked[m] implies g.successors_marked(
        marked,
        m,
    ) by {
        assert(g.node_wf(m));
        let steps = choose|steps: nat| g.reachable_within(roots, m, steps);
        assert forall|to: int| g.points_to(m, to) implies g.reachable(roots, to) by {
            assert(g.reachable_within(roots, to, steps + 1));
        }
    }
}

impl Graph {
    /// The new place of every node: its place among the marked nodes.
    fn relocate(&self, marked: &Vec<bool>) -> (forward: Vec<usize>)
        requires
            marked@.len() == self@.nodes.len(),
        ensures
            addresses(marked@, forward@),
    {
        let n = marked.len();
        let mut forward: Vec<usize> = Vec::new();
        let mut next: usize = 0;
        let mut i: usize = 0;
        while i < n
            invariant
                n == marked@.len(),
                i <= n,
                forward@.len() == i,
                next == marks_before(marked@, i as int),
                next <= i,
                forall|k: int| 0 <= k < i ==> #[trigger] forward@[k] == marks_before(marked@, k),
            decreases n - i,
        {
            forward.push(next);
            if marked[i] {
                next = next + 1;
            }
            i = i + 1;
        }
        forward
    }

    /// The marked nodes in their order, with their handles replaced by the
    /// new places, and the expressions that they stand for.
    fn sweep(&self, marked: &Vec<bool>, forward: &Vec<usize>) -> (kept: (Vec<Node>, Ghost<Seq<Term>>))
        requires
            self.wf(),
            self@.closed(marked@),
            addresses(marked@, forward@),
        ensures
            kept.0@.len() == marks_before(marked@, marked@.len() as int),
            kept.1@.len() == kept.0@.len(),
            forall|i: int|
                0 <= i < marked@.len() && #[trigger] marked@[i] ==> kept.0@[forward@[i] as int]
                    == self@.moved_node(forward@, i) && kept.1@[forward@[i] as int]
                    == self@.terms[i],
    {
        let n = marked.len();
        let mut nodes: Vec<Node> = Vec::new();
        let ghost mut terms: Seq<Term> = Seq::empty();
        let mut i: usize = 0;
        while i < n
            invariant
                self.wf(),
                self@.closed(marked@),
                addresses(marked@, forward@),
                n == marked@.len(),
                i <= n,
                nodes@.len() == marks_before(marked@, i as int),
                terms.len() == nodes@.len(),
                forall|k: int|
                    0 <= k < i && #[trigger] marked@[k] ==> nodes@[forward@[k] as int]
                        == self@.moved_node(forward@, k) && terms[forward@[k] as int]
                        == self@.terms[k],
            decreases n - i,
        {
            if marked[i] {
                let node = self.nodes[i];
                proof {
                    assert(self@.node_wf(i as int));
                }
                let expr = match node.expr {
                    Expr::Atom(name) => Expr::Atom(name),
                    Expr::Ap(f, x) => Expr::Ap(forward[f], forward[x]),
                };
                let evaluated = match node.evaluated {
                    None => None,
                    Some(v) => Some(forward[v]),
                };
                nodes.push(Node { expr, evaluated });
                proof {
                    terms = terms.push(self@.terms[i as int]);
                    assert forall|k: int| 0 <= k < i + 1 && #[trigger] marked@[k] implies nodes@[forward@[k] as int]
                        == self@.moved_node(forward@, k) && terms[forward@[k] as int]
                        == self@.terms[k] by {
                        if k < i {
                            lemma_marks_before_grows(marked@, k, i as int);
                        }
                    }
                }
            }
            i = i + 1;
        }
        (nodes, Ghost(terms))
    }

    /// The function table with the bodies at their new places.
    fn moved_functions(&self, marked: &Vec<bool>, forward: &Vec<usize>) -> (table: std::collections::HashMap<
        u32,
        ExprRef,
    >)
        requires
            self.wf(),
            addresses(marked@, forward@),
            marked@.len() == self@.nodes.len(),
        ensures
            forall|id: u32| #[trigger]
                table@.contains_key(id) <==> self@.functions.contains_key(id),
            forall|id: u32| #[trigger]
                table@.contains_key(id) ==> table@[id] == forward@[self@.functions[id] as int],
    {
        let mut table: HashMap<u32, ExprRef> = HashMap::new();
        let mut i: usize = 0;
        while i < self.ids.len()
            invariant
                self.wf(),
                addresses(marked@, forward@),
                marked@.len() == self@.nodes.len(),
                i <= self@.ids.len(),
                forall|id: u32| #[trigger]
                    table@.contains_key(id) <==> self@.functions.contains_key(id) && exists|
                        k: int,
                    |
                        0 <= k < i && self@.ids[k] == id,
                forall|id: u32| #[trigger]
                    table@.contains_key(id) ==> table@[id] == forward@[self@.functions[id] as int],
            decreases self@.ids.len() - i,
        {
            let id = self.ids[i];
            let ghost before = table@;
            match self.lookup(id) {
                Some(body) => {
                    table.insert(id, forward[body]);
                },
                None => {},
            }
            proof {
                assert forall|other: u32| #[trigger]
                    table@.contains_key(other) <==> self@.functions.contains_key(other) && exists|
                        k: int,
                    |
                        0 <= k < i + 1 && self@.ids[k] == other by {
                    if other == id {
                    } else {
                        if before.contains_key(other) {
                            let k = choose|k: int| 0 <= k < i && self@.ids[k] == other;
                        }
                        if self@.functions.contains_key(other) && exists|k: int|
                            0 <= k < i + 1 && self@.ids[k] == other {
                            let k = choose|k: int| 0 <= k < i + 1 && self@.ids[k] == other;
                        }
                    }
                }
            }
            i = i + 1;
        }
        proof {
            assert forall|id: u32| #[trigger]
                table@.contains_key(id) <==> self@.functions.contains_key(id) by {
                if self@.functions.contains_key(id) {
                    let k = choose|k: int| 0 <= k < self@.ids.len() && self@.ids[k] == id;
                }
            }
        }
        table
    }
}

impl GraphView {
    /// `self` holds the marked nodes of `old`, and nothing else, in their
    /// order and at the places `forward`, with the handles in them and in
    /// the function table replaced by the new places.
    pub open spec fn collected_from(
        self,
        old: GraphView,
        marked: Seq<bool>,
        forward: Seq<usize>,
    ) -> bool {
        &&& self.nodes.len() == marks_before(marked, marked.len() as int)
        &&& self.terms.len() == self.nodes.len()
        &&& forall|i: int|
            0 <= i < marked.len() && #[trigger] marked[i] ==> self.nodes[forward[i] as int]
                == old.moved_node(forward, i) && self.terms[forward[i] as int] == old.terms[i]
        &&& forall|id: u32| #[trigger]
            self.functions.contains_key(id) <==> old.functions.contains_key(id)
        &&& forall|id: u32| #[trigger]
            self.functions.contains_key(id) ==> self.functions[id]
                == forward[old.functions[id] as int]
        &&& self.constants == Constants {
            cons: forward[old.constants.cons as int],
            t: forward[old.constants.t as int],
            f: forward[old.constants.f as int],
            nil: forward[old.constants.nil as int],
        }
        &&& self.ids == old.ids
    }
}

/// Some node has gone to the place `j`.
pub open spec fn moved_to(moved: Seq<Option<ExprRef>>, j: int) -> bool {
    exists|i: int| 0 <= i < moved.len() && #[trigger] moved[i] == Some(j as usize)
}

/// What a collection leaves is a graph, with the function table that it
/// had as expressions.
proof fn lemma_collected_wf(
    old: GraphView,
    new: GraphView,
    marked: Seq<bool>,
    forward: Seq<usize>,
)
    requires
        old.wf(),
        old.closed(marked),
        addresses(marked, forward),
        marked[old.constants.cons as int],
        marked[old.constants.t as int],
        marked[old.constants.f as int],
        marked[old.constants.nil as int],
        forall|id: u32| #[trigger]
            old.functions.contains_key(id) ==> marked[old.functions[id] as int],
        new.collected_from(old, marked, forward),
    ensures
        new.function_terms() == old.function_terms(),
        new.wf(),
{
    let n = marked.len() as int;
    let total = marks_before(marked, n);
    assert forall|i: int| 0 <= i < n && #[trigger] marked[i] implies forward[i] < total by {
        lemma_marks_before_grows(marked, i, n);
    }
    assert(new.function_terms() =~= old.function_terms()) by {
        assert forall|id: u32| old.functions.contains_key(id) implies new.terms[new.functions[id] as int]
            == old.terms[old.functions[id] as int] by {
            assert(new.functions.contains_key(id));
        }
    }
    let fns = old.function_terms();
    assert forall|r: int| 0 <= r < new.nodes.len() implies #[trigger] new.node_wf(r) by {
        let i = lemma_marks_before_onto(marked, n, r);
        assert(old.node_wf(i));
        match old.nodes[i].expr {
            Expr::Atom(_) => {},
            Expr::Ap(f, x) => {
                lemma_marks_before_grows(marked, f as int, i);
                lemma_marks_before_grows(marked, x as int, i);
            },
        }
    }
    assert forall|id: u32| #[trigger] new.functions.contains_key(id) implies new.functions[id]
        < new.nodes.len() && new.ids.contains(id) by {}
}

impl Graph {
    /// Drops the nodes that are not reached from `roots`, the constants or
    /// the bodies of the functions, along the function parts, the arguments
    /// and the slots of the nodes, and moves the others together in their
    /// order. The result says where each node has gone. Handles from before
    /// the call name nothing afterwards.
    pub fn collect(&mut self, roots: &Vec<ExprRef>) -> (moved: Vec<Option<ExprRef>>)
        requires
            old(self).wf(),
            forall|i: int| 0 <= i < roots@.len() ==> old(self)@.contains(#[trigger] roots@[i]),
        ensures
            final(self).wf(),
            final(self)@.function_terms() == old(self)@.function_terms(),
            moved@.len() == old(self)@.nodes.len(),
            final(self)@.nodes.len() <= old(self)@.nodes.len(),
            forall|i: int|
                0 <= i < moved@.len() ==> ((#[trigger] moved@[i]) is Some <==> old(
                    self,
                )@.reachable(roots@, i)),
            forall|i: int|
                0 <= i < moved@.len() && (#[trigger] moved@[i]) is Some ==> {
                    &&& final(self)@.contains(moved@[i]->0)
                    &&& final(self)@.term(moved@[i]->0) == old(self)@.terms[i]
                    &&& final(self)@.evaluated(moved@[i]->0) == match old(self)@.nodes[i].evaluated {
                        None => None,
                        Some(v) => moved@[v as int],
                    }
                },
            forall|j: int| 0 <= j < final(self)@.nodes.len() ==> #[trigger] moved_to(moved@, j),
            forall|i: int, j: int|
                0 <= i < j < moved@.len() && (#[trigger] moved@[i]) is Some && (
                #[trigger] moved@[j]) is Some ==> moved@[i]->0 < moved@[j]->0,
    {
        let marked = self.mark(roots);
        proof {
            lemma_reachable_closed(self@, roots@, marked@);
        }
        let forward = self.relocate(&marked);
        let (nodes, terms) = self.sweep(&marked, &forward);
        let functions = self.moved_functions(&marked, &forward);
        let c = self.constants;
        let n = marked.len();
        proof {
            assert(self@.reachable_within(roots@, c.cons as int, 0));
            assert(self@.reachable_within(roots@, c.t as int, 0));
            assert(self@.reachable_within(roots@, c.f as int, 0));
            assert(self@.reachable_within(roots@, c.nil as int, 0));
        }
        let constants = Constants {
            cons: forward[c.cons],
            t: forward[c.t],
            f: forward[c.f],
            nil: forward[c.nil],
        };
        let mut moved: Vec<Option<ExprRef>> = Vec::new();
        let mut i: usize = 0;
        while i < n
            invariant
                n == marked@.len(),
                n == forward@.len(),
                i <= n,
                moved@.len() == i,
                forall|k: int|
                    0 <= k < i ==> #[trigger] moved@[k] == if marked@[k] {
                        Some(forward@[k])
                    } else {
                        None
                    },
            decreases n - i,
        {
            if marked[i] {
                moved.push(Some(forward[i]));
            } else {
                moved.push(None);
            }
            i = i + 1;
        }
        self.nodes = nodes;
        self.functions = functions;
        self.constants = constants;
        self.terms = terms;
        proof {
            let before = old(self)@;
            assert forall|id: u32| #[trigger]
                before.functions.contains_key(id) implies marked@[before.functions[id] as int] by {
                let body = before.functions[id];
                assert(before.reachable_within(roots@, body as int, 0));
            }
            lemma_collected_wf(before, self@, marked@, forward@);
            lemma_marks_before_grows(marked@, 0, n as int);
            assert forall|k: int| 0 <= k < moved@.len() && (#[trigger] moved@[k]) is Some implies {
                &&& self@.contains(moved@[k]->0)
                &&& self@.term(moved@[k]->0) == before.terms[k]
                &&& self@.evaluated(moved@[k]->0) == match before.nodes[k].evaluated {
                    None => None,
                    Some(v) => moved@[v as int],
                }
            } by {
                lemma_marks_before_grows(marked@, k, n as int);
                assert(before.node_wf(k));
            }
            assert forall|j: int| 0 <= j < self@.nodes.len() implies #[trigger] moved_to(
                moved@,
                j,
            ) by {
                let k = lemma_marks_before_onto(marked@, n as int, j);
                assert(moved@[k] == Some(j as usize));
            }
            assert forall|a: int, b: int|
                0 <= a < b < moved@.len() && (#[trigger] moved@[a]) is Some && (
                #[trigger] moved@[b]) is Some implies moved@[a]->0 < moved@[b]->0 by {
                lemma_marks_before_grows(marked@, a, b);
            }
        }
        moved
    }
}

impl GraphView {
    /// The node at `n` is reached from the roots, or lies beyond the nodes
    /// of this graph: it is one that an evaluation from the roots may touch
    /// or one that it has made.
    pub open spec fn within(self, roots: Seq<ExprRef>, n: int) -> bool {
        n >= self.nodes.len() || self.reachable(roots, n)
    }
}

/// What the node at `n` of `new` points to lies within what is reached from
/// the roots in `old`, or beyond `old`.
pub open spec fn edges_within(new: GraphView, old: GraphView, roots: Seq<ExprRef>, n: int) -> bool {
    &&& new.nodes[n].expr matches Expr::Ap(f, x) ==> old.within(roots, f as int) && old.within(
        roots,
        x as int,
    )
    &&& new.nodes[n].evaluated matches Some(v) ==> old.within(roots, v as int)
}

/// What happened between `old` and `new` stayed within what is reached from
/// the roots in `old`: every other node of `old` is as it was, slot and all,
/// and the nodes that are reached and the nodes that were made point to
/// such nodes only.
pub open spec fn confined(new: GraphView, old: GraphView, roots: Seq<ExprRef>) -> bool {
    &&& old.nodes.len() <= new.nodes.len()
    &&& new.constants == old.constants
    &&& new.functions == old.functions
    &&& forall|n: int|
        0 <= n < new.nodes.len() && old.within(roots, n) ==> #[trigger] edges_within(
            new,
            old,
            roots,
            n,
        )
    &&& forall|n: int|
        0 <= n < old.nodes.len() && !old.reachable(roots, n) ==> #[trigger] new.nodes[n]
            == old.nodes[n]
}

/// Nothing has happened yet: a graph is confined to what is reached in it.
pub proof fn lemma_confined_start(g: GraphView, roots: Seq<ExprRef>)
    requires
        g.wf(),
    ensures
        confined(g, g, roots),
{
    assert forall|n: int| 0 <= n < g.nodes.len() && g.within(roots, n) implies #[trigger] edges_within(
        g,
        g,
        roots,
        n,
    ) by {
        let steps = choose|steps: nat| g.reachable_within(roots, n, steps);
        assert forall|to: int| g.points_to(n, to) implies g.reachable(roots, to) by {
            assert(g.reachable_within(roots, to, steps + 1));
        }
        match g.nodes[n].expr {
            Expr::Ap(f, x) => {
                assert(g.points_to(n, f as int));
                assert(g.points_to(n, x as int));
            },
            Expr::Atom(_) => {},
        }
        match g.nodes[n].evaluated {
            Some(v) => {
                assert(g.points_to(n, v as int));
            },
            None => {},
        }
    }
}

/// What is reached in a later graph from nodes within the roots lies
/// within the roots.
pub proof fn lemma_reached_within(
    old: GraphView,
    mid: GraphView,
    roots: Seq<ExprRef>,
    inner: Seq<ExprRef>,
    n: int,
    steps: nat,
)
    requires
        confined(mid, old, roots),
        forall|i: int| 0 <= i < inner.len() ==> mid.contains(#[trigger] inner[i]) && old.within(
            roots,
            inner[i] as int,
        ),
        mid.constants_wf(),
        forall|id: u32| #[trigger]
            mid.functions.contains_key(id) ==> mid.functions[id] < old.nodes.len(),
        old.constants_wf(),
        mid.reachable_within(inner, n, steps),
    ensures
        old.within(roots, n),
        0 <= n,
    decreases steps,
{
    if mid.is_root(inner, n) {
        if exists|i: int| 0 <= i < inner.len() && #[trigger] inner[i] == n {
        } else if mid.constants.holds(n) {
            assert(old.is_root(roots, n));
            assert(old.reachable_within(roots, n, 0));
        } else {
            assert(old.is_root(roots, n));
            assert(old.reachable_within(roots, n, 0));
        }
    } else {
        let m = choose|m: int|
            0 <= m < mid.nodes.len() && mid.reachable_within(inner, m, (steps - 1) as nat)
                && #[trigger] mid.points_to(m, n);
        lemma_reached_within(old, mid, roots, inner, m, (steps - 1) as nat);
        assert(edges_within(mid, old, roots, m));
    }
}

/// What stayed within the reach of nodes that lie within the roots, stayed
/// within the roots.
pub proof fn lemma_confined_lift(
    old: GraphView,
    mid: GraphView,
    new: GraphView,
    roots: Seq<ExprRef>,
    inner: Seq<ExprRef>,
)
    requires
        old.wf(),
        mid.wf(),
        confined(mid, old, roots),
        confined(new, mid, inner),
        forall|i: int| 0 <= i < inner.len() ==> mid.contains(#[trigger] inner[i]) && old.within(
            roots,
            inner[i] as int,
        ),
    ensures
        confined(new, old, roots),
        forall|n: int| 0 <= n && #[trigger] mid.within(inner, n) ==> old.within(roots, n),
{
    assert forall|id: u32| #[trigger] mid.functions.contains_key(id) implies mid.functions[id]
        < old.nodes.len() by {}
    assert forall|n: int| 0 <= n && #[trigger] mid.within(inner, n) implies old.within(
        roots,
        n,
    ) by {
        if n < mid.nodes.len() {
            let steps = choose|steps: nat| mid.reachable_within(inner, n, steps);
            lemma_reached_within(old, mid, roots, inner, n, steps);
        }
    }
    assert forall|n: int| 0 <= n < new.nodes.len() && old.within(roots, n) implies #[trigger] edges_within(
        new,
        old,
        roots,
        n,
    ) by {
        if mid.within(inner, n) {
            assert(edges_within(new, mid, inner, n));
            match new.nodes[n].expr {
                Expr::Ap(f, x) => {
                    assert(mid.within(inner, f as int));
                    assert(mid.within(inner, x as int));
                },
                Expr::Atom(_) => {},
            }
            match new.nodes[n].evaluated {
                Some(v) => {
                    assert(mid.within(inner, v as int));
                },
                None => {},
            }
        } else {
            assert(new.nodes[n] == mid.nodes[n]);
            assert(edges_within(mid, old, roots, n));
        }
    }
    assert forall|n: int| 0 <= n < old.nodes.len() && !old.reachable(roots, n) implies #[trigger] new.nodes[n]
        == old.nodes[n] by {
        if mid.reachable(inner, n) {
            assert(mid.within(inner, n));
        }
        assert(mid.nodes[n] == old.nodes[n]);
    }
}

impl GraphView {
    /// The graph with the slot of the node `n` empty.
    pub open spec fn forget(self, n: ExprRef) -> GraphView {
        GraphView {
            nodes: self.nodes.update(
                n as int,
                Node { expr: self.nodes[n as int].expr, evaluated: None },
            ),
            terms: self.terms,
            functions: self.functions,
            constants: self.constants,
            ids: self.ids,
        }
    }
}

/// Where `new` differs from a graph `mid` that stayed within the roots in
/// the slot of the node `e` alone, and that slot was empty in `old`, `new`
/// stayed within the roots but for that slot.
pub proof fn lemma_confined_forget(
    old: GraphView,
    mid: GraphView,
    new: GraphView,
    roots: Seq<ExprRef>,
    e: ExprRef,
)
    requires
        confined(mid, old, roots),
        old.contains(e),
        old.evaluated(e) is None,
        new.nodes.len() == mid.nodes.len(),
        new.constants == mid.constants,
        new.functions == mid.functions,
        forall|i: int| 0 <= i < mid.nodes.len() && i != e ==> #[trigger] new.nodes[i] == mid.nodes[i],
        new.nodes[e as int].expr == mid.nodes[e as int].expr,
    ensures
        confined(new.forget(e), old, roots),
{
    let g = new.forget(e);
    assert forall|n: int| 0 <= n < g.nodes.len() && old.within(roots, n) implies #[trigger] edges_within(
        g,
        old,
        roots,
        n,
    ) by {
        assert(edges_within(mid, old, roots, n));
        if n != e {
            assert(new.nodes[n] == mid.nodes[n]);
        }
    }
    assert forall|n: int| 0 <= n < old.nodes.len() && !old.reachable(roots, n) implies #[trigger] g.nodes[n]
        == old.nodes[n] by {
        assert(mid.nodes[n] == old.nodes[n]);
        if n != e {
            assert(new.nodes[n] == mid.nodes[n]);
        }
    }
}

/// What is reached from the roots lies among every set of nodes that holds
/// the roots, the constants and the bodies of the functions, and with a
/// node what it points to. So a node outside such a set is not reached.
pub proof fn lemma_reached_among(
    g: GraphView,
    roots: Seq<ExprRef>,
    among: Set<int>,
    n: int,
    steps: nat,
)
    requires
        forall|i: int| g.is_root(roots, i) ==> among.contains(i),
        forall|m: int, to: int|
            0 <= m < g.nodes.len() && among.contains(m) && #[trigger] g.points_to(m, to)
                ==> among.contains(to),
        g.reachable_within(roots, n, steps),
    ensures
        among.contains(n),
    decreases steps,
{
    if !g.is_root(roots, n) {
        let m = choose|m: int|
            0 <= m < g.nodes.len() && g.reachable_within(roots, m, (steps - 1) as nat)
                && #[trigger] g.points_to(m, n);
        lemma_reached_among(g, roots, among, m, (steps - 1) as nat);
    }
}

} // verus!
