//! Walkers: traversals that hold a position but no borrow of the graph, and
//! the combinators that build walkers from walkers.
//!
//! Every walker says, by `steps_to`, what one call of `walk_next` can yield
//! and how it leaves the walker. A walker that is `bounded` against a graph
//! is described further by `steps`: the sequence of the steps that it has yet
//! to yield against that graph. A `Recursive` walker is bounded where its
//! function leads to an end; a `Cycle` over a walk that is not empty never
//! is.
//!
//! The walkers that hold a function have a proof function `lemma_walker`
//! that writes out what the four say of them: callers who hold a walker
//! over a function of their own call it to learn them.

use vstd::prelude::*;
use vstd::pervasive::cloned;
use core::marker::PhantomData;
use crate::index::{EdgeId, NodeId};

verus! {

/// One call of `walk_next` on a walker whose remaining steps were `before`:
/// it yields the first of them and leaves the others, or yields nothing where
/// none was left.
pub open spec fn walked<T>(before: Seq<T>, step: Option<T>, after: Seq<T>) -> bool {
    if before.len() == 0 {
        step.is_none() && after.len() == 0
    } else {
        step == Some(before[0]) && after == before.drop_first()
    }
}

/// The first entry of a sequence, if it has one.
pub open spec fn head<T>(s: Seq<T>) -> Option<T> {
    if s.len() == 0 {
        None
    } else {
        Some(s[0])
    }
}

/// The smaller of a count and a length.
pub open spec fn at_most(n: int, len: nat) -> int {
    if n <= len {
        n
    } else {
        len as int
    }
}

/// The function `f` may be called on `graph` and `node`.
pub open spec fn may_step<G, F: Fn(&G, NodeId) -> Option<(EdgeId, NodeId)>>(
    f: F,
    graph: &G,
    node: NodeId,
) -> bool {
    call_requires(f, (graph, node))
}

/// The function `f` may be called on `graph` and `step`.
pub open spec fn may_call<G, T, R, F: Fn(&G, &T) -> R>(f: F, graph: &G, step: T) -> bool {
    call_requires(f, (graph, &step))
}

/// A traversal of a graph of type `G` that is handed the graph anew for each
/// step, so that the graph may be changed between steps.
pub trait Walker<G>: Sized {
    /// What one step yields.
    type Item;

    /// The walker may be stepped against `graph`.
    spec fn inv(&self, graph: &G) -> bool;

    /// The walk against `graph`, left unchanged, comes to an end, and `steps`
    /// lists it.
    spec fn bounded(&self, graph: &G) -> bool;

    /// The steps that remain against `graph`, in the order in which they are
    /// yielded.
    spec fn steps(&self, graph: &G) -> Seq<Self::Item>;

    /// One call of `walk_next` against `graph` can yield `step` and leave
    /// the walker as `after`.
    spec fn steps_to(&self, graph: &G, after: &Self, step: Option<Self::Item>) -> bool;

    /// Yields the next step of the walk, or `None` at its end.
    fn walk_next(&mut self, graph: &G) -> (step: Option<Self::Item>)
        requires
            old(self).inv(graph),
        ensures
            final(self).inv(graph),
            old(self).steps_to(graph, final(self), step),
            old(self).bounded(graph) ==> final(self).bounded(graph) && walked(
                old(self).steps(graph),
                step,
                final(self).steps(graph),
            ),
    ;

    /// The walk as an iteration that keeps hold of `graph`.
    fn iter<'a>(self, graph: &'a G) -> (iteration: WalkerIter<'a, Self, G>)
        ensures
            iteration.walker() == self,
            iteration.graph() == graph,
    {
        WalkerIter { walker: self, graph }
    }
}

/// Walks the whole of `a`, then the whole of `b`.
#[derive(Debug)]
pub struct Chain<G, A, B> {
    a: Option<A>,
    b: B,
    _graph: PhantomData<G>,
}

impl<G, A, B> Chain<G, A, B> {
    /// The first walker, as long as it has not come to its end.
    pub closed spec fn first(&self) -> Option<A> {
        self.a
    }

    /// The second walker.
    pub closed spec fn second(&self) -> B {
        self.b
    }

    /// A walker over the steps of `a` followed by those of `b`.
    pub fn new(a: A, b: B) -> (chain: Self)
        ensures
            chain.first() == Some(a),
            chain.second() == b,
    {
        Chain { a: Some(a), b, _graph: PhantomData }
    }
}

impl<G, A: Clone, B: Clone> Clone for Chain<G, A, B> {
    fn clone(&self) -> (copy: Self)
        ensures
            copy.first().is_some() == self.first().is_some(),
            self.first() matches Some(a) ==> cloned(a, copy.first().unwrap()),
            cloned(self.second(), copy.second()),
    {
        let a = match &self.a {
            Some(walker) => Some(walker.clone()),
            None => None,
        };
        Chain { a, b: self.b.clone(), _graph: PhantomData }
    }
}

impl<G, A, B> Walker<G> for Chain<G, A, B> where A: Walker<G>, B: Walker<G, Item = A::Item> {
    type Item = A::Item;

    open spec fn inv(&self, graph: &G) -> bool {
        &&& self.first() matches Some(a) ==> a.inv(graph)
        &&& self.second().inv(graph)
    }

    open spec fn bounded(&self, graph: &G) -> bool {
        &&& self.first() matches Some(a) ==> a.bounded(graph)
        &&& self.second().bounded(graph)
    }

    open spec fn steps(&self, graph: &G) -> Seq<A::Item> {
        match self.first() {
            Some(a) => a.steps(graph) + self.second().steps(graph),
            None => self.second().steps(graph),
        }
    }

    open spec fn steps_to(&self, graph: &G, after: &Self, step: Option<A::Item>) -> bool {
        match self.first() {
            Some(a) => {
                ||| exists|a2: A|
                    {
                        &&& #[trigger] a.steps_to(graph, &a2, step)
                        &&& step.is_some()
                        &&& after.first() == Some(a2)
                        &&& after.second() == self.second()
                    }
                ||| exists|a2: A|
                    {
                        &&& #[trigger] a.steps_to(graph, &a2, None)
                        &&& after.first().is_none()
                        &&& self.second().steps_to(graph, &after.second(), step)
                    }
            },
            None => after.first().is_none() && self.second().steps_to(
                graph,
                &after.second(),
                step,
            ),
        }
    }

    fn walk_next(&mut self, graph: &G) -> (step: Option<A::Item>) {
        let first = match &mut self.a {
            Some(walker) => walker.walk_next(graph),
            None => None,
        };
        proof {
            if old(self).a.is_some() {
                assert(old(self).a.unwrap().steps_to(graph, &self.a.unwrap(), first));
            }
        }
        match first {
            Some(step) => {
                proof {
                    if old(self).bounded(graph) {
                        let before = old(self).a.unwrap().steps(graph);
                        assert((before + self.b.steps(graph)).drop_first() =~= before.drop_first()
                            + self.b.steps(graph));
                    }
                }
                Some(step)
            },
            None => {
                proof {
                    if old(self).bounded(graph) && old(self).a.is_some() {
                        let before = old(self).a.unwrap().steps(graph);
                        assert(before + self.b.steps(graph) =~= self.b.steps(graph));
                    }
                }
                self.a = None;
                self.b.walk_next(graph)
            },
        }
    }
}

/// `n` calls of `walk_next` against `graph` can leave the walker `walker`
/// as `after`.
pub open spec fn passed_over<G, W: Walker<G>>(walker: W, graph: &G, n: nat, after: W) -> bool
    decreases n,
{
    if n == 0 {
        after == walker
    } else {
        exists|next: W, step: Option<W::Item>| #[trigger]
            walker.steps_to(graph, &next, step) && passed_over(
                next,
                graph,
                (n - 1) as nat,
                after,
            )
    }
}

/// Leaves out the first steps of a walk.
#[derive(Debug)]
pub struct Skip<G, W> {
    walker: W,
    to_skip: usize,
    _graph: PhantomData<G>,
}

impl<G, W> Skip<G, W> {
    /// The walker whose steps are left out or yielded.
    pub closed spec fn walker(&self) -> W {
        self.walker
    }

    /// How many steps are still to be left out.
    pub closed spec fn to_skip(&self) -> usize {
        self.to_skip
    }

    /// A walker over the steps of `walker` without the first `to_skip`.
    pub fn new(walker: W, to_skip: usize) -> (skip: Self)
        ensures
            skip.walker() == walker,
            skip.to_skip() == to_skip,
    {
        Skip { walker, to_skip, _graph: PhantomData }
    }
}

impl<G, W: Clone> Clone for Skip<G, W> {
    fn clone(&self) -> (copy: Self)
        ensures
            cloned(self.walker(), copy.walker()),
            copy.to_skip() == self.to_skip(),
    {
        Skip { walker: self.walker.clone(), to_skip: self.to_skip, _graph: PhantomData }
    }
}

impl<G, W> Walker<G> for Skip<G, W> where W: Walker<G> {
    type Item = W::Item;

    open spec fn inv(&self, graph: &G) -> bool {
        self.walker().inv(graph)
    }

    open spec fn bounded(&self, graph: &G) -> bool {
        self.walker().bounded(graph)
    }

    open spec fn steps(&self, graph: &G) -> Seq<W::Item> {
        let all = self.walker().steps(graph);
        all.skip(at_most(self.to_skip() as int, all.len()))
    }

    open spec fn steps_to(&self, graph: &G, after: &Self, step: Option<W::Item>) -> bool {
        &&& after.to_skip() == 0
        &&& exists|mid: W| #[trigger]
            passed_over(self.walker(), graph, self.to_skip() as nat, mid) && mid.steps_to(
                graph,
                &after.walker(),
                step,
            )
    }

    fn walk_next(&mut self, graph: &G) -> (step: Option<W::Item>) {
        let ghost all = self.walker.steps(graph);
        let ghost known = self.walker.bounded(graph);
        let ghost start = self.walker;
        let ghost count = self.to_skip as nat;
        if self.to_skip > 0 {
            let n = self.to_skip;
            let mut i: usize = 0;
            while i < n
                invariant
                    i <= n,
                    n == count,
                    self.to_skip == old(self).to_skip,
                    self.walker.inv(graph),
                    forall|mid: W| #[trigger]
                        passed_over(self.walker, graph, (n - i) as nat, mid) ==> passed_over(
                            start,
                            graph,
                            count,
                            mid,
                        ),
                    known ==> self.walker.bounded(graph) && self.walker.steps(graph) =~= all.skip(
                        at_most(i as int, all.len()),
                    ),
                decreases n - i,
            {
                let ghost before = self.walker;
                let passed = self.walker.walk_next(graph);
                proof {
                    assert forall|mid: W| #[trigger]
                        passed_over(self.walker, graph, (n - i - 1) as nat, mid) implies passed_over(
                        start,
                        graph,
                        count,
                        mid,
                    ) by {
                        assert(before.steps_to(graph, &self.walker, passed));
                        assert(passed_over(before, graph, (n - i) as nat, mid));
                    }
                }
                i += 1;
            }
            proof {
                assert(passed_over(self.walker, graph, (n - i) as nat, self.walker));
            }
            self.to_skip = 0;
        }
        proof {
            assert(passed_over(start, graph, count, self.walker));
        }
        let ghost here = self.walker.steps(graph);
        let ghost mid = self.walker;
        let step = self.walker.walk_next(graph);
        proof {
            assert(self.to_skip() == 0);
            assert(self.walker() == self.walker);
            assert(old(self).walker() == start);
            assert(old(self).to_skip() as nat == count);
            assert(passed_over(old(self).walker(), graph, old(self).to_skip() as nat, mid)
                && mid.steps_to(graph, &self.walker(), step));
            if known {
                assert(here =~= old(self).steps(graph));
                assert(self.walker.steps(graph).skip(0) =~= self.walker.steps(graph));
            }
        }
        step
    }
}

/// Stops a walk after a number of steps.
#[derive(Debug)]
pub struct Take<G, W> {
    walker: W,
    to_take: usize,
    _graph: PhantomData<G>,
}

impl<G, W> Take<G, W> {
    /// The walker whose steps are yielded.
    pub closed spec fn walker(&self) -> W {
        self.walker
    }

    /// How many steps may still be yielded.
    pub closed spec fn to_take(&self) -> usize {
        self.to_take
    }

    /// A walker over the first `to_take` steps of `walker`.
    pub fn new(walker: W, to_take: usize) -> (take: Self)
        ensures
            take.walker() == walker,
            take.to_take() == to_take,
    {
        Take { walker, to_take, _graph: PhantomData }
    }
}

impl<G, W: Clone> Clone for Take<G, W> {
    fn clone(&self) -> (copy: Self)
        ensures
            cloned(self.walker(), copy.walker()),
            copy.to_take() == self.to_take(),
    {
        Take { walker: self.walker.clone(), to_take: self.to_take, _graph: PhantomData }
    }
}

impl<G, W> Walker<G> for Take<G, W> where W: Walker<G> {
    type Item = W::Item;

    open spec fn inv(&self, graph: &G) -> bool {
        self.walker().inv(graph)
    }

    open spec fn bounded(&self, graph: &G) -> bool {
        self.walker().bounded(graph)
    }

    open spec fn steps(&self, graph: &G) -> Seq<W::Item> {
        let all = self.walker().steps(graph);
        all.take(at_most(self.to_take() as int, all.len()))
    }

    open spec fn steps_to(&self, graph: &G, after: &Self, step: Option<W::Item>) -> bool {
        if self.to_take() > 0 {
            after.to_take() == self.to_take() - 1 && self.walker().steps_to(
                graph,
                &after.walker(),
                step,
            )
        } else {
            step.is_none() && after.to_take() == 0 && after.walker() == self.walker()
        }
    }

    fn walk_next(&mut self, graph: &G) -> (step: Option<W::Item>) {
        if self.to_take > 0 {
            let ghost all = self.walker.steps(graph);
            self.to_take -= 1;
            let step = self.walker.walk_next(graph);
            proof {
                if old(self).bounded(graph) {
                    let rest = self.walker.steps(graph);
                    if all.len() > 0 {
                        assert(rest.take(at_most(self.to_take as int, rest.len())) =~= all.take(
                            at_most(old(self).to_take as int, all.len()),
                        ).drop_first());
                    }
                }
            }
            step
        } else {
            None
        }
    }
}

/// Starts a walk over again whenever it has come to its end.
#[derive(Debug)]
pub struct Cycle<G, W> {
    walker: W,
    clone: W,
    _graph: PhantomData<G>,
}

/// Every clone of `walker` walks `graph` as `walker` does.
pub open spec fn clones_walk_alike<G, W: Walker<G> + Clone>(walker: W, graph: &G) -> bool {
    forall|c: W| #[trigger]
        cloned(walker, c) ==> {
            &&& c.inv(graph)
            &&& walker.bounded(graph) ==> c.bounded(graph) && c.steps(graph) == walker.steps(
                graph,
            )
        }
}

impl<G, W> Cycle<G, W> where W: Clone {
    /// The walker as it was given, from which every round starts.
    pub closed spec fn walker(&self) -> W {
        self.walker
    }

    /// The clone that walks the current round.
    pub closed spec fn current(&self) -> W {
        self.clone
    }

    /// A walker that repeats the steps of `walker` without end.
    pub fn new(walker: W) -> (cycle: Self)
        ensures
            cycle.walker() == walker,
            cloned(walker, cycle.current()),
    {
        let clone = walker.clone();
        Cycle { walker, clone, _graph: PhantomData }
    }
}

impl<G, W: Clone> Clone for Cycle<G, W> {
    fn clone(&self) -> (copy: Self)
        ensures
            cloned(self.walker(), copy.walker()),
            cloned(self.current(), copy.current()),
    {
        Cycle { walker: self.walker.clone(), clone: self.clone.clone(), _graph: PhantomData }
    }
}

impl<G, W> Walker<G> for Cycle<G, W> where W: Walker<G> + Clone {
    type Item = W::Item;

    open spec fn inv(&self, graph: &G) -> bool {
        &&& self.walker().inv(graph)
        &&& self.current().inv(graph)
        &&& clones_walk_alike(self.walker(), graph)
    }

    /// Only the walk over nothing comes to an end.
    open spec fn bounded(&self, graph: &G) -> bool {
        &&& self.walker().bounded(graph)
        &&& self.current().bounded(graph)
        &&& self.walker().steps(graph).len() == 0
    }

    open spec fn steps(&self, graph: &G) -> Seq<W::Item> {
        self.current().steps(graph)
    }

    /// The clone yields its next step; or it is at its end, and a new clone
    /// of the walker as it was given yields its first.
    open spec fn steps_to(&self, graph: &G, after: &Self, step: Option<W::Item>) -> bool {
        &&& after.walker() == self.walker()
        &&& {
            ||| step.is_some() && self.current().steps_to(graph, &after.current(), step)
            ||| exists|spent: W, fresh: W|
                {
                    &&& #[trigger] self.current().steps_to(graph, &spent, None)
                    &&& #[trigger] cloned(self.walker(), fresh)
                    &&& fresh.steps_to(graph, &after.current(), step)
                }
        }
    }

    /// Where the walker and its clone are bounded, the call yields the next
    /// step of the current round; at the end of the round, the first step
    /// of the walker as it was given, with which the next round starts.
    fn walk_next(&mut self, graph: &G) -> (step: Option<W::Item>)
        ensures
            old(self).walker().bounded(graph) && old(self).current().bounded(graph) ==> {
                let round = old(self).current().steps(graph);
                let all = old(self).walker().steps(graph);
                &&& final(self).current().bounded(graph)
                &&& round.len() > 0 ==> walked(round, step, final(self).current().steps(graph))
                &&& round.len() == 0 ==> walked(all, step, final(self).current().steps(graph))
            },
    {
        let ghost before = self.clone;
        match self.clone.walk_next(graph) {
            Some(step) => Some(step),
            None => {
                let ghost spent = self.clone;
                self.clone = self.walker.clone();
                let ghost fresh = self.clone;
                assert(cloned(self.walker, self.clone));
                let step = self.clone.walk_next(graph);
                proof {
                    assert(before.steps_to(graph, &spent, None));
                    assert(cloned(self.walker(), fresh));
                    assert(fresh.steps_to(graph, &self.current(), step));
                }
                step
            },
        }
    }
}

/// Calls a function on every step before it yields it.
#[derive(Debug)]
pub struct Inspect<W, F> {
    walker: W,
    f: F,
}

impl<W, F> Inspect<W, F> {
    /// The walker whose steps are yielded.
    pub closed spec fn walker(&self) -> W {
        self.walker
    }

    /// The function that is shown every step.
    pub closed spec fn observer(&self) -> F {
        self.f
    }

    /// A walker over the steps of `walker` that shows each to `f` first.
    pub fn new(walker: W, f: F) -> (inspect: Self)
        ensures
            inspect.walker() == walker,
            inspect.observer() == f,
    {
        Inspect { walker, f }
    }
}

impl<W: Clone, F: Clone> Clone for Inspect<W, F> {
    fn clone(&self) -> (copy: Self)
        ensures
            cloned(self.walker(), copy.walker()),
            cloned(self.observer(), copy.observer()),
    {
        Inspect { walker: self.walker.clone(), f: self.f.clone() }
    }
}

impl<W, F> Inspect<W, F> {
    /// What `inv`, `bounded`, `steps` and `steps_to` say of this walker,
    /// over its walker and its function.
    pub proof fn lemma_walker<G>(&self, graph: &G, after: &Self, step: Option<W::Item>) where
        W: Walker<G>,
        F: Fn(&G, &W::Item),

        ensures
            self.inv(graph) == {
                &&& self.walker().inv(graph)
                &&& forall|step: W::Item| #[trigger] may_call(self.observer(), graph, step)
            },
            self.bounded(graph) == self.walker().bounded(graph),
            self.steps(graph) == self.walker().steps(graph),
            self.steps_to(graph, after, step) == (after.observer() == self.observer()
                && self.walker().steps_to(graph, &after.walker(), step)),
    {
    }
}

impl<G, W, F> Walker<G> for Inspect<W, F> where W: Walker<G>, F: Fn(&G, &W::Item) {
    type Item = W::Item;

    open spec fn inv(&self, graph: &G) -> bool {
        &&& self.walker().inv(graph)
        &&& forall|step: W::Item| #[trigger] may_call(self.observer(), graph, step)
    }

    open spec fn bounded(&self, graph: &G) -> bool {
        self.walker().bounded(graph)
    }

    open spec fn steps(&self, graph: &G) -> Seq<W::Item> {
        self.walker().steps(graph)
    }

    open spec fn steps_to(&self, graph: &G, after: &Self, step: Option<W::Item>) -> bool {
        after.observer() == self.observer() && self.walker().steps_to(
            graph,
            &after.walker(),
            step,
        )
    }

    fn walk_next(&mut self, graph: &G) -> (step: Option<W::Item>) {
        assert(self.observer() == self.f);
        assert(forall|step: W::Item| #[trigger] may_call(self.f, graph, step));
        match self.walker.walk_next(graph) {
            Some(item) => {
                assert(may_call(self.f, graph, item));
                (self.f)(graph, &item);
                Some(item)
            },
            None => None,
        }
    }
}

/// The predicate `p`, asked about `step`, can say yes.
pub open spec fn accepts<G, T, P: Fn(&G, &T) -> bool>(p: P, graph: &G, step: T) -> bool {
    call_ensures(p, (graph, &step), true)
}

/// The predicate `p`, asked about `step`, can give one answer only.
pub open spec fn decides<G, T, P: Fn(&G, &T) -> bool>(p: P, graph: &G, step: T) -> bool {
    !(call_ensures(p, (graph, &step), true) && call_ensures(p, (graph, &step), false))
}

/// The predicate `p` decides every step of `steps`.
pub open spec fn decides_all<G, T, P: Fn(&G, &T) -> bool>(p: P, graph: &G, steps: Seq<T>) -> bool {
    forall|i: int| 0 <= i < steps.len() ==> decides(p, graph, #[trigger] steps[i])
}

/// The steps up to the first that `p` does not accept.
pub open spec fn take_while<T>(steps: Seq<T>, p: spec_fn(T) -> bool) -> Seq<T>
    decreases steps.len(),
{
    if steps.len() == 0 || !p(steps[0]) {
        Seq::empty()
    } else {
        seq![steps[0]] + take_while(steps.drop_first(), p)
    }
}

/// The steps from the first that `p` does not accept.
pub open spec fn skip_while<T>(steps: Seq<T>, p: spec_fn(T) -> bool) -> Seq<T>
    decreases steps.len(),
{
    if steps.len() == 0 || !p(steps[0]) {
        steps
    } else {
        skip_while(steps.drop_first(), p)
    }
}

/// The predicate `p` was asked about the steps of `steps` in turn, up to the
/// first about which it answered `answer`: that one is `found`, and `rest`
/// is what follows it. Where it never answered so, nothing is found and
/// nothing is left.
pub open spec fn first_answering<G, T, P: Fn(&G, &T) -> bool>(
    p: P,
    graph: &G,
    steps: Seq<T>,
    answer: bool,
    found: Option<T>,
    rest: Seq<T>,
) -> bool {
    match found {
        Some(step) => exists|i: int|
            {
                &&& 0 <= i < steps.len()
                &&& #[trigger] steps[i] == step
                &&& call_ensures(p, (graph, &step), answer)
                &&& forall|j: int|
                    0 <= j < i ==> call_ensures(p, (graph, &#[trigger] steps[j]), !answer)
                &&& rest == steps.skip(i + 1)
            },
        None => {
            &&& forall|j: int|
                0 <= j < steps.len() ==> call_ensures(p, (graph, &#[trigger] steps[j]), !answer)
            &&& rest.len() == 0
        },
    }
}

/// Yields the steps that a predicate accepts.
#[derive(Debug)]
pub struct Filter<G, W, P> {
    walker: W,
    predicate: P,
    _graph: PhantomData<G>,
}

impl<G, W, P> Filter<G, W, P> {
    /// The walker whose steps are tested.
    pub closed spec fn walker(&self) -> W {
        self.walker
    }

    /// The predicate that tests them.
    pub closed spec fn predicate(&self) -> P {
        self.predicate
    }

    /// A walker over those steps of `walker` that `predicate` accepts.
    pub fn new(walker: W, predicate: P) -> (filter: Self) where
        W: Walker<G>,
        P: Fn(&G, &W::Item) -> bool,

        ensures
            filter.walker() == walker,
            filter.predicate() == predicate,
    {
        Filter { walker, predicate, _graph: PhantomData }
    }
}

impl<G, W: Clone, P: Clone> Clone for Filter<G, W, P> {
    fn clone(&self) -> (copy: Self)
        ensures
            cloned(self.walker(), copy.walker()),
            cloned(self.predicate(), copy.predicate()),
    {
        Filter {
            walker: self.walker.clone(),
            predicate: self.predicate.clone(),
            _graph: PhantomData,
        }
    }
}

impl<G, W, P> Filter<G, W, P> where W: Walker<G>, P: Fn(&G, &W::Item) -> bool {
    /// What `inv`, `bounded`, `steps` and `steps_to` say of this walker,
    /// over its walker and its predicate.
    pub proof fn lemma_walker(&self, graph: &G, after: &Self, step: Option<W::Item>)
        ensures
            self.inv(graph) == {
                &&& self.walker().inv(graph)
                &&& self.walker().bounded(graph)
                &&& forall|step: W::Item| #[trigger] may_call(self.predicate(), graph, step)
            },
            self.bounded(graph) == decides_all(
                self.predicate(),
                graph,
                self.walker().steps(graph),
            ),
            self.steps(graph) == self.walker().steps(graph).filter(
                |step: W::Item| accepts(self.predicate(), graph, step),
            ),
            self.steps_to(graph, after, step) == {
                &&& after.predicate() == self.predicate()
                &&& first_answering(
                    self.predicate(),
                    graph,
                    self.walker().steps(graph),
                    true,
                    step,
                    after.walker().steps(graph),
                )
            },
    {
    }
}

impl<G, W, P> Walker<G> for Filter<G, W, P> where W: Walker<G>, P: Fn(&G, &W::Item) -> bool {
    type Item = W::Item;

    /// The inner walk has to end, or the search for the next accepted step
    /// might not.
    open spec fn inv(&self, graph: &G) -> bool {
        &&& self.walker().inv(graph)
        &&& self.walker().bounded(graph)
        &&& forall|step: W::Item| #[trigger] may_call(self.predicate(), graph, step)
    }

    open spec fn bounded(&self, graph: &G) -> bool {
        decides_all(self.predicate(), graph, self.walker().steps(graph))
    }

    open spec fn steps(&self, graph: &G) -> Seq<W::Item> {
        self.walker().steps(graph).filter(|step: W::Item| accepts(self.predicate(), graph, step))
    }

    /// The step is the first of the walker's steps that the predicate
    /// accepted, after it refused those before; or there is none, and it
    /// refused them all.
    open spec fn steps_to(&self, graph: &G, after: &Self, step: Option<W::Item>) -> bool {
        &&& after.predicate() == self.predicate()
        &&& first_answering(
            self.predicate(),
            graph,
            self.walker().steps(graph),
            true,
            step,
            after.walker().steps(graph),
        )
    }

    fn walk_next(&mut self, graph: &G) -> (step: Option<W::Item>) {
        let ghost p = |step: W::Item| accepts(self.predicate, graph, step);
        let ghost before = self.walker.steps(graph);
        let ghost known = decides_all(self.predicate, graph, before);
        let ghost mut k: int = 0;
        proof {
            assert(self.predicate() == self.predicate);
            assert(self.walker() == self.walker);
            assert(forall|step: W::Item| #[trigger] may_call(self.predicate, graph, step));
        }
        loop
            invariant
                self.walker.inv(graph),
                self.walker.bounded(graph),
                self.predicate == old(self).predicate,
                p == (|step: W::Item| accepts(self.predicate, graph, step)),
                forall|step: W::Item| #[trigger] may_call(self.predicate, graph, step),
                known ==> decides_all(self.predicate, graph, self.walker.steps(graph)),
                known ==> self.walker.steps(graph).filter(p) == before.filter(p),
                old(self).steps(graph) == before.filter(p),
                known == old(self).bounded(graph),
                before == old(self).walker.steps(graph),
                0 <= k <= before.len(),
                self.walker.steps(graph) =~= before.skip(k),
                forall|j: int|
                    0 <= j < k ==> call_ensures(self.predicate, (graph, &#[trigger] before[j]), false),
            decreases self.walker.steps(graph).len(),
        {
            let ghost here = self.walker.steps(graph);
            match self.walker.walk_next(graph) {
                Some(item) => {
                    proof {
                        let rest = self.walker.steps(graph);
                        assert(before.skip(k).drop_first() =~= before.skip(k + 1));
                        assert(before[k] == item);
                        assert(here =~= seq![item] + rest);
                        rest.lemma_filter_prepend(item, p);
                        assert(may_call(self.predicate, graph, item));
                        if known {
                            assert(decides(self.predicate, graph, here[0]));
                            assert forall|i: int| 0 <= i < rest.len() implies decides(
                                self.predicate,
                                graph,
                                #[trigger] rest[i],
                            ) by {
                                assert(rest[i] == here[i + 1]);
                            }
                        }
                    }
                    if (self.predicate)(graph, &item) {
                        proof {
                            let rest = self.walker.steps(graph);
                            assert((seq![item] + rest.filter(p)).drop_first() =~= rest.filter(p));
                            assert(self.steps(graph) == rest.filter(p));
                            assert(self.walker() == self.walker);
                            assert(self.predicate() == self.predicate);
                        }
                        return Some(item);
                    }
                    proof {
                        k = k + 1;
                    }
                },
                None => {
                    proof {
                        assert(here =~= Seq::<W::Item>::empty());
                        assert(here.filter(p) =~= Seq::<W::Item>::empty()) by {
                            reveal(Seq::filter);
                        }
                        assert(self.steps(graph) == self.walker.steps(graph).filter(p));
                        self.walker.steps(graph).lemma_filter_len(p);
                        assert(self.walker() == self.walker);
                        assert(self.predicate() == self.predicate);
                        assert(k == before.len());
                    }
                    return None;
                },
            }
        }
    }
}

/// Leaves out the steps that a predicate accepts, up to the first that it
/// does not accept, and yields that one and all that follow.
#[derive(Debug)]
pub struct SkipWhile<G, W, P> {
    walker: W,
    maybe_predicate: Option<P>,
    _graph: PhantomData<G>,
}

impl<G, W, P> SkipWhile<G, W, P> {
    /// The walker whose steps are tested.
    pub closed spec fn walker(&self) -> W {
        self.walker
    }

    /// The predicate, as long as it is still asked.
    pub closed spec fn predicate(&self) -> Option<P> {
        self.maybe_predicate
    }

    /// A walker over the steps of `walker` from the first that `predicate`
    /// does not accept.
    pub fn new(walker: W, predicate: P) -> (skip_while: Self) where
        W: Walker<G>,
        P: Fn(&G, &W::Item) -> bool,

        ensures
            skip_while.walker() == walker,
            skip_while.predicate() == Some(predicate),
    {
        SkipWhile { walker, maybe_predicate: Some(predicate), _graph: PhantomData }
    }
}

impl<G, W: Clone, P: Clone> Clone for SkipWhile<G, W, P> {
    fn clone(&self) -> (copy: Self)
        ensures
            cloned(self.walker(), copy.walker()),
            copy.predicate().is_some() == self.predicate().is_some(),
            self.predicate() matches Some(p) ==> cloned(p, copy.predicate().unwrap()),
    {
        let maybe_predicate = match &self.maybe_predicate {
            Some(p) => Some(p.clone()),
            None => None,
        };
        SkipWhile { walker: self.walker.clone(), maybe_predicate, _graph: PhantomData }
    }
}

impl<G, W, P> SkipWhile<G, W, P> where W: Walker<G>, P: Fn(&G, &W::Item) -> bool {
    /// What `inv`, `bounded`, `steps` and `steps_to` say of this walker,
    /// over its walker and its predicate.
    pub proof fn lemma_walker(&self, graph: &G, after: &Self, step: Option<W::Item>)
        ensures
            self.inv(graph) == {
                &&& self.walker().inv(graph)
                &&& self.predicate() matches Some(p) ==> {
                    &&& self.walker().bounded(graph)
                    &&& forall|step: W::Item| #[trigger] may_call(p, graph, step)
                }
            },
            self.bounded(graph) == {
                &&& self.walker().bounded(graph)
                &&& self.predicate() matches Some(p) ==> decides_all(
                    p,
                    graph,
                    self.walker().steps(graph),
                )
            },
            self.steps(graph) == (match self.predicate() {
                Some(p) => skip_while(
                    self.walker().steps(graph),
                    |step: W::Item| accepts(p, graph, step),
                ),
                None => self.walker().steps(graph),
            }),
            self.steps_to(graph, after, step) == {
                &&& after.predicate().is_none()
                &&& match self.predicate() {
                    Some(p) => first_answering(
                        p,
                        graph,
                        self.walker().steps(graph),
                        false,
                        step,
                        after.walker().steps(graph),
                    ),
                    None => self.walker().steps_to(graph, &after.walker(), step),
                }
            },
    {
    }
}

impl<G, W, P> Walker<G> for SkipWhile<G, W, P> where W: Walker<G>, P: Fn(&G, &W::Item) -> bool {
    type Item = W::Item;

    /// While the predicate is asked, the inner walk has to end, or the
    /// search for the first step that is not accepted might not.
    open spec fn inv(&self, graph: &G) -> bool {
        &&& self.walker().inv(graph)
        &&& self.predicate() matches Some(p) ==> {
            &&& self.walker().bounded(graph)
            &&& forall|step: W::Item| #[trigger] may_call(p, graph, step)
        }
    }

    open spec fn bounded(&self, graph: &G) -> bool {
        &&& self.walker().bounded(graph)
        &&& self.predicate() matches Some(p) ==> decides_all(p, graph, self.walker().steps(graph))
    }

    open spec fn steps(&self, graph: &G) -> Seq<W::Item> {
        match self.predicate() {
            Some(p) => skip_while(
                self.walker().steps(graph),
                |step: W::Item| accepts(p, graph, step),
            ),
            None => self.walker().steps(graph),
        }
    }

    /// While the predicate is asked, the step is the first of the walker's
    /// steps that it refused, after it accepted those before; from then on
    /// the walker's own next step.
    open spec fn steps_to(&self, graph: &G, after: &Self, step: Option<W::Item>) -> bool {
        &&& after.predicate().is_none()
        &&& match self.predicate() {
            Some(p) => first_answering(
                p,
                graph,
                self.walker().steps(graph),
                false,
                step,
                after.walker().steps(graph),
            ),
            None => self.walker().steps_to(graph, &after.walker(), step),
        }
    }

    fn walk_next(&mut self, graph: &G) -> (step: Option<W::Item>) {
        proof {
            assert(self.predicate() == self.maybe_predicate);
            assert(self.walker() == self.walker);
        }
        let ghost known = self.bounded(graph);
        match self.maybe_predicate.take() {
            Some(predicate) => {
                let ghost p = |step: W::Item| accepts(predicate, graph, step);
                let ghost before = self.walker.steps(graph);
                let ghost mut k: int = 0;
                loop
                    invariant
                        self.walker.inv(graph),
                        self.walker.bounded(graph),
                        self.maybe_predicate.is_none(),
                        p == (|step: W::Item| accepts(predicate, graph, step)),
                        forall|step: W::Item| #[trigger] may_call(predicate, graph, step),
                        known ==> decides_all(predicate, graph, self.walker.steps(graph)),
                        known ==> skip_while(self.walker.steps(graph), p) == skip_while(before, p),
                        old(self).steps(graph) == skip_while(before, p),
                        known == old(self).bounded(graph),
                        old(self).maybe_predicate == Some(predicate),
                        before == old(self).walker.steps(graph),
                        0 <= k <= before.len(),
                        self.walker.steps(graph) =~= before.skip(k),
                        forall|j: int|
                            0 <= j < k ==> call_ensures(
                                predicate,
                                (graph, &#[trigger] before[j]),
                                true,
                            ),
                    decreases self.walker.steps(graph).len(),
                {
                    let ghost here = self.walker.steps(graph);
                    match self.walker.walk_next(graph) {
                        Some(item) => {
                            proof {
                                let rest = self.walker.steps(graph);
                                assert(before.skip(k).drop_first() =~= before.skip(k + 1));
                                assert(before[k] == item);
                                assert(may_call(predicate, graph, item));
                                if known {
                                    assert(decides(predicate, graph, here[0]));
                                    assert forall|i: int| 0 <= i < rest.len() implies decides(
                                        predicate,
                                        graph,
                                        #[trigger] rest[i],
                                    ) by {
                                        assert(rest[i] == here[i + 1]);
                                    }
                                }
                            }
                            if !predicate(graph, &item) {
                                proof {
                                    assert(self.walker() == self.walker);
                                    assert(self.predicate() == self.maybe_predicate);
                                }
                                return Some(item);
                            }
                            proof {
                                k = k + 1;
                            }
                        },
                        None => {
                            proof {
                                assert(self.walker() == self.walker);
                                assert(self.predicate() == self.maybe_predicate);
                            }
                            return None;
                        },
                    }
                }
            },
            None => {
                let step = self.walker.walk_next(graph);
                proof {
                    assert(self.walker() == self.walker);
                    assert(self.predicate() == self.maybe_predicate);
                }
                step
            },
        }
    }
}

/// Yields the steps that a predicate accepts, up to the first that it does
/// not accept, and nothing from there on.
#[derive(Debug)]
pub struct TakeWhile<G, W, P> {
    maybe_walker: Option<W>,
    predicate: P,
    _graph: PhantomData<G>,
}

impl<G, W, P> TakeWhile<G, W, P> {
    /// The walker whose steps are tested, as long as none was refused.
    pub closed spec fn walker(&self) -> Option<W> {
        self.maybe_walker
    }

    /// The predicate that tests them.
    pub closed spec fn predicate(&self) -> P {
        self.predicate
    }

    /// A walker over the steps of `walker` up to the first that `predicate`
    /// does not accept.
    pub fn new(walker: W, predicate: P) -> (take_while: Self) where
        W: Walker<G>,
        P: Fn(&G, &W::Item) -> bool,

        ensures
            take_while.walker() == Some(walker),
            take_while.predicate() == predicate,
    {
        TakeWhile { maybe_walker: Some(walker), predicate, _graph: PhantomData }
    }
}

impl<G, W: Clone, P: Clone> Clone for TakeWhile<G, W, P> {
    fn clone(&self) -> (copy: Self)
        ensures
            copy.walker().is_some() == self.walker().is_some(),
            self.walker() matches Some(w) ==> cloned(w, copy.walker().unwrap()),
            cloned(self.predicate(), copy.predicate()),
    {
        let maybe_walker = match &self.maybe_walker {
            Some(w) => Some(w.clone()),
            None => None,
        };
        TakeWhile { maybe_walker, predicate: self.predicate.clone(), _graph: PhantomData }
    }
}

impl<G, W, P> TakeWhile<G, W, P> where W: Walker<G>, P: Fn(&G, &W::Item) -> bool {
    /// What `inv`, `bounded`, `steps` and `steps_to` say of this walker,
    /// over its walker and its predicate.
    pub proof fn lemma_walker(&self, graph: &G, after: &Self, step: Option<W::Item>)
        ensures
            self.inv(graph) == {
                &&& self.walker() matches Some(w) ==> w.inv(graph)
                &&& forall|step: W::Item| #[trigger] may_call(self.predicate(), graph, step)
            },
            self.bounded(graph) == (self.walker() matches Some(w) ==> w.bounded(graph)
                && decides_all(self.predicate(), graph, w.steps(graph))),
            self.steps(graph) == (match self.walker() {
                Some(w) => take_while(
                    w.steps(graph),
                    |step: W::Item| accepts(self.predicate(), graph, step),
                ),
                None => Seq::empty(),
            }),
            self.steps_to(graph, after, step) == {
                &&& after.predicate() == self.predicate()
                &&& match self.walker() {
                    Some(w) => exists|next: W, taken: Option<W::Item>|
                        {
                            &&& #[trigger] w.steps_to(graph, &next, taken)
                            &&& match taken {
                                Some(x) => {
                                    ||| call_ensures(self.predicate(), (graph, &x), true) && step
                                        == taken && after.walker() == Some(next)
                                    ||| call_ensures(self.predicate(), (graph, &x), false)
                                        && step.is_none() && after.walker().is_none()
                                },
                                None => step.is_none() && after.walker() == Some(next),
                            }
                        },
                    None => step.is_none() && after.walker().is_none(),
                }
            },
    {
    }
}

impl<G, W, P> Walker<G> for TakeWhile<G, W, P> where W: Walker<G>, P: Fn(&G, &W::Item) -> bool {
    type Item = W::Item;

    open spec fn inv(&self, graph: &G) -> bool {
        &&& self.walker() matches Some(w) ==> w.inv(graph)
        &&& forall|step: W::Item| #[trigger] may_call(self.predicate(), graph, step)
    }

    open spec fn bounded(&self, graph: &G) -> bool {
        self.walker() matches Some(w) ==> w.bounded(graph) && decides_all(
            self.predicate(),
            graph,
            w.steps(graph),
        )
    }

    open spec fn steps(&self, graph: &G) -> Seq<W::Item> {
        match self.walker() {
            Some(w) => take_while(
                w.steps(graph),
                |step: W::Item| accepts(self.predicate(), graph, step),
            ),
            None => Seq::empty(),
        }
    }

    /// The walker's next step, where the predicate accepted it; nothing,
    /// where the walker is at its end, or the predicate refused the step:
    /// then, and from then on, nothing more is asked of the walker.
    open spec fn steps_to(&self, graph: &G, after: &Self, step: Option<W::Item>) -> bool {
        &&& after.predicate() == self.predicate()
        &&& match self.walker() {
            Some(w) => exists|next: W, taken: Option<W::Item>|
                {
                    &&& #[trigger] w.steps_to(graph, &next, taken)
                    &&& match taken {
                        Some(x) => {
                            ||| call_ensures(self.predicate(), (graph, &x), true) && step == taken
                                && after.walker() == Some(next)
                            ||| call_ensures(self.predicate(), (graph, &x), false)
                                && step.is_none() && after.walker().is_none()
                        },
                        None => step.is_none() && after.walker() == Some(next),
                    }
                },
            None => step.is_none() && after.walker().is_none(),
        }
    }

    fn walk_next(&mut self, graph: &G) -> (step: Option<W::Item>) {
        proof {
            assert(self.predicate() == self.predicate);
            assert(self.walker() == self.maybe_walker);
            assert(forall|step: W::Item| #[trigger] may_call(self.predicate, graph, step));
        }
        let ghost p = |step: W::Item| accepts(self.predicate, graph, step);
        let maybe_next_idx_pair = match &mut self.maybe_walker {
            Some(walker) => walker.walk_next(graph),
            None => None,
        };
        let ghost next = self.maybe_walker;
        proof {
            assert(self.walker() == self.maybe_walker);
            if old(self).maybe_walker.is_some() {
                assert(old(self).maybe_walker.unwrap().steps_to(
                    graph,
                    &next.unwrap(),
                    maybe_next_idx_pair,
                ));
            }
        }
        if let Some(item) = maybe_next_idx_pair {
            let ghost here = old(self).maybe_walker.unwrap().steps(graph);
            proof {
                assert(may_call(self.predicate, graph, item));
                if old(self).bounded(graph) {
                    let rest = self.maybe_walker.unwrap().steps(graph);
                    assert(decides(self.predicate, graph, here[0]));
                    assert forall|i: int| 0 <= i < rest.len() implies decides(
                        self.predicate,
                        graph,
                        #[trigger] rest[i],
                    ) by {
                        assert(rest[i] == here[i + 1]);
                    }
                    assert((seq![item] + take_while(rest, p)).drop_first() =~= take_while(rest, p));
                }
            }
            if (self.predicate)(graph, &item) {
                return Some(item);
            } else {
                self.maybe_walker = None;
                proof {
                    assert(self.walker() == self.maybe_walker);
                }
            }
        }
        None
    }
}

/// A walker whose next step can be looked at before it is taken.
#[derive(Debug)]
pub struct Peekable<G, W> where W: Walker<G> {
    walker: W,
    maybe_next: Option<W::Item>,
    _graph: PhantomData<G>,
}

impl<G, W> Peekable<G, W> where W: Walker<G> {
    /// The walker behind.
    pub closed spec fn walker(&self) -> W {
        self.walker
    }

    /// The step that was looked at and not taken yet.
    pub closed spec fn peeked(&self) -> Option<W::Item> {
        self.maybe_next
    }

    /// A walker over the steps of `walker`.
    pub fn new(walker: W) -> (peekable: Self)
        ensures
            peekable.walker() == walker,
            peekable.peeked().is_none(),
    {
        Peekable { walker, maybe_next: None, _graph: PhantomData }
    }

    /// The next step, which stays the next step.
    pub fn peek(&mut self, graph: &G) -> (next: Option<&W::Item>)
        requires
            old(self).inv(graph),
        ensures
            final(self).inv(graph),
            match old(self).peeked() {
                Some(step) => *final(self) == *old(self) && next == Some(&step),
                None => old(self).walker().steps_to(
                    graph,
                    &final(self).walker(),
                    final(self).peeked(),
                ) && next == (match final(self).peeked() {
                    Some(step) => Some(&step),
                    None => None,
                }),
            },
            old(self).bounded(graph) ==> {
                &&& final(self).bounded(graph)
                &&& final(self).steps(graph) == old(self).steps(graph)
                &&& next.is_some() == (old(self).steps(graph).len() > 0)
                &&& next matches Some(step) ==> *step == old(self).steps(graph)[0]
                &&& (match next {
                    Some(step) => Some(*step),
                    None => None,
                }) == head(old(self).steps(graph))
            },
    {
        if self.maybe_next.is_none() {
            let ghost here = self.walker.steps(graph);
            self.maybe_next = self.walker.walk_next(graph);
            proof {
                if old(self).bounded(graph) && here.len() > 0 {
                    assert(seq![here[0]] + here.drop_first() =~= here);
                }
            }
        }
        self.maybe_next.as_ref()
    }
}

impl<G, W> Clone for Peekable<G, W> where W: Walker<G> + Clone, W::Item: Clone {
    fn clone(&self) -> (copy: Self)
        ensures
            cloned(self.walker(), copy.walker()),
            copy.peeked().is_some() == self.peeked().is_some(),
            self.peeked() matches Some(step) ==> cloned(step, copy.peeked().unwrap()),
    {
        let maybe_next = match &self.maybe_next {
            Some(step) => Some(step.clone()),
            None => None,
        };
        Peekable { walker: self.walker.clone(), maybe_next, _graph: PhantomData }
    }
}

impl<G, W> Walker<G> for Peekable<G, W> where W: Walker<G> {
    type Item = W::Item;

    open spec fn inv(&self, graph: &G) -> bool {
        self.walker().inv(graph)
    }

    open spec fn bounded(&self, graph: &G) -> bool {
        self.walker().bounded(graph)
    }

    open spec fn steps(&self, graph: &G) -> Seq<W::Item> {
        match self.peeked() {
            Some(step) => seq![step] + self.walker().steps(graph),
            None => self.walker().steps(graph),
        }
    }

    open spec fn steps_to(&self, graph: &G, after: &Self, step: Option<W::Item>) -> bool {
        &&& after.peeked().is_none()
        &&& match self.peeked() {
            Some(next) => step == Some(next) && after.walker() == self.walker(),
            None => self.walker().steps_to(graph, &after.walker(), step),
        }
    }

    fn walk_next(&mut self, graph: &G) -> (step: Option<W::Item>) {
        match self.maybe_next.take() {
            Some(step) => {
                proof {
                    let rest = self.walker.steps(graph);
                    assert((seq![step] + rest).drop_first() =~= rest);
                }
                Some(step)
            },
            None => self.walker.walk_next(graph),
        }
    }
}

/// From node `n` the function `f` yields the steps of `s`, each from the
/// node that the step before reached, and after them nothing.
pub open spec fn leads<G, F: Fn(&G, NodeId) -> Option<(EdgeId, NodeId)>>(
    f: F,
    graph: &G,
    n: NodeId,
    s: Seq<(EdgeId, NodeId)>,
) -> bool
    decreases s.len(),
{
    if s.len() == 0 {
        forall|r: Option<(EdgeId, NodeId)>| #[trigger] call_ensures(f, (graph, n), r) ==> r.is_none()
    } else {
        &&& forall|r: Option<(EdgeId, NodeId)>| #[trigger]
            call_ensures(f, (graph, n), r) ==> r == Some(s[0])
        &&& leads(f, graph, s[0].1, s.drop_first())
    }
}

/// What `leads` says of a function, a node and steps, written out.
pub proof fn lemma_leads<G, F: Fn(&G, NodeId) -> Option<(EdgeId, NodeId)>>(
    f: F,
    graph: &G,
    n: NodeId,
    s: Seq<(EdgeId, NodeId)>,
)
    ensures
        leads(f, graph, n, s) == (if s.len() == 0 {
            forall|r: Option<(EdgeId, NodeId)>| #[trigger]
                call_ensures(f, (graph, n), r) ==> r.is_none()
        } else {
            &&& forall|r: Option<(EdgeId, NodeId)>| #[trigger]
                call_ensures(f, (graph, n), r) ==> r == Some(s[0])
            &&& leads(f, graph, s[0].1, s.drop_first())
        }),
{
}

/// The function `f` leads from `n` over `s` to its end, and over no fewer
/// steps.
pub open spec fn leads_shortest<G, F: Fn(&G, NodeId) -> Option<(EdgeId, NodeId)>>(
    f: F,
    graph: &G,
    n: NodeId,
    s: Seq<(EdgeId, NodeId)>,
) -> bool {
    &&& leads(f, graph, n, s)
    &&& forall|t: Seq<(EdgeId, NodeId)>| #[trigger] leads(f, graph, n, t) ==> s.len() <= t.len()
}

/// Where the function leads to its end at all, it does so over a smallest
/// number of steps.
pub proof fn lemma_leads_shortest_exists<G, F: Fn(&G, NodeId) -> Option<(EdgeId, NodeId)>>(
    f: F,
    graph: &G,
    n: NodeId,
    s: Seq<(EdgeId, NodeId)>,
)
    requires
        leads(f, graph, n, s),
    ensures
        exists|t: Seq<(EdgeId, NodeId)>| #[trigger]
            leads_shortest(f, graph, n, t) && t.len() <= s.len(),
    decreases s.len(),
{
    if forall|t: Seq<(EdgeId, NodeId)>| #[trigger] leads(f, graph, n, t) ==> s.len() <= t.len() {
        assert(leads_shortest(f, graph, n, s));
    } else {
        let t = choose|t: Seq<(EdgeId, NodeId)>| #[trigger]
            leads(f, graph, n, t) && t.len() < s.len();
        lemma_leads_shortest_exists(f, graph, n, t);
    }
}

/// The steps behind the first of a shortest way to the end are a shortest
/// way from the node that the first step reached.
pub proof fn lemma_leads_shortest_tail<G, F: Fn(&G, NodeId) -> Option<(EdgeId, NodeId)>>(
    f: F,
    graph: &G,
    n: NodeId,
    s: Seq<(EdgeId, NodeId)>,
)
    requires
        leads_shortest(f, graph, n, s),
        s.len() > 0,
    ensures
        leads_shortest(f, graph, s[0].1, s.drop_first()),
{
    assert forall|t: Seq<(EdgeId, NodeId)>| #[trigger]
        leads(f, graph, s[0].1, t) implies s.drop_first().len() <= t.len() by {
        let u = seq![s[0]] + t;
        assert(u.drop_first() =~= t);
        assert(u[0] == s[0]);
        assert(leads(f, graph, n, u));
    }
}

/// There is one shortest way to the end only.
pub proof fn lemma_leads_shortest_unique<G, F: Fn(&G, NodeId) -> Option<(EdgeId, NodeId)>>(
    f: F,
    graph: &G,
    n: NodeId,
    s: Seq<(EdgeId, NodeId)>,
    t: Seq<(EdgeId, NodeId)>,
)
    requires
        leads_shortest(f, graph, n, s),
        leads_shortest(f, graph, n, t),
    ensures
        s == t,
    decreases s.len(),
{
    assert(s.len() == t.len());
    if s.len() == 0 {
        assert(s =~= t);
    } else {
        let none = Seq::<(EdgeId, NodeId)>::empty();
        assert(!leads(f, graph, n, none));
        let r = choose|r: Option<(EdgeId, NodeId)>| #[trigger]
            call_ensures(f, (graph, n), r) && !r.is_none();
        assert(r == Some(s[0]));
        assert(r == Some(t[0]));
        lemma_leads_shortest_tail(f, graph, n, s);
        lemma_leads_shortest_tail(f, graph, n, t);
        lemma_leads_shortest_unique(f, graph, s[0].1, s.drop_first(), t.drop_first());
        assert(s =~= seq![s[0]] + s.drop_first());
        assert(t =~= seq![t[0]] + t.drop_first());
    }
}

/// Walks from node to node as a function directs: each step leads from the
/// node that the step before reached.
#[derive(Debug)]
pub struct Recursive<G, F> {
    next: NodeId,
    recursive_fn: F,
    _graph: PhantomData<G>,
}

impl<G, F> Recursive<G, F> {
    /// The node from which the next step is made.
    pub closed spec fn position(&self) -> NodeId {
        self.next
    }

    /// The function that makes the steps.
    pub closed spec fn step_fn(&self) -> F {
        self.recursive_fn
    }
}

impl<G, F> Recursive<G, F> where F: Fn(&G, NodeId) -> Option<(EdgeId, NodeId)> {
    /// A walker that starts at `start` and steps as `recursive_fn` directs.
    pub fn new(start: NodeId, recursive_fn: F) -> (recursive: Self)
        ensures
            recursive.position() == start,
            recursive.step_fn() == recursive_fn,
    {
        Recursive { next: start, recursive_fn, _graph: PhantomData }
    }

    /// Makes the next step: what the function yields for the current node.
    /// Where that is a step, the walker moves to the node it reached.
    pub fn next(&mut self, g: &G) -> (step: Option<(EdgeId, NodeId)>)
        requires
            forall|n: NodeId| #[trigger] may_step(old(self).step_fn(), g, n),
        ensures
            forall|n: NodeId| #[trigger] may_step(final(self).step_fn(), g, n),
            call_ensures(old(self).step_fn(), (g, old(self).position()), step),
            final(self).step_fn() == old(self).step_fn(),
            final(self).position() == (match step {
                Some((_, n)) => n,
                None => old(self).position(),
            }),
    {
        proof {
            assert(self.step_fn() == self.recursive_fn);
            assert(may_step(self.recursive_fn, g, self.next));
        }
        match (self.recursive_fn)(g, self.next) {
            Some((e, n)) => {
                self.next = n;
                Some((e, n))
            },
            None => None,
        }
    }
}

impl<G, F: Clone> Clone for Recursive<G, F> {
    fn clone(&self) -> (copy: Self)
        ensures
            copy.position() == self.position(),
            cloned(self.step_fn(), copy.step_fn()),
    {
        Recursive { next: self.next, recursive_fn: self.recursive_fn.clone(), _graph: PhantomData }
    }
}

impl<G, F> Walker<G> for Recursive<G, F> where F: Fn(&G, NodeId) -> Option<(EdgeId, NodeId)> {
    type Item = (EdgeId, NodeId);

    open spec fn inv(&self, graph: &G) -> bool {
        forall|n: NodeId| #[trigger] may_step(self.step_fn(), graph, n)
    }

    /// The walk ends where the function leads from node to node over some
    /// steps and then yields nothing.
    open spec fn bounded(&self, graph: &G) -> bool {
        exists|s: Seq<(EdgeId, NodeId)>| #[trigger]
            leads(self.step_fn(), graph, self.position(), s)
    }

    /// The steps over which the function leads to its end.
    open spec fn steps(&self, graph: &G) -> Seq<(EdgeId, NodeId)> {
        choose|s: Seq<(EdgeId, NodeId)>| #[trigger]
            leads_shortest(self.step_fn(), graph, self.position(), s)
    }

    /// The step is what the function yields for the node at which the
    /// walker stands, and the walker moves to the node that the step reached.
    open spec fn steps_to(&self, graph: &G, after: &Self, step: Option<(EdgeId, NodeId)>) -> bool {
        &&& call_ensures(self.step_fn(), (graph, self.position()), step)
        &&& after.step_fn() == self.step_fn()
        &&& after.position() == (match step {
            Some((_, n)) => n,
            None => self.position(),
        })
    }

    fn walk_next(&mut self, graph: &G) -> (step: Option<(EdgeId, NodeId)>) {
        let step = self.next(graph);
        proof {
            if old(self).bounded(graph) {
                let f = old(self).step_fn();
                let n = old(self).position();
                let some = choose|s: Seq<(EdgeId, NodeId)>| #[trigger] leads(f, graph, n, s);
                lemma_leads_shortest_exists(f, graph, n, some);
                let s = old(self).steps(graph);
                assert(leads_shortest(f, graph, n, s));
                assert(call_ensures(f, (graph, n), step));
                match step {
                    None => {
                        assert(leads(f, graph, self.position(), s));
                    },
                    Some((_, m)) => {
                        assert(step == Some(s[0]));
                        lemma_leads_shortest_tail(f, graph, n, s);
                        let rest = s.drop_first();
                        assert(leads(f, graph, self.position(), rest));
                        lemma_leads_shortest_exists(f, graph, m, rest);
                        lemma_leads_shortest_unique(f, graph, m, self.steps(graph), rest);
                    },
                }
            }
        }
        step
    }
}

impl<G, F> Recursive<G, F> where F: Fn(&G, NodeId) -> Option<(EdgeId, NodeId)> {
    /// What `inv`, `bounded`, `steps` and `steps_to` say of this walker,
    /// over its function and the node at which it stands.
    pub proof fn lemma_walker(&self, graph: &G, after: &Self, step: Option<(EdgeId, NodeId)>)
        ensures
            self.inv(graph) == (forall|n: NodeId| #[trigger] may_step(self.step_fn(), graph, n)),
            self.bounded(graph) == (exists|s: Seq<(EdgeId, NodeId)>| #[trigger]
                leads(self.step_fn(), graph, self.position(), s)),
            self.bounded(graph) ==> leads_shortest(
                self.step_fn(),
                graph,
                self.position(),
                self.steps(graph),
            ),
            self.steps_to(graph, after, step) == {
                &&& call_ensures(self.step_fn(), (graph, self.position()), step)
                &&& after.step_fn() == self.step_fn()
                &&& after.position() == (match step {
                    Some((_, n)) => n,
                    None => self.position(),
                })
            },
    {
        if self.bounded(graph) {
            let s = choose|s: Seq<(EdgeId, NodeId)>| #[trigger]
                leads(self.step_fn(), graph, self.position(), s);
            lemma_leads_shortest_exists(self.step_fn(), graph, self.position(), s);
        }
    }

    /// A walker whose function leads over the steps of `s` to its end is
    /// bounded, and its steps lead to the end over no more steps than `s`.
    pub proof fn lemma_bounded(&self, graph: &G, s: Seq<(EdgeId, NodeId)>)
        requires
            leads(self.step_fn(), graph, self.position(), s),
        ensures
            self.bounded(graph),
            leads(self.step_fn(), graph, self.position(), self.steps(graph)),
            0 <= self.steps(graph).len() <= s.len(),
    {
        lemma_leads_shortest_exists(self.step_fn(), graph, self.position(), s);
    }
}

/// A walker together with the graph it walks: an iteration that borrows the
/// graph for as long as it lasts.
pub struct WalkerIter<'a, W, G> {
    walker: W,
    graph: &'a G,
}

/// `out` can come of folding `steps` into `init` with `f`, first step first.
pub open spec fn folded<T, B, F: Fn(B, T) -> B>(f: F, steps: Seq<T>, init: B, out: B) -> bool
    decreases steps.len(),
{
    if steps.len() == 0 {
        out == init
    } else {
        exists|mid: B| #[trigger]
            call_ensures(f, (init, steps[0]), mid) && folded(f, steps.drop_first(), mid, out)
    }
}

impl<'a, G, W> WalkerIter<'a, W, G> {
    /// The walker.
    pub closed spec fn walker(&self) -> W {
        self.walker
    }

    /// The graph it walks.
    pub closed spec fn graph(&self) -> &'a G {
        self.graph
    }
}

impl<'a, G, W> WalkerIter<'a, W, G> where W: Walker<G> {
    /// The walk can be made to its end.
    pub open spec fn inv(&self) -> bool {
        self.walker().inv(self.graph()) && self.walker().bounded(self.graph())
    }

    /// The steps that remain.
    pub open spec fn remaining(&self) -> Seq<W::Item> {
        self.walker().steps(self.graph())
    }

    /// The next step, or `None` at the end.
    pub fn next(&mut self) -> (step: Option<W::Item>)
        requires
            old(self).walker().inv(old(self).graph()),
        ensures
            final(self).graph() == old(self).graph(),
            final(self).walker().inv(final(self).graph()),
            old(self).walker().steps_to(old(self).graph(), &final(self).walker(), step),
            old(self).inv() ==> final(self).inv() && walked(
                old(self).remaining(),
                step,
                final(self).remaining(),
            ),
    {
        self.walker.walk_next(self.graph)
    }

    /// The number of steps that remain.
    pub fn count(self) -> (n: usize)
        requires
            self.inv(),
            self.remaining().len() <= usize::MAX,
        ensures
            n == self.remaining().len(),
    {
        let mut it = self;
        let mut n: usize = 0;
        loop
            invariant
                it.inv(),
                n + it.remaining().len() == self.remaining().len(),
                self.remaining().len() <= usize::MAX,
            decreases it.remaining().len(),
        {
            match it.next() {
                Some(_) => {
                    n += 1;
                },
                None => {
                    return n;
                },
            }
        }
    }

    /// The last step, or `None` where no step remains.
    pub fn last(self) -> (step: Option<W::Item>)
        requires
            self.inv(),
        ensures
            step == (if self.remaining().len() > 0 {
                Some(self.remaining().last())
            } else {
                None
            }),
    {
        let mut it = self;
        let mut last: Option<W::Item> = None;
        let ghost all = self.remaining();
        let ghost mut k: int = 0;
        loop
            invariant
                it.inv(),
                0 <= k <= all.len(),
                it.remaining() =~= all.skip(k),
                all == self.remaining(),
                last == (if k > 0 {
                    Some(all[k - 1])
                } else {
                    None
                }),
            decreases it.remaining().len(),
        {
            match it.next() {
                Some(step) => {
                    proof {
                        assert(all.skip(k).drop_first() =~= all.skip(k + 1));
                        k = k + 1;
                    }
                    last = Some(step);
                },
                None => {
                    return last;
                },
            }
        }
    }

    /// The step that comes after `n` others, which are passed over; `None`
    /// where fewer than `n + 1` steps remain.
    pub fn nth(&mut self, n: usize) -> (step: Option<W::Item>)
        requires
            old(self).inv(),
        ensures
            final(self).inv(),
            final(self).graph() == old(self).graph(),
            step == (if n < old(self).remaining().len() {
                Some(old(self).remaining()[n as int])
            } else {
                None
            }),
            final(self).remaining() == old(self).remaining().skip(
                at_most(n + 1, old(self).remaining().len()),
            ),
    {
        let ghost all = self.remaining();
        let mut i: usize = 0;
        while i < n
            invariant
                self.inv(),
                self.graph() == old(self).graph(),
                i <= n,
                all == old(self).remaining(),
                self.remaining() =~= all.skip(at_most(i as int, all.len())),
            decreases n - i,
        {
            self.next();
            i += 1;
        }
        let step = self.next();
        proof {
            assert(self.remaining() =~= all.skip(at_most(n + 1, all.len())));
        }
        step
    }

    /// Folds the remaining steps into `init` with `f`, first step first.
    pub fn fold<B, F>(self, init: B, f: F) -> (out: B) where F: Fn(B, W::Item) -> B
        requires
            self.inv(),
            forall|acc: B, step: W::Item| call_requires(f, (acc, step)),
        ensures
            folded(f, self.remaining(), init, out),
    {
        let mut it = self;
        let mut acc = init;
        let ghost all = self.remaining();
        loop
            invariant
                it.inv(),
                all == self.remaining(),
                forall|acc: B, step: W::Item| call_requires(f, (acc, step)),
                forall|out: B| #[trigger]
                    folded(f, it.remaining(), acc, out) ==> folded(f, all, init, out),
            decreases it.remaining().len(),
        {
            let ghost here = it.remaining();
            let ghost before = acc;
            match it.next() {
                Some(step) => {
                    acc = f(acc, step);
                    proof {
                        assert forall|out: B| #[trigger]
                            folded(f, it.remaining(), acc, out) implies folded(f, all, init, out) by {
                            assert(call_ensures(f, (before, here[0]), acc));
                            assert(folded(f, here, before, out));
                        }
                    }
                },
                None => {
                    proof {
                        assert(folded(f, here, acc, acc));
                    }
                    return acc;
                },
            }
        }
    }

    /// The first remaining step that `predicate` accepts; the steps up to it
    /// are passed over.
    pub fn find<P>(&mut self, predicate: P) -> (found: Option<W::Item>) where
        P: Fn(&W::Item) -> bool,

        requires
            old(self).inv(),
            forall|step: W::Item| call_requires(predicate, (&step,)),
        ensures
            final(self).inv(),
            final(self).graph() == old(self).graph(),
            match found {
                Some(step) => exists|i: int|
                    {
                        &&& 0 <= i < old(self).remaining().len()
                        &&& #[trigger] old(self).remaining()[i] == step
                        &&& call_ensures(predicate, (&step,), true)
                        &&& forall|j: int|
                            0 <= j < i ==> call_ensures(
                                predicate,
                                (&#[trigger] old(self).remaining()[j],),
                                false,
                            )
                        &&& final(self).remaining() == old(self).remaining().skip(i + 1)
                    },
                None => {
                    &&& forall|j: int|
                        0 <= j < old(self).remaining().len() ==> call_ensures(
                            predicate,
                            (&#[trigger] old(self).remaining()[j],),
                            false,
                        )
                    &&& final(self).remaining().len() == 0
                },
            },
    {
        let ghost all = self.remaining();
        let ghost mut k: int = 0;
        loop
            invariant
                self.inv(),
                self.graph() == old(self).graph(),
                all == old(self).remaining(),
                0 <= k <= all.len(),
                self.remaining() =~= all.skip(k),
                forall|step: W::Item| call_requires(predicate, (&step,)),
                forall|j: int| 0 <= j < k ==> call_ensures(predicate, (&#[trigger] all[j],), false),
            decreases self.remaining().len(),
        {
            match self.next() {
                Some(step) => {
                    proof {
                        assert(all.skip(k).drop_first() =~= all.skip(k + 1));
                        assert(all[k] == step);
                    }
                    if predicate(&step) {
                        return Some(step);
                    }
                    proof {
                        k = k + 1;
                    }
                },
                None => {
                    return None;
                },
            }
        }
    }

    /// Whether `f` holds of every remaining step. The walk stops behind the
    /// first step of which it does not.
    pub fn all<F>(&mut self, f: F) -> (holds: bool) where F: Fn(W::Item) -> bool
        requires
            old(self).inv(),
            forall|step: W::Item| call_requires(f, (step,)),
        ensures
            final(self).inv(),
            final(self).graph() == old(self).graph(),
            holds ==> forall|j: int|
                0 <= j < old(self).remaining().len() ==> call_ensures(
                    f,
                    (#[trigger] old(self).remaining()[j],),
                    true,
                ),
            !holds ==> exists|i: int|
                {
                    &&& 0 <= i < old(self).remaining().len()
                    &&& call_ensures(f, (#[trigger] old(self).remaining()[i],), false)
                    &&& forall|j: int|
                        0 <= j < i ==> call_ensures(
                            f,
                            (#[trigger] old(self).remaining()[j],),
                            true,
                        )
                },
    {
        let ghost all = self.remaining();
        let ghost mut k: int = 0;
        loop
            invariant
                self.inv(),
                self.graph() == old(self).graph(),
                all == old(self).remaining(),
                0 <= k <= all.len(),
                self.remaining() =~= all.skip(k),
                forall|step: W::Item| call_requires(f, (step,)),
                forall|j: int| 0 <= j < k ==> call_ensures(f, (#[trigger] all[j],), true),
            decreases self.remaining().len(),
        {
            match self.next() {
                Some(step) => {
                    proof {
                        assert(all.skip(k).drop_first() =~= all.skip(k + 1));
                        assert(all[k] == step);
                    }
                    if !f(step) {
                        return false;
                    }
                    proof {
                        k = k + 1;
                    }
                },
                None => {
                    return true;
                },
            }
        }
    }

    /// Whether `f` holds of some remaining step. The walk stops behind the
    /// first step of which it does.
    pub fn any<F>(&mut self, f: F) -> (holds: bool) where F: Fn(W::Item) -> bool
        requires
            old(self).inv(),
            forall|step: W::Item| call_requires(f, (step,)),
        ensures
            final(self).inv(),
            final(self).graph() == old(self).graph(),
            !holds ==> forall|j: int|
                0 <= j < old(self).remaining().len() ==> call_ensures(
                    f,
                    (#[trigger] old(self).remaining()[j],),
                    false,
                ),
            holds ==> exists|i: int|
                {
                    &&& 0 <= i < old(self).remaining().len()
                    &&& call_ensures(f, (#[trigger] old(self).remaining()[i],), true)
                    &&& forall|j: int|
                        0 <= j < i ==> call_ensures(
                            f,
                            (#[trigger] old(self).remaining()[j],),
                            false,
                        )
                },
    {
        let ghost all = self.remaining();
        let ghost mut k: int = 0;
        loop
            invariant
                self.inv(),
                self.graph() == old(self).graph(),
                all == old(self).remaining(),
                0 <= k <= all.len(),
                self.remaining() =~= all.skip(k),
                forall|step: W::Item| call_requires(f, (step,)),
                forall|j: int| 0 <= j < k ==> call_ensures(f, (#[trigger] all[j],), false),
            decreases self.remaining().len(),
        {
            match self.next() {
                Some(step) => {
                    proof {
                        assert(all.skip(k).drop_first() =~= all.skip(k + 1));
                        assert(all[k] == step);
                    }
                    if f(step) {
                        return true;
                    }
                    proof {
                        k = k + 1;
                    }
                },
                None => {
                    return false;
                },
            }
        }
    }

    /// The remaining steps, in their order.
    pub fn collect(self) -> (steps: Vec<W::Item>)
        requires
            self.inv(),
        ensures
            steps@ == self.remaining(),
    {
        let mut it = self;
        let mut steps: Vec<W::Item> = Vec::new();
        let ghost all = self.remaining();
        loop
            invariant
                it.inv(),
                all == self.remaining(),
                steps@.len() <= all.len(),
                steps@ =~= all.take(steps@.len() as int),
                it.remaining() =~= all.skip(steps@.len() as int),
            decreases it.remaining().len(),
        {
            let ghost k = steps@.len() as int;
            match it.next() {
                Some(step) => {
                    proof {
                        assert(all.skip(k).drop_first() =~= all.skip(k + 1));
                        assert(all[k] == step);
                    }
                    steps.push(step);
                },
                None => {
                    proof {
                        assert(all.take(all.len() as int) =~= all);
                    }
                    return steps;
                },
            }
        }
    }
}

} // verus!
