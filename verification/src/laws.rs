//! What holds of the graph and its walkers across their operations.

use vstd::prelude::*;
use crate::dag::{Children, Dag, Parents};
use crate::index::NodeId;
use crate::paths::{
    has_cycle, has_edge, is_walk, lemma_edge_not_reversed, lemma_push_acyclic,
    lemma_reachable_reflexive, lemma_reached_has_incoming, reachable,
};
use crate::reduce::reduction;
use crate::walker::{accepts, at_most, head, Chain, Filter, Peekable, Take, Walker};
use crate::view::{lemma_with_edges_shape, DagView};

verus! {

/// A well-formed graph holds no cycle at any time: no walk of at least one
/// edge leads from a node back to it, and so no edge leads from a node to
/// itself. Every operation that changes a graph requires it well formed and
/// leaves it well formed.
pub proof fn lemma_no_cycle<N, E>(dag: &Dag<N, E>, w: Seq<int>, n: int)
    requires
        dag.wf(),
    ensures
        !has_cycle(dag@.edges),
        is_walk(dag@.edges, w) && w.len() >= 2 ==> w.first() != w.last(),
        !has_edge(dag@.edges, n, n),
{
    if has_edge(dag@.edges, n, n) {
        assert(is_walk(dag@.edges, seq![n, n]));
    }
}

/// The unchecked insertion decides as the checked one would: in a graph
/// without cycles, an edge `a -> b` that need not be checked is one that the
/// search would have let pass, since `b` does not reach `a`.
pub proof fn lemma_fast_path<N, E>(view: DagView<N, E>, a: int, b: int)
    requires
        view.acyclic(),
        !view.must_check(a, b),
    ensures
        !reachable(view.edges, b, a),
{
    if reachable(view.edges, b, a) {
        lemma_reached_has_incoming(view.edges, b, a);
        lemma_edge_not_reversed(view.edges, a, b);
    }
}

/// In a graph without cycles `add_edge` rejects an edge `a -> b` exactly
/// where `b` reaches `a`, whether the edge had to be checked or not; an edge
/// from a node to itself is among those.
pub proof fn lemma_rejected_where_reached<N, E>(view: DagView<N, E>, a: int, b: int)
    requires
        view.acyclic(),
    ensures
        (view.must_check(a, b) && reachable(view.edges, b, a)) == reachable(view.edges, b, a),
        a == b ==> reachable(view.edges, b, a),
{
    if !view.must_check(a, b) {
        lemma_fast_path(view, a, b);
    }
    if a == b {
        lemma_reachable_reflexive(view.edges, a);
    }
}

/// An edge that `add_edge` accepts closes no cycle: it is accepted where it
/// need not be checked, or `b` does not reach `a`.
pub proof fn lemma_accepted_edge_acyclic<N, E>(view: DagView<N, E>, a: int, b: int, weight: E)
    requires
        view.acyclic(),
        !(view.must_check(a, b) && reachable(view.edges, b, a)),
    ensures
        view.with_edge(a, b, weight).acyclic(),
{
    if !view.must_check(a, b) {
        lemma_fast_path(view, a, b);
    }
    lemma_push_acyclic(view.edges, a, b);
}

/// A batch that `add_edges` accepts closes no cycle: it is accepted where
/// no edge had to be checked when its turn came, or the graph with the
/// whole batch has no cycle. So the batch is rejected exactly where the
/// graph with it has a cycle.
pub proof fn lemma_accepted_batch_acyclic<N, E>(view: DagView<N, E>, batch: Seq<(NodeId, NodeId, E)>)
    requires
        view.wf(),
        view.acyclic(),
        view.edges.len() + batch.len() <= u32::MAX,
        forall|i: int|
            0 <= i < batch.len() ==> (#[trigger] batch[i]).0@ < view.nodes.len() && batch[i].1@
                < view.nodes.len(),
    ensures
        !view.batch_must_check(batch) ==> view.with_edges(batch).acyclic(),
        (view.batch_must_check(batch) && has_cycle(view.with_edges(batch).edges)) == has_cycle(
            view.with_edges(batch).edges,
        ),
    decreases batch.len(),
{
    if batch.len() > 0 && !view.batch_must_check(batch) {
        let init = batch.drop_last();
        let last = batch.last();
        assert forall|i: int| 0 <= i < init.len() implies (#[trigger] init[i]).0@
            < view.nodes.len() && init[i].1@ < view.nodes.len() by {
            assert(init[i] == batch[i]);
        }
        lemma_accepted_batch_acyclic(view, init);
        lemma_with_edges_shape(view, init);
        lemma_accepted_edge_acyclic(view.with_edges(init), last.0@, last.1@, last.2);
    }
}

/// Two walkers over the children of one node of one graph have the same
/// steps before them: those of the node's outgoing edges, in walking order.
pub proof fn lemma_children_determined<N, E>(
    dag: &Dag<N, E>,
    parent: NodeId,
    first: Children<N, E>,
    second: Children<N, E>,
)
    requires
        first.steps(dag) == dag@.children(parent@),
        second.steps(dag) == dag@.children(parent@),
    ensures
        first.steps(dag) == second.steps(dag),
        first.steps(dag) == dag@.steps_out(
            if parent@ < dag@.links.len() {
                dag@.links[parent@].0
            } else {
                Seq::empty()
            },
        ),
{
    assert(dag@.children(parent@) =~= dag@.steps_out(
        if parent@ < dag@.links.len() {
            dag@.links[parent@].0
        } else {
            Seq::empty()
        },
    ));
}

/// Two walkers over the parents of one node of one graph have the same
/// steps before them: those of the node's incoming edges, in walking order.
pub proof fn lemma_parents_determined<N, E>(
    dag: &Dag<N, E>,
    child: NodeId,
    first: Parents<N, E>,
    second: Parents<N, E>,
)
    requires
        first.steps(dag) == dag@.parents(child@),
        second.steps(dag) == dag@.parents(child@),
    ensures
        first.steps(dag) == second.steps(dag),
        first.steps(dag) == dag@.steps_in(
            if child@ < dag@.links.len() {
                dag@.links[child@].1
            } else {
                Seq::empty()
            },
        ),
{
    assert(dag@.parents(child@) =~= dag@.steps_in(
        if child@ < dag@.links.len() {
            dag@.links[child@].1
        } else {
            Seq::empty()
        },
    ));
}

/// `Take` yields as many steps as it may take, or as the walker has where
/// those are fewer; and they are the walker's first steps.
pub proof fn lemma_take_count<G, W: Walker<G>>(take: Take<G, W>, inner: W, n: usize, graph: &G)
    requires
        take.walker() == inner,
        take.to_take() == n,
    ensures
        take.steps(graph).len() == at_most(n as int, inner.steps(graph).len()),
        take.steps(graph) == inner.steps(graph).take(take.steps(graph).len() as int),
{
}

/// `Chain` yields the steps of its first walker followed by those of its
/// second.
pub proof fn lemma_chain_steps<G, A: Walker<G>, B: Walker<G, Item = A::Item>>(
    chain: Chain<G, A, B>,
    a: A,
    b: B,
    graph: &G,
)
    requires
        chain.first() == Some(a),
        chain.second() == b,
    ensures
        chain.steps(graph) == a.steps(graph) + b.steps(graph),
{
}

/// `Filter` yields the steps of its walker that the predicate accepts, and
/// no others, in the walker's order.
pub proof fn lemma_filter_steps<G, W: Walker<G>, P: Fn(&G, &W::Item) -> bool>(
    filter: Filter<G, W, P>,
    inner: W,
    predicate: P,
    graph: &G,
)
    requires
        filter.walker() == inner,
        filter.predicate() == predicate,
    ensures
        filter.steps(graph) == inner.steps(graph).filter(
            |step: W::Item| accepts(predicate, graph, step),
        ),
        forall|step: W::Item|
            filter.steps(graph).contains(step) <==> inner.steps(graph).contains(step) && accepts(
                predicate,
                graph,
                step,
            ),
        forall|i: int, j: int|
            0 <= i < j < filter.steps(graph).len() ==> #[trigger] in_order(
                inner.steps(graph),
                filter.steps(graph),
                i,
                j,
            ),
{
    let p = |step: W::Item| accepts(predicate, graph, step);
    let all = inner.steps(graph);
    assert forall|step: W::Item| all.filter(p).contains(step) <==> all.contains(step) && accepts(
        predicate,
        graph,
        step,
    ) by {
        if all.filter(p).contains(step) {
            let i = choose|i: int| 0 <= i < all.filter(p).len() && all.filter(p)[i] == step;
            all.lemma_filter_pred(p, i);
            all.lemma_filter_contains_rev(p, step);
        }
        if all.contains(step) && p(step) {
            let i = choose|i: int| 0 <= i < all.len() && all[i] == step;
            all.lemma_filter_contains(p, i);
        }
    }
    assert forall|i: int, j: int| 0 <= i < j < all.filter(p).len() implies #[trigger] in_order(
        all,
        all.filter(p),
        i,
        j,
    ) by {
        lemma_filter_order(all, p, i, j);
    }
}

/// The entries of `part` at `i` and `j` stand in `all` in that order.
pub open spec fn in_order<T>(all: Seq<T>, part: Seq<T>, i: int, j: int) -> bool {
    exists|k: int, l: int|
        0 <= k < l < all.len() && #[trigger] all[k] == part[i] && #[trigger] all[l] == part[j]
}

/// Two entries of a filtered sequence stand in the sequence in the same
/// order.
pub proof fn lemma_filter_order<T>(all: Seq<T>, p: spec_fn(T) -> bool, i: int, j: int)
    requires
        0 <= i < j < all.filter(p).len(),
    ensures
        in_order(all, all.filter(p), i, j),
    decreases all.len(),
{
    reveal(Seq::filter);
    let init = all.drop_last();
    let kept = init.filter(p);
    if p(all.last()) && j == kept.len() {
        assert(kept.contains(kept[i]));
        init.lemma_filter_contains_rev(p, kept[i]);
        let k = choose|k: int| 0 <= k < init.len() && init[k] == kept[i];
        assert(all[k] == all.filter(p)[i]);
        assert(all[all.len() - 1] == all.filter(p)[j]);
    } else {
        lemma_filter_order(init, p, i, j);
        let (k, l) = choose|k: int, l: int|
            0 <= k < l < init.len() && #[trigger] init[k] == kept[i] && #[trigger] init[l]
                == kept[j];
        assert(all[k] == all.filter(p)[i]);
        assert(all[l] == all.filter(p)[j]);
    }
}

/// What `Peekable::peek` makes of a walker: the steps stay, and their first
/// is handed out.
pub open spec fn peeked<G, W: Walker<G>>(
    before: Peekable<G, W>,
    after: Peekable<G, W>,
    graph: &G,
    next: Option<W::Item>,
) -> bool {
    &&& after.inv(graph)
    &&& after.bounded(graph)
    &&& after.steps(graph) == before.steps(graph)
    &&& next == head(before.steps(graph))
}

/// Two calls of `peek` in a row yield the same step, and no step is taken.
pub proof fn lemma_peek_twice<G, W: Walker<G>>(
    start: Peekable<G, W>,
    once: Peekable<G, W>,
    twice: Peekable<G, W>,
    graph: &G,
    first: Option<W::Item>,
    second: Option<W::Item>,
)
    requires
        peeked(start, once, graph, first),
        peeked(once, twice, graph, second),
    ensures
        first == second,
        twice.steps(graph) == start.steps(graph),
{
}

/// Reducing a reduced graph changes nothing: a second `transitive_reduce`
/// from the same roots leaves the graph, and so its number of edges, as the
/// first left it.
pub proof fn lemma_reduce_idempotent<N, E>(
    start: DagView<N, E>,
    once: DagView<N, E>,
    twice: DagView<N, E>,
    roots: Seq<NodeId>,
)
    requires
        reduction(start, once, roots),
        reduction(once, twice, roots),
    ensures
        twice == once,
        twice.edges.len() == once.edges.len(),
{
}

} // verus!
