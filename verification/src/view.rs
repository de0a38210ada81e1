//! What a graph holds, as a value of its own: the weights, the edges and
//! the adjacency lists, with what each operation makes of them.

use vstd::prelude::*;
use crate::index::{EdgeId, NodeId};
use crate::links::{consistent, lemma_add_edge_consistent, lemma_unlink_absent, lemma_unlink_prefix};
use crate::paths::{acyclic, edges_within, has_cycle, has_edge, has_incoming, has_outgoing, is_walk};
use crate::topology::{
    end_index, first_to, link_edge, list_head, list_successor, renamed, renamed_edges, swap_removed,
    unlink_all, Links,
};

verus! {

/// What a `Dag` holds.
#[verifier::ext_equal]
pub struct DagView<N, E> {
    /// The weight of each node, by node index.
    pub nodes: Seq<N>,
    /// Source and target of each edge, by edge index.
    pub edges: Seq<(int, int)>,
    /// The weight of each edge, by edge index.
    pub weights: Seq<E>,
    /// For each node its outgoing and its incoming edges, in walking order.
    pub links: Links,
}

/// The part of an adjacency list that starts at entry `e`; empty where the
/// list does not hold `e`.
pub open spec fn list_from(list: Seq<int>, e: int) -> Seq<int>
    decreases list.len(),
{
    if list.len() == 0 || list[0] == e {
        list
    } else {
        list_from(list.drop_first(), e)
    }
}

impl<N, E> DagView<N, E> {
    /// The adjacency lists index the edges, and every node and edge has its
    /// weight.
    pub open spec fn wf(self) -> bool {
        &&& consistent(self.edges, self.links)
        &&& self.nodes.len() == self.links.len()
        &&& self.weights.len() == self.edges.len()
    }

    /// No directed cycle among the edges.
    pub open spec fn acyclic(self) -> bool {
        acyclic(self.edges)
    }

    /// The edges of `list` as steps to their targets.
    pub open spec fn steps_out(self, list: Seq<int>) -> Seq<(EdgeId, NodeId)> {
        Seq::new(list.len(), |i: int| (EdgeId(list[i] as u32), NodeId(self.edges[list[i]].1 as u32)))
    }

    /// The edges of `list` as steps to their sources.
    pub open spec fn steps_in(self, list: Seq<int>) -> Seq<(EdgeId, NodeId)> {
        Seq::new(list.len(), |i: int| (EdgeId(list[i] as u32), NodeId(self.edges[list[i]].0 as u32)))
    }

    /// The steps from node `a` to its children: its outgoing edges, the one
    /// added last first. Empty where `a` is no node.
    pub open spec fn children(self, a: int) -> Seq<(EdgeId, NodeId)> {
        if 0 <= a < self.links.len() {
            self.steps_out(self.links[a].0)
        } else {
            Seq::empty()
        }
    }

    /// The steps from node `a` to its parents: its incoming edges, the one
    /// added last first. Empty where `a` is no node.
    pub open spec fn parents(self, a: int) -> Seq<(EdgeId, NodeId)> {
        if 0 <= a < self.links.len() {
            self.steps_in(self.links[a].1)
        } else {
            Seq::empty()
        }
    }

    /// The edge at which a walk over the children of `a` starts; an index
    /// that no edge has where `a` has no children.
    pub open spec fn first_child(self, a: int) -> int {
        if 0 <= a < self.links.len() {
            list_head(self.links[a].0)
        } else {
            end_index()
        }
    }

    /// The edge at which a walk over the parents of `a` starts; an index
    /// that no edge has where `a` has no parents.
    pub open spec fn first_parent(self, a: int) -> int {
        if 0 <= a < self.links.len() {
            list_head(self.links[a].1)
        } else {
            end_index()
        }
    }

    /// The edge at which a walk over children stands after the step from
    /// edge `c`.
    pub open spec fn after_child(self, c: int) -> int {
        if 0 <= c < self.edges.len() {
            list_successor(self.links[self.edges[c].0].0, c)
        } else {
            c
        }
    }

    /// The edge at which a walk over parents stands after the step from
    /// edge `c`.
    pub open spec fn after_parent(self, c: int) -> int {
        if 0 <= c < self.edges.len() {
            list_successor(self.links[self.edges[c].1].1, c)
        } else {
            c
        }
    }

    /// The steps of a walk over children that stands at edge `c`.
    pub open spec fn children_from(self, c: int) -> Seq<(EdgeId, NodeId)> {
        if 0 <= c < self.edges.len() {
            self.steps_out(list_from(self.links[self.edges[c].0].0, c))
        } else {
            Seq::empty()
        }
    }

    /// The steps of a walk over parents that stands at edge `c`.
    pub open spec fn parents_from(self, c: int) -> Seq<(EdgeId, NodeId)> {
        if 0 <= c < self.edges.len() {
            self.steps_in(list_from(self.links[self.edges[c].1].1, c))
        } else {
            Seq::empty()
        }
    }

    /// Whether an edge `a -> b` has to be checked before it is added: it
    /// leads from a node to itself; or `a` has an incoming edge, `b` has an
    /// outgoing edge, and no edge leads from `a` to `b` yet.
    pub open spec fn must_check(self, a: int, b: int) -> bool {
        a == b || (has_incoming(self.edges, a) && has_outgoing(self.edges, b) && !has_edge(
            self.edges,
            a,
            b,
        ))
    }

    /// The graph with one more node.
    pub open spec fn with_node(self, weight: N) -> Self {
        DagView {
            nodes: self.nodes.push(weight),
            edges: self.edges,
            weights: self.weights,
            links: self.links.push((Seq::<int>::empty(), Seq::<int>::empty())),
        }
    }

    /// The graph with one more edge, from `a` to `b`, first in the walking
    /// order of both.
    pub open spec fn with_edge(self, a: int, b: int, weight: E) -> Self {
        DagView {
            nodes: self.nodes,
            edges: self.edges.push((a, b)),
            weights: self.weights.push(weight),
            links: link_edge(self.links, a, b, self.edges.len() as int),
        }
    }

    /// The graph without edge `e`: the last edge takes its index.
    pub open spec fn without_edge(self, e: int) -> Self {
        DagView {
            nodes: self.nodes,
            edges: swap_removed(self.edges, e),
            weights: swap_removed(self.weights, e),
            links: unlink_all(self.links, e, self.edges.len() - 1),
        }
    }

    /// The graph without the edges out of node `a`: they are removed one by
    /// one, each time the first in walking order.
    pub open spec fn without_edges_out(self, a: int) -> Self
        decreases self.edges.len(),
    {
        if self.wf() && 0 <= a < self.links.len() && self.links[a].0.len() > 0 {
            self.without_edge(self.links[a].0[0]).without_edges_out(a)
        } else {
            self
        }
    }

    /// The graph without the edges into node `a`: they are removed one by
    /// one, each time the first in walking order.
    pub open spec fn without_edges_in(self, a: int) -> Self
        decreases self.edges.len(),
    {
        if self.wf() && 0 <= a < self.links.len() && self.links[a].1.len() > 0 {
            self.without_edge(self.links[a].1[0]).without_edges_in(a)
        } else {
            self
        }
    }

    /// The graph without node `a`, which no edge touches: the last node
    /// takes its index.
    pub open spec fn without_bare_node(self, a: int) -> Self {
        DagView {
            nodes: swap_removed(self.nodes, a),
            edges: renamed_edges(self.edges, self.nodes.len() - 1, a),
            weights: self.weights,
            links: swap_removed(self.links, a),
        }
    }

    /// The graph without node `a` and the edges that touch it: first those
    /// out of it go, then those into it, then the node.
    pub open spec fn without_node(self, a: int) -> Self {
        self.without_edges_out(a).without_edges_in(a).without_bare_node(a)
    }

    /// The graph with the edges of `batch` added, one after another.
    pub open spec fn with_edges(self, batch: Seq<(NodeId, NodeId, E)>) -> Self
        decreases batch.len(),
    {
        if batch.len() == 0 {
            self
        } else {
            self.with_edges(batch.drop_last()).with_edge(
                batch.last().0@,
                batch.last().1@,
                batch.last().2,
            )
        }
    }

    /// Whether some edge of `batch` has to be checked against the graph as
    /// it stands when that edge's turn comes.
    pub open spec fn batch_must_check(self, batch: Seq<(NodeId, NodeId, E)>) -> bool
        decreases batch.len(),
    {
        batch.len() > 0 && (self.batch_must_check(batch.drop_last()) || self.with_edges(
            batch.drop_last(),
        ).must_check(batch.last().0@, batch.last().1@))
    }

    /// The first edge from `a` to `b` in `a`'s walking order.
    pub open spec fn find_edge(self, a: int, b: int) -> Option<int> {
        if 0 <= a < self.links.len() {
            first_to(self.edges, self.links[a].0, b)
        } else {
            None
        }
    }
}

/// Every edge of `new` is an edge of `old` with its weight: `origin` gives,
/// for each edge index of `new`, the index that the edge had in `old`, and
/// gives no index twice. The nodes are the same.
pub open spec fn keeps<N, E>(old: DagView<N, E>, new: DagView<N, E>, origin: Seq<int>) -> bool {
    &&& new.nodes == old.nodes
    &&& origin.len() == new.edges.len()
    &&& origin.no_duplicates()
    &&& forall|k: int|
        0 <= k < origin.len() ==> {
            &&& 0 <= #[trigger] origin[k] < old.edges.len()
            &&& new.edges[k] == old.edges[origin[k]]
            &&& new.weights[k] == old.weights[origin[k]]
        }
}

/// A sequence without repetitions stays so when its entry at `i` is replaced
/// by its last entry, which is then dropped; and it loses that one entry only.
pub proof fn lemma_swap_removed_origin(origin: Seq<int>, i: int)
    requires
        origin.no_duplicates(),
        0 <= i < origin.len(),
    ensures
        swap_removed(origin, i).no_duplicates(),
        !swap_removed(origin, i).contains(origin[i]),
        forall|x: int| origin.contains(x) && x != origin[i] ==> swap_removed(origin, i).contains(x),
        forall|x: int| swap_removed(origin, i).contains(x) ==> origin.contains(x),
{
    let out = swap_removed(origin, i);
    let last = origin.len() - 1;
    assert forall|k: int| 0 <= k < out.len() implies #[trigger] out[k] == origin[if k == i {
        last
    } else {
        k
    }] by {}
    assert forall|x: int| origin.contains(x) && x != origin[i] implies out.contains(x) by {
        let k = choose|k: int| 0 <= k < origin.len() && origin[k] == x;
        if k == last {
            assert(out[i] == x);
        } else {
            assert(out[k] == x);
        }
    }
    assert forall|x: int| out.contains(x) implies origin.contains(x) by {
        let k = choose|k: int| 0 <= k < out.len() && out[k] == x;
        assert(origin[if k == i {
            last
        } else {
            k
        }] == x);
    }
    if out.contains(origin[i]) {
        let k = choose|k: int| 0 <= k < out.len() && out[k] == origin[i];
        assert(origin[if k == i {
            last
        } else {
            k
        }] == origin[i]);
    }
}

/// Where `new` keeps edges of `old`, every pair of nodes that an edge of
/// `new` joins is joined by an edge of `old`.
pub proof fn lemma_keeps_within<N, E>(old: DagView<N, E>, new: DagView<N, E>, origin: Seq<int>)
    requires
        keeps(old, new, origin),
    ensures
        edges_within(new.edges, old.edges),
{
    assert forall|x: int, y: int| #[trigger] has_edge(new.edges, x, y) implies has_edge(
        old.edges,
        x,
        y,
    ) by {
        let k = choose|k: int| 0 <= k < new.edges.len() && #[trigger] new.edges[k] == (x, y);
        assert(old.edges[origin[k]] == (x, y));
    }
}

/// What is left of `old` in `new` when node `a` has been removed: the last
/// node has taken the index `a`, and the edges are those of `old` that did
/// not touch `a`, each with its weight. `origin` gives, for each edge index
/// of `new`, the index that the edge had in `old`.
pub open spec fn node_removed<N, E>(
    old: DagView<N, E>,
    new: DagView<N, E>,
    a: int,
    origin: Seq<int>,
) -> bool {
    let last = old.nodes.len() - 1;
    &&& new.nodes == swap_removed(old.nodes, a)
    &&& origin.len() == new.edges.len()
    &&& origin.no_duplicates()
    &&& forall|k: int|
        0 <= k < origin.len() ==> {
            &&& 0 <= #[trigger] origin[k] < old.edges.len()
            &&& new.edges[k] == (
                renamed(old.edges[origin[k]].0, last, a),
                renamed(old.edges[origin[k]].1, last, a),
            )
            &&& new.weights[k] == old.weights[origin[k]]
        }
    &&& forall|j: int|
        0 <= j < old.edges.len() ==> (origin.contains(j) <==> (#[trigger] old.edges[j]).0 != a
            && old.edges[j].1 != a)
}

/// The weights of a batch of edges, in its order.
pub open spec fn batch_weights<E>(batch: Seq<(NodeId, NodeId, E)>) -> Seq<E> {
    Seq::new(batch.len(), |i: int| batch[i].2)
}

/// A graph without edges has no cycle.
pub proof fn lemma_no_edges_acyclic()
    ensures
        acyclic(Seq::<(int, int)>::empty()),
{
    let edges = Seq::<(int, int)>::empty();
    if has_cycle(edges) {
        let w = choose|w: Seq<int>| #[trigger]
            is_walk(edges, w) && w.len() >= 2 && w.first() == w.last();
        assert(has_edge(edges, w[0], w[1]));
    }
}

/// No edge of a well-formed graph touches the node that is added next.
pub proof fn lemma_fresh_node_untouched<N, E>(view: DagView<N, E>)
    requires
        view.wf(),
    ensures
        !has_incoming(view.edges, view.nodes.len() as int),
        !has_outgoing(view.edges, view.nodes.len() as int),
{
}

/// Adding the edges of a batch, whose nodes exist, keeps the graph well
/// formed, keeps its nodes, and adds one edge for each.
pub proof fn lemma_with_edges_shape<N, E>(view: DagView<N, E>, batch: Seq<(NodeId, NodeId, E)>)
    requires
        view.wf(),
        view.edges.len() + batch.len() <= u32::MAX,
        forall|i: int|
            0 <= i < batch.len() ==> (#[trigger] batch[i]).0@ < view.nodes.len() && batch[i].1@
                < view.nodes.len(),
    ensures
        view.with_edges(batch).wf(),
        view.with_edges(batch).nodes == view.nodes,
        view.with_edges(batch).edges.len() == view.edges.len() + batch.len(),
    decreases batch.len(),
{
    if batch.len() > 0 {
        let init = batch.drop_last();
        assert forall|i: int| 0 <= i < init.len() implies (#[trigger] init[i]).0@
            < view.nodes.len() && init[i].1@ < view.nodes.len() by {
            assert(init[i] == batch[i]);
        }
        lemma_with_edges_shape(view, init);
        let mid = view.with_edges(init);
        let last = batch[batch.len() - 1];
        lemma_add_edge_consistent(mid.edges, mid.links, last.0@, last.1@);
    }
}

/// Removing the edge that was added last gives back the graph as it was.
pub proof fn lemma_with_edge_undone<N, E>(view: DagView<N, E>, a: int, b: int, weight: E)
    requires
        view.wf(),
        0 <= a < view.nodes.len(),
        0 <= b < view.nodes.len(),
    ensures
        view.with_edge(a, b, weight).without_edge(view.edges.len() as int) == view,
{
    let n = view.edges.len() as int;
    let added = view.with_edge(a, b, weight);
    let undone = added.without_edge(n);
    assert(undone.edges =~= view.edges);
    assert(undone.weights =~= view.weights);
    assert(undone.links.len() == view.links.len());
    assert forall|v: int| 0 <= v < view.links.len() implies undone.links[v] == view.links[v] by {
        let out = view.links[v].0;
        let inc = view.links[v].1;
        assert(!out.contains(n)) by {
            if out.contains(n) {
                let i = choose|i: int| 0 <= i < out.len() && out[i] == n;
                assert(0 <= view.links[v].0[i] < view.edges.len());
            }
        }
        assert(!inc.contains(n)) by {
            if inc.contains(n) {
                let i = choose|i: int| 0 <= i < inc.len() && inc[i] == n;
                assert(0 <= view.links[v].1[i] < view.edges.len());
            }
        }
        lemma_unlink_absent(out, n);
        lemma_unlink_absent(inc, n);
        let with_out = view.links.update(a, (seq![n] + view.links[a].0, view.links[a].1));
        assert(with_out[v].1 == inc);
        if v == a {
            assert((seq![n] + out).drop_first() =~= out);
        }
        if v == b {
            assert((seq![n] + inc).drop_first() =~= inc);
        }
    }
    assert(undone.links =~= view.links);
}

/// The steps to the children of a node are its outgoing edges, each once.
pub proof fn lemma_children_are_edges<N, E>(view: DagView<N, E>, u: int)
    requires
        view.wf(),
    ensures
        forall|i: int|
            0 <= i < view.children(u).len() ==> {
                let step = #[trigger] view.children(u)[i];
                0 <= step.0@ < view.edges.len() && view.edges[step.0@] == (u, step.1@)
            },
        forall|k: int|
            0 <= k < view.edges.len() && (#[trigger] view.edges[k]).0 == u ==> exists|i: int|
                0 <= i < view.children(u).len() && (#[trigger] view.children(u)[i]).0@ == k,
{
    if 0 <= u < view.links.len() {
        let list = view.links[u].0;
        assert forall|i: int| 0 <= i < view.children(u).len() implies {
            let step = #[trigger] view.children(u)[i];
            0 <= step.0@ < view.edges.len() && view.edges[step.0@] == (u, step.1@)
        } by {
            assert(0 <= list[i] < view.edges.len() && view.edges[list[i]].0 == u);
            assert(0 <= view.edges[list[i]].1 < view.links.len());
        }
        assert forall|k: int|
            0 <= k < view.edges.len() && (#[trigger] view.edges[k]).0 == u implies exists|i: int|
            0 <= i < view.children(u).len() && (#[trigger] view.children(u)[i]).0@ == k by {
            assert(view.links[view.edges[k].0].0.contains(k));
            let i = choose|i: int| 0 <= i < list.len() && list[i] == k;
            assert(view.children(u)[i].0@ == k);
        }
    } else {
        assert forall|k: int|
            0 <= k < view.edges.len() && (#[trigger] view.edges[k]).0 == u implies exists|i: int|
            0 <= i < view.children(u).len() && (#[trigger] view.children(u)[i]).0@ == k by {
            assert(0 <= view.edges[k].0 < view.links.len());
        }
    }
}

/// Removing the edge of the step at `p` among the steps to the children of
/// `u` leaves the steps before it with their targets, and one step fewer.
pub proof fn lemma_children_without_edge<N, E>(view: DagView<N, E>, u: int, p: int)
    requires
        view.wf(),
        0 <= p < view.children(u).len(),
    ensures
        view.without_edge(view.children(u)[p].0@).children(u).len() == view.children(u).len() - 1,
        forall|i: int|
            0 <= i < p ==> (#[trigger] view.without_edge(view.children(u)[p].0@).children(u)[i]).1
                == view.children(u)[i].1,
{
    let list = view.links[u].0;
    let e = view.children(u)[p].0@;
    let last = view.edges.len() - 1;
    let after = view.without_edge(e);
    assert(0 <= list[p] < view.edges.len() && view.edges[list[p]].0 == u);
    assert(e == list[p]);
    lemma_unlink_prefix(list, e, last, p);
    assert forall|i: int| 0 <= i < p implies (#[trigger] after.children(u)[i]).1
        == view.children(u)[i].1 by {
        assert(0 <= list[i] < view.edges.len() && view.edges[list[i]].0 == u);
        assert(list[i] != list[p]);
        let x = renamed(list[i], last, e);
        assert(after.links[u].0[i] == x);
        assert(after.edges[x] == view.edges[list[i]]);
    }
}

/// The steps to the parents of a node are its incoming edges, each once.
pub proof fn lemma_parents_are_edges<N, E>(view: DagView<N, E>, u: int)
    requires
        view.wf(),
    ensures
        forall|i: int|
            0 <= i < view.parents(u).len() ==> {
                let step = #[trigger] view.parents(u)[i];
                0 <= step.0@ < view.edges.len() && view.edges[step.0@] == (step.1@, u)
            },
        forall|k: int|
            0 <= k < view.edges.len() && (#[trigger] view.edges[k]).1 == u ==> exists|i: int|
                0 <= i < view.parents(u).len() && (#[trigger] view.parents(u)[i]).0@ == k,
{
    if 0 <= u < view.links.len() {
        let list = view.links[u].1;
        assert forall|i: int| 0 <= i < view.parents(u).len() implies {
            let step = #[trigger] view.parents(u)[i];
            0 <= step.0@ < view.edges.len() && view.edges[step.0@] == (step.1@, u)
        } by {
            assert(0 <= list[i] < view.edges.len() && view.edges[list[i]].1 == u);
            assert(0 <= view.edges[list[i]].0 < view.links.len());
        }
        assert forall|k: int|
            0 <= k < view.edges.len() && (#[trigger] view.edges[k]).1 == u implies exists|i: int|
            0 <= i < view.parents(u).len() && (#[trigger] view.parents(u)[i]).0@ == k by {
            assert(view.links[view.edges[k].1].1.contains(k));
            let i = choose|i: int| 0 <= i < list.len() && list[i] == k;
            assert(view.parents(u)[i].0@ == k);
        }
    } else {
        assert forall|k: int|
            0 <= k < view.edges.len() && (#[trigger] view.edges[k]).1 == u implies exists|i: int|
            0 <= i < view.parents(u).len() && (#[trigger] view.parents(u)[i]).0@ == k by {
            assert(0 <= view.edges[k].1 < view.links.len());
        }
    }
}

/// What `first_to` finds: an entry of the list that leads to `b`, or that no
/// entry does.
pub proof fn lemma_first_to(edges: Seq<(int, int)>, list: Seq<int>, b: int)
    ensures
        match first_to(edges, list, b) {
            Some(e) => list.contains(e) && 0 <= e < edges.len() && edges[e].1 == b,
            None => forall|i: int|
                0 <= i < list.len() && 0 <= #[trigger] list[i] < edges.len() ==> edges[list[i]].1
                    != b,
        },
    decreases list.len(),
{
    if list.len() > 0 {
        let tail = list.drop_first();
        lemma_first_to(edges, tail, b);
        if 0 <= list[0] < edges.len() && edges[list[0]].1 == b {
        } else {
            match first_to(edges, tail, b) {
                Some(e) => {
                    let k = choose|k: int| 0 <= k < tail.len() && tail[k] == e;
                    assert(list[k + 1] == e);
                },
                None => {
                    assert forall|i: int|
                        0 <= i < list.len() && 0 <= #[trigger] list[i] < edges.len() implies edges[list[i]].1
                        != b by {
                        if i > 0 {
                            assert(tail[i - 1] == list[i]);
                        }
                    }
                },
            }
        }
    }
}

/// In a well-formed graph the adjacency lists tell what the edge list holds:
/// whether `a` has incoming or outgoing edges, and whether an edge leads from
/// `a` to `b`.
pub proof fn lemma_links_reflect<N, E>(view: DagView<N, E>, a: int, b: int)
    requires
        view.wf(),
    ensures
        has_incoming(view.edges, a) == (0 <= a < view.links.len() && view.links[a].1.len() > 0),
        has_outgoing(view.edges, a) == (0 <= a < view.links.len() && view.links[a].0.len() > 0),
        has_incoming(view.edges, a) == (view.parents(a).len() > 0),
        has_outgoing(view.edges, a) == (view.children(a).len() > 0),
        has_edge(view.edges, a, b) == view.find_edge(a, b).is_some(),
        view.find_edge(a, b) matches Some(e) ==> 0 <= e < view.edges.len() && view.edges[e] == (
            a,
            b,
        ),
{
    if has_incoming(view.edges, a) {
        let k = choose|k: int| 0 <= k < view.edges.len() && (#[trigger] view.edges[k]).1 == a;
        assert(view.links[view.edges[k].1].1.contains(k));
    }
    if 0 <= a < view.links.len() && view.links[a].1.len() > 0 {
        let e = view.links[a].1[0];
        assert(0 <= e < view.edges.len() && view.edges[e].1 == a);
    }
    if has_outgoing(view.edges, a) {
        let k = choose|k: int| 0 <= k < view.edges.len() && (#[trigger] view.edges[k]).0 == a;
        assert(view.links[view.edges[k].0].0.contains(k));
    }
    if 0 <= a < view.links.len() && view.links[a].0.len() > 0 {
        let e = view.links[a].0[0];
        assert(0 <= e < view.edges.len() && view.edges[e].0 == a);
    }
    if 0 <= a < view.links.len() {
        let list = view.links[a].0;
        lemma_first_to(view.edges, list, b);
        match first_to(view.edges, list, b) {
            Some(e) => {
                let i = choose|i: int| 0 <= i < list.len() && list[i] == e;
                assert(0 <= list[i] < view.edges.len() && view.edges[list[i]].0 == a);
                assert(view.edges[e] == (a, b));
            },
            None => {
                if has_edge(view.edges, a, b) {
                    let k = choose|k: int| 0 <= k < view.edges.len() && #[trigger] view.edges[k] == (a, b);
                    assert(view.links[view.edges[k].0].0.contains(k));
                    let i = choose|i: int| 0 <= i < list.len() && list[i] == k;
                    assert(0 <= list[i] < view.edges.len());
                }
            },
        }
    } else {
        if has_edge(view.edges, a, b) {
            let k = choose|k: int| 0 <= k < view.edges.len() && #[trigger] view.edges[k] == (a, b);
            assert(0 <= view.edges[k].0 < view.links.len());
        }
    }
}

/// The part from an entry that the list does not hold is empty.
pub proof fn lemma_list_from_absent(list: Seq<int>, e: int)
    requires
        !list.contains(e),
    ensures
        list_from(list, e) == Seq::<int>::empty(),
    decreases list.len(),
{
    if list.len() > 0 {
        let tail = list.drop_first();
        assert(list[0] != e);
        assert(!tail.contains(e)) by {
            if tail.contains(e) {
                let k = choose|k: int| 0 <= k < tail.len() && tail[k] == e;
                assert(list[k + 1] == e);
            }
        }
        lemma_list_from_absent(tail, e);
    } else {
        assert(list =~= Seq::<int>::empty());
    }
}

/// In a list without repetitions, the part from the successor of `e` is the
/// part from `e` without its first entry.
pub proof fn lemma_list_from_successor(list: Seq<int>, e: int)
    requires
        list.no_duplicates(),
        list.contains(e),
        forall|i: int| 0 <= i < list.len() ==> list[i] != end_index(),
    ensures
        list_from(list, e).len() > 0,
        list_from(list, e)[0] == e,
        list_from(list, e).drop_first() == list_from(list, list_successor(list, e)),
        list_successor(list, e) != end_index() ==> list.contains(list_successor(list, e)),
        list_successor(list, e) == end_index() ==> list_from(list, e).len() == 1,
    decreases list.len(),
{
    let tail = list.drop_first();
    assert(tail.no_duplicates()) by {
        assert forall|i: int, j: int| 0 <= i < tail.len() && 0 <= j < tail.len() && i != j implies tail[i] != tail[j] by {
            assert(tail[i] == list[i + 1]);
            assert(tail[j] == list[j + 1]);
        }
    }
    assert forall|i: int| 0 <= i < tail.len() implies tail[i] != end_index() by {
        assert(tail[i] == list[i + 1]);
    }
    if list[0] == e {
        if tail.len() > 0 {
            assert(tail[0] == list[1]);
            assert(list_from(tail, tail[0]) == tail);
            // the successor is not the head, so the part from it lies in the tail
            assert(list[1] != list[0]);
        } else {
            assert(!list.contains(end_index()));
            lemma_list_from_absent(list, end_index());
        }
    } else {
        let k = choose|k: int| 0 <= k < list.len() && list[k] == e;
        assert(tail[k - 1] == e);
        lemma_list_from_successor(tail, e);
        let s = list_successor(tail, e);
        if s != end_index() {
            let j = choose|j: int| 0 <= j < tail.len() && tail[j] == s;
            assert(list[j + 1] == s);
            assert(list[0] != s);
        } else {
            assert(list[0] != end_index());
        }
    }
}

} // verus!
