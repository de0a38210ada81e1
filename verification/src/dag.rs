//! The graph itself: nodes and directed edges with weights, kept free of
//! cycles by checking every edge before it is committed.

use vstd::prelude::*;
use vstd::pervasive::cloned;
use core::marker::PhantomData;
use crate::index::{EdgeId, NodeId};
use crate::laws::lemma_fast_path;
use crate::links::{
    lemma_add_edge_consistent, lemma_add_node_consistent, lemma_bare_consistent,
    lemma_empty_consistent, lemma_remove_edge_consistent, lemma_remove_node_consistent,
};
use crate::paths::{
    acyclic, has_cycle, has_edge, has_outgoing, lemma_edge_not_reversed, lemma_fewer_edges,
    lemma_push_acyclic,
    lemma_push_leaf_acyclic, lemma_renamed_acyclic, lemma_swap_removed_within, reachable,
};
use crate::topology::{
    bare_links, cursor_next, cursor_state, end_index, graph_add_edge, graph_add_node, graph_clear,
    graph_clear_edges, graph_clone, graph_detach, graph_edge_count, graph_edge_endpoints,
    graph_edges, graph_find_edge, graph_has_path, graph_is_cyclic, graph_links, graph_node_count,
    graph_remove_edge, graph_remove_node, graph_with_capacity, list_successor, search_space_new,
    swap_removed, Cursor, SearchSpace, Topology,
};
use crate::view::{
    batch_weights, keeps, lemma_children_are_edges, lemma_fresh_node_untouched, lemma_links_reflect,
    lemma_list_from_successor, lemma_no_edges_acyclic, lemma_parents_are_edges,
    lemma_swap_removed_origin, lemma_with_edge_undone, lemma_with_edges_shape, list_from,
    node_removed, DagView,
};
use crate::walker::{head, Recursive, Walker};

verus! {

/// A directed acyclic graph with node weights `N` and edge weights `E`.
///
/// Nodes and edges are named by their positions. Adding keeps all positions;
/// removing a node or an edge moves the last one into its place.
#[derive(Debug)]
pub struct Dag<N, E> {
    graph: Topology,
    nodes: Vec<N>,
    weights: Vec<E>,
    cycle_state: SearchSpace,
}

impl<N, E> View for Dag<N, E> {
    type V = DagView<N, E>;

    closed spec fn view(&self) -> DagView<N, E> {
        DagView {
            nodes: self.nodes@,
            edges: graph_edges(self.graph),
            weights: self.weights@,
            links: graph_links(self.graph),
        }
    }
}

/// The indices of the edges that one call of `add_edges` added, in the order
/// of the batch.
pub struct EdgeIndices {
    indices: core::ops::Range<usize>,
}

impl EdgeIndices {
    /// The next index that `next` hands out.
    pub closed spec fn start(&self) -> int {
        self.indices.start as int
    }

    /// The index at which `next` stops.
    pub closed spec fn end(&self) -> int {
        self.indices.end as int
    }

    /// Hands out the next index, or `None` behind the last.
    pub fn next(&mut self) -> (e: Option<EdgeId>)
        ensures
            final(self).end() == old(self).end(),
            old(self).start() < old(self).end() ==> final(self).start() == old(self).start() + 1
                && e == Some(EdgeId(old(self).start() as u32)),
            old(self).start() >= old(self).end() ==> final(self).start() == old(self).start()
                && e.is_none(),
    {
        if self.indices.start < self.indices.end {
            let i = self.indices.start;
            self.indices.start = i + 1;
            Some(EdgeId::new(i))
        } else {
            None
        }
    }
}

/// A walker over the children of a node.
pub struct Children<N, E> {
    walk_edges: Cursor,
    _node: PhantomData<N>,
    _edge: PhantomData<E>,
}

/// A walker over the parents of a node.
pub struct Parents<N, E> {
    walk_edges: Cursor,
    _node: PhantomData<N>,
    _edge: PhantomData<E>,
}

/// The walker that `Dag::recursive_walk` returns.
pub type RecursiveWalk<N, E, F> = Recursive<Dag<N, E>, F>;

/// The error of an insertion that would have closed a cycle; it hands back
/// what was not committed.
#[derive(Debug)]
pub struct WouldCycle<E>(pub E);

impl<E: Clone> Clone for WouldCycle<E> {
    fn clone(&self) -> (copy: Self)
        ensures
            cloned(self.0, copy.0),
    {
        WouldCycle(self.0.clone())
    }
}

impl<E: Copy> Copy for WouldCycle<E> {

}

impl<E> WouldCycle<E> {
    /// What went wrong, in words.
    pub fn description(&self) -> (text: &'static str)
        ensures
            text@ == "Adding this edge would have created a cycle"@,
    {
        "Adding this edge would have created a cycle"
    }
}

impl<N: Clone, E: Clone> Clone for Dag<N, E> {
    /// A graph with the same nodes and edges, whose weights are clones.
    fn clone(&self) -> (copy: Self)
        ensures
            copy@.edges == self@.edges,
            copy@.links == self@.links,
            copy@.nodes.len() == self@.nodes.len(),
            copy@.weights.len() == self@.weights.len(),
            forall|i: int|
                0 <= i < self@.nodes.len() ==> cloned(#[trigger] self@.nodes[i], copy@.nodes[i]),
            forall|i: int|
                0 <= i < self@.weights.len() ==> cloned(
                    #[trigger] self@.weights[i],
                    copy@.weights[i],
                ),
            self.wf() ==> copy.wf(),
    {
        Dag {
            graph: graph_clone(&self.graph),
            nodes: self.nodes.clone(),
            weights: self.weights.clone(),
            cycle_state: search_space_new(),
        }
    }
}

impl<N, E> Default for Dag<N, E> {
    fn default() -> (dag: Self)
        ensures
            dag.wf(),
            dag@ == Dag::<N, E>::spec_empty(),
    {
        Dag::new()
    }
}

impl<N, E> core::ops::Index<NodeId> for Dag<N, E> {
    type Output = N;

    fn index(&self, index: NodeId) -> (weight: &N)
        ensures
            *weight == self@.nodes[index@],
    {
        &self.nodes[index.index()]
    }
}

impl<N, E> vstd::std_specs::core::IndexSpecImpl<NodeId> for Dag<N, E> {
    open spec fn index_req(&self, index: &NodeId) -> bool {
        self@.wf() && index@ < self@.nodes.len()
    }
}

impl<N, E> core::ops::IndexMut<NodeId> for Dag<N, E> {
    fn index_mut(&mut self, index: NodeId) -> (weight: &mut N)
        requires
            old(self).wf(),
            index@ < old(self)@.nodes.len(),
        ensures
            *weight == old(self)@.nodes[index@],
            final(self)@ == (DagView {
                nodes: old(self)@.nodes.update(index@, *final(weight)),
                ..old(self)@
            }),
    {
        &mut self.nodes[index.index()]
    }
}

impl<N, E> core::ops::Index<EdgeId> for Dag<N, E> {
    type Output = E;

    fn index(&self, index: EdgeId) -> (weight: &E)
        ensures
            *weight == self@.weights[index@],
    {
        &self.weights[index.index()]
    }
}

impl<N, E> vstd::std_specs::core::IndexSpecImpl<EdgeId> for Dag<N, E> {
    open spec fn index_req(&self, index: &EdgeId) -> bool {
        self@.wf() && index@ < self@.edges.len()
    }
}

impl<N, E> core::ops::IndexMut<EdgeId> for Dag<N, E> {
    fn index_mut(&mut self, index: EdgeId) -> (weight: &mut E)
        requires
            old(self).wf(),
            index@ < old(self)@.edges.len(),
        ensures
            *weight == old(self)@.weights[index@],
            final(self)@ == (DagView {
                weights: old(self)@.weights.update(index@, *final(weight)),
                ..old(self)@
            }),
    {
        &mut self.weights[index.index()]
    }
}

impl<N, E> Dag<N, E> {
    /// The graph is well formed: its adjacency lists index its edges, every
    /// node and edge has its weight, and no directed cycle leads through it.
    /// Every operation that takes the graph so leaves it so.
    pub open spec fn wf(&self) -> bool {
        self@.wf() && self@.acyclic()
    }

    /// What a graph without nodes or edges holds.
    pub open spec fn spec_empty() -> DagView<N, E> {
        DagView {
            nodes: Seq::empty(),
            edges: Seq::empty(),
            weights: Seq::empty(),
            links: Seq::empty(),
        }
    }

    /// A graph without nodes or edges.
    pub fn new() -> (dag: Self)
        ensures
            dag.wf(),
            dag@ == Self::spec_empty(),
    {
        Self::with_capacity(1, 1)
    }

    /// A graph without nodes or edges, with room for `nodes` nodes and
    /// `edges` edges.
    pub fn with_capacity(nodes: usize, edges: usize) -> (dag: Self)
        ensures
            dag.wf(),
            dag@ == Self::spec_empty(),
    {
        proof {
            lemma_empty_consistent();
            lemma_no_edges_acyclic();
        }
        let dag = Dag {
            graph: graph_with_capacity(nodes, edges),
            nodes: Vec::with_capacity(nodes),
            weights: Vec::with_capacity(edges),
            cycle_state: search_space_new(),
        };
        proof {
            assert(dag@.nodes =~= Seq::<N>::empty());
            assert(dag@.weights =~= Seq::<E>::empty());
        }
        dag
    }

    /// A graph of the same shape whose weights are made from the weights of
    /// this one: those of the nodes by `node_map`, those of the edges by
    /// `edge_map`, each called with the index and the weight.
    pub fn map<'a, F, G, N2, E2>(&'a self, node_map: F, edge_map: G) -> (mapped: Dag<N2, E2>) where
        F: Fn(NodeId, &'a N) -> N2,
        G: Fn(EdgeId, &'a E) -> E2,

        requires
            self.wf(),
            forall|i: int|
                0 <= i < self@.nodes.len() ==> call_requires(
                    node_map,
                    (NodeId(i as u32), &#[trigger] self@.nodes[i]),
                ),
            forall|i: int|
                0 <= i < self@.weights.len() ==> call_requires(
                    edge_map,
                    (EdgeId(i as u32), &#[trigger] self@.weights[i]),
                ),
        ensures
            mapped.wf(),
            mapped@.edges == self@.edges,
            mapped@.links == self@.links,
            mapped@.nodes.len() == self@.nodes.len(),
            mapped@.weights.len() == self@.weights.len(),
            forall|i: int|
                0 <= i < self@.nodes.len() ==> call_ensures(
                    node_map,
                    (NodeId(i as u32), &self@.nodes[i]),
                    #[trigger] mapped@.nodes[i],
                ),
            forall|i: int|
                0 <= i < self@.weights.len() ==> call_ensures(
                    edge_map,
                    (EdgeId(i as u32), &self@.weights[i]),
                    #[trigger] mapped@.weights[i],
                ),
    {
        let mut nodes: Vec<N2> = Vec::with_capacity(self.nodes.len());
        let mut i: usize = 0;
        while i < self.nodes.len()
            invariant
                self@.wf(),
                i <= self.nodes.len(),
                nodes@.len() == i,
                forall|k: int|
                    0 <= k < self@.nodes.len() ==> call_requires(
                        node_map,
                        (NodeId(k as u32), &#[trigger] self@.nodes[k]),
                    ),
                forall|k: int|
                    0 <= k < i ==> call_ensures(
                        node_map,
                        (NodeId(k as u32), &self@.nodes[k]),
                        #[trigger] nodes@[k],
                    ),
            decreases self.nodes.len() - i,
        {
            proof {
                assert(self@.nodes[i as int] == self.nodes@[i as int]);
            }
            let weight = node_map(NodeId::new(i), &self.nodes[i]);
            nodes.push(weight);
            i += 1;
        }
        let mut weights: Vec<E2> = Vec::with_capacity(self.weights.len());
        let mut j: usize = 0;
        while j < self.weights.len()
            invariant
                self@.wf(),
                j <= self.weights.len(),
                weights@.len() == j,
                forall|k: int|
                    0 <= k < self@.weights.len() ==> call_requires(
                        edge_map,
                        (EdgeId(k as u32), &#[trigger] self@.weights[k]),
                    ),
                forall|k: int|
                    0 <= k < j ==> call_ensures(
                        edge_map,
                        (EdgeId(k as u32), &self@.weights[k]),
                        #[trigger] weights@[k],
                    ),
            decreases self.weights.len() - j,
        {
            proof {
                assert(self@.weights[j as int] == self.weights@[j as int]);
            }
            let weight = edge_map(EdgeId::new(j), &self.weights[j]);
            weights.push(weight);
            j += 1;
        }
        Dag { graph: graph_clone(&self.graph), nodes, weights, cycle_state: search_space_new() }
    }

    /// Takes the graph apart: the weights of its nodes, and its edges with
    /// their weights, each list in index order.
    pub fn into_nodes_edges(self) -> (parts: (Vec<N>, Vec<(NodeId, NodeId, E)>))
        requires
            self@.wf(),
        ensures
            parts.0@ == self@.nodes,
            parts.1@.len() == self@.edges.len(),
            forall|k: int|
                0 <= k < self@.edges.len() ==> {
                    &&& ((#[trigger] parts.1@[k]).0@, parts.1@[k].1@) == self@.edges[k]
                    &&& parts.1@[k].2 == self@.weights[k]
                },
    {
        let ghost view = self@;
        let Dag { graph, nodes, weights, cycle_state: _ } = self;
        let mut edges: Vec<(NodeId, NodeId, E)> = Vec::with_capacity(weights.len());
        let ghost list = weights@;
        for weight in iter: weights
            invariant
                iter.seq() == list,
                list == view.weights,
                view.wf(),
                graph_edges(graph) == view.edges,
                edges@.len() == iter.index(),
                forall|k: int|
                    0 <= k < iter.index() ==> {
                        &&& ((#[trigger] edges@[k]).0@, edges@[k].1@) == view.edges[k]
                        &&& edges@[k].2 == view.weights[k]
                    },
        {
            let k = edges.len();
            let (s, t) = graph_edge_endpoints(&graph, k as u32).unwrap();
            edges.push((NodeId::new(s), NodeId::new(t), weight));
        }
        (nodes, edges)
    }

    /// The graph that stores the topology: nodes and edges under the same
    /// indices, without their weights.
    pub fn graph(&self) -> (graph: &Topology)
        ensures
            graph_edges(*graph) == self@.edges,
            graph_links(*graph) == self@.links,
    {
        &self.graph
    }

    /// The number of nodes.
    pub fn node_count(&self) -> (n: usize)
        requires
            self@.wf(),
        ensures
            n == self@.nodes.len(),
    {
        graph_node_count(&self.graph)
    }

    /// The number of edges.
    pub fn edge_count(&self) -> (n: usize)
        requires
            self@.wf(),
        ensures
            n == self@.edges.len(),
    {
        graph_edge_count(&self.graph)
    }

    /// Adds a node with the given weight and returns its index.
    pub fn add_node(&mut self, weight: N) -> (n: NodeId)
        requires
            old(self).wf(),
            old(self)@.nodes.len() < u32::MAX,
        ensures
            final(self).wf(),
            n@ == old(self)@.nodes.len(),
            final(self)@ == old(self)@.with_node(weight),
    {
        proof {
            lemma_add_node_consistent(self@.edges, self@.links);
        }
        let n = graph_add_node(&mut self.graph);
        self.nodes.push(weight);
        NodeId::new(n)
    }

    /// A walker over the children of `parent`, which holds no borrow of the
    /// graph.
    pub fn children(&self, parent: NodeId) -> (walker: Children<N, E>)
        requires
            self@.wf(),
        ensures
            walker.valid(),
            walker.position() == self@.first_child(parent@),
            walker.steps(self) == self@.children(parent@),
    {
        let walk_edges = graph_detach(&self.graph, parent.0, false);
        proof {
            if parent@ < self@.links.len() {
                let list = self@.links[parent@].0;
                if list.len() > 0 {
                    assert(list_from(list, list[0]) == list);
                    assert(0 <= list[0] < self@.edges.len() && self@.edges[list[0]].0 == parent@);
                }
            }
        }
        Children { walk_edges, _node: PhantomData, _edge: PhantomData }
    }

    /// A walker over the parents of `child`, which holds no borrow of the
    /// graph.
    pub fn parents(&self, child: NodeId) -> (walker: Parents<N, E>)
        requires
            self@.wf(),
        ensures
            walker.valid(),
            walker.position() == self@.first_parent(child@),
            walker.steps(self) == self@.parents(child@),
    {
        let walk_edges = graph_detach(&self.graph, child.0, true);
        proof {
            if child@ < self@.links.len() {
                let list = self@.links[child@].1;
                if list.len() > 0 {
                    assert(list_from(list, list[0]) == list);
                    assert(0 <= list[0] < self@.edges.len() && self@.edges[list[0]].1 == child@);
                }
            }
        }
        Parents { walk_edges, _node: PhantomData, _edge: PhantomData }
    }

    /// The first edge from `a` to `b` in `a`'s walking order, if there
    /// is one.
    pub fn find_edge(&self, a: NodeId, b: NodeId) -> (found: Option<EdgeId>)
        requires
            self@.wf(),
        ensures
            found.is_some() == has_edge(self@.edges, a@, b@),
            match found {
                Some(e) => self@.find_edge(a@, b@) == Some(e@) && e@ < self@.edges.len()
                    && self@.edges[e@] == (a@, b@),
                None => self@.find_edge(a@, b@).is_none(),
            },
    {
        proof {
            lemma_links_reflect(self@, a@, b@);
        }
        match graph_find_edge(&self.graph, a.0, b.0) {
            Some(e) => Some(EdgeId::new(e)),
            None => None,
        }
    }

    /// Source and target of edge `e`; `None` where `e` is no edge.
    pub fn edge_endpoints(&self, e: EdgeId) -> (ends: Option<(NodeId, NodeId)>)
        requires
            self@.wf(),
        ensures
            ends.is_some() == (e@ < self@.edges.len()),
            ends matches Some((s, t)) ==> (s@, t@) == self@.edges[e@],
    {
        match graph_edge_endpoints(&self.graph, e.0) {
            Some((s, t)) => Some((NodeId::new(s), NodeId::new(t))),
            None => None,
        }
    }

    /// The weight of node `node`; `None` where `node` is no node.
    pub fn node_weight(&self, node: NodeId) -> (weight: Option<&N>)
        requires
            self@.wf(),
        ensures
            weight.is_some() == (node@ < self@.nodes.len()),
            weight matches Some(w) ==> *w == self@.nodes[node@],
    {
        let i = node.index();
        if i < self.nodes.len() {
            Some(&self.nodes[i])
        } else {
            None
        }
    }

    /// The weight of edge `edge`; `None` where `edge` is no edge.
    pub fn edge_weight(&self, edge: EdgeId) -> (weight: Option<&E>)
        requires
            self@.wf(),
        ensures
            weight.is_some() == (edge@ < self@.edges.len()),
            weight matches Some(w) ==> *w == self@.weights[edge@],
    {
        let i = edge.index();
        if i < self.weights.len() {
            Some(&self.weights[i])
        } else {
            None
        }
    }

    /// The weight of node `node`, to be changed in place; `None` where `node`
    /// is no node.
    pub fn node_weight_mut(&mut self, node: NodeId) -> (weight: Option<&mut N>)
        requires
            old(self).wf(),
        ensures
            weight.is_some() == (node@ < old(self)@.nodes.len()),
            match weight {
                Some(w) => *w == old(self)@.nodes[node@] && final(self)@ == (DagView {
                    nodes: old(self)@.nodes.update(node@, *final(w)),
                    ..old(self)@
                }),
                None => final(self)@ == old(self)@,
            },
    {
        let i = node.index();
        if i < self.nodes.len() {
            Some(&mut self.nodes[i])
        } else {
            None
        }
    }

    /// The weight of edge `edge`, to be changed in place; `None` where `edge`
    /// is no edge.
    pub fn edge_weight_mut(&mut self, edge: EdgeId) -> (weight: Option<&mut E>)
        requires
            old(self).wf(),
        ensures
            weight.is_some() == (edge@ < old(self)@.edges.len()),
            match weight {
                Some(w) => *w == old(self)@.weights[edge@] && final(self)@ == (DagView {
                    weights: old(self)@.weights.update(edge@, *final(w)),
                    ..old(self)@
                }),
                None => final(self)@ == old(self)@,
            },
    {
        let i = edge.index();
        if i < self.weights.len() {
            Some(&mut self.weights[i])
        } else {
            None
        }
    }

    /// The weights of all nodes, in index order, to be changed in place.
    pub fn node_weights_mut(&mut self) -> (weights: &mut [N])
        requires
            old(self).wf(),
        ensures
            weights@ == old(self)@.nodes,
            final(self)@ == (DagView { nodes: final(weights)@, ..old(self)@ }),
            final(weights)@.len() == weights@.len() ==> final(self).wf(),
    {
        self.nodes.as_mut_slice()
    }

    /// The weights of all edges, in index order, to be changed in place.
    pub fn edge_weights_mut(&mut self) -> (weights: &mut [E])
        requires
            old(self).wf(),
        ensures
            weights@ == old(self)@.weights,
            final(self)@ == (DagView { weights: final(weights)@, ..old(self)@ }),
            final(weights)@.len() == weights@.len() ==> final(self).wf(),
    {
        self.weights.as_mut_slice()
    }

    /// The weight of node `node` and the weight of edge `edge`, both to be
    /// changed in place.
    pub fn index_twice_mut(&mut self, node: NodeId, edge: EdgeId) -> (weights: (&mut N, &mut E))
        requires
            old(self).wf(),
            node@ < old(self)@.nodes.len(),
            edge@ < old(self)@.edges.len(),
        ensures
            *weights.0 == old(self)@.nodes[node@],
            *weights.1 == old(self)@.weights[edge@],
            final(self)@ == (DagView {
                nodes: old(self)@.nodes.update(node@, *final(weights.0)),
                weights: old(self)@.weights.update(edge@, *final(weights.1)),
                ..old(self)@
            }),
            final(self).wf(),
    {
        (&mut self.nodes[node.index()], &mut self.weights[edge.index()])
    }

    /// A walker that starts at `start` and steps as `recursive_fn` directs.
    pub fn recursive_walk<F>(&self, start: NodeId, recursive_fn: F) -> (walker: RecursiveWalk<
        N,
        E,
        F,
    >) where F: Fn(&Self, NodeId) -> Option<(EdgeId, NodeId)>
        ensures
            walker.position() == start,
            walker.step_fn() == recursive_fn,
    {
        Recursive::new(start, recursive_fn)
    }

    /// Adds an edge from `a` to `b` without asking whether it closes a
    /// cycle.
    pub(crate) fn push_edge(&mut self, a: NodeId, b: NodeId, weight: E) -> (e: EdgeId)
        requires
            old(self)@.wf(),
            a@ < old(self)@.nodes.len(),
            b@ < old(self)@.nodes.len(),
            old(self)@.edges.len() < u32::MAX,
        ensures
            final(self)@.wf(),
            e@ == old(self)@.edges.len(),
            final(self)@ == old(self)@.with_edge(a@, b@, weight),
    {
        proof {
            lemma_add_edge_consistent(self@.edges, self@.links, a@, b@);
        }
        let e = graph_add_edge(&mut self.graph, a.0, b.0);
        self.weights.push(weight);
        EdgeId::new(e)
    }

    /// Whether a walk leads from `from` to `to`. The search reuses the
    /// scratch space that the graph keeps for it.
    pub fn has_path(&mut self, from: NodeId, to: NodeId) -> (found: bool)
        requires
            old(self)@.wf(),
            from@ < old(self)@.nodes.len(),
        ensures
            final(self)@ == old(self)@,
            found == reachable(old(self)@.edges, from@, to@),
    {
        graph_has_path(&self.graph, from.0, to.0, &mut self.cycle_state)
    }

    /// Adds an edge from `a` to `b` unless it would close a cycle: the edge
    /// is rejected, and its weight handed back, exactly where `b` reaches
    /// `a`. An edge from a node to itself is always rejected.
    ///
    /// The search from `b` is left out where it could find nothing: where
    /// the two nodes differ and `a` has no incoming edge, `b` has no
    /// outgoing edge, or an edge from `a` to `b` exists already.
    pub fn add_edge(&mut self, a: NodeId, b: NodeId, weight: E) -> (added: Result<
        EdgeId,
        WouldCycle<E>,
    >)
        requires
            old(self).wf(),
            a@ < old(self)@.nodes.len(),
            b@ < old(self)@.nodes.len(),
            !reachable(old(self)@.edges, b@, a@) ==> old(self)@.edges.len() < u32::MAX,
        ensures
            final(self).wf(),
            match added {
                Ok(e) => e@ == old(self)@.edges.len() && final(self)@ == old(self)@.with_edge(
                    a@,
                    b@,
                    weight,
                ),
                Err(rejected) => rejected.0 == weight && final(self)@ == old(self)@,
            },
            added.is_err() == reachable(old(self)@.edges, b@, a@),
    {
        let should_check_for_cycle = must_check_for_cycle(self, a, b);
        if should_check_for_cycle && self.has_path(b, a) {
            return Err(WouldCycle(weight));
        }
        proof {
            if self@.acyclic() {
                if !should_check_for_cycle {
                    lemma_fast_path(self@, a@, b@);
                }
                lemma_push_acyclic(self@.edges, a@, b@);
            }
        }
        Ok(self.push_edge(a, b, weight))
    }

    /// Removes edge `e` and returns its weight; `None` where `e` is no edge.
    /// The last edge takes the index of the removed one.
    pub fn remove_edge(&mut self, e: EdgeId) -> (removed: Option<E>)
        requires
            old(self).wf(),
        ensures
            final(self).wf(),
            removed.is_some() == (e@ < old(self)@.edges.len()),
            match removed {
                Some(weight) => weight == old(self)@.weights[e@] && final(self)@ == old(
                    self,
                )@.without_edge(e@),
                None => final(self)@ == old(self)@,
            },
    {
        self.take_edge(e)
    }

    /// Removes edge `e` as `remove_edge` does, from a graph that may hold a
    /// cycle for the time being.
    fn take_edge(&mut self, e: EdgeId) -> (removed: Option<E>)
        requires
            old(self)@.wf(),
        ensures
            final(self)@.wf(),
            removed.is_some() == (e@ < old(self)@.edges.len()),
            match removed {
                Some(weight) => weight == old(self)@.weights[e@] && final(self)@ == old(
                    self,
                )@.without_edge(e@),
                None => final(self)@ == old(self)@,
            },
            old(self)@.acyclic() ==> final(self)@.acyclic(),
    {
        proof {
            if e@ < self@.edges.len() {
                lemma_remove_edge_consistent(self@.edges, self@.links, e@);
                lemma_swap_removed_within(self@.edges, e@);
                lemma_fewer_edges(swap_removed(self@.edges, e@), self@.edges);
            }
        }
        if graph_remove_edge(&mut self.graph, e.0) {
            Some(self.weights.swap_remove(e.index()))
        } else {
            None
        }
    }

    /// Removes node `node` with every edge that touches it, and returns its
    /// weight; `None` where `node` is no node.
    ///
    /// The edges out of the node go first, then those into it, each time the
    /// first in walking order; every removal moves the last edge into the
    /// freed index. In the end the last node takes the index `node`.
    pub fn remove_node(&mut self, node: NodeId) -> (removed: Option<N>)
        requires
            old(self).wf(),
        ensures
            final(self).wf(),
            removed.is_some() == (node@ < old(self)@.nodes.len()),
            match removed {
                Some(weight) => {
                    &&& weight == old(self)@.nodes[node@]
                    &&& final(self)@ == old(self)@.without_node(node@)
                    &&& exists|origin: Seq<int>| #[trigger]
                        node_removed(old(self)@, final(self)@, node@, origin)
                },
                None => final(self)@ == old(self)@,
            },
    {
        if node.index() >= self.node_count() {
            return None;
        }
        let ghost start = self@;
        let ghost mut origin = Seq::new(start.edges.len(), |k: int| k);
        proof {
            assert forall|j: int| 0 <= j < start.edges.len() implies origin.contains(j) by {
                assert(origin[j] == j);
            }
            lemma_fewer_edges(start.edges, start.edges);
        }
        loop
            invariant
                self@.wf(),
                start == old(self)@,
                node@ < start.nodes.len(),
                keeps(start, self@, origin),
                forall|j: int|
                    0 <= j < start.edges.len() && !origin.contains(j) ==> (
                    #[trigger] start.edges[j]).0 == node@ || start.edges[j].1 == node@,
                start.acyclic() ==> self@.acyclic(),
                self@.without_edges_out(node@) == start.without_edges_out(node@),
            ensures
                self@.children(node@).len() == 0,
                self@ == start.without_edges_out(node@),
            decreases self@.edges.len(),
        {
            let ghost here = self@;
            let mut walker = self.children(node);
            match walker.walk_next(self) {
                Some((e, _)) => {
                    proof {
                        lemma_children_are_edges(here, node@);
                        assert(here.children(node@)[0].0 == e);
                        assert(here.links[node@].0[0] == e@);
                        lemma_swap_removed_origin(origin, e@);
                        origin = swap_removed(origin, e@);
                    }
                    self.take_edge(e);
                },
                None => {
                    break ;
                },
            }
        }
        loop
            invariant
                self@.wf(),
                start == old(self)@,
                node@ < start.nodes.len(),
                keeps(start, self@, origin),
                self@.children(node@).len() == 0,
                forall|j: int|
                    0 <= j < start.edges.len() && !origin.contains(j) ==> (
                    #[trigger] start.edges[j]).0 == node@ || start.edges[j].1 == node@,
                start.acyclic() ==> self@.acyclic(),
                self@.without_edges_in(node@) == start.without_edges_out(node@).without_edges_in(
                    node@,
                ),
            ensures
                self@.parents(node@).len() == 0,
                self@ == start.without_edges_out(node@).without_edges_in(node@),
            decreases self@.edges.len(),
        {
            let ghost here = self@;
            let mut walker = self.parents(node);
            match walker.walk_next(self) {
                Some((e, _)) => {
                    proof {
                        lemma_parents_are_edges(here, node@);
                        assert(here.parents(node@)[0].0 == e);
                        assert(here.links[node@].1[0] == e@);
                        lemma_swap_removed_origin(origin, e@);
                        origin = swap_removed(origin, e@);
                        lemma_remove_edge_consistent(here.edges, here.links, e@);
                        lemma_links_reflect(here, node@, node@);
                        lemma_swap_removed_within(here.edges, e@);
                        lemma_links_reflect(here.without_edge(e@), node@, node@);
                        if has_outgoing(swap_removed(here.edges, e@), node@) {
                            let k = choose|k: int|
                                0 <= k < swap_removed(here.edges, e@).len() && (
                                #[trigger] swap_removed(here.edges, e@)[k]).0 == node@;
                            assert(has_edge(
                                swap_removed(here.edges, e@),
                                node@,
                                swap_removed(here.edges, e@)[k].1,
                            ));
                            let j = choose|j: int|
                                0 <= j < here.edges.len() && #[trigger] here.edges[j] == (
                                    node@,
                                    swap_removed(here.edges, e@)[k].1,
                                );
                            assert(here.edges[j].0 == node@);
                        }
                    }
                    self.take_edge(e);
                },
                None => {
                    break ;
                },
            }
        }
        proof {
            let here = self@;
            lemma_links_reflect(here, node@, node@);
            assert(here.links[node@].0 =~= Seq::<int>::empty());
            assert(here.links[node@].1 =~= Seq::<int>::empty());
            lemma_remove_node_consistent(here.edges, here.links, node@);
            if start.acyclic() {
                lemma_renamed_acyclic(here.edges, here.links.len() - 1, node@);
            }
            assert forall|j: int| 0 <= j < start.edges.len() implies (origin.contains(j) <==> (
            #[trigger] start.edges[j]).0 != node@ && start.edges[j].1 != node@) by {
                if origin.contains(j) {
                    let k = choose|k: int| 0 <= k < origin.len() && origin[k] == j;
                    assert(here.edges[k] == start.edges[j]);
                }
            }
        }
        graph_remove_node(&mut self.graph, node.0);
        let weight = self.nodes.swap_remove(node.index());
        proof {
            assert(node_removed(start, self@, node@, origin));
        }
        Some(weight)
    }

    /// Removes all nodes and edges.
    pub fn clear(&mut self)
        ensures
            final(self).wf(),
            final(self)@ == Self::spec_empty(),
    {
        proof {
            lemma_empty_consistent();
            lemma_no_edges_acyclic();
        }
        graph_clear(&mut self.graph);
        self.nodes.clear();
        self.weights.clear();
        proof {
            assert(self@.nodes =~= Seq::<N>::empty());
            assert(self@.weights =~= Seq::<E>::empty());
        }
    }

    /// Removes all edges and keeps the nodes.
    pub fn clear_edges(&mut self)
        requires
            old(self).wf(),
        ensures
            final(self).wf(),
            final(self)@.nodes == old(self)@.nodes,
            final(self)@.edges.len() == 0,
            final(self)@.links == bare_links(old(self)@.nodes.len()),
    {
        proof {
            lemma_bare_consistent(self@.links.len());
        }
        graph_clear_edges(&mut self.graph);
        self.weights.clear();
        proof {
            assert(self@.edges =~= Seq::<(int, int)>::empty());
            lemma_no_edges_acyclic();
        }
    }

    /// Adds a new node and an edge from it to `child`. No search is made: an
    /// edge from a node that nothing leads to closes no cycle.
    pub fn add_parent(&mut self, child: NodeId, edge: E, node: N) -> (added: (EdgeId, NodeId))
        requires
            old(self).wf(),
            child@ < old(self)@.nodes.len(),
            old(self)@.nodes.len() < u32::MAX,
            old(self)@.edges.len() < u32::MAX,
        ensures
            final(self).wf(),
            added.0@ == old(self)@.edges.len(),
            added.1@ == old(self)@.nodes.len(),
            final(self)@ == old(self)@.with_node(node).with_edge(added.1@, child@, edge),
    {
        let parent_node = self.add_node(node);
        proof {
            lemma_fresh_node_untouched(old(self)@);
            if self@.acyclic() {
                lemma_push_leaf_acyclic(self@.edges, parent_node@, child@);
            }
        }
        let parent_edge = self.push_edge(parent_node, child, edge);
        (parent_edge, parent_node)
    }

    /// Adds a new node and an edge from `parent` to it. No search is made: an
    /// edge to a node that leads nowhere closes no cycle.
    pub fn add_child(&mut self, parent: NodeId, edge: E, node: N) -> (added: (EdgeId, NodeId))
        requires
            old(self).wf(),
            parent@ < old(self)@.nodes.len(),
            old(self)@.nodes.len() < u32::MAX,
            old(self)@.edges.len() < u32::MAX,
        ensures
            final(self).wf(),
            added.0@ == old(self)@.edges.len(),
            added.1@ == old(self)@.nodes.len(),
            final(self)@ == old(self)@.with_node(node).with_edge(parent@, added.1@, edge),
    {
        let child_node = self.add_node(node);
        proof {
            lemma_fresh_node_untouched(old(self)@);
            if self@.acyclic() {
                lemma_push_leaf_acyclic(self@.edges, parent@, child_node@);
            }
        }
        let child_edge = self.push_edge(parent, child_node, edge);
        (child_edge, child_node)
    }

    /// Gives the edge from `a` to `b` the weight `weight`: where such an edge
    /// exists, the first in `a`'s walking order gets it; where none does, the
    /// edge is added as by `add_edge`.
    pub fn update_edge(&mut self, a: NodeId, b: NodeId, weight: E) -> (updated: Result<
        EdgeId,
        WouldCycle<E>,
    >)
        requires
            old(self).wf(),
            a@ < old(self)@.nodes.len(),
            b@ < old(self)@.nodes.len(),
            !has_edge(old(self)@.edges, a@, b@) && !reachable(old(self)@.edges, b@, a@)
                ==> old(self)@.edges.len() < u32::MAX,
        ensures
            final(self).wf(),
            updated.is_err() == reachable(old(self)@.edges, b@, a@),
            match updated {
                Ok(e) => if has_edge(old(self)@.edges, a@, b@) {
                    &&& old(self)@.find_edge(a@, b@) == Some(e@)
                    &&& final(self)@ == (DagView {
                        weights: old(self)@.weights.update(e@, weight),
                        ..old(self)@
                    })
                } else {
                    e@ == old(self)@.edges.len() && final(self)@ == old(self)@.with_edge(
                        a@,
                        b@,
                        weight,
                    )
                },
                Err(rejected) => rejected.0 == weight && final(self)@ == old(self)@,
            },
    {
        if let Some(edge_idx) = self.find_edge(a, b) {
            proof {
                if self@.acyclic() {
                    lemma_edge_not_reversed(self@.edges, a@, b@);
                }
            }
            let i = edge_idx.index();
            self.weights[i] = weight;
            return Ok(edge_idx);
        }
        self.add_edge(a, b, weight)
    }

    /// Adds the edges of the batch, all or none: the batch is rejected
    /// exactly where the graph would have a cycle with it.
    ///
    /// Every edge is added first. Where some edge had to be checked when its
    /// turn came, one search for a cycle over the whole graph follows; where
    /// it finds one, the added edges are removed again, last first, and their
    /// weights handed back in that order.
    pub fn add_edges(&mut self, edges: Vec<(NodeId, NodeId, E)>) -> (added: Result<
        EdgeIndices,
        WouldCycle<Vec<E>>,
    >)
        requires
            old(self).wf(),
            forall|i: int|
                0 <= i < edges@.len() ==> (#[trigger] edges@[i]).0@ < old(self)@.nodes.len()
                    && edges@[i].1@ < old(self)@.nodes.len(),
            old(self)@.edges.len() + edges@.len() <= u32::MAX,
        ensures
            final(self).wf(),
            match added {
                Ok(indices) => {
                    &&& final(self)@ == old(self)@.with_edges(edges@)
                    &&& indices.start() == old(self)@.edges.len()
                    &&& indices.end() == old(self)@.edges.len() + edges@.len()
                },
                Err(rejected) => {
                    &&& final(self)@ == old(self)@
                    &&& rejected.0@ == batch_weights(edges@).reverse()
                },
            },
            added.is_err() ==> final(self)@.edges.len() == old(self)@.edges.len(),
            added.is_ok() ==> final(self)@.edges.len() == old(self)@.edges.len() + edges@.len(),
            added.is_err() == has_cycle(old(self)@.with_edges(edges@).edges),
    {
        let ghost before = self@;
        let ghost batch = edges@;
        let mut num_edges: usize = 0;
        let mut should_check_for_cycle = false;
        proof {
            lemma_with_edges_shape(before, batch.take(0));
        }
        for item in iter: edges
            invariant
                iter.seq() == batch,
                before.wf(),
                self@.wf(),
                num_edges == iter.index(),
                self@ == before.with_edges(batch.take(iter.index())),
                should_check_for_cycle == before.batch_must_check(batch.take(iter.index())),
                before.edges.len() + batch.len() <= u32::MAX,
                forall|i: int|
                    0 <= i < batch.len() ==> (#[trigger] batch[i]).0@ < before.nodes.len()
                        && batch[i].1@ < before.nodes.len(),
                before.acyclic() && !should_check_for_cycle ==> self@.acyclic(),
        {
            let ghost k = iter.index();
            let (a, b, weight) = item;
            proof {
                assert(batch[k] == (a, b, weight));
                lemma_with_edges_shape(before, batch.take(k));
                assert(batch.take(k + 1).drop_last() =~= batch.take(k));
                assert(batch.take(k + 1).last() == batch[k]);
            }
            if !should_check_for_cycle {
                if must_check_for_cycle(self, a, b) {
                    should_check_for_cycle = true;
                }
            }
            proof {
                if before.acyclic() && !should_check_for_cycle {
                    lemma_fast_path(self@, a@, b@);
                    lemma_push_acyclic(self@.edges, a@, b@);
                }
            }
            self.push_edge(a, b, weight);
            num_edges += 1;
        }
        proof {
            assert(batch.take(batch.len() as int) =~= batch);
            lemma_with_edges_shape(before, batch);
        }
        let total_edges = self.edge_count();
        let first_new = total_edges - num_edges;

        // Check if adding the edges has created a cycle.
        if should_check_for_cycle && graph_is_cyclic(&self.graph) {
            let mut removed_edges: Vec<E> = Vec::new();
            let mut i = total_edges;
            while i > first_new
                invariant
                    before.wf(),
                    self@.wf(),
                    first_new == before.edges.len(),
                    total_edges == first_new + batch.len(),
                    first_new <= i <= total_edges,
                    self@ == before.with_edges(batch.take(i - first_new)),
                    removed_edges@ == batch_weights(batch).subrange(
                        i - first_new,
                        batch.len() as int,
                    ).reverse(),
                    before.edges.len() + batch.len() <= u32::MAX,
                    forall|j: int|
                        0 <= j < batch.len() ==> (#[trigger] batch[j]).0@ < before.nodes.len()
                            && batch[j].1@ < before.nodes.len(),
                decreases i,
            {
                i -= 1;
                let ghost k = i - first_new;
                proof {
                    lemma_with_edges_shape(before, batch.take(k));
                    assert(batch.take(k + 1).drop_last() =~= batch.take(k));
                    assert(batch.take(k + 1).last() == batch[k]);
                    lemma_with_edge_undone(
                        before.with_edges(batch.take(k)),
                        batch[k].0@,
                        batch[k].1@,
                        batch[k].2,
                    );
                }
                let idx = EdgeId::new(i);
                if let Some(weight) = self.take_edge(idx) {
                    removed_edges.push(weight);
                }
                proof {
                    let all = batch_weights(batch);
                    let n = batch.len() as int;
                    assert(all.subrange(k, n).reverse() =~= all.subrange(k + 1, n).reverse().push(
                        all[k],
                    ));
                }
            }
            proof {
                assert(batch.take(0) =~= Seq::<(NodeId, NodeId, E)>::empty());
                assert(batch_weights(batch).subrange(0, batch.len() as int) =~= batch_weights(
                    batch,
                ));
            }
            Err(WouldCycle(removed_edges))
        } else {
            Ok(EdgeIndices { indices: first_new..total_edges })
        }
    }
}

/// Whether the edge `a -> b` has to be checked against a cycle before it is
/// added to `dag`: always where it leads from a node to itself; else where
/// `a` has an incoming edge, `b` has an outgoing edge, and no edge leads
/// from `a` to `b` yet. The graph may hold a cycle for the time being, as it
/// may in the middle of a batch.
pub fn must_check_for_cycle<N, E>(dag: &Dag<N, E>, a: NodeId, b: NodeId) -> (check: bool)
    requires
        dag@.wf(),
    ensures
        check == dag@.must_check(a@, b@),
{
    proof {
        lemma_links_reflect(dag@, a@, b@);
        lemma_links_reflect(dag@, b@, a@);
    }
    if a == b {
        return true;
    }
    let mut parents = dag.parents(a);
    if parents.walk_next(dag).is_none() {
        return false;
    }
    let mut children = dag.children(b);
    if children.walk_next(dag).is_none() {
        return false;
    }
    dag.find_edge(a, b).is_none()
}

impl<N, E> Children<N, E> {
    /// The walker was made to walk outgoing edges.
    pub closed spec fn valid(&self) -> bool {
        cursor_state(self.walk_edges).1 == end_index() && cursor_state(self.walk_edges).2
            == end_index()
    }

    /// The index of the edge that the next step takes; an index that no edge
    /// has where the walk is over.
    pub closed spec fn position(&self) -> int {
        cursor_state(self.walk_edges).0
    }
}

impl<N, E> Parents<N, E> {
    /// The walker was made to walk incoming edges.
    pub closed spec fn valid(&self) -> bool {
        cursor_state(self.walk_edges).0 == end_index() && cursor_state(self.walk_edges).2
            == end_index()
    }

    /// The index of the edge that the next step takes; an index that no edge
    /// has where the walk is over.
    pub closed spec fn position(&self) -> int {
        cursor_state(self.walk_edges).1
    }
}

impl<N, E> Walker<Dag<N, E>> for Children<N, E> {
    type Item = (EdgeId, NodeId);

    open spec fn inv(&self, dag: &Dag<N, E>) -> bool {
        dag@.wf() && self.valid()
    }

    open spec fn bounded(&self, dag: &Dag<N, E>) -> bool {
        true
    }

    /// The walk goes on through whatever the graph holds when a step is
    /// made: from the edge at which the walker stands, along the outgoing
    /// edges of that edge's source.
    open spec fn steps(&self, dag: &Dag<N, E>) -> Seq<(EdgeId, NodeId)> {
        dag@.children_from(self.position())
    }

    /// The step takes the edge at which the walker stands to that edge's
    /// target, and the walker moves to the next outgoing edge of its source.
    open spec fn steps_to(&self, dag: &Dag<N, E>, after: &Self, step: Option<(EdgeId, NodeId)>) -> bool {
        &&& after.valid()
        &&& after.position() == dag@.after_child(self.position())
        &&& step == head(self.steps(dag))
    }

    fn walk_next(&mut self, dag: &Dag<N, E>) -> (step: Option<(EdgeId, NodeId)>) {
        proof {
            let c = cursor_state(self.walk_edges).0;
            let view = dag@;
            if 0 <= c < view.edges.len() {
                let list = view.links[view.edges[c].0].0;
                assert(list.contains(c));
                assert forall|i: int| 0 <= i < list.len() implies list[i] != end_index() by {
                    assert(0 <= list[i] < view.edges.len());
                }
                lemma_list_from_successor(list, c);
                let next = list_successor(list, c);
                if next != end_index() {
                    let j = choose|j: int| 0 <= j < list.len() && list[j] == next;
                    assert(0 <= list[j] < view.edges.len() && view.edges[list[j]].0
                        == view.edges[c].0);
                    assert(view.children_from(next) =~= view.children_from(c).drop_first());
                } else {
                    assert(view.children_from(next) =~= view.children_from(c).drop_first());
                }
            }
        }
        match cursor_next(&mut self.walk_edges, &dag.graph) {
            Some((e, n)) => Some((EdgeId::new(e), NodeId::new(n))),
            None => None,
        }
    }
}

impl<N, E> Walker<Dag<N, E>> for Parents<N, E> {
    type Item = (EdgeId, NodeId);

    open spec fn inv(&self, dag: &Dag<N, E>) -> bool {
        dag@.wf() && self.valid()
    }

    open spec fn bounded(&self, dag: &Dag<N, E>) -> bool {
        true
    }

    /// The walk goes on through whatever the graph holds when a step is
    /// made: from the edge at which the walker stands, along the incoming
    /// edges of that edge's target.
    open spec fn steps(&self, dag: &Dag<N, E>) -> Seq<(EdgeId, NodeId)> {
        dag@.parents_from(self.position())
    }

    /// The step takes the edge at which the walker stands to that edge's
    /// source, and the walker moves to the next incoming edge of its target.
    open spec fn steps_to(&self, dag: &Dag<N, E>, after: &Self, step: Option<(EdgeId, NodeId)>) -> bool {
        &&& after.valid()
        &&& after.position() == dag@.after_parent(self.position())
        &&& step == head(self.steps(dag))
    }

    fn walk_next(&mut self, dag: &Dag<N, E>) -> (step: Option<(EdgeId, NodeId)>) {
        proof {
            let c = cursor_state(self.walk_edges).1;
            let view = dag@;
            if 0 <= c < view.edges.len() {
                let list = view.links[view.edges[c].1].1;
                assert(list.contains(c));
                assert forall|i: int| 0 <= i < list.len() implies list[i] != end_index() by {
                    assert(0 <= list[i] < view.edges.len());
                }
                lemma_list_from_successor(list, c);
                let next = list_successor(list, c);
                if next != end_index() {
                    let j = choose|j: int| 0 <= j < list.len() && list[j] == next;
                    assert(0 <= list[j] < view.edges.len() && view.edges[list[j]].1
                        == view.edges[c].1);
                    assert(view.parents_from(next) =~= view.parents_from(c).drop_first());
                } else {
                    assert(view.parents_from(next) =~= view.parents_from(c).drop_first());
                }
            }
        }
        match cursor_next(&mut self.walk_edges, &dag.graph) {
            Some((e, n)) => Some((EdgeId::new(e), NodeId::new(n))),
            None => None,
        }
    }
}

} // verus!
