//! Building a graph from lists: of edges between nodes that are made as
//! needed, and of nodes and edges in one sequence.

use vstd::prelude::*;
use crate::dag::{Dag, WouldCycle};
use crate::index::NodeId;
use crate::paths::{has_edge, lemma_edge_not_reversed, reachable};
use crate::topology::{bare_links, link_edge, Links};
use crate::view::{batch_weights, DagView};

verus! {

/// A node or an edge, as one entry of a list from which a graph is built.
#[allow(inconsistent_fields)]
pub enum Element<N, E> {
    /// A node with its weight.
    Node { weight: N },
    /// An edge between the nodes at two positions, with its weight.
    Edge { source: usize, target: usize, weight: E },
}

/// The number of nodes that hold both `a` and `b`.
pub open spec fn room_for(a: int, b: int) -> int {
    if a >= b {
        a + 1
    } else {
        b + 1
    }
}

/// Adjacency lists with nodes without edges added up to `n` nodes.
pub open spec fn padded(links: Links, n: int) -> Links {
    if n <= links.len() {
        links
    } else {
        links + bare_links((n - links.len()) as nat)
    }
}

/// The edges and adjacency lists after the edges of `batch` have been added
/// one by one, up to the first whose target reaches its source, each after
/// the nodes that it names have been made; and the number of edges that were
/// added.
pub open spec fn extended<E>(edges: Seq<(int, int)>, links: Links, batch: Seq<(NodeId, NodeId, E)>)
    -> (Seq<(int, int)>, Links, int)
    decreases batch.len(),
{
    if batch.len() == 0 {
        (edges, links, 0)
    } else {
        let a = batch[0].0@;
        let b = batch[0].1@;
        let room = padded(links, room_for(a, b));
        if reachable(edges, b, a) {
            (edges, room, 0)
        } else {
            let rest = extended(
                edges.push((a, b)),
                link_edge(room, a, b, edges.len() as int),
                batch.drop_first(),
            );
            (rest.0, rest.1, rest.2 + 1)
        }
    }
}

/// The number of nodes among the elements.
pub open spec fn node_elements<N, E>(elements: Seq<Element<N, E>>) -> nat
    decreases elements.len(),
{
    if elements.len() == 0 {
        0
    } else {
        node_elements(elements.drop_last()) + if elements.last() is Node {
            1nat
        } else {
            0nat
        }
    }
}

/// Every edge among the elements joins nodes that stand before it.
pub open spec fn well_placed<N, E>(elements: Seq<Element<N, E>>) -> bool {
    forall|i: int|
        0 <= i < elements.len() ==> (#[trigger] elements[i] matches Element::Edge {
            source,
            target,
            ..
        } ==> source < node_elements(elements.take(i)) && target < node_elements(
            elements.take(i),
        ))
}

/// The graph after the elements have been taken in one by one, up to the
/// first edge that would close a cycle, and the number of elements taken in.
/// A node is added; an edge gives its weight to the first edge between its
/// nodes, or is added where there is none.
pub open spec fn with_elements<N, E>(view: DagView<N, E>, elements: Seq<Element<N, E>>) -> (
    DagView<N, E>,
    int,
)
    decreases elements.len(),
{
    if elements.len() == 0 {
        (view, 0)
    } else {
        match elements[0] {
            Element::Node { weight } => {
                let rest = with_elements(view.with_node(weight), elements.drop_first());
                (rest.0, rest.1 + 1)
            },
            Element::Edge { source, target, weight } => {
                let a = source as int;
                let b = target as int;
                if has_edge(view.edges, a, b) {
                    let e = view.find_edge(a, b).unwrap();
                    let rest = with_elements(
                        DagView { weights: view.weights.update(e, weight), ..view },
                        elements.drop_first(),
                    );
                    (rest.0, rest.1 + 1)
                } else if reachable(view.edges, b, a) {
                    (view, 0)
                } else {
                    let rest = with_elements(
                        view.with_edge(a, b, weight),
                        elements.drop_first(),
                    );
                    (rest.0, rest.1 + 1)
                }
            },
        }
    }
}

/// What `with_elements` makes of the elements from the one at `k` on, told
/// by that element and the elements behind it.
pub proof fn lemma_with_elements_step<N, E>(
    view: DagView<N, E>,
    elements: Seq<Element<N, E>>,
    k: int,
)
    requires
        0 <= k < elements.len(),
    ensures
        with_elements(view, elements.skip(k)) == (match elements[k] {
            Element::Node { weight } => {
                let rest = with_elements(view.with_node(weight), elements.skip(k + 1));
                (rest.0, rest.1 + 1)
            },
            Element::Edge { source, target, weight } => {
                let a = source as int;
                let b = target as int;
                if has_edge(view.edges, a, b) {
                    let e = view.find_edge(a, b).unwrap();
                    let rest = with_elements(
                        DagView { weights: view.weights.update(e, weight), ..view },
                        elements.skip(k + 1),
                    );
                    (rest.0, rest.1 + 1)
                } else if reachable(view.edges, b, a) {
                    (view, 0)
                } else {
                    let rest = with_elements(view.with_edge(a, b, weight), elements.skip(k + 1));
                    (rest.0, rest.1 + 1)
                }
            },
        }),
        node_elements(elements.take(k + 1)) == node_elements(elements.take(k)) + if elements[k] is Node {
            1nat
        } else {
            0nat
        },
{
    assert(elements.skip(k)[0] == elements[k]);
    assert(elements.skip(k).drop_first() =~= elements.skip(k + 1));
    assert(elements.take(k + 1).drop_last() =~= elements.take(k));
    assert(elements.take(k + 1).last() == elements[k]);
}

/// The nodes of `new` are those of `old`, followed by nodes with default
/// weights.
pub open spec fn grown_by_default<N: Default>(old: Seq<N>, new: Seq<N>) -> bool {
    &&& old.len() <= new.len()
    &&& new.take(old.len() as int) == old
    &&& forall|i: int| old.len() <= i < new.len() ==> call_ensures(N::default, (), #[trigger] new[i])
}

impl<N, E> Dag<N, E> {
    /// Adds the edges of the batch one by one, as `add_edge` does, each after
    /// the nodes that it names have been made with default weights. Stops at
    /// the first edge that would close a cycle and hands back its weight; the edges
    /// before it stay.
    pub fn extend_with_edges(&mut self, edges: Vec<(NodeId, NodeId, E)>) -> (extended: Result<
        (),
        WouldCycle<E>,
    >) where N: Default
        requires
            old(self).wf(),
            forall|i: int|
                0 <= i < edges@.len() ==> (#[trigger] edges@[i]).0@ < u32::MAX && edges@[i].1@
                    < u32::MAX,
            old(self)@.edges.len() + edges@.len() <= u32::MAX,
        ensures
            final(self).wf(),
            ({
                let after = self::extended(old(self)@.edges, old(self)@.links, edges@);
                &&& final(self)@.edges == after.0
                &&& final(self)@.links == after.1
                &&& final(self)@.weights == old(self)@.weights + batch_weights(edges@).take(after.2)
                &&& match extended {
                    Ok(_) => after.2 == edges@.len(),
                    Err(rejected) => 0 <= after.2 < edges@.len() && rejected.0 == edges@[after.2].2,
                }
            }),
            grown_by_default(old(self)@.nodes, final(self)@.nodes),
    {
        let ghost before = self@;
        let ghost batch = edges@;
        let ghost all = self::extended(before.edges, before.links, batch);
        proof {
            assert(batch.skip(0) =~= batch);
            assert(before.weights + batch_weights(batch).take(0) =~= before.weights);
            assert(before.nodes.take(before.nodes.len() as int) =~= before.nodes);
        }
        for edge in iter: edges
            invariant
                iter.seq() == batch,
                self.wf(),
                before == old(self)@,
                all == self::extended(before.edges, before.links, batch),
                ({
                    let rest = self::extended(self@.edges, self@.links, batch.skip(iter.index()));
                    all == (rest.0, rest.1, rest.2 + iter.index())
                }),
                self@.weights == before.weights + batch_weights(batch).take(iter.index()),
                self@.edges.len() == before.edges.len() + iter.index(),
                before.edges.len() + batch.len() <= u32::MAX,
                forall|i: int|
                    0 <= i < batch.len() ==> (#[trigger] batch[i]).0@ < u32::MAX && batch[i].1@
                        < u32::MAX,
                grown_by_default(before.nodes, self@.nodes),
        {
            let ghost k = iter.index();
            let ghost here = self@;
            let (source, target, weight) = edge;
            proof {
                assert(batch[k] == (source, target, weight));
                assert(batch.skip(k)[0] == batch[k]);
                assert(batch.skip(k).drop_first() =~= batch.skip(k + 1));
            }
            let nx = if source.index() >= target.index() {
                source
            } else {
                target
            };
            while nx.index() >= self.node_count()
                invariant
                    self.wf(),
                    nx@ < u32::MAX,
                    self@.edges == here.edges,
                    self@.weights == here.weights,
                    here.nodes.len() <= self@.nodes.len() <= room_for(source@, target@)
                        || self@.nodes == here.nodes,
                    nx@ + 1 == room_for(source@, target@),
                    self@.links =~= here.links + bare_links(
                        (self@.nodes.len() - here.nodes.len()) as nat,
                    ),
                    here.links.len() == here.nodes.len(),
                    grown_by_default(before.nodes, self@.nodes),
                    before.nodes.len() <= here.nodes.len(),
                decreases u32::MAX - self@.nodes.len(),
            {
                let ghost nodes = self@.nodes;
                self.add_node(N::default());
                proof {
                    assert(self@.nodes.take(before.nodes.len() as int) =~= nodes.take(
                        before.nodes.len() as int,
                    ));
                }
            }
            proof {
                assert(self@.links =~= padded(here.links, room_for(source@, target@)));
            }
            match self.add_edge(source, target, weight) {
                Ok(_) => {
                    proof {
                        assert(batch_weights(batch).take(k + 1) =~= batch_weights(batch).take(
                            k,
                        ).push(weight));
                        assert(self@.weights =~= before.weights + batch_weights(batch).take(
                            k + 1,
                        ));
                    }
                },
                Err(rejected) => {
                    return Err(rejected);
                },
            }
        }
        Ok(())
    }

    /// A graph made of the edges of the batch, added one by one as
    /// `add_edge` does, over nodes with default weights that are made as the
    /// edges name them. The first edge that would close a cycle ends the making, and
    /// its weight is handed back.
    pub fn from_edges(edges: Vec<(NodeId, NodeId, E)>) -> (made: Result<Self, WouldCycle<E>>) where
        N: Default,

        requires
            forall|i: int|
                0 <= i < edges@.len() ==> (#[trigger] edges@[i]).0@ < u32::MAX && edges@[i].1@
                    < u32::MAX,
            edges@.len() <= u32::MAX,
        ensures
            ({
                let after = self::extended(
                    Seq::<(int, int)>::empty(),
                    Seq::<(Seq<int>, Seq<int>)>::empty(),
                    edges@,
                );
                match made {
                    Ok(dag) => {
                        &&& dag.wf()
                        &&& after.2 == edges@.len()
                        &&& dag@.edges == after.0
                        &&& dag@.links == after.1
                        &&& dag@.weights == batch_weights(edges@)
                        &&& grown_by_default(Seq::<N>::empty(), dag@.nodes)
                    },
                    Err(rejected) => 0 <= after.2 < edges@.len() && rejected.0 == edges@[after.2].2,
                }
            }),
    {
        let mut dag = Self::default();
        proof {
            assert(dag@.edges =~= Seq::<(int, int)>::empty());
            assert(dag@.links =~= Seq::<(Seq<int>, Seq<int>)>::empty());
            assert(dag@.nodes =~= Seq::<N>::empty());
            assert(dag@.weights =~= Seq::<E>::empty());
            crate::view::lemma_no_edges_acyclic();
            assert(batch_weights(edges@).take(edges@.len() as int) =~= batch_weights(edges@));
        }
        match dag.extend_with_edges(edges) {
            Ok(_) => {
                proof {
                    assert(dag@.weights =~= batch_weights(edges@));
                }
                Ok(dag)
            },
            Err(rejected) => Err(rejected),
        }
    }

    /// A graph made of the elements, taken in one by one: a node is added,
    /// an edge gives its weight to the edge between its nodes or is added as
    /// `add_edge` does. The first edge that would close a cycle ends the making, and
    /// its weight is handed back.
    pub fn from_elements(elements: Vec<Element<N, E>>) -> (made: Result<Self, WouldCycle<E>>)
        requires
            well_placed(elements@),
            elements@.len() <= u32::MAX,
        ensures
            ({
                let after = with_elements(Dag::<N, E>::spec_empty(), elements@);
                match made {
                    Ok(dag) => {
                        &&& dag.wf()
                        &&& after.1 == elements@.len()
                        &&& dag@ == after.0
                    },
                    Err(rejected) => {
                        &&& 0 <= after.1 < elements@.len()
                        &&& elements@[after.1] matches Element::Edge { weight, .. } && rejected.0
                            == weight
                    },
                }
            }),
    {
        let mut dag = Self::default();
        let ghost list = elements@;
        let ghost all = with_elements(Dag::<N, E>::spec_empty(), list);
        proof {
            assert(dag@ =~= Dag::<N, E>::spec_empty());
            crate::view::lemma_no_edges_acyclic();
            assert(list.skip(0) =~= list);
            assert(list.take(0) =~= Seq::<Element<N, E>>::empty());
        }
        for elem in iter: elements
            invariant
                iter.seq() == list,
                dag.wf(),
                well_placed(list),
                list.len() <= u32::MAX,
                all == with_elements(Dag::<N, E>::spec_empty(), list),
                ({
                    let rest = with_elements(dag@, list.skip(iter.index()));
                    all == (rest.0, rest.1 + iter.index())
                }),
                dag@.nodes.len() == node_elements(list.take(iter.index())),
                dag@.nodes.len() <= iter.index(),
                dag@.edges.len() <= iter.index(),
        {
            let ghost k = iter.index();
            proof {
                lemma_with_elements_step(dag@, list, k);
                assert(list[k] == elem);
            }
            match elem {
                Element::Node { weight } => {
                    dag.add_node(weight);
                },
                Element::Edge { source, target, weight } => {
                    let n = NodeId::new(source);
                    let e = NodeId::new(target);
                    let ghost here = dag@;
                    match dag.update_edge(n, e, weight) {
                        Ok(_) => {},
                        Err(rejected) => {
                            proof {
                                if has_edge(here.edges, n@, e@) {
                                    lemma_edge_not_reversed(here.edges, n@, e@);
                                }
                            }
                            return Err(rejected);
                        },
                    }
                },
            }
        }
        proof {
            assert(list.skip(list.len() as int) =~= Seq::<Element<N, E>>::empty());
        }
        Ok(dag)
    }
}

} // verus!
