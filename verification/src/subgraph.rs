//! A graph made of the nodes and edges of another for which two functions
//! yield new weights.

use vstd::prelude::*;
use crate::dag::Dag;
use crate::index::{EdgeId, NodeId};
use crate::paths::{acyclic, has_cycle, has_edge, is_walk};
use crate::topology::bare_links;
use crate::view::{lemma_no_edges_acyclic, DagView};

verus! {

/// The number of picks among the first `i`.
pub open spec fn rank<T>(picks: Seq<Option<T>>, i: int) -> int
    decreases i,
{
    if i <= 0 {
        0
    } else {
        rank(picks, i - 1) + if picks[i - 1].is_some() {
            1int
        } else {
            0int
        }
    }
}

/// What was picked, in order.
pub open spec fn picked<T>(picks: Seq<Option<T>>) -> Seq<T>
    decreases picks.len(),
{
    if picks.len() == 0 {
        Seq::empty()
    } else {
        match picks.last() {
            Some(weight) => picked(picks.drop_last()).push(weight),
            None => picked(picks.drop_last()),
        }
    }
}

/// Edge `j` of `view` joins two nodes that were picked.
pub open spec fn joins_picked<N, E, N2>(view: DagView<N, E>, picks: Seq<Option<N2>>, j: int) -> bool {
    picks[view.edges[j].0].is_some() && picks[view.edges[j].1].is_some()
}

/// The graph of the picked nodes and of those among the first `k` edges of
/// `view` that were picked and join picked nodes. A picked node has as many
/// nodes before it as were picked before it.
pub open spec fn sub_view<N, E, N2, E2>(
    view: DagView<N, E>,
    picks: Seq<Option<N2>>,
    edge_picks: Seq<Option<E2>>,
    k: int,
) -> DagView<N2, E2>
    decreases k,
{
    if k <= 0 {
        DagView {
            nodes: picked(picks),
            edges: Seq::empty(),
            weights: Seq::empty(),
            links: bare_links(picked(picks).len()),
        }
    } else {
        let before = sub_view(view, picks, edge_picks, k - 1);
        match edge_picks[k - 1] {
            Some(weight) => if joins_picked(view, picks, k - 1) {
                before.with_edge(
                    rank(picks, view.edges[k - 1].0),
                    rank(picks, view.edges[k - 1].1),
                    weight,
                )
            } else {
                before
            },
            None => before,
        }
    }
}

/// `new` is what `node_map` and `edge_map` leave of `old`: `picks` is what
/// `node_map` yields for each node, `edge_picks` what `edge_map` yields for
/// each edge between picked nodes, and nothing for the others, which are
/// not shown to it.
pub open spec fn filtered_by<'a, N: 'a, E: 'a, N2, E2, F, G>(
    old: DagView<N, E>,
    new: DagView<N2, E2>,
    node_map: F,
    edge_map: G,
    picks: Seq<Option<N2>>,
    edge_picks: Seq<Option<E2>>,
) -> bool where F: Fn(NodeId, &'a N) -> Option<N2>, G: Fn(EdgeId, &'a E) -> Option<E2> {
    &&& picks.len() == old.nodes.len()
    &&& edge_picks.len() == old.edges.len()
    &&& forall|i: int|
        0 <= i < picks.len() ==> call_ensures(
            node_map,
            (NodeId(i as u32), &old.nodes[i]),
            #[trigger] picks[i],
        )
    &&& forall|j: int|
        0 <= j < edge_picks.len() ==> if joins_picked(old, picks, j) {
            call_ensures(edge_map, (EdgeId(j as u32), &old.weights[j]), #[trigger] edge_picks[j])
        } else {
            edge_picks[j].is_none()
        }
    &&& new == sub_view(old, picks, edge_picks, old.edges.len() as int)
}

/// The ranks grow with the index, and by one over every pick.
pub proof fn lemma_rank_grows<T>(picks: Seq<Option<T>>, a: int, b: int)
    requires
        0 <= a <= b <= picks.len(),
    ensures
        0 <= rank(picks, a) <= rank(picks, b) <= b,
        a < b && picks[a].is_some() ==> rank(picks, a) < rank(picks, b),
    decreases b,
{
    if a < b {
        lemma_rank_grows(picks, a, b - 1);
    } else {
        if a > 0 {
            lemma_rank_grows(picks, 0, a - 1);
            lemma_rank_grows(picks, a - 1, a - 1);
        }
    }
}

/// The ranks of the first nodes stay when further picks are made.
pub proof fn lemma_rank_push<T>(picks: Seq<Option<T>>, pick: Option<T>, i: int)
    requires
        0 <= i <= picks.len(),
    ensures
        rank(picks.push(pick), i) == rank(picks, i),
    decreases i,
{
    if i > 0 {
        lemma_rank_push(picks, pick, i - 1);
        assert(picks.push(pick)[i - 1] == picks[i - 1]);
    }
}

/// As many nodes were picked as the rank of the end says.
pub proof fn lemma_picked_len<T>(picks: Seq<Option<T>>)
    ensures
        picked(picks).len() == rank(picks, picks.len() as int),
    decreases picks.len(),
{
    if picks.len() > 0 {
        let init = picks.drop_last();
        lemma_picked_len(init);
        lemma_rank_same(picks, init, init.len() as int);
    }
}

/// Ranks depend on the picks before the index only.
pub proof fn lemma_rank_same<T>(first: Seq<Option<T>>, second: Seq<Option<T>>, i: int)
    requires
        0 <= i <= first.len(),
        i <= second.len(),
        forall|k: int| 0 <= k < i ==> first[k] == second[k],
    ensures
        rank(first, i) == rank(second, i),
    decreases i,
{
    if i > 0 {
        lemma_rank_same(first, second, i - 1);
    }
}

/// The graph of the first `k` edges depends on the picks of those edges
/// only.
pub proof fn lemma_sub_view_push<N, E, N2, E2>(
    view: DagView<N, E>,
    picks: Seq<Option<N2>>,
    edge_picks: Seq<Option<E2>>,
    pick: Option<E2>,
    k: int,
)
    requires
        0 <= k <= edge_picks.len(),
    ensures
        sub_view(view, picks, edge_picks.push(pick), k) == sub_view(view, picks, edge_picks, k),
    decreases k,
{
    if k > 0 {
        lemma_sub_view_push(view, picks, edge_picks, pick, k - 1);
        assert(edge_picks.push(pick)[k - 1] == edge_picks[k - 1]);
    }
}

/// Every edge of `new` lies over an edge of `old` between picked nodes:
/// its ends are the ranks of the ends of that edge.
pub open spec fn lies_over<T>(
    old: Seq<(int, int)>,
    new: Seq<(int, int)>,
    picks: Seq<Option<T>>,
) -> bool {
    forall|x: int, y: int| #[trigger]
        has_edge(new, x, y) ==> exists|a: int, b: int|
            {
                &&& #[trigger] has_edge(old, a, b)
                &&& 0 <= a < picks.len() && picks[a].is_some() && rank(picks, a) == x
                &&& 0 <= b < picks.len() && picks[b].is_some() && rank(picks, b) == y
            }
}

/// The picked node whose rank is `x`.
pub open spec fn unranked<T>(picks: Seq<Option<T>>, x: int) -> int {
    choose|a: int| 0 <= a < picks.len() && picks[a].is_some() && rank(picks, a) == x
}

/// Two picked nodes with one rank are one node.
pub proof fn lemma_rank_injective<T>(picks: Seq<Option<T>>, a: int, b: int)
    requires
        0 <= a < picks.len(),
        0 <= b < picks.len(),
        picks[a].is_some(),
        picks[b].is_some(),
        rank(picks, a) == rank(picks, b),
    ensures
        a == b,
{
    if a < b {
        lemma_rank_grows(picks, a, b);
    } else if b < a {
        lemma_rank_grows(picks, b, a);
    }
}

/// A graph whose edges lie over the edges of a graph without cycles has no
/// cycle.
pub proof fn lemma_lies_over_acyclic<T>(
    old: Seq<(int, int)>,
    new: Seq<(int, int)>,
    picks: Seq<Option<T>>,
)
    requires
        acyclic(old),
        lies_over(old, new, picks),
    ensures
        acyclic(new),
{
    if has_cycle(new) {
        let w = choose|w: Seq<int>| #[trigger]
            is_walk(new, w) && w.len() >= 2 && w.first() == w.last();
        let back = Seq::new(w.len(), |i: int| unranked(picks, w[i]));
        assert forall|i: int| 0 <= i < back.len() - 1 implies has_edge(
            old,
            #[trigger] back[i],
            back[i + 1],
        ) by {
            assert(has_edge(new, w[i], w[i + 1]));
            let (a, b) = choose|a: int, b: int|
                {
                    &&& #[trigger] has_edge(old, a, b)
                    &&& 0 <= a < picks.len() && picks[a].is_some() && rank(picks, a) == w[i]
                    &&& 0 <= b < picks.len() && picks[b].is_some() && rank(picks, b) == w[i + 1]
                };
            lemma_rank_injective(picks, a, unranked(picks, w[i]));
            lemma_rank_injective(picks, b, unranked(picks, w[i + 1]));
        }
        assert(is_walk(old, back));
        assert(back.first() == back.last());
    }
}

/// One more edge over an edge of `old` keeps the edges lying over `old`.
pub proof fn lemma_lies_over_push<T>(
    old: Seq<(int, int)>,
    new: Seq<(int, int)>,
    picks: Seq<Option<T>>,
    a: int,
    b: int,
)
    requires
        lies_over(old, new, picks),
        has_edge(old, a, b),
        0 <= a < picks.len() && picks[a].is_some(),
        0 <= b < picks.len() && picks[b].is_some(),
    ensures
        lies_over(old, new.push((rank(picks, a), rank(picks, b))), picks),
{
    let more = new.push((rank(picks, a), rank(picks, b)));
    assert forall|x: int, y: int| #[trigger] has_edge(more, x, y) implies exists|c: int, d: int|
        {
            &&& #[trigger] has_edge(old, c, d)
            &&& 0 <= c < picks.len() && picks[c].is_some() && rank(picks, c) == x
            &&& 0 <= d < picks.len() && picks[d].is_some() && rank(picks, d) == y
        } by {
        let k = choose|k: int| 0 <= k < more.len() && #[trigger] more[k] == (x, y);
        if k < new.len() {
            assert(new[k] == (x, y));
            assert(has_edge(new, x, y));
        } else {
            assert(has_edge(old, a, b));
        }
    }
}

impl<N, E> Dag<N, E> {
    /// A graph of those nodes and edges for which `node_map` and `edge_map`
    /// yield a weight. The nodes are shown to `node_map` first, in index
    /// order; then each edge between two nodes that stay is shown to
    /// `edge_map`, in index order. Nodes and edges that stay keep their
    /// order, and move up over those that do not.
    pub fn filter_map<'a, F, G, N2, E2>(&'a self, node_map: F, edge_map: G) -> (mapped: Dag<
        N2,
        E2,
    >) where F: Fn(NodeId, &'a N) -> Option<N2>, G: Fn(EdgeId, &'a E) -> Option<E2>
        requires
            self.wf(),
            forall|i: int|
                0 <= i < self@.nodes.len() ==> call_requires(
                    node_map,
                    (NodeId(i as u32), &#[trigger] self@.nodes[i]),
                ),
            forall|i: int|
                0 <= i < self@.weights.len() ==> call_requires(
                    edge_map,
                    (EdgeId(i as u32), &#[trigger] self@.weights[i]),
                ),
        ensures
            mapped.wf(),
            exists|picks: Seq<Option<N2>>, edge_picks: Seq<Option<E2>>| #[trigger]
                filtered_by(self@, mapped@, node_map, edge_map, picks, edge_picks),
    {
        let ghost view = self@;
        let n = self.node_count();
        let m = self.edge_count();
        let mut dag: Dag<N2, E2> = Dag::with_capacity(0, 0);
        let mut node_index_map: Vec<NodeId> = Vec::with_capacity(n);
        let ghost mut picks: Seq<Option<N2>> = Seq::empty();
        proof {
            assert(dag@.nodes =~= picked(picks));
            assert(dag@.links =~= bare_links(0));
            assert(dag@.edges =~= Seq::<(int, int)>::empty());
            assert(dag@.weights =~= Seq::<E2>::empty());
        }
        let mut i: usize = 0;
        while i < n
            invariant
                self@.wf(),
                view == self@,
                n == view.nodes.len(),
                i <= n,
                dag@.wf(),
                picks.len() == i,
                node_index_map@.len() == i,
                dag@.nodes == picked(picks),
                dag@.nodes.len() == rank(picks, i as int),
                dag@.nodes.len() <= i,
                dag@.edges == Seq::<(int, int)>::empty(),
                dag@.weights == Seq::<E2>::empty(),
                dag@.links == bare_links(dag@.nodes.len()),
                forall|k: int|
                    0 <= k < i ==> (#[trigger] node_index_map@[k])@ == (if picks[k].is_some() {
                        rank(picks, k)
                    } else {
                        u32::MAX as int
                    }),
                forall|k: int|
                    0 <= k < i ==> call_ensures(
                        node_map,
                        (NodeId(k as u32), &view.nodes[k]),
                        #[trigger] picks[k],
                    ),
                forall|k: int|
                    0 <= k < view.nodes.len() ==> call_requires(
                        node_map,
                        (NodeId(k as u32), &#[trigger] view.nodes[k]),
                    ),
            decreases n - i,
        {
            let ghost before = picks;
            let ghost nodes_before = dag@.nodes;
            let weight = self.node_weight(NodeId::new(i)).unwrap();
            let pick = node_map(NodeId::new(i), weight);
            proof {
                picks = before.push(pick);
                assert(picks.drop_last() =~= before);
                assert forall|k: int| 0 <= k <= i implies rank(picks, k) == rank(before, k) by {
                    lemma_rank_push(before, pick, k);
                }
                lemma_rank_grows(before, 0, i as int);
            }
            match pick {
                Some(nw) => {
                    let id = dag.add_node(nw);
                    node_index_map.push(id);
                    proof {
                        assert(dag@.links =~= bare_links(dag@.nodes.len()));
                    }
                },
                None => {
                    node_index_map.push(NodeId::end());
                },
            }
            i += 1;
        }
        let ghost mut edge_picks: Seq<Option<E2>> = Seq::empty();
        proof {
            lemma_no_edges_acyclic();
            assert(dag@ =~= sub_view(view, picks, edge_picks, 0));
        }
        let mut j: usize = 0;
        while j < m
            invariant
                self@.wf(),
                view == self@,
                n == view.nodes.len(),
                m == view.edges.len(),
                j <= m,
                dag@.wf(),
                picks.len() == n,
                node_index_map@.len() == n,
                edge_picks.len() == j,
                dag@ == sub_view(view, picks, edge_picks, j as int),
                dag@.nodes.len() == rank(picks, n as int),
                dag@.edges.len() <= j,
                lies_over(view.edges, dag@.edges, picks),
                forall|k: int|
                    0 <= k < n ==> (#[trigger] node_index_map@[k])@ == (if picks[k].is_some() {
                        rank(picks, k)
                    } else {
                        u32::MAX as int
                    }),
                forall|k: int|
                    0 <= k < j ==> if joins_picked(view, picks, k) {
                        call_ensures(
                            edge_map,
                            (EdgeId(k as u32), &view.weights[k]),
                            #[trigger] edge_picks[k],
                        )
                    } else {
                        edge_picks[k].is_none()
                    },
                forall|k: int|
                    0 <= k < view.weights.len() ==> call_requires(
                        edge_map,
                        (EdgeId(k as u32), &#[trigger] view.weights[k]),
                    ),
            decreases m - j,
        {
            let ghost before = edge_picks;
            let ghost graph_before = dag@;
            let (s, t) = self.edge_endpoints(EdgeId::new(j)).unwrap();
            let source = node_index_map[s.index()];
            let target = node_index_map[t.index()];
            proof {
                assert(view.edges[j as int] == (s@, t@));
                lemma_rank_grows(picks, s@, n as int);
                lemma_rank_grows(picks, t@, n as int);
            }
            let mut pick: Option<E2> = None;
            if source != NodeId::end() && target != NodeId::end() {
                let weight = self.edge_weight(EdgeId::new(j)).unwrap();
                pick = edge_map(EdgeId::new(j), weight);
            }
            proof {
                edge_picks = before.push(pick);
                lemma_sub_view_push(view, picks, before, pick, j as int);
                assert(edge_picks[j as int] == pick);
                assert forall|k: int| 0 <= k < j implies edge_picks[k] == before[k] by {}
            }
            match pick {
                Some(ew) => {
                    proof {
                        assert(has_edge(view.edges, s@, t@));
                        lemma_lies_over_push(view.edges, dag@.edges, picks, s@, t@);
                    }
                    dag.push_edge(source, target, ew);
                },
                None => {},
            }
            j += 1;
        }
        proof {
            assert(filtered_by(self@, dag@, node_map, edge_map, picks, edge_picks));
            if self@.acyclic() {
                lemma_lies_over_acyclic(view.edges, dag@.edges, picks);
            }
        }
        dag
    }
}

} // verus!
