//! The boundary to `petgraph`: the graph that stores the topology, what it
//! holds, and what each of its operations does to that.
//!
//! Nothing in this file is proved. Each function below makes one call into
//! `petgraph`, and its contract restates what the called function's source
//! does, over the two sequences that describe a graph: the endpoints of its
//! edges, and the adjacency lists of its nodes.

use vstd::prelude::*;
use crate::paths::{has_cycle, reachable};

verus! {

/// `petgraph::graph::Graph`, of which only `graph_edges` and `graph_links`
/// are known.
#[verifier::external_type_specification]
#[verifier::external_body]
#[verifier::reject_recursive_types(N)]
#[verifier::reject_recursive_types(E)]
#[verifier::reject_recursive_types(Ty)]
#[verifier::reject_recursive_types(Ix)]
pub struct ExGraph<N, E, Ty, Ix>(petgraph::graph::Graph<N, E, Ty, Ix>);

/// `petgraph::Directed`, the marker of a graph with directed edges.
#[verifier::external_type_specification]
#[verifier::external_body]
pub struct ExDirected(petgraph::Directed);

/// `petgraph::graph::WalkNeighbors`, of which only `cursor_state` is known.
#[verifier::external_type_specification]
#[verifier::external_body]
#[verifier::reject_recursive_types(Ix)]
pub struct ExWalkNeighbors<Ix>(petgraph::graph::WalkNeighbors<Ix>);

/// `petgraph::graph::NodeIndex`, named in the type of the search space only.
#[verifier::external_type_specification]
#[verifier::external_body]
#[verifier::reject_recursive_types(Ix)]
pub struct ExNodeIndex<Ix>(petgraph::graph::NodeIndex<Ix>);

/// `petgraph::algo::DfsSpace`, of which nothing is known.
#[verifier::external_type_specification]
#[verifier::external_body]
#[verifier::reject_recursive_types(N)]
#[verifier::reject_recursive_types(VM)]
pub struct ExDfsSpace<N, VM>(petgraph::algo::DfsSpace<N, VM>);

/// `fixedbitset::FixedBitSet`, named in the type of the search space only.
#[verifier::external_type_specification]
#[verifier::external_body]
pub struct ExFixedBitSet(fixedbitset::FixedBitSet);

/// The graph that stores the topology: no weights, directed, 32-bit indices.
pub type Topology = petgraph::graph::Graph<(), (), petgraph::Directed, u32>;

/// A detached cursor into the adjacency lists of a `Topology`.
pub type Cursor = petgraph::graph::WalkNeighbors<u32>;

/// Scratch space of the reachability search, kept between searches.
pub type SearchSpace = petgraph::algo::DfsSpace<
    petgraph::graph::NodeIndex<u32>,
    fixedbitset::FixedBitSet,
>;

/// The adjacency lists of a graph: for each node its outgoing and its
/// incoming edge indices.
pub type Links = Seq<(Seq<int>, Seq<int>)>;

/// The index that ends every adjacency list and that no node or edge has.
pub open spec fn end_index() -> int {
    u32::MAX as int
}

/// Endpoints `(source, target)` of each edge, by edge index.
pub uninterp spec fn graph_edges(g: Topology) -> Seq<(int, int)>;

/// For each node, by node index: the indices of its outgoing edges and of its
/// incoming edges, each in the order in which the graph walks them.
pub uninterp spec fn graph_links(g: Topology) -> Seq<(Seq<int>, Seq<int>)>;

/// Where a cursor stands: the next outgoing edge, the next incoming edge, and
/// the node whose self-loops it passes over; `end_index()` where there is none.
pub uninterp spec fn cursor_state(c: Cursor) -> (int, int, int);

/// First entry of an adjacency list, or the end index.
pub open spec fn list_head(list: Seq<int>) -> int {
    if list.len() > 0 {
        list[0]
    } else {
        end_index()
    }
}

/// The entry that follows `e` in an adjacency list, or the end index.
pub open spec fn list_successor(list: Seq<int>, e: int) -> int
    decreases list.len(),
{
    if list.len() == 0 {
        end_index()
    } else if list[0] == e {
        list_head(list.drop_first())
    } else {
        list_successor(list.drop_first(), e)
    }
}

/// First edge of `list` whose target is `b`.
pub open spec fn first_to(edges: Seq<(int, int)>, list: Seq<int>, b: int) -> Option<int>
    decreases list.len(),
{
    if list.len() == 0 {
        None
    } else if 0 <= list[0] < edges.len() && edges[list[0]].1 == b {
        Some(list[0])
    } else {
        first_to(edges, list.drop_first(), b)
    }
}

/// An adjacency list after edge `e` has left the graph and the edge that was
/// at index `last` has taken index `e`.
pub open spec fn unlink(list: Seq<int>, e: int, last: int) -> Seq<int>
    decreases list.len(),
{
    if list.len() == 0 {
        list
    } else {
        let rest = unlink(list.drop_first(), e, last);
        if list[0] == e {
            rest
        } else if list[0] == last {
            seq![e] + rest
        } else {
            seq![list[0]] + rest
        }
    }
}

/// `unlink` applied to every adjacency list.
pub open spec fn unlink_all(links: Links, e: int, last: int) -> Links {
    Seq::new(
        links.len(),
        |v: int| (unlink(links[v].0, e, last), unlink(links[v].1, e, last)),
    )
}

/// The adjacency lists after edge `e` from `a` to `b` has been put at the
/// head of `a`'s outgoing and of `b`'s incoming list.
pub open spec fn link_edge(links: Links, a: int, b: int, e: int) -> Links {
    let with_out = links.update(a, (seq![e] + links[a].0, links[a].1));
    with_out.update(b, (with_out[b].0, seq![e] + with_out[b].1))
}

/// A sequence after its entry at `i` was replaced by its last entry, which
/// was then dropped.
pub open spec fn swap_removed<T>(s: Seq<T>, i: int) -> Seq<T> {
    s.update(i, s.last()).drop_last()
}

/// Node `from` renamed to `to`.
pub open spec fn renamed(x: int, from: int, to: int) -> int {
    if x == from {
        to
    } else {
        x
    }
}

/// Every endpoint `from` renamed to `to`.
pub open spec fn renamed_edges(edges: Seq<(int, int)>, from: int, to: int) -> Seq<(int, int)> {
    Seq::new(edges.len(), |k: int| (renamed(edges[k].0, from, to), renamed(edges[k].1, from, to)))
}

/// Adjacency lists of `n` nodes without edges.
pub open spec fn bare_links(n: nat) -> Links {
    Seq::new(n, |v: int| (Seq::<int>::empty(), Seq::<int>::empty()))
}

/// `Graph::with_capacity`: a graph without nodes or edges.
#[verifier::external_body]
pub(crate) fn graph_with_capacity(nodes: usize, edges: usize) -> (g: Topology)
    ensures
        graph_edges(g) == Seq::<(int, int)>::empty(),
        graph_links(g) == Seq::<(Seq<int>, Seq<int>)>::empty(),
{
    petgraph::graph::Graph::with_capacity(nodes, edges)
}

/// `Graph::clone`: a graph with the same edges and adjacency lists.
#[verifier::external_body]
pub(crate) fn graph_clone(g: &Topology) -> (c: Topology)
    ensures
        graph_edges(c) == graph_edges(*g),
        graph_links(c) == graph_links(*g),
{
    g.clone()
}

/// `Graph::node_count`: the number of nodes.
#[verifier::external_body]
pub(crate) fn graph_node_count(g: &Topology) -> (n: usize)
    ensures
        n == graph_links(*g).len(),
{
    g.node_count()
}

/// `Graph::edge_count`: the number of edges.
#[verifier::external_body]
pub(crate) fn graph_edge_count(g: &Topology) -> (n: usize)
    ensures
        n == graph_edges(*g).len(),
{
    g.edge_count()
}

/// `Graph::add_node`: appends a node without edges and returns its index.
/// It panics once the node count has reached the largest 32-bit value.
#[verifier::external_body]
pub(crate) fn graph_add_node(g: &mut Topology) -> (n: usize)
    requires
        graph_links(*old(g)).len() < u32::MAX,
    ensures
        n == graph_links(*old(g)).len(),
        graph_links(*final(g)) == graph_links(*old(g)).push(
            (Seq::<int>::empty(), Seq::<int>::empty()),
        ),
        graph_edges(*final(g)) == graph_edges(*old(g)),
{
    g.add_node(()).index()
}

/// `Graph::add_edge`: appends the edge and puts it at the head of its
/// source's outgoing and its target's incoming list. It panics on a node
/// that does not exist and once the edge count has reached the largest
/// 32-bit value.
#[verifier::external_body]
pub(crate) fn graph_add_edge(g: &mut Topology, a: u32, b: u32) -> (e: usize)
    requires
        a < graph_links(*old(g)).len(),
        b < graph_links(*old(g)).len(),
        graph_edges(*old(g)).len() < u32::MAX,
    ensures
        e == graph_edges(*old(g)).len(),
        graph_edges(*final(g)) == graph_edges(*old(g)).push((a as int, b as int)),
        graph_links(*final(g)) == link_edge(graph_links(*old(g)), a as int, b as int, e as int),
{
    let a = petgraph::graph::NodeIndex::new(a as usize);
    let b = petgraph::graph::NodeIndex::new(b as usize);
    g.add_edge(a, b, ()).index()
}

/// `Graph::remove_edge`: takes edge `e` out of its two adjacency lists, moves
/// the last edge to index `e` and renames it in its own two lists. Returns
/// whether `e` was an edge.
#[verifier::external_body]
pub(crate) fn graph_remove_edge(g: &mut Topology, e: u32) -> (removed: bool)
    ensures
        removed == (e < graph_edges(*old(g)).len()),
        !removed ==> graph_edges(*final(g)) == graph_edges(*old(g)) && graph_links(*final(g))
            == graph_links(*old(g)),
        removed ==> graph_edges(*final(g)) == swap_removed(graph_edges(*old(g)), e as int)
            && graph_links(*final(g)) == unlink_all(
            graph_links(*old(g)),
            e as int,
            graph_edges(*old(g)).len() - 1,
        ),
{
    g.remove_edge(petgraph::graph::EdgeIndex::new(e as usize)).is_some()
}

/// `Graph::remove_node`, for a node without edges: moves the last node to
/// index `a` and renames it in the endpoints of its edges. Returns whether
/// `a` was a node.
#[verifier::external_body]
pub(crate) fn graph_remove_node(g: &mut Topology, a: u32) -> (removed: bool)
    requires
        a < graph_links(*old(g)).len() ==> graph_links(*old(g))[a as int] == (
            Seq::<int>::empty(),
            Seq::<int>::empty(),
        ),
    ensures
        removed == (a < graph_links(*old(g)).len()),
        !removed ==> graph_edges(*final(g)) == graph_edges(*old(g)) && graph_links(*final(g))
            == graph_links(*old(g)),
        removed ==> graph_links(*final(g)) == swap_removed(graph_links(*old(g)), a as int)
            && graph_edges(*final(g)) == renamed_edges(
            graph_edges(*old(g)),
            graph_links(*old(g)).len() - 1,
            a as int,
        ),
{
    g.remove_node(petgraph::graph::NodeIndex::new(a as usize)).is_some()
}

/// `Graph::clear`: no nodes and no edges are left.
#[verifier::external_body]
pub(crate) fn graph_clear(g: &mut Topology)
    ensures
        graph_edges(*final(g)) == Seq::<(int, int)>::empty(),
        graph_links(*final(g)) == Seq::<(Seq<int>, Seq<int>)>::empty(),
{
    g.clear()
}

/// `Graph::clear_edges`: no edges are left, and every node's lists are empty.
#[verifier::external_body]
pub(crate) fn graph_clear_edges(g: &mut Topology)
    ensures
        graph_edges(*final(g)) == Seq::<(int, int)>::empty(),
        graph_links(*final(g)) == bare_links(graph_links(*old(g)).len()),
{
    g.clear_edges()
}

/// `Graph::find_edge`, directed: the first edge in `a`'s outgoing list whose
/// target is `b`; none where `a` is no node.
#[verifier::external_body]
pub(crate) fn graph_find_edge(g: &Topology, a: u32, b: u32) -> (found: Option<usize>)
    ensures
        found.is_some() == (a < graph_links(*g).len() && first_to(
            graph_edges(*g),
            graph_links(*g)[a as int].0,
            b as int,
        ).is_some()),
        found.is_some() ==> found.unwrap() as int == first_to(
            graph_edges(*g),
            graph_links(*g)[a as int].0,
            b as int,
        ).unwrap(),
{
    let a = petgraph::graph::NodeIndex::new(a as usize);
    let b = petgraph::graph::NodeIndex::new(b as usize);
    g.find_edge(a, b).map(|e| e.index())
}

/// `Graph::edge_endpoints`: source and target of edge `e`; none where `e` is
/// no edge.
#[verifier::external_body]
pub(crate) fn graph_edge_endpoints(g: &Topology, e: u32) -> (ends: Option<(usize, usize)>)
    ensures
        ends.is_some() == (e < graph_edges(*g).len()),
        ends.is_some() ==> ends.unwrap().0 as int == graph_edges(*g)[e as int].0
            && ends.unwrap().1 as int == graph_edges(*g)[e as int].1,
{
    g.edge_endpoints(petgraph::graph::EdgeIndex::new(e as usize)).map(|(s, t)| (s.index(), t.index()))
}

/// `Graph::neighbors_directed` followed by `Neighbors::detach`: a cursor at
/// the head of `a`'s outgoing list, or of its incoming list where `incoming`
/// is set; at the end where `a` is no node.
#[verifier::external_body]
pub(crate) fn graph_detach(g: &Topology, a: u32, incoming: bool) -> (c: Cursor)
    ensures
        cursor_state(c).2 == end_index(),
        cursor_state(c).0 == (if !incoming && a < graph_links(*g).len() {
            list_head(graph_links(*g)[a as int].0)
        } else {
            end_index()
        }),
        cursor_state(c).1 == (if incoming && a < graph_links(*g).len() {
            list_head(graph_links(*g)[a as int].1)
        } else {
            end_index()
        }),
{
    let dir = if incoming { petgraph::Direction::Incoming } else { petgraph::Direction::Outgoing };
    g.neighbors_directed(petgraph::graph::NodeIndex::new(a as usize), dir).detach()
}

/// `WalkNeighbors::next`, for a cursor that passes over no node: where the
/// outgoing position is an edge, yields it with its target and moves to its
/// successor in its source's outgoing list; else the same with the incoming
/// position, the edge's source and its target's incoming list; else nothing,
/// and the cursor stays.
#[verifier::external_body]
pub(crate) fn cursor_next(c: &mut Cursor, g: &Topology) -> (step: Option<(usize, usize)>)
    requires
        cursor_state(*old(c)).2 == end_index(),
    ensures
        cursor_state(*final(c)).2 == end_index(),
        step == cursor_yield(cursor_state(*old(c)), graph_edges(*g)),
        cursor_state(*final(c)) == cursor_advance(
            cursor_state(*old(c)),
            graph_edges(*g),
            graph_links(*g),
        ),
{
    c.next(g).map(|(e, n)| (e.index(), n.index()))
}

/// What a cursor in state `s` yields.
pub open spec fn cursor_yield(s: (int, int, int), edges: Seq<(int, int)>) -> Option<
    (usize, usize),
> {
    if 0 <= s.0 < edges.len() {
        Some((s.0 as usize, edges[s.0].1 as usize))
    } else if 0 <= s.1 < edges.len() {
        Some((s.1 as usize, edges[s.1].0 as usize))
    } else {
        None
    }
}

/// Where a cursor in state `s` stands after one step.
pub open spec fn cursor_advance(s: (int, int, int), edges: Seq<(int, int)>, links: Links) -> (
    int,
    int,
    int,
) {
    if 0 <= s.0 < edges.len() {
        (list_successor(links[edges[s.0].0].0, s.0), s.1, s.2)
    } else if 0 <= s.1 < edges.len() {
        (s.0, list_successor(links[edges[s.1].1].1, s.1), s.2)
    } else {
        s
    }
}

/// `DfsSpace::default`: empty scratch space.
#[verifier::external_body]
pub(crate) fn search_space_new() -> (space: SearchSpace) {
    petgraph::algo::DfsSpace::default()
}

/// `has_path_connecting`: whether a walk leads from `from` to `to`; a node
/// reaches itself. The search marks `from` in a bit set of one bit per node
/// and panics where `from` is no node.
#[verifier::external_body]
pub(crate) fn graph_has_path(g: &Topology, from: u32, to: u32, space: &mut SearchSpace) -> (found:
    bool)
    requires
        from < graph_links(*g).len(),
    ensures
        found == reachable(graph_edges(*g), from as int, to as int),
{
    let from = petgraph::graph::NodeIndex::new(from as usize);
    let to = petgraph::graph::NodeIndex::new(to as usize);
    petgraph::algo::has_path_connecting(g, from, to, Some(space))
}

/// `is_cyclic_directed`: whether the graph contains a directed cycle.
#[verifier::external_body]
pub(crate) fn graph_is_cyclic(g: &Topology) -> (cyclic: bool)
    ensures
        cyclic == has_cycle(graph_edges(*g)),
{
    petgraph::algo::is_cyclic_directed(g)
}

} // verus!
