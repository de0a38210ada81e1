//! Walks, reachability and cycles over a list of directed edges.
//!
//! An edge list is a sequence of `(source, target)` pairs; parallel edges and
//! self-loops may occur in it. A walk is written as the sequence of the nodes
//! it passes.

use vstd::prelude::*;
use crate::topology::{renamed, renamed_edges};

verus! {

/// Some edge of `edges` leads from `a` to `b`.
pub open spec fn has_edge(edges: Seq<(int, int)>, a: int, b: int) -> bool {
    exists|k: int| 0 <= k < edges.len() && #[trigger] edges[k] == (a, b)
}

/// `w` is a walk: at least one node, each joined to the next by an edge.
pub open spec fn is_walk(edges: Seq<(int, int)>, w: Seq<int>) -> bool {
    &&& w.len() >= 1
    &&& forall|i: int| 0 <= i < w.len() - 1 ==> has_edge(edges, #[trigger] w[i], w[i + 1])
}

/// `w` is a walk from `a` to `b`.
pub open spec fn walk_between(edges: Seq<(int, int)>, w: Seq<int>, a: int, b: int) -> bool {
    is_walk(edges, w) && w.first() == a && w.last() == b
}

/// A walk leads from `a` to `b`. Every node reaches itself.
pub open spec fn reachable(edges: Seq<(int, int)>, a: int, b: int) -> bool {
    exists|w: Seq<int>| walk_between(edges, w, a, b)
}

/// Some node lies on a walk of at least one edge back to itself.
pub open spec fn has_cycle(edges: Seq<(int, int)>) -> bool {
    exists|w: Seq<int>| #[trigger] is_walk(edges, w) && w.len() >= 2 && w.first() == w.last()
}

/// No directed cycle, self-loops included.
pub open spec fn acyclic(edges: Seq<(int, int)>) -> bool {
    !has_cycle(edges)
}

/// Every edge of `small` joins two nodes that an edge of `big` joins too.
pub open spec fn edges_within(small: Seq<(int, int)>, big: Seq<(int, int)>) -> bool {
    forall|x: int, y: int| #[trigger] has_edge(small, x, y) ==> has_edge(big, x, y)
}

/// Every node reaches itself.
pub proof fn lemma_reachable_reflexive(edges: Seq<(int, int)>, a: int)
    ensures
        reachable(edges, a, a),
{
    assert(walk_between(edges, seq![a], a, a));
}

/// A walk stays a walk when an edge into its first node is put before it.
pub proof fn lemma_walk_prepend(edges: Seq<(int, int)>, x: int, w: Seq<int>)
    requires
        is_walk(edges, w),
        has_edge(edges, x, w.first()),
    ensures
        is_walk(edges, seq![x] + w),
        (seq![x] + w).first() == x,
        (seq![x] + w).last() == w.last(),
{
    let u = seq![x] + w;
    assert forall|i: int| 0 <= i < u.len() - 1 implies has_edge(edges, #[trigger] u[i], u[i + 1]) by {
        if i > 0 {
            assert(u[i] == w[i - 1]);
            assert(u[i + 1] == w[i]);
        }
    }
}

/// A walk stays a walk when an edge out of its last node is put behind it.
pub proof fn lemma_walk_append(edges: Seq<(int, int)>, w: Seq<int>, y: int)
    requires
        is_walk(edges, w),
        has_edge(edges, w.last(), y),
    ensures
        is_walk(edges, w.push(y)),
        w.push(y).first() == w.first(),
        w.push(y).last() == y,
{
    let u = w.push(y);
    assert forall|i: int| 0 <= i < u.len() - 1 implies has_edge(edges, #[trigger] u[i], u[i + 1]) by {
        if i < w.len() - 1 {
            assert(u[i] == w[i]);
            assert(u[i + 1] == w[i + 1]);
        }
    }
}

/// A walk without its first node is a walk.
pub proof fn lemma_walk_tail(edges: Seq<(int, int)>, w: Seq<int>)
    requires
        is_walk(edges, w),
        w.len() >= 2,
    ensures
        is_walk(edges, w.drop_first()),
        w.drop_first().first() == w[1],
        w.drop_first().last() == w.last(),
{
    let t = w.drop_first();
    assert forall|i: int| 0 <= i < t.len() - 1 implies has_edge(edges, #[trigger] t[i], t[i + 1]) by {
        assert(t[i] == w[i + 1]);
        assert(t[i + 1] == w[i + 2]);
    }
}

/// Two walks that meet make one walk.
pub proof fn lemma_walk_join(edges: Seq<(int, int)>, u: Seq<int>, w: Seq<int>)
    requires
        is_walk(edges, u),
        is_walk(edges, w),
        u.last() == w.first(),
    ensures
        is_walk(edges, u + w.drop_first()),
        (u + w.drop_first()).first() == u.first(),
        (u + w.drop_first()).last() == w.last(),
        (u + w.drop_first()).len() == u.len() + w.len() - 1,
{
    let j = u + w.drop_first();
    assert forall|i: int| 0 <= i < j.len() - 1 implies has_edge(edges, #[trigger] j[i], j[i + 1]) by {
        if i < u.len() - 1 {
            assert(j[i] == u[i]);
            assert(j[i + 1] == u[i + 1]);
        } else if i == u.len() - 1 {
            assert(j[i] == w[0]);
            assert(j[i + 1] == w[1]);
        } else {
            assert(j[i] == w[i - u.len() + 1]);
            assert(j[i + 1] == w[i - u.len() + 2]);
        }
    }
}

/// Reachability is transitive.
pub proof fn lemma_reachable_transitive(edges: Seq<(int, int)>, a: int, b: int, c: int)
    requires
        reachable(edges, a, b),
        reachable(edges, b, c),
    ensures
        reachable(edges, a, c),
{
    let u = choose|u: Seq<int>| walk_between(edges, u, a, b);
    let w = choose|w: Seq<int>| walk_between(edges, w, b, c);
    lemma_walk_join(edges, u, w);
    assert(walk_between(edges, u + w.drop_first(), a, c));
}

/// An edge makes its target reachable from its source.
pub proof fn lemma_edge_reachable(edges: Seq<(int, int)>, a: int, b: int)
    requires
        has_edge(edges, a, b),
    ensures
        reachable(edges, a, b),
{
    let w = seq![a, b];
    assert(walk_between(edges, w, a, b));
}

/// A walk over fewer edges is a walk over more.
pub proof fn lemma_walk_monotone(small: Seq<(int, int)>, big: Seq<(int, int)>, w: Seq<int>)
    requires
        edges_within(small, big),
        is_walk(small, w),
    ensures
        is_walk(big, w),
{
}

/// Taking edges away opens no cycle and no way.
pub proof fn lemma_fewer_edges(small: Seq<(int, int)>, big: Seq<(int, int)>)
    requires
        edges_within(small, big),
    ensures
        acyclic(big) ==> acyclic(small),
        forall|a: int, b: int| #[trigger] reachable(small, a, b) ==> reachable(big, a, b),
{
    if has_cycle(small) {
        let w = choose|w: Seq<int>| #[trigger]
            is_walk(small, w) && w.len() >= 2 && w.first() == w.last();
        lemma_walk_monotone(small, big, w);
    }
    assert forall|a: int, b: int| #[trigger] reachable(small, a, b) implies reachable(big, a, b) by {
        let w = choose|w: Seq<int>| walk_between(small, w, a, b);
        lemma_walk_monotone(small, big, w);
        assert(walk_between(big, w, a, b));
    }
}

/// A walk that ends in `a`, over edges to which `a -> b` was added, shows
/// that its first node reached `a` before the addition.
pub proof fn lemma_walk_before_push(edges: Seq<(int, int)>, a: int, b: int, w: Seq<int>)
    requires
        is_walk(edges.push((a, b)), w),
        w.last() == a,
    ensures
        reachable(edges, w.first(), a),
    decreases w.len(),
{
    if w[0] == a {
        lemma_reachable_reflexive(edges, a);
    } else {
        let big = edges.push((a, b));
        assert(has_edge(big, w[0], w[1]));
        let k = choose|k: int| 0 <= k < big.len() && #[trigger] big[k] == (w[0], w[1]);
        assert(edges[k] == (w[0], w[1]));
        let t = w.drop_first();
        lemma_walk_tail(big, w);
        lemma_walk_before_push(edges, a, b, t);
        let u = choose|u: Seq<int>| walk_between(edges, u, t.first(), a);
        lemma_walk_prepend(edges, w[0], u);
        assert(walk_between(edges, seq![w[0]] + u, w[0], a));
    }
}

/// An edge `a -> b` closes no cycle where `b` does not reach `a`.
pub proof fn lemma_push_acyclic(edges: Seq<(int, int)>, a: int, b: int)
    requires
        acyclic(edges),
        !reachable(edges, b, a),
    ensures
        acyclic(edges.push((a, b))),
{
    let big = edges.push((a, b));
    if has_cycle(big) {
        let w = choose|w: Seq<int>| #[trigger]
            is_walk(big, w) && w.len() >= 2 && w.first() == w.last();
        if forall|i: int| 0 <= i < w.len() - 1 ==> has_edge(edges, #[trigger] w[i], w[i + 1]) {
            assert(is_walk(edges, w));
        } else {
            let i = choose|i: int| 0 <= i < w.len() - 1 && !has_edge(edges, #[trigger] w[i], w[i + 1]);
            assert(has_edge(big, w[i], w[i + 1]));
            let k = choose|k: int| 0 <= k < big.len() && #[trigger] big[k] == (w[i], w[i + 1]);
            if k < edges.len() {
                assert(edges[k] == (w[i], w[i + 1]));
            }
            assert(w[i] == a && w[i + 1] == b);
            let n = w.len() as int;
            let head = w.subrange(i + 1, n);
            let back = w.subrange(1, i + 1);
            let r = head + back;
            assert forall|j: int| 0 <= j < r.len() - 1 implies has_edge(big, #[trigger] r[j], r[j + 1]) by {
                if j < head.len() - 1 {
                    assert(r[j] == w[i + 1 + j]);
                    assert(r[j + 1] == w[i + 1 + j + 1]);
                } else if j == head.len() - 1 {
                    assert(r[j] == w[n - 1]);
                    assert(r[j + 1] == w[1]);
                    assert(has_edge(big, w[0], w[1]));
                } else {
                    assert(r[j] == w[1 + (j - head.len())]);
                    assert(r[j + 1] == w[1 + (j - head.len()) + 1]);
                }
            }
            assert(is_walk(big, r));
            assert(r.first() == b);
            assert(r.last() == a) by {
                if i == 0 {
                    assert(r.last() == w[n - 1]);
                } else {
                    assert(r.last() == back[i - 1]);
                }
            }
            lemma_walk_before_push(edges, a, b, r);
        }
    }
}

/// Some edge leads into `a`.
pub open spec fn has_incoming(edges: Seq<(int, int)>, a: int) -> bool {
    exists|k: int| 0 <= k < edges.len() && (#[trigger] edges[k]).1 == a
}

/// Some edge leads out of `a`.
pub open spec fn has_outgoing(edges: Seq<(int, int)>, a: int) -> bool {
    exists|k: int| 0 <= k < edges.len() && (#[trigger] edges[k]).0 == a
}

/// A node other than `a` reaches `a` only over an edge into `a`.
pub proof fn lemma_reached_has_incoming(edges: Seq<(int, int)>, b: int, a: int)
    requires
        reachable(edges, b, a),
        a != b,
    ensures
        has_incoming(edges, a),
        has_outgoing(edges, b),
{
    let w = choose|w: Seq<int>| walk_between(edges, w, b, a);
    let n = w.len() as int;
    assert(has_edge(edges, w[n - 2], w[n - 2 + 1]));
    let k = choose|k: int| 0 <= k < edges.len() && #[trigger] edges[k] == (w[n - 2], w[n - 1]);
    assert(edges[k].1 == a);
    assert(has_edge(edges, w[0], w[1]));
    let j = choose|j: int| 0 <= j < edges.len() && #[trigger] edges[j] == (w[0], w[1]);
    assert(edges[j].0 == b);
}

/// Without a cycle, the target of an edge does not reach its source.
pub proof fn lemma_edge_not_reversed(edges: Seq<(int, int)>, a: int, b: int)
    requires
        acyclic(edges),
        has_edge(edges, a, b),
    ensures
        !reachable(edges, b, a),
{
    if reachable(edges, b, a) {
        let w = choose|w: Seq<int>| walk_between(edges, w, b, a);
        lemma_walk_append(edges, w, b);
        assert(is_walk(edges, w.push(b)));
    }
}

/// A sequence after its entry at `i` was replaced by its last entry, which
/// was then dropped, holds only entries that it held before.
pub proof fn lemma_swap_removed_within(edges: Seq<(int, int)>, e: int)
    requires
        0 <= e < edges.len(),
    ensures
        edges_within(edges.update(e, edges.last()).drop_last(), edges),
{
    let small = edges.update(e, edges.last()).drop_last();
    assert forall|x: int, y: int| #[trigger] has_edge(small, x, y) implies has_edge(edges, x, y) by {
        let k = choose|k: int| 0 <= k < small.len() && #[trigger] small[k] == (x, y);
        if k == e {
            assert(edges[edges.len() - 1] == (x, y));
        } else {
            assert(edges[k] == (x, y));
        }
    }
}

/// An edge between a node and a node that no edge touches closes no cycle.
pub proof fn lemma_push_leaf_acyclic(edges: Seq<(int, int)>, a: int, b: int)
    requires
        acyclic(edges),
        a != b,
        (!has_incoming(edges, a) && !has_outgoing(edges, a)) || (!has_incoming(edges, b)
            && !has_outgoing(edges, b)),
    ensures
        acyclic(edges.push((a, b))),
{
    if reachable(edges, b, a) {
        lemma_reached_has_incoming(edges, b, a);
    }
    lemma_push_acyclic(edges, a, b);
}

/// A walk of at least two edges leads from `u` to `v`.
pub open spec fn detour(edges: Seq<(int, int)>, u: int, v: int) -> bool {
    exists|w: Seq<int>| #[trigger] walk_between(edges, w, u, v) && w.len() >= 3
}

/// An edge leads from `u` to a node other than `v` that reaches `v`.
pub open spec fn via_child(edges: Seq<(int, int)>, u: int, v: int) -> bool {
    exists|c: int| c != v && #[trigger] has_edge(edges, u, c) && reachable(edges, c, v)
}

/// A part of a walk is a walk.
pub proof fn lemma_walk_subrange(edges: Seq<(int, int)>, w: Seq<int>, from: int, to: int)
    requires
        is_walk(edges, w),
        0 <= from < to <= w.len(),
    ensures
        is_walk(edges, w.subrange(from, to)),
        w.subrange(from, to).first() == w[from],
        w.subrange(from, to).last() == w[to - 1],
{
    let p = w.subrange(from, to);
    assert forall|i: int| 0 <= i < p.len() - 1 implies has_edge(edges, #[trigger] p[i], p[i + 1]) by {
        assert(p[i] == w[from + i]);
        assert(p[i + 1] == w[from + i + 1]);
    }
}

/// Without cycles, a walk of at least two edges from `u` to `v` is an edge
/// from `u` to another node than `v`, followed by a walk to `v`.
pub proof fn lemma_detour_via_child(edges: Seq<(int, int)>, u: int, v: int)
    requires
        acyclic(edges),
    ensures
        detour(edges, u, v) == via_child(edges, u, v),
{
    if detour(edges, u, v) {
        let w = choose|w: Seq<int>| #[trigger] walk_between(edges, w, u, v) && w.len() >= 3;
        let t = w.drop_first();
        lemma_walk_tail(edges, w);
        assert(has_edge(edges, w[0], w[1]));
        assert(walk_between(edges, t, w[1], v));
        assert(w[1] != v);
        assert(via_child(edges, u, v));
    }
    if via_child(edges, u, v) {
        let c = choose|c: int| c != v && #[trigger] has_edge(edges, u, c) && reachable(edges, c, v);
        let d = choose|d: Seq<int>| walk_between(edges, d, c, v);
        lemma_walk_prepend(edges, u, d);
        assert(walk_between(edges, seq![u] + d, u, v));
    }
}

/// Every pair of nodes that an edge joins, but for the pair of the edge at
/// `e`, is still joined when that edge is gone.
pub proof fn lemma_swap_removed_keeps(edges: Seq<(int, int)>, e: int, a: int, b: int)
    requires
        0 <= e < edges.len(),
        has_edge(edges, a, b),
        edges[e] != (a, b),
    ensures
        has_edge(edges.update(e, edges.last()).drop_last(), a, b),
{
    let small = edges.update(e, edges.last()).drop_last();
    let k = choose|k: int| 0 <= k < edges.len() && #[trigger] edges[k] == (a, b);
    if k == edges.len() - 1 {
        assert(small[e] == (a, b));
    } else {
        assert(small[k] == (a, b));
    }
}

/// Without cycles, a walk of at least two edges from `u` to `v` passes over
/// no edge from `u` to `v`.
pub proof fn lemma_detour_avoids_edge(edges: Seq<(int, int)>, d: Seq<int>, u: int, v: int, i: int)
    requires
        acyclic(edges),
        walk_between(edges, d, u, v),
        d.len() >= 3,
        0 <= i < d.len() - 1,
    ensures
        !(d[i] == u && d[i + 1] == v),
{
    if d[i] == u && d[i + 1] == v {
        if i >= 1 {
            lemma_walk_subrange(edges, d, 0, i + 1);
            assert(is_walk(edges, d.subrange(0, i + 1)));
        } else {
            lemma_walk_subrange(edges, d, 1, d.len() as int);
            assert(is_walk(edges, d.subrange(1, d.len() as int)));
        }
    }
}

/// Without cycles, taking away an edge that a walk of at least two edges
/// goes round leaves every node reaching what it reached.
pub proof fn lemma_remove_bypassed(edges: Seq<(int, int)>, e: int, w: Seq<int>)
    requires
        acyclic(edges),
        0 <= e < edges.len(),
        detour(edges, edges[e].0, edges[e].1),
        is_walk(edges, w),
    ensures
        reachable(edges.update(e, edges.last()).drop_last(), w.first(), w.last()),
    decreases w.len(),
{
    let small = edges.update(e, edges.last()).drop_last();
    let u = edges[e].0;
    let v = edges[e].1;
    if w.len() == 1 {
        lemma_reachable_reflexive(small, w[0]);
    } else {
        lemma_walk_tail(edges, w);
        lemma_remove_bypassed(edges, e, w.drop_first());
        assert(has_edge(edges, w[0], w[1]));
        if (w[0], w[1]) != edges[e] {
            lemma_swap_removed_keeps(edges, e, w[0], w[1]);
            lemma_edge_reachable(small, w[0], w[1]);
        } else {
            let d = choose|d: Seq<int>| #[trigger] walk_between(edges, d, u, v) && d.len() >= 3;
            assert forall|i: int| 0 <= i < d.len() - 1 implies has_edge(
                small,
                #[trigger] d[i],
                d[i + 1],
            ) by {
                lemma_detour_avoids_edge(edges, d, u, v, i);
                assert(has_edge(edges, d[i], d[i + 1]));
                lemma_swap_removed_keeps(edges, e, d[i], d[i + 1]);
            }
            assert(walk_between(small, d, u, v));
        }
        lemma_reachable_transitive(small, w[0], w[1], w.last());
    }
}

/// Without cycles, taking away an edge that a walk of at least two edges
/// goes round changes nothing in what reaches what.
pub proof fn lemma_remove_bypassed_edge(edges: Seq<(int, int)>, e: int)
    requires
        acyclic(edges),
        0 <= e < edges.len(),
        detour(edges, edges[e].0, edges[e].1),
    ensures
        forall|x: int, y: int|
            reachable(edges.update(e, edges.last()).drop_last(), x, y) == #[trigger] reachable(
                edges,
                x,
                y,
            ),
        acyclic(edges.update(e, edges.last()).drop_last()),
{
    let small = edges.update(e, edges.last()).drop_last();
    lemma_swap_removed_within(edges, e);
    lemma_fewer_edges(small, edges);
    assert forall|x: int, y: int| reachable(small, x, y) == #[trigger] reachable(edges, x, y) by {
        if reachable(edges, x, y) {
            let w = choose|w: Seq<int>| walk_between(edges, w, x, y);
            lemma_remove_bypassed(edges, e, w);
        }
    }
}

/// A walk of at least two edges over fewer edges is one over more.
pub proof fn lemma_detour_monotone(small: Seq<(int, int)>, big: Seq<(int, int)>, u: int, v: int)
    requires
        edges_within(small, big),
        detour(small, u, v),
    ensures
        detour(big, u, v),
{
    let w = choose|w: Seq<int>| #[trigger] walk_between(small, w, u, v) && w.len() >= 3;
    lemma_walk_monotone(small, big, w);
    assert(walk_between(big, w, u, v));
}

/// Where no edge touches node `to`, giving node `from` the name `to` opens
/// no cycle.
pub proof fn lemma_renamed_acyclic(edges: Seq<(int, int)>, from: int, to: int)
    requires
        acyclic(edges),
        !has_incoming(edges, to),
        !has_outgoing(edges, to),
    ensures
        acyclic(renamed_edges(edges, from, to)),
{
    let named = renamed_edges(edges, from, to);
    if has_cycle(named) {
        let w = choose|w: Seq<int>| #[trigger]
            is_walk(named, w) && w.len() >= 2 && w.first() == w.last();
        let back = Seq::new(w.len(), |i: int| renamed(w[i], to, from));
        assert forall|i: int| 0 <= i < back.len() - 1 implies has_edge(
            edges,
            #[trigger] back[i],
            back[i + 1],
        ) by {
            assert(has_edge(named, w[i], w[i + 1]));
            let k = choose|k: int| 0 <= k < named.len() && #[trigger] named[k] == (w[i], w[i + 1]);
            assert(edges[k].0 != to && edges[k].1 != to);
            assert(edges[k] == (back[i], back[i + 1]));
        }
        assert(is_walk(edges, back));
    }
}

} // verus!
