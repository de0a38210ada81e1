//! Transitive reduction: taking away every edge that a longer walk between
//! the same two nodes makes redundant.

use vstd::prelude::*;
use crate::dag::Dag;
use crate::index::{EdgeId, NodeId};
use crate::links::lemma_list_len;
use crate::paths::{
    detour, edges_within, has_edge, is_walk, lemma_detour_monotone, lemma_detour_via_child,
    lemma_edge_reachable, lemma_fewer_edges, lemma_reachable_reflexive,
    lemma_reachable_transitive, lemma_reached_has_incoming, lemma_remove_bypassed_edge,
    lemma_swap_removed_within, lemma_walk_subrange, reachable, via_child, walk_between,
};
use crate::topology::swap_removed;
use crate::walker::Walker;
use crate::view::{
    keeps, lemma_children_are_edges, lemma_children_without_edge, lemma_keeps_within,
    lemma_swap_removed_origin, DagView,
};

verus! {

/// Both edge lists let the same nodes reach the same nodes.
pub open spec fn same_reach(a: Seq<(int, int)>, b: Seq<(int, int)>) -> bool {
    forall|x: int, y: int| reachable(a, x, y) == #[trigger] reachable(b, x, y)
}

/// No edge out of `u` is gone round by a walk of at least two edges.
pub open spec fn reduced_at(edges: Seq<(int, int)>, u: int) -> bool {
    forall|k: int|
        0 <= k < edges.len() && (#[trigger] edges[k]).0 == u ==> !detour(edges, u, edges[k].1)
}

/// Some root reaches `u`.
pub open spec fn from_roots(edges: Seq<(int, int)>, roots: Seq<NodeId>, u: int) -> bool {
    exists|i: int| 0 <= i < roots.len() && reachable(edges, (#[trigger] roots[i])@, u)
}

/// No edge out of a node that the roots reach is gone round by a walk of at
/// least two edges.
pub open spec fn reduced_from(edges: Seq<(int, int)>, roots: Seq<NodeId>) -> bool {
    forall|u: int| #[trigger] from_roots(edges, roots, u) ==> reduced_at(edges, u)
}

/// The edge of `old` at index `j` was rightly taken away: the roots reach
/// its source, and a walk of at least two edges goes round it.
pub open spec fn bypassed(edges: Seq<(int, int)>, roots: Seq<NodeId>, j: int) -> bool {
    from_roots(edges, roots, edges[j].0) && detour(edges, edges[j].0, edges[j].1)
}

/// A node that is reduced stays reduced when edges are taken away.
pub proof fn lemma_reduced_at_monotone(small: Seq<(int, int)>, big: Seq<(int, int)>, u: int)
    requires
        edges_within(small, big),
        reduced_at(big, u),
    ensures
        reduced_at(small, u),
{
    assert forall|k: int| 0 <= k < small.len() && (#[trigger] small[k]).0 == u implies !detour(
        small,
        u,
        small[k].1,
    ) by {
        let v = small[k].1;
        assert(has_edge(small, u, v));
        let j = choose|j: int| 0 <= j < big.len() && #[trigger] big[j] == (u, v);
        if detour(small, u, v) {
            lemma_detour_monotone(small, big, u, v);
        }
    }
}

/// What was marked or on the stack stays so when a node is put on the stack.
pub proof fn lemma_covered_after_push(stack: Seq<NodeId>, marks: Seq<bool>, c: NodeId)
    ensures
        covered(stack.push(c), marks, c@),
        forall|x: int| covered(stack, marks, x) ==> covered(stack.push(c), marks, x),
{
    let after = stack.push(c);
    assert(after[stack.len() as int] == c);
    assert forall|x: int| covered(stack, marks, x) implies covered(after, marks, x) by {
        if !(0 <= x < marks.len() && marks[x]) {
            let i = choose|i: int| 0 <= i < stack.len() && (#[trigger] stack[i])@ == x;
            assert(after[i] == stack[i]);
        }
    }
}

/// What was marked or on the stack stays so when the top of the stack is
/// taken and marked.
pub proof fn lemma_covered_after_mark(stack: Seq<NodeId>, marks: Seq<bool>, u: NodeId)
    requires
        stack.len() > 0,
        stack.last() == u,
        0 <= u@ < marks.len(),
    ensures
        forall|x: int|
            covered(stack, marks, x) ==> covered(stack.drop_last(), marks.update(u@, true), x),
{
    let after = stack.drop_last();
    let marked = marks.update(u@, true);
    assert forall|x: int| covered(stack, marks, x) implies covered(after, marked, x) by {
        if !(0 <= x < marks.len() && marks[x]) {
            let i = choose|i: int| 0 <= i < stack.len() && (#[trigger] stack[i])@ == x;
            if i < after.len() {
                assert(after[i] == stack[i]);
            }
        }
    }
}

/// What was marked or on the stack stays so when a marked node is taken from
/// the top of the stack.
pub proof fn lemma_covered_after_pop(stack: Seq<NodeId>, marks: Seq<bool>, u: NodeId)
    requires
        stack.len() > 0,
        stack.last() == u,
        0 <= u@ < marks.len(),
        marks[u@],
    ensures
        forall|x: int| covered(stack, marks, x) ==> covered(stack.drop_last(), marks, x),
{
    let after = stack.drop_last();
    assert forall|x: int| covered(stack, marks, x) implies covered(after, marks, x) by {
        if !(0 <= x < marks.len() && marks[x]) {
            let i = choose|i: int| 0 <= i < stack.len() && (#[trigger] stack[i])@ == x;
            if i < after.len() {
                assert(after[i] == stack[i]);
            }
        }
    }
}

/// The number of nodes that are not marked.
pub open spec fn unmarked(marks: Seq<bool>) -> nat
    decreases marks.len(),
{
    if marks.len() == 0 {
        0
    } else {
        unmarked(marks.drop_last()) + if marks.last() {
            0nat
        } else {
            1nat
        }
    }
}

/// Marking a node that was not marked leaves one unmarked node fewer.
pub proof fn lemma_mark(marks: Seq<bool>, i: int)
    requires
        0 <= i < marks.len(),
        !marks[i],
    ensures
        unmarked(marks.update(i, true)) + 1 == unmarked(marks),
    decreases marks.len(),
{
    let after = marks.update(i, true);
    if i == marks.len() - 1 {
        assert(after.drop_last() =~= marks.drop_last());
    } else {
        lemma_mark(marks.drop_last(), i);
        assert(after.drop_last() =~= marks.drop_last().update(i, true));
    }
}

/// Node `c` is marked or waits on the stack.
pub open spec fn covered(stack: Seq<NodeId>, marks: Seq<bool>, c: int) -> bool {
    (0 <= c < marks.len() && marks[c]) || exists|i: int|
        0 <= i < stack.len() && (#[trigger] stack[i])@ == c
}

/// Every node that an edge leads to from a marked node other than `open`,
/// and every root that is a node, is marked or waits on the stack.
pub open spec fn frontier(
    edges: Seq<(int, int)>,
    roots: Seq<NodeId>,
    stack: Seq<NodeId>,
    marks: Seq<bool>,
    open: int,
) -> bool {
    &&& forall|x: int, c: int|
        0 <= x < marks.len() && marks[x] && x != open && #[trigger] has_edge(edges, x, c)
            ==> covered(stack, marks, c)
    &&& forall|i: int|
        0 <= i < roots.len() && (#[trigger] roots[i])@ < marks.len() ==> covered(
            stack,
            marks,
            roots[i]@,
        )
}

/// With nothing left on the stack, every node on a walk from a marked node
/// is marked.
pub proof fn lemma_marks_closed(
    edges: Seq<(int, int)>,
    roots: Seq<NodeId>,
    marks: Seq<bool>,
    w: Seq<int>,
)
    requires
        frontier(edges, roots, Seq::<NodeId>::empty(), marks, -1),
        is_walk(edges, w),
        0 <= w.first() < marks.len(),
        marks[w.first()],
    ensures
        0 <= w.last() < marks.len(),
        marks[w.last()],
    decreases w.len(),
{
    if w.len() > 1 {
        let init = w.subrange(0, w.len() - 1);
        lemma_walk_subrange(edges, w, 0, w.len() - 1);
        lemma_marks_closed(edges, roots, marks, init);
        let x = w[w.len() - 2];
        assert(has_edge(edges, w[w.len() - 2], w[w.len() - 2 + 1]));
        assert(covered(Seq::<NodeId>::empty(), marks, w.last()));
    }
}

/// `new` is `old` transitively reduced from `roots`: what reaches what is
/// as in `old`; no edge of `new` out of a node that the roots reach is gone
/// round by a walk of at least two edges; the edges of `new` are edges of
/// `old` with their weights, and those that are missing were gone round and
/// left a node that the roots reach; and where `old` had no such edge, `new`
/// is `old`.
pub open spec fn reduction<N, E>(old: DagView<N, E>, new: DagView<N, E>, roots: Seq<NodeId>) -> bool {
    &&& new.wf()
    &&& new.acyclic()
    &&& same_reach(new.edges, old.edges)
    &&& reduced_from(new.edges, roots)
    &&& exists|origin: Seq<int>|
        {
            &&& #[trigger] keeps(old, new, origin)
            &&& forall|j: int|
                0 <= j < old.edges.len() && !origin.contains(j) ==> bypassed(old.edges, roots, j)
        }
    &&& reduced_from(old.edges, roots) ==> new == old
}

/// The state of a reduction that is under way: the graph has lost only
/// edges that were rightly taken away, every marked node is reduced, every
/// node on the stack is one that the roots reach, and every node that the
/// roots reach is marked, on the stack, or reached from there.
pub open spec fn in_progress<N, E>(
    start: DagView<N, E>,
    now: DagView<N, E>,
    roots: Seq<NodeId>,
    stack: Seq<NodeId>,
    marks: Seq<bool>,
    origin: Seq<int>,
) -> bool {
    &&& now.wf()
    &&& start.acyclic()
    &&& now.acyclic()
    &&& marks.len() == start.nodes.len()
    &&& keeps(start, now, origin)
    &&& same_reach(now.edges, start.edges)
    &&& forall|x: int| 0 <= x < marks.len() && #[trigger] marks[x] ==> reduced_at(now.edges, x)
    &&& forall|i: int|
        0 <= i < stack.len() ==> (#[trigger] stack[i])@ < marks.len() && from_roots(
            start.edges,
            roots,
            stack[i]@,
        )
    &&& frontier(now.edges, roots, stack, marks, -1)
    &&& forall|j: int|
        0 <= j < start.edges.len() && !origin.contains(j) ==> bypassed(start.edges, roots, j)
    &&& reduced_from(start.edges, roots) ==> now == start
}

/// With nothing left on the stack, every node that the roots reach is
/// reduced.
pub proof fn lemma_reduction_done<N, E>(
    start: DagView<N, E>,
    end: DagView<N, E>,
    roots: Seq<NodeId>,
    marks: Seq<bool>,
    origin: Seq<int>,
)
    requires
        in_progress(start, end, roots, Seq::<NodeId>::empty(), marks, origin),
    ensures
        reduced_from(end.edges, roots),
{
    let n = marks.len();
    assert forall|x: int| #[trigger] from_roots(end.edges, roots, x) implies reduced_at(
        end.edges,
        x,
    ) by {
        let i = choose|i: int|
            0 <= i < roots.len() && reachable(end.edges, (#[trigger] roots[i])@, x);
        let root = roots[i]@;
        if 0 <= x < n {
            if root != x {
                lemma_reached_has_incoming(end.edges, root, x);
            }
            assert(root < n);
            assert(covered(Seq::<NodeId>::empty(), marks, root));
            let w = choose|w: Seq<int>| walk_between(end.edges, w, root, x);
            lemma_marks_closed(end.edges, roots, marks, w);
        }
    }
}

/// The roots that are nodes of a graph of `n` nodes, in their order.
fn roots_within(roots: &Vec<NodeId>, n: usize) -> (stack: Vec<NodeId>)
    ensures
        forall|i: int|
            0 <= i < stack@.len() ==> (#[trigger] stack@[i])@ < n && exists|k: int|
                0 <= k < roots@.len() && roots@[k] == stack@[i],
        forall|i: int|
            0 <= i < roots@.len() && (#[trigger] roots@[i])@ < n ==> exists|k: int|
                0 <= k < stack@.len() && (#[trigger] stack@[k])@ == roots@[i]@,
{
    let mut stack: Vec<NodeId> = Vec::new();
    let mut r: usize = 0;
    while r < roots.len()
        invariant
            r <= roots.len(),
            forall|i: int|
                0 <= i < stack@.len() ==> (#[trigger] stack@[i])@ < n && exists|k: int|
                    0 <= k < roots@.len() && roots@[k] == stack@[i],
            forall|i: int|
                0 <= i < r && (#[trigger] roots@[i])@ < n ==> exists|k: int|
                    0 <= k < stack@.len() && (#[trigger] stack@[k])@ == roots@[i]@,
        decreases roots.len() - r,
    {
        let root = roots[r];
        let ghost before = stack@;
        if root.index() < n {
            stack.push(root);
            proof {
                assert(stack@[before.len() as int] == root);
            }
        }
        proof {
            assert forall|i: int| 0 <= i < r + 1 && (#[trigger] roots@[i])@ < n implies exists|
                k: int,
            | 0 <= k < stack@.len() && (#[trigger] stack@[k])@ == roots@[i]@ by {
                if i < r {
                    let k = choose|k: int|
                        0 <= k < before.len() && (#[trigger] before[k])@ == roots@[i]@;
                    assert(stack@[k] == before[k]);
                } else {
                    assert(stack@[before.len() as int] == root);
                }
            }
        }
        r += 1;
    }
    stack
}

impl<N, E> Dag<N, E> {
    /// Takes away every edge, out of a node that some root reaches, that a
    /// walk of at least two edges goes round. What reaches what stays as it
    /// is, and so do the nodes and the weights of the edges that stay.
    ///
    /// The nodes are taken from a stack that starts with the roots; each is
    /// reduced when it is first taken, and its children as they then are
    /// are put on the stack.
    pub fn transitive_reduce(&mut self, roots: Vec<NodeId>)
        requires
            old(self).wf(),
        ensures
            final(self).wf(),
            reduction(old(self)@, final(self)@, roots@),
    {
        let ghost start = self@;
        let ghost mut origin = Seq::new(start.edges.len(), |k: int| k);
        let n = self.node_count();
        let mut visited: Vec<bool> = Vec::new();
        while visited.len() < n
            invariant
                visited@.len() <= n,
                forall|x: int| 0 <= x < visited@.len() ==> !visited@[x],
            decreases n - visited.len(),
        {
            visited.push(false);
        }
        let mut stack = roots_within(&roots, n);
        proof {
            lemma_fewer_edges(start.edges, start.edges);
            assert forall|i: int| 0 <= i < stack@.len() implies from_roots(
                start.edges,
                roots@,
                (#[trigger] stack@[i])@,
            ) by {
                let k = choose|k: int| 0 <= k < roots@.len() && roots@[k] == stack@[i];
                lemma_reachable_reflexive(start.edges, roots@[k]@);
            }
            assert forall|j: int| 0 <= j < start.edges.len() implies origin.contains(j) by {
                assert(origin[j] == j);
            }
            assert(in_progress(start, self@, roots@, stack@, visited@, origin));
        }
        while stack.len() > 0
            invariant
                in_progress(start, self@, roots@, stack@, visited@, origin),
                start == old(self)@,
                self@.wf(),
            decreases unmarked(visited@), stack@.len(),
        {
            let kept = self.reduce_next(
                &mut stack,
                &mut visited,
                Ghost(roots@),
                Ghost(start),
                Ghost(origin),
            );
            proof {
                origin = kept@;
            }
        }
        proof {
            assert(stack@ =~= Seq::<NodeId>::empty());
            lemma_reduction_done(start, self@, roots@, visited@, origin);
            assert(keeps(start, self@, origin));
        }
    }

    /// Takes the next node from the stack; where it was not visited before,
    /// reduces it and puts its children on the stack.
    fn reduce_next(
        &mut self,
        stack: &mut Vec<NodeId>,
        visited: &mut Vec<bool>,
        Ghost(roots): Ghost<Seq<NodeId>>,
        Ghost(start): Ghost<DagView<N, E>>,
        Ghost(origin): Ghost<Seq<int>>,
    ) -> (kept: Ghost<Seq<int>>)
        requires
            old(self)@.wf(),
            in_progress(start, old(self)@, roots, old(stack)@, old(visited)@, origin),
            old(stack)@.len() > 0,
        ensures
            final(self)@.wf(),
            in_progress(start, final(self)@, roots, final(stack)@, final(visited)@, kept@),
            unmarked(final(visited)@) < unmarked(old(visited)@) || (unmarked(final(visited)@)
                == unmarked(old(visited)@) && final(stack)@.len() < old(stack)@.len()),
    {
        let ghost stack_before = stack@;
        let ghost marks_before = visited@;
        let ghost here = self@;
        let u = stack.pop().unwrap();
        proof {
            assert(stack_before[stack_before.len() - 1] == u);
            assert(from_roots(start.edges, roots, u@));
        }
        if !visited[u.index()] {
            visited[u.index()] = true;
            proof {
                lemma_mark(marks_before, u@);
                lemma_covered_after_mark(stack_before, marks_before, u);
            }
            let kept = self.reduce_node(u, Ghost(start), Ghost(origin));
            proof {
                let now = self@;
                lemma_fewer_edges(now.edges, here.edges);
                assert forall|x: int| 0 <= x < visited@.len() && #[trigger] visited@[x] implies reduced_at(
                    now.edges,
                    x,
                ) by {
                    if x != u@ {
                        assert(marks_before[x]);
                        lemma_reduced_at_monotone(now.edges, here.edges, x);
                    }
                }
                assert forall|j: int|
                    0 <= j < start.edges.len() && !kept@.contains(j) implies bypassed(
                    start.edges,
                    roots,
                    j,
                ) by {
                    if origin.contains(j) {
                        assert(start.edges[j].0 == u@);
                    }
                }
                assert(frontier(now.edges, roots, stack@, visited@, u@)) by {
                    assert forall|x: int, c: int|
                        0 <= x < visited@.len() && visited@[x] && x != u@ && #[trigger] has_edge(
                            now.edges,
                            x,
                            c,
                        ) implies covered(stack@, visited@, c) by {
                        assert(has_edge(here.edges, x, c));
                        assert(covered(stack_before, marks_before, c));
                    }
                    assert forall|i: int|
                        0 <= i < roots.len() && (#[trigger] roots[i])@
                            < visited@.len() implies covered(stack@, visited@, roots[i]@) by {
                        assert(covered(stack_before, marks_before, roots[i]@));
                    }
                }
                assert forall|i: int| 0 <= i < stack@.len() implies (#[trigger] stack@[i])@
                    < visited@.len() && from_roots(start.edges, roots, stack@[i]@) by {
                    assert(stack@[i] == stack_before[i]);
                }
                if reduced_from(start.edges, roots) {
                    assert(reduced_at(start.edges, u@));
                }
            }
            self.push_children(u, stack, Ghost(roots), Ghost(start), Ghost(visited@));
            kept
        } else {
            proof {
                lemma_covered_after_pop(stack_before, marks_before, u);
                assert(frontier(here.edges, roots, stack@, visited@, -1)) by {
                    assert forall|x: int, c: int|
                        0 <= x < visited@.len() && visited@[x] && x != -1 && #[trigger] has_edge(
                            here.edges,
                            x,
                            c,
                        ) implies covered(stack@, visited@, c) by {
                        assert(covered(stack_before, marks_before, c));
                    }
                    assert forall|i: int|
                        0 <= i < roots.len() && (#[trigger] roots[i])@
                            < visited@.len() implies covered(stack@, visited@, roots[i]@) by {
                        assert(covered(stack_before, marks_before, roots[i]@));
                    }
                }
                assert forall|i: int| 0 <= i < stack@.len() implies (#[trigger] stack@[i])@
                    < visited@.len() && from_roots(start.edges, roots, stack@[i]@) by {
                    assert(stack@[i] == stack_before[i]);
                }
            }
            Ghost(origin)
        }
    }

    /// Puts the children of `u` on the stack.
    fn push_children(
        &self,
        u: NodeId,
        stack: &mut Vec<NodeId>,
        Ghost(roots): Ghost<Seq<NodeId>>,
        Ghost(start): Ghost<DagView<N, E>>,
        Ghost(marks): Ghost<Seq<bool>>,
    )
        requires
            self@.wf(),
            same_reach(self@.edges, start.edges),
            marks.len() == self@.nodes.len(),
            u@ < marks.len(),
            marks[u@],
            from_roots(start.edges, roots, u@),
            frontier(self@.edges, roots, old(stack)@, marks, u@),
            forall|i: int|
                0 <= i < old(stack)@.len() ==> (#[trigger] old(stack)@[i])@ < marks.len()
                    && from_roots(start.edges, roots, old(stack)@[i]@),
        ensures
            final(stack)@.len() >= old(stack)@.len(),
            frontier(self@.edges, roots, final(stack)@, marks, -1),
            forall|i: int|
                0 <= i < final(stack)@.len() ==> (#[trigger] final(stack)@[i])@ < marks.len()
                    && from_roots(start.edges, roots, final(stack)@[i]@),
    {
        let ghost view = self@;
        let ghost all = view.children(u@);
        let ghost mut k: int = 0;
        let mut walker = self.children(u);
        proof {
            lemma_children_are_edges(view, u@);
        }
        loop
            invariant
                self@ == view,
                view.wf(),
                walker.inv(self),
                0 <= k <= all.len(),
                all == view.children(u@),
                walker.steps(self) =~= all.skip(k),
                same_reach(view.edges, start.edges),
                marks.len() == view.nodes.len(),
                u@ < marks.len(),
                marks[u@],
                from_roots(start.edges, roots, u@),
                frontier(view.edges, roots, stack@, marks, u@),
                forall|i: int|
                    0 <= i < all.len() ==> {
                        let step = #[trigger] all[i];
                        0 <= step.0@ < view.edges.len() && view.edges[step.0@] == (u@, step.1@)
                    },
                forall|j: int|
                    0 <= j < view.edges.len() && (#[trigger] view.edges[j]).0 == u@
                        ==> exists|i: int| 0 <= i < all.len() && (#[trigger] all[i]).0@ == j,
                forall|i: int| 0 <= i < k ==> covered(stack@, marks, (#[trigger] all[i]).1@),
                forall|i: int|
                    0 <= i < stack@.len() ==> (#[trigger] stack@[i])@ < marks.len() && from_roots(
                        start.edges,
                        roots,
                        stack@[i]@,
                    ),
                stack@.len() >= old(stack)@.len(),
            decreases all.len() - k,
        {
            let ghost before = stack@;
            match walker.walk_next(self) {
                Some((_, c)) => {
                    proof {
                        assert(all.skip(k).drop_first() =~= all.skip(k + 1));
                        assert(all[k].1 == c);
                        assert(view.edges[all[k].0@] == (u@, c@));
                        assert(has_edge(view.edges, u@, c@));
                        lemma_edge_reachable(view.edges, u@, c@);
                        let i = choose|i: int|
                            0 <= i < roots.len() && reachable(
                                start.edges,
                                (#[trigger] roots[i])@,
                                u@,
                            );
                        lemma_reachable_transitive(start.edges, roots[i]@, u@, c@);
                    }
                    stack.push(c);
                    proof {
                        assert(stack@[before.len() as int] == c);
                        lemma_covered_after_push(before, marks, c);
                        assert forall|i: int| 0 <= i < k + 1 implies covered(
                            stack@,
                            marks,
                            (#[trigger] all[i]).1@,
                        ) by {
                            if i < k {
                                assert(covered(before, marks, all[i].1@));
                            }
                        }
                        assert(frontier(view.edges, roots, stack@, marks, u@)) by {
                            assert forall|x: int, y: int|
                                0 <= x < marks.len() && marks[x] && x != u@ && #[trigger] has_edge(
                                    view.edges,
                                    x,
                                    y,
                                ) implies covered(stack@, marks, y) by {
                                assert(covered(before, marks, y));
                            }
                            assert forall|i: int|
                                0 <= i < roots.len() && (#[trigger] roots[i])@
                                    < marks.len() implies covered(stack@, marks, roots[i]@) by {
                                assert(covered(before, marks, roots[i]@));
                            }
                        }
                        k = k + 1;
                    }
                },
                None => {
                    proof {
                        assert forall|x: int, y: int|
                            0 <= x < marks.len() && marks[x] && #[trigger] has_edge(
                                view.edges,
                                x,
                                y,
                            ) implies covered(stack@, marks, y) by {
                            if x == u@ {
                                let j = choose|j: int|
                                    0 <= j < view.edges.len() && #[trigger] view.edges[j] == (x, y);
                                assert(view.edges[j].0 == u@);
                                let i = choose|i: int|
                                    0 <= i < all.len() && (#[trigger] all[i]).0@ == j;
                                assert(all[i].1@ == y);
                            }
                        }
                    }
                    return ;
                },
            }
        }
    }

    /// Whether an edge leads from `u` to a node other than `v` that
    /// reaches `v`.
    fn has_detour(&mut self, u: NodeId, v: NodeId) -> (found: bool)
        requires
            old(self)@.wf(),
        ensures
            final(self)@ == old(self)@,
            found == via_child(old(self)@.edges, u@, v@),
    {
        let ghost view = self@;
        let mut walker = self.children(u);
        let ghost all = view.children(u@);
        let ghost mut k: int = 0;
        proof {
            lemma_children_are_edges(view, u@);
        }
        loop
            invariant
                self@ == view,
                view == old(self)@,
                view.wf(),
                walker.inv(self),
                0 <= k <= all.len(),
                all == view.children(u@),
                walker.steps(self) =~= all.skip(k),
                forall|i: int|
                    0 <= i < all.len() ==> {
                        let step = #[trigger] all[i];
                        0 <= step.0@ < view.edges.len() && view.edges[step.0@] == (u@, step.1@)
                    },
                forall|j: int|
                    0 <= j < view.edges.len() && (#[trigger] view.edges[j]).0 == u@
                        ==> exists|i: int| 0 <= i < all.len() && (#[trigger] all[i]).0@ == j,
                forall|i: int|
                    0 <= i < k ==> (#[trigger] all[i]).1@ == v@ || !reachable(
                        view.edges,
                        all[i].1@,
                        v@,
                    ),
            decreases all.len() - k,
        {
            match walker.walk_next(self) {
                Some((_, c)) => {
                    proof {
                        assert(all.skip(k).drop_first() =~= all.skip(k + 1));
                        assert(all[k].1 == c);
                        assert(view.edges[all[k].0@] == (u@, c@));
                        assert(0 <= view.edges[all[k].0@].1 < view.links.len());
                    }
                    if c != v && self.has_path(c, v) {
                        proof {
                            assert(has_edge(view.edges, u@, c@));
                        }
                        return true;
                    }
                    proof {
                        k = k + 1;
                    }
                },
                None => {
                    proof {
                        if via_child(view.edges, u@, v@) {
                            let c = choose|c: int|
                                c != v@ && #[trigger] has_edge(view.edges, u@, c) && reachable(
                                    view.edges,
                                    c,
                                    v@,
                                );
                            let j = choose|j: int|
                                0 <= j < view.edges.len() && #[trigger] view.edges[j] == (u@, c);
                            assert(view.edges[j].0 == u@);
                            let i = choose|i: int|
                                0 <= i < all.len() && (#[trigger] all[i]).0@ == j;
                            assert(all[i].1@ == c);
                        }
                    }
                    return false;
                },
            }
        }
    }

    /// The first step from `u` to a child, behind the first `skip` steps,
    /// that leads to a node which another child of `u` reaches, and its
    /// place among the steps.
    fn find_bypassed(&mut self, u: NodeId, skip: usize) -> (found: Option<(EdgeId, usize)>)
        requires
            old(self)@.wf(),
            skip <= old(self)@.children(u@).len(),
            forall|i: int|
                0 <= i < skip ==> !via_child(
                    old(self)@.edges,
                    u@,
                    (#[trigger] old(self)@.children(u@)[i]).1@,
                ),
        ensures
            final(self)@ == old(self)@,
            match found {
                Some((e, p)) => {
                    &&& skip <= p < old(self)@.children(u@).len()
                    &&& old(self)@.children(u@)[p as int].0 == e
                    &&& e@ < old(self)@.edges.len()
                    &&& old(self)@.edges[e@].0 == u@
                    &&& via_child(old(self)@.edges, u@, old(self)@.edges[e@].1)
                    &&& forall|i: int|
                        0 <= i < p ==> !via_child(
                            old(self)@.edges,
                            u@,
                            (#[trigger] old(self)@.children(u@)[i]).1@,
                        )
                },
                None => forall|j: int|
                    0 <= j < old(self)@.edges.len() && (#[trigger] old(self)@.edges[j]).0 == u@
                        ==> !via_child(old(self)@.edges, u@, old(self)@.edges[j].1),
            },
    {
        let ghost view = self@;
        let mut walker = self.children(u);
        let ghost all = view.children(u@);
        let mut pos: usize = 0;
        proof {
            lemma_children_are_edges(view, u@);
            if 0 <= u@ < view.links.len() {
                assert forall|i: int| 0 <= i < view.links[u@].0.len() implies 0
                    <= #[trigger] view.links[u@].0[i] < view.edges.len() by {}
                lemma_list_len(view.edges, view.links[u@].0);
            }
        }
        loop
            invariant
                self@ == view,
                view == old(self)@,
                view.wf(),
                walker.inv(self),
                0 <= pos <= all.len(),
                all.len() <= u32::MAX,
                all == view.children(u@),
                walker.steps(self) =~= all.skip(pos as int),
                forall|i: int|
                    0 <= i < all.len() ==> {
                        let step = #[trigger] all[i];
                        0 <= step.0@ < view.edges.len() && view.edges[step.0@] == (u@, step.1@)
                    },
                forall|j: int|
                    0 <= j < view.edges.len() && (#[trigger] view.edges[j]).0 == u@
                        ==> exists|i: int| 0 <= i < all.len() && (#[trigger] all[i]).0@ == j,
                forall|i: int|
                    0 <= i < pos || 0 <= i < skip ==> !via_child(
                        view.edges,
                        u@,
                        (#[trigger] all[i]).1@,
                    ),
            decreases all.len() - pos,
        {
            match walker.walk_next(self) {
                Some((e, v)) => {
                    proof {
                        assert(all.skip(pos as int).drop_first() =~= all.skip(pos + 1));
                        assert(all[pos as int] == (e, v));
                    }
                    if pos >= skip && self.has_detour(u, v) {
                        return Some((e, pos));
                    }
                    pos += 1;
                },
                None => {
                    proof {
                        assert forall|j: int|
                            0 <= j < view.edges.len() && (#[trigger] view.edges[j]).0
                                == u@ implies !via_child(view.edges, u@, view.edges[j].1) by {
                            let i = choose|i: int|
                                0 <= i < all.len() && (#[trigger] all[i]).0@ == j;
                            assert(view.edges[all[i].0@] == (u@, all[i].1@));
                        }
                    }
                    return None;
                },
            }
        }
    }

    /// Takes away every edge out of `u` that a longer walk goes round. The
    /// steps to the children are tried in walking order; those that were
    /// tried and stay are not tried again.
    fn reduce_node(
        &mut self,
        u: NodeId,
        Ghost(start): Ghost<DagView<N, E>>,
        Ghost(origin): Ghost<Seq<int>>,
    ) -> (kept: Ghost<Seq<int>>)
        requires
            old(self)@.wf(),
            start.acyclic(),
            keeps(start, old(self)@, origin),
            same_reach(old(self)@.edges, start.edges),
        ensures
            final(self)@.wf(),
            keeps(start, final(self)@, kept@),
            same_reach(final(self)@.edges, start.edges),
            edges_within(final(self)@.edges, old(self)@.edges),
            reduced_at(final(self)@.edges, u@),
            forall|j: int|
                origin.contains(j) && !kept@.contains(j) ==> (#[trigger] start.edges[j]).0 == u@
                    && detour(start.edges, u@, start.edges[j].1),
            forall|j: int| kept@.contains(j) ==> origin.contains(j),
            reduced_at(old(self)@.edges, u@) ==> final(self)@ == old(self)@ && kept@ == origin,
    {
        let ghost mut kept = origin;
        let mut tried: usize = 0;
        proof {
            lemma_keeps_within(start, self@, origin);
            lemma_fewer_edges(self@.edges, start.edges);
        }
        loop
            invariant
                self@.wf(),
                start.acyclic(),
                self@.acyclic(),
                keeps(start, self@, kept),
                same_reach(self@.edges, start.edges),
                edges_within(self@.edges, old(self)@.edges),
                tried <= self@.children(u@).len(),
                forall|i: int|
                    0 <= i < tried ==> !via_child(
                        self@.edges,
                        u@,
                        (#[trigger] self@.children(u@)[i]).1@,
                    ),
                forall|j: int|
                    origin.contains(j) && !kept.contains(j) ==> (#[trigger] start.edges[j]).0
                        == u@ && detour(start.edges, u@, start.edges[j].1),
                forall|j: int| kept.contains(j) ==> origin.contains(j),
                reduced_at(old(self)@.edges, u@) ==> self@ == old(self)@ && kept == origin,
            decreases self@.edges.len(),
        {
            let ghost here = self@;
            match self.find_bypassed(u, tried) {
                Some((e, p)) => {
                    proof {
                        let v = here.edges[e@].1;
                        let after = here.without_edge(e@);
                        lemma_detour_via_child(here.edges, u@, v);
                        lemma_remove_bypassed_edge(here.edges, e@);
                        lemma_swap_removed_within(here.edges, e@);
                        lemma_swap_removed_origin(kept, e@);
                        lemma_keeps_within(start, here, kept);
                        lemma_detour_monotone(here.edges, start.edges, u@, v);
                        lemma_children_without_edge(here, u@, p as int);
                        lemma_fewer_edges(after.edges, here.edges);
                        assert forall|i: int| 0 <= i < p implies !via_child(
                            after.edges,
                            u@,
                            (#[trigger] after.children(u@)[i]).1@,
                        ) by {
                            let t = here.children(u@)[i].1@;
                            assert(after.children(u@)[i].1 == here.children(u@)[i].1);
                            if via_child(after.edges, u@, t) {
                                let c = choose|c: int|
                                    c != t && #[trigger] has_edge(after.edges, u@, c) && reachable(
                                        after.edges,
                                        c,
                                        t,
                                    );
                                assert(has_edge(here.edges, u@, c));
                                assert(reachable(here.edges, c, t));
                            }
                        }
                        kept = swap_removed(kept, e@);
                    }
                    self.remove_edge(e);
                    tried = p;
                },
                None => {
                    proof {
                        assert forall|k: int|
                            0 <= k < here.edges.len() && (#[trigger] here.edges[k]).0
                                == u@ implies !detour(here.edges, u@, here.edges[k].1) by {
                            lemma_detour_via_child(here.edges, u@, here.edges[k].1);
                        }
                    }
                    return Ghost(kept);
                },
            }
        }
    }
}

} // verus!
