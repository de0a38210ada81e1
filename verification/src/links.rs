//! Agreement between an edge list and the adjacency lists that index it, and
//! its preservation under each change the topology undergoes.

use vstd::prelude::*;
use crate::topology::{
    bare_links, link_edge, renamed, renamed_edges, swap_removed, unlink, unlink_all, Links,
};

verus! {

/// The adjacency lists index the edge list: every edge has its endpoints
/// among the nodes and stands exactly once in its source's outgoing and in
/// its target's incoming list, the lists hold nothing else, and both counts
/// fit the 32-bit index width.
pub open spec fn consistent(edges: Seq<(int, int)>, links: Links) -> bool {
    &&& edges.len() <= u32::MAX
    &&& links.len() <= u32::MAX
    &&& forall|e: int|
        0 <= e < edges.len() ==> {
            &&& 0 <= (#[trigger] edges[e]).0 < links.len()
            &&& 0 <= edges[e].1 < links.len()
            &&& links[edges[e].0].0.contains(e)
            &&& links[edges[e].1].1.contains(e)
        }
    &&& forall|v: int|
        0 <= v < links.len() ==> {
            &&& (#[trigger] links[v]).0.no_duplicates()
            &&& links[v].1.no_duplicates()
        }
    &&& forall|v: int, i: int|
        0 <= v < links.len() && 0 <= i < links[v].0.len() ==> {
            let e = #[trigger] links[v].0[i];
            0 <= e < edges.len() && edges[e].0 == v
        }
    &&& forall|v: int, i: int|
        0 <= v < links.len() && 0 <= i < links[v].1.len() ==> {
            let e = #[trigger] links[v].1[i];
            0 <= e < edges.len() && edges[e].1 == v
        }
}

/// Every entry of an unlinked list comes from an entry of the list that is
/// not the removed edge.
pub proof fn lemma_unlink_origin(list: Seq<int>, e: int, last: int, i: int)
    requires
        0 <= i < unlink(list, e, last).len(),
    ensures
        exists|j: int|
            0 <= j < list.len() && #[trigger] list[j] != e && unlink(list, e, last)[i] == renamed(
                list[j],
                last,
                e,
            ),
    decreases list.len(),
{
    let rest = unlink(list.drop_first(), e, last);
    if list[0] != e && i == 0 {
        assert(list[0] != e);
    } else {
        let k = if list[0] == e {
            i
        } else {
            i - 1
        };
        lemma_unlink_origin(list.drop_first(), e, last, k);
        let j = choose|j: int|
            0 <= j < list.drop_first().len() && #[trigger] list.drop_first()[j] != e && rest[k]
                == renamed(list.drop_first()[j], last, e);
        assert(list[j + 1] == list.drop_first()[j]);
    }
}

/// Every entry of the list that is not the removed edge stays, renamed.
pub proof fn lemma_unlink_keeps(list: Seq<int>, e: int, last: int, j: int)
    requires
        0 <= j < list.len(),
        list[j] != e,
    ensures
        unlink(list, e, last).contains(renamed(list[j], last, e)),
    decreases list.len(),
{
    let rest = unlink(list.drop_first(), e, last);
    let out = unlink(list, e, last);
    if j == 0 {
        assert(out[0] == renamed(list[0], last, e));
    } else {
        lemma_unlink_keeps(list.drop_first(), e, last, j - 1);
        let k = choose|k: int| 0 <= k < rest.len() && rest[k] == renamed(list[j], last, e);
        if list[0] == e {
            assert(out[k] == rest[k]);
        } else {
            assert(out[k + 1] == rest[k]);
        }
    }
}

/// Unlinking keeps a list free of repetitions.
pub proof fn lemma_unlink_no_duplicates(list: Seq<int>, e: int, last: int)
    requires
        list.no_duplicates(),
    ensures
        unlink(list, e, last).no_duplicates(),
    decreases list.len(),
{
    if list.len() > 0 {
        let tail = list.drop_first();
        let rest = unlink(tail, e, last);
        let out = unlink(list, e, last);
        assert(tail.no_duplicates()) by {
            assert forall|i: int, j: int| 0 <= i < tail.len() && 0 <= j < tail.len() && i != j implies tail[i] != tail[j] by {
                assert(tail[i] == list[i + 1]);
                assert(tail[j] == list[j + 1]);
            }
        }
        lemma_unlink_no_duplicates(tail, e, last);
        if list[0] != e {
            assert forall|k: int| 0 <= k < rest.len() implies rest[k] != out[0] by {
                lemma_unlink_origin(tail, e, last, k);
                let j = choose|j: int|
                    0 <= j < tail.len() && #[trigger] tail[j] != e && rest[k] == renamed(
                        tail[j],
                        last,
                        e,
                    );
                assert(tail[j] == list[j + 1]);
                assert(list[j + 1] != list[0]);
            }
            assert forall|i: int, j: int| 0 <= i < out.len() && 0 <= j < out.len() && i != j implies out[i] != out[j] by {
                if i > 0 {
                    assert(out[i] == rest[i - 1]);
                }
                if j > 0 {
                    assert(out[j] == rest[j - 1]);
                }
            }
        }
    }
}

/// Unlinking an edge that the list does not hold, where no entry moves,
/// leaves the list as it is.
pub proof fn lemma_unlink_absent(list: Seq<int>, e: int)
    requires
        !list.contains(e),
    ensures
        unlink(list, e, e) == list,
    decreases list.len(),
{
    if list.len() > 0 {
        let tail = list.drop_first();
        assert(list[0] != e);
        assert(!tail.contains(e)) by {
            if tail.contains(e) {
                let k = choose|k: int| 0 <= k < tail.len() && tail[k] == e;
                assert(list[k + 1] == e);
            }
        }
        lemma_unlink_absent(tail, e);
        assert(seq![list[0]] + tail =~= list);
    }
}

/// Unlinking an edge that the list does not hold keeps the length.
pub proof fn lemma_unlink_absent_len(list: Seq<int>, e: int, last: int)
    requires
        !list.contains(e),
    ensures
        unlink(list, e, last).len() == list.len(),
    decreases list.len(),
{
    if list.len() > 0 {
        let tail = list.drop_first();
        assert(list[0] != e);
        assert(!tail.contains(e)) by {
            if tail.contains(e) {
                let k = choose|k: int| 0 <= k < tail.len() && tail[k] == e;
                assert(list[k + 1] == e);
            }
        }
        lemma_unlink_absent_len(tail, e, last);
    }
}

/// Unlinking the entry at `p` of a list without repetitions makes the list
/// shorter by one and leaves the entries before `p` in their places.
pub proof fn lemma_unlink_prefix(list: Seq<int>, e: int, last: int, p: int)
    requires
        list.no_duplicates(),
        0 <= p < list.len(),
        list[p] == e,
    ensures
        unlink(list, e, last).len() == list.len() - 1,
        forall|i: int| 0 <= i < p ==> #[trigger] unlink(list, e, last)[i] == renamed(list[i], last, e),
    decreases list.len(),
{
    let tail = list.drop_first();
    assert(tail.no_duplicates()) by {
        assert forall|i: int, j: int| 0 <= i < tail.len() && 0 <= j < tail.len() && i != j implies tail[i] != tail[j] by {
            assert(tail[i] == list[i + 1]);
            assert(tail[j] == list[j + 1]);
        }
    }
    if p == 0 {
        assert(!tail.contains(e)) by {
            if tail.contains(e) {
                let k = choose|k: int| 0 <= k < tail.len() && tail[k] == e;
                assert(list[k + 1] == e);
            }
        }
        lemma_unlink_absent_len(tail, e, last);
    } else {
        assert(list[0] != list[p]);
        assert(tail[p - 1] == e);
        lemma_unlink_prefix(tail, e, last, p - 1);
        let out = unlink(list, e, last);
        let rest = unlink(tail, e, last);
        assert forall|i: int| 0 <= i < p implies #[trigger] out[i] == renamed(list[i], last, e) by {
            if i > 0 {
                assert(out[i] == rest[i - 1]);
                assert(tail[i - 1] == list[i]);
            }
        }
    }
}

/// An adjacency list is no longer than the edge list.
pub proof fn lemma_list_len(edges: Seq<(int, int)>, list: Seq<int>)
    requires
        list.no_duplicates(),
        forall|i: int| 0 <= i < list.len() ==> 0 <= #[trigger] list[i] < edges.len(),
    ensures
        list.len() <= edges.len(),
{
    list.unique_seq_to_set();
    vstd::set_lib::lemma_int_range(0, edges.len() as int);
    assert(list.to_set().subset_of(vstd::set_lib::set_int_range(0, edges.len() as int))) by {
        assert forall|x: int| list.to_set().contains(x) implies vstd::set_lib::set_int_range(
            0,
            edges.len() as int,
        ).contains(x) by {
            let i = choose|i: int| 0 <= i < list.len() && list[i] == x;
            assert(0 <= list[i] < edges.len());
        }
    }
    vstd::set_lib::lemma_len_subset(
        list.to_set(),
        vstd::set_lib::set_int_range(0, edges.len() as int),
    );
}

/// A graph without nodes or edges is consistent.
pub proof fn lemma_empty_consistent()
    ensures
        consistent(Seq::<(int, int)>::empty(), Seq::<(Seq<int>, Seq<int>)>::empty()),
{
}

/// Nodes without edges are consistent.
pub proof fn lemma_bare_consistent(n: nat)
    requires
        n <= u32::MAX,
    ensures
        consistent(Seq::<(int, int)>::empty(), bare_links(n)),
{
}

/// A new node without edges keeps the graph consistent.
pub proof fn lemma_add_node_consistent(edges: Seq<(int, int)>, links: Links)
    requires
        consistent(edges, links),
        links.len() < u32::MAX,
    ensures
        consistent(edges, links.push((Seq::<int>::empty(), Seq::<int>::empty()))),
{
    let after = links.push((Seq::<int>::empty(), Seq::<int>::empty()));
    assert forall|e: int| 0 <= e < edges.len() implies {
        &&& 0 <= (#[trigger] edges[e]).0 < after.len()
        &&& 0 <= edges[e].1 < after.len()
        &&& after[edges[e].0].0.contains(e)
        &&& after[edges[e].1].1.contains(e)
    } by {
        assert(after[edges[e].0] == links[edges[e].0]);
        assert(after[edges[e].1] == links[edges[e].1]);
    }
    assert forall|v: int, i: int| 0 <= v < after.len() && 0 <= i < after[v].0.len() implies {
        let e = #[trigger] after[v].0[i];
        0 <= e < edges.len() && edges[e].0 == v
    } by {
        assert(after[v] == links[v]);
    }
    assert forall|v: int, i: int| 0 <= v < after.len() && 0 <= i < after[v].1.len() implies {
        let e = #[trigger] after[v].1[i];
        0 <= e < edges.len() && edges[e].1 == v
    } by {
        assert(after[v] == links[v]);
    }
}

/// A new edge at the head of its two lists keeps the graph consistent.
pub proof fn lemma_add_edge_consistent(edges: Seq<(int, int)>, links: Links, a: int, b: int)
    requires
        consistent(edges, links),
        0 <= a < links.len(),
        0 <= b < links.len(),
        edges.len() < u32::MAX,
    ensures
        consistent(edges.push((a, b)), link_edge(links, a, b, edges.len() as int)),
{
    let n = edges.len() as int;
    let after_e = edges.push((a, b));
    let after = link_edge(links, a, b, n);
    let with_out = links.update(a, (seq![n] + links[a].0, links[a].1));
    assert(after.len() == links.len());
    assert forall|v: int| 0 <= v < links.len() implies {
        &&& (#[trigger] after[v]).0 == (if v == a {
            seq![n] + links[v].0
        } else {
            links[v].0
        })
        &&& after[v].1 == (if v == b {
            seq![n] + links[v].1
        } else {
            links[v].1
        })
    } by {
        assert(with_out[v].1 == links[v].1);
    }
    assert forall|v: int| 0 <= v < links.len() implies !(#[trigger] links[v]).0.contains(n)
        && !links[v].1.contains(n) by {
        if links[v].0.contains(n) {
            let i = choose|i: int| 0 <= i < links[v].0.len() && links[v].0[i] == n;
            assert(0 <= links[v].0[i] < edges.len());
        }
        if links[v].1.contains(n) {
            let i = choose|i: int| 0 <= i < links[v].1.len() && links[v].1[i] == n;
            assert(0 <= links[v].1[i] < edges.len());
        }
    }
    assert forall|e: int| 0 <= e < after_e.len() implies {
        &&& 0 <= (#[trigger] after_e[e]).0 < after.len()
        &&& 0 <= after_e[e].1 < after.len()
        &&& after[after_e[e].0].0.contains(e)
        &&& after[after_e[e].1].1.contains(e)
    } by {
        if e == n {
            assert(after[a].0[0] == n);
            assert(after[b].1[0] == n);
        } else {
            let s = edges[e].0;
            let t = edges[e].1;
            assert(after_e[e] == edges[e]);
            let i = choose|i: int| 0 <= i < links[s].0.len() && links[s].0[i] == e;
            let j = choose|j: int| 0 <= j < links[t].1.len() && links[t].1[j] == e;
            if s == a {
                assert(after[s].0[i + 1] == e);
            } else {
                assert(after[s].0[i] == e);
            }
            if t == b {
                assert(after[t].1[j + 1] == e);
            } else {
                assert(after[t].1[j] == e);
            }
        }
    }
    assert forall|v: int| 0 <= v < after.len() implies {
        &&& (#[trigger] after[v]).0.no_duplicates()
        &&& after[v].1.no_duplicates()
    } by {
        assert(links[v].0.no_duplicates());
        assert(links[v].1.no_duplicates());
        assert(!links[v].0.contains(n));
        assert(!links[v].1.contains(n));
        lemma_cons_no_duplicates(links[v].0, n);
        lemma_cons_no_duplicates(links[v].1, n);
    }
    assert forall|v: int, i: int| 0 <= v < after.len() && 0 <= i < after[v].0.len() implies {
        let e = #[trigger] after[v].0[i];
        0 <= e < after_e.len() && after_e[e].0 == v
    } by {
        assert(after[v].0 == (if v == a {
            seq![n] + links[v].0
        } else {
            links[v].0
        }));
        if v == a && i > 0 {
            assert(after[v].0[i] == links[v].0[i - 1]);
        } else if v != a {
            assert(after[v].0[i] == links[v].0[i]);
        }
    }
    assert forall|v: int, i: int| 0 <= v < after.len() && 0 <= i < after[v].1.len() implies {
        let e = #[trigger] after[v].1[i];
        0 <= e < after_e.len() && after_e[e].1 == v
    } by {
        assert(after[v].1 == (if v == b {
            seq![n] + links[v].1
        } else {
            links[v].1
        }));
        if v == b && i > 0 {
            assert(after[v].1[i] == links[v].1[i - 1]);
        } else if v != b {
            assert(after[v].1[i] == links[v].1[i]);
        }
    }
}

/// A new first entry that the list does not hold keeps it free of repetitions.
pub proof fn lemma_cons_no_duplicates(list: Seq<int>, x: int)
    requires
        list.no_duplicates(),
        !list.contains(x),
    ensures
        (seq![x] + list).no_duplicates(),
{
    let out = seq![x] + list;
    assert forall|i: int, j: int| 0 <= i < out.len() && 0 <= j < out.len() && i != j implies out[i] != out[j] by {
        if i > 0 {
            assert(out[i] == list[i - 1]);
        }
        if j > 0 {
            assert(out[j] == list[j - 1]);
        }
    }
}

/// Removing an edge keeps the graph consistent.
pub proof fn lemma_remove_edge_consistent(edges: Seq<(int, int)>, links: Links, e: int)
    requires
        consistent(edges, links),
        0 <= e < edges.len(),
    ensures
        consistent(swap_removed(edges, e), unlink_all(links, e, edges.len() - 1)),
{
    let last = edges.len() - 1;
    let after_e = swap_removed(edges, e);
    let after = unlink_all(links, e, last);
    assert forall|k: int| 0 <= k < after_e.len() implies {
        &&& 0 <= (#[trigger] after_e[k]).0 < after.len()
        &&& 0 <= after_e[k].1 < after.len()
        &&& after[after_e[k].0].0.contains(k)
        &&& after[after_e[k].1].1.contains(k)
    } by {
        let y = if k == e {
            last
        } else {
            k
        };
        assert(after_e[k] == edges[y]);
        assert(y != e);
        let s = edges[y].0;
        let t = edges[y].1;
        let i = choose|i: int| 0 <= i < links[s].0.len() && links[s].0[i] == y;
        let j = choose|j: int| 0 <= j < links[t].1.len() && links[t].1[j] == y;
        lemma_unlink_keeps(links[s].0, e, last, i);
        lemma_unlink_keeps(links[t].1, e, last, j);
    }
    assert forall|v: int| 0 <= v < after.len() implies {
        &&& (#[trigger] after[v]).0.no_duplicates()
        &&& after[v].1.no_duplicates()
    } by {
        assert(links[v].0.no_duplicates());
        lemma_unlink_no_duplicates(links[v].0, e, last);
        lemma_unlink_no_duplicates(links[v].1, e, last);
    }
    assert forall|v: int, i: int| 0 <= v < after.len() && 0 <= i < after[v].0.len() implies {
        let x = #[trigger] after[v].0[i];
        0 <= x < after_e.len() && after_e[x].0 == v
    } by {
        lemma_unlink_origin(links[v].0, e, last, i);
        let j = choose|j: int|
            0 <= j < links[v].0.len() && #[trigger] links[v].0[j] != e && unlink(
                links[v].0,
                e,
                last,
            )[i] == renamed(links[v].0[j], last, e);
        let y = links[v].0[j];
        assert(0 <= y < edges.len() && edges[y].0 == v);
    }
    assert forall|v: int, i: int| 0 <= v < after.len() && 0 <= i < after[v].1.len() implies {
        let x = #[trigger] after[v].1[i];
        0 <= x < after_e.len() && after_e[x].1 == v
    } by {
        lemma_unlink_origin(links[v].1, e, last, i);
        let j = choose|j: int|
            0 <= j < links[v].1.len() && #[trigger] links[v].1[j] != e && unlink(
                links[v].1,
                e,
                last,
            )[i] == renamed(links[v].1[j], last, e);
        let y = links[v].1[j];
        assert(0 <= y < edges.len() && edges[y].1 == v);
    }
}

/// Removing a node without edges keeps the graph consistent.
pub proof fn lemma_remove_node_consistent(edges: Seq<(int, int)>, links: Links, a: int)
    requires
        consistent(edges, links),
        0 <= a < links.len(),
        links[a] == (Seq::<int>::empty(), Seq::<int>::empty()),
    ensures
        consistent(renamed_edges(edges, links.len() - 1, a), swap_removed(links, a)),
{
    let last = links.len() - 1;
    let after_e = renamed_edges(edges, last, a);
    let after = swap_removed(links, a);
    assert forall|e: int| 0 <= e < edges.len() implies (#[trigger] edges[e]).0 != a && edges[e].1
        != a by {
        assert(links[edges[e].0].0.contains(e));
        assert(links[edges[e].1].1.contains(e));
    }
    assert forall|v: int| 0 <= v < after.len() implies #[trigger] after[v] == links[renamed(
        v,
        a,
        last,
    )] by {}
    assert forall|e: int| 0 <= e < after_e.len() implies {
        &&& 0 <= (#[trigger] after_e[e]).0 < after.len()
        &&& 0 <= after_e[e].1 < after.len()
        &&& after[after_e[e].0].0.contains(e)
        &&& after[after_e[e].1].1.contains(e)
    } by {
        let s = edges[e].0;
        let t = edges[e].1;
        assert(s != a && t != a);
        assert(after[renamed(s, last, a)] == links[s]);
        assert(after[renamed(t, last, a)] == links[t]);
    }
    assert forall|v: int, i: int| 0 <= v < after.len() && 0 <= i < after[v].0.len() implies {
        let e = #[trigger] after[v].0[i];
        0 <= e < after_e.len() && after_e[e].0 == v
    } by {
        let u = renamed(v, a, last);
        assert(after[v] == links[u]);
        assert(after[v].0[i] == links[u].0[i]);
    }
    assert forall|v: int, i: int| 0 <= v < after.len() && 0 <= i < after[v].1.len() implies {
        let e = #[trigger] after[v].1[i];
        0 <= e < after_e.len() && after_e[e].1 == v
    } by {
        let u = renamed(v, a, last);
        assert(after[v] == links[u]);
        assert(after[v].1[i] == links[u].1[i]);
    }
}

} // verus!
