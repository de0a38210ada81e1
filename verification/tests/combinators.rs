use daggy::walker::{Chain, Cycle, Filter, Inspect, Peekable, Recursive, Skip, SkipWhile, Take, TakeWhile};
use daggy::{Dag, EdgeId, NodeId, Walker};
use std::cell::RefCell;

/// A parent with children whose weights are 0 to `n - 1`; the walk over the
/// children starts with the one added last.
fn fan(n: i32) -> (Dag<i32, ()>, NodeId) {
    let mut dag = Dag::new();
    let parent = dag.add_node(-1);
    for i in 0..n {
        dag.add_child(parent, (), i);
    }
    (dag, parent)
}

fn weights<W>(walker: W, dag: &Dag<i32, ()>) -> Vec<i32>
where
    W: Walker<Dag<i32, ()>, Item = (EdgeId, NodeId)>,
{
    walker.iter(dag).collect().into_iter().map(|(_, n)| dag[n]).collect()
}

#[test]
fn walkers_are_determined_by_the_graph() {
    let (dag, parent) = fan(5);
    let first = weights(dag.children(parent), &dag);
    let second = weights(dag.children(parent), &dag);
    assert_eq!(first, vec![4, 3, 2, 1, 0]);
    assert_eq!(first, second);
    let child = NodeId::new(3);
    let up: Vec<_> = dag.parents(child).iter(&dag).collect();
    assert_eq!(up, dag.parents(child).iter(&dag).collect());
    assert_eq!(up.len(), 1);
    assert_eq!(up[0].1, parent);
}

#[test]
fn walk_from_a_node_that_does_not_exist_is_empty() {
    let (dag, _) = fan(3);
    assert_eq!(dag.children(NodeId::new(100)).walk_next(&dag), None);
    assert_eq!(dag.parents(NodeId::new(100)).walk_next(&dag), None);
    assert_eq!(dag.children(NodeId::end()).iter(&dag).count(), 0);
}

#[test]
fn exhausted_walker_stays_exhausted() {
    let (dag, parent) = fan(1);
    let mut walker = dag.children(parent);
    assert!(walker.walk_next(&dag).is_some());
    assert!(walker.walk_next(&dag).is_none());
    assert!(walker.walk_next(&dag).is_none());
}

#[test]
fn graph_may_change_between_steps() {
    let (mut dag, parent) = fan(3);
    let mut walker = dag.children(parent);
    let mut seen = Vec::new();
    while let Some((_, n)) = walker.walk_next(&dag) {
        seen.push(dag[n]);
        *dag.node_weight_mut(n).unwrap() += 10;
        dag.add_child(n, (), 0);
    }
    assert_eq!(seen, vec![2, 1, 0]);
    assert_eq!(weights(dag.children(parent), &dag), vec![12, 11, 10]);
}

#[test]
fn take_counts_the_smaller() {
    let (dag, parent) = fan(4);
    for n in 0..7usize {
        let taken = Take::new(dag.children(parent), n).iter(&dag).count();
        let all = dag.children(parent).iter(&dag).count();
        assert_eq!(taken, n.min(all));
    }
    assert_eq!(weights(Take::new(dag.children(parent), 2), &dag), vec![3, 2]);
}

#[test]
fn skip_leaves_out_the_first() {
    let (dag, parent) = fan(4);
    assert_eq!(weights(Skip::new(dag.children(parent), 0), &dag), vec![3, 2, 1, 0]);
    assert_eq!(weights(Skip::new(dag.children(parent), 3), &dag), vec![0]);
    assert_eq!(weights(Skip::new(dag.children(parent), 4), &dag), Vec::<i32>::new());
    assert_eq!(weights(Skip::new(dag.children(parent), 9), &dag), Vec::<i32>::new());
}

#[test]
fn chain_joins_two_walks() {
    let (mut dag, parent) = fan(3);
    let other = dag.add_node(-2);
    dag.add_child(other, (), 7);
    dag.add_child(other, (), 8);
    let joined = weights(Chain::new(dag.children(parent), dag.children(other)), &dag);
    let mut expected = weights(dag.children(parent), &dag);
    expected.extend(weights(dag.children(other), &dag));
    assert_eq!(joined, expected);
    assert_eq!(joined, vec![2, 1, 0, 8, 7]);
    let empty_first = weights(Chain::new(dag.children(NodeId::new(1)), dag.children(other)), &dag);
    assert_eq!(empty_first, vec![8, 7]);
}

#[test]
fn filter_keeps_what_is_accepted_in_order() {
    let (dag, parent) = fan(7);
    let odd = weights(Filter::new(dag.children(parent), |g: &Dag<i32, ()>, &(_, n)| g[n] % 2 == 1), &dag);
    assert_eq!(odd, vec![5, 3, 1]);
    let expected: Vec<i32> =
        weights(dag.children(parent), &dag).into_iter().filter(|w| w % 2 == 1).collect();
    assert_eq!(odd, expected);
    let none = weights(Filter::new(dag.children(parent), |_: &Dag<i32, ()>, _| false), &dag);
    assert!(none.is_empty());
}

#[test]
fn skip_while_and_take_while_split_the_walk() {
    let (dag, parent) = fan(6);
    let head = weights(TakeWhile::new(dag.children(parent), |g: &Dag<i32, ()>, &(_, n)| g[n] != 2), &dag);
    let tail = weights(SkipWhile::new(dag.children(parent), |g: &Dag<i32, ()>, &(_, n)| g[n] != 2), &dag);
    assert_eq!(head, vec![5, 4, 3]);
    assert_eq!(tail, vec![2, 1, 0]);
    // once a step was refused, later accepted steps are not taken
    let mut walker = TakeWhile::new(dag.children(parent), |g: &Dag<i32, ()>, &(_, n)| g[n] % 2 == 1);
    assert!(walker.walk_next(&dag).is_some());
    assert!(walker.walk_next(&dag).is_none());
    assert!(walker.walk_next(&dag).is_none());
    // once a step was let through, later accepted steps are yielded too
    let all = weights(SkipWhile::new(dag.children(parent), |g: &Dag<i32, ()>, &(_, n)| g[n] % 2 == 1), &dag);
    assert_eq!(all, vec![4, 3, 2, 1, 0]);
}

#[test]
fn peek_does_not_advance() {
    let (dag, parent) = fan(2);
    let mut walker = Peekable::new(dag.children(parent));
    let first = walker.peek(&dag).copied();
    let second = walker.peek(&dag).copied();
    assert_eq!(first, second);
    assert_eq!(first.map(|(_, n)| dag[n]), Some(1));
    assert_eq!(walker.walk_next(&dag), first);
    assert_eq!(walker.walk_next(&dag).map(|(_, n)| dag[n]), Some(0));
    assert_eq!(walker.peek(&dag), None);
    assert_eq!(walker.peek(&dag), None);
    assert_eq!(walker.walk_next(&dag), None);
}

#[test]
fn inspect_sees_every_step_and_changes_none() {
    let (dag, parent) = fan(3);
    let seen = RefCell::new(Vec::new());
    let walked = weights(
        Inspect::new(dag.children(parent), |g: &Dag<i32, ()>, &(_, n): &(EdgeId, NodeId)| {
            seen.borrow_mut().push(g[n])
        }),
        &dag,
    );
    assert_eq!(walked, vec![2, 1, 0]);
    assert_eq!(*seen.borrow(), vec![2, 1, 0]);
}

fn first_parent(g: &Dag<i32, ()>, n: NodeId) -> Option<(EdgeId, NodeId)> {
    g.parents(n).walk_next(g)
}

#[test]
fn recursive_follows_the_function() {
    let mut dag = Dag::<i32, ()>::new();
    let top = dag.add_node(0);
    let (_, mid) = dag.add_child(top, (), 1);
    let (_, low) = dag.add_child(mid, (), 2);
    let mut up = Recursive::new(low, first_parent);
    assert_eq!(up.next(&dag).map(|(_, n)| n), Some(mid));
    assert_eq!(up.walk_next(&dag).map(|(_, n)| n), Some(top));
    assert_eq!(up.walk_next(&dag), None);
    let mut again = dag.recursive_walk(low, first_parent);
    assert_eq!(again.walk_next(&dag).map(|(_, n)| n), Some(mid));
}

#[test]
fn recursive_walk_can_be_filtered_and_counted() {
    let mut dag = Dag::<i32, ()>::new();
    let top = dag.add_node(0);
    let (_, mid) = dag.add_child(top, (), 1);
    let (_, low) = dag.add_child(mid, (), 2);
    assert_eq!(Recursive::new(low, first_parent).iter(&dag).count(), 2);
    let even = Filter::new(Recursive::new(low, first_parent), |g: &Dag<i32, ()>, &(_, n)| {
        g[n] % 2 == 0
    });
    let nodes: Vec<_> = even.iter(&dag).collect().into_iter().map(|(_, n)| n).collect();
    assert_eq!(nodes, vec![top]);
}

#[test]
fn cycle_starts_over() {
    let mut dag = Dag::<i32, ()>::new();
    let top = dag.add_node(0);
    let (_, mid) = dag.add_child(top, (), 1);
    let (_, low) = dag.add_child(mid, (), 2);
    let round = Cycle::new(Recursive::new(low, first_parent));
    let nodes: Vec<_> =
        Take::new(round, 5).iter(&dag).collect().into_iter().map(|(_, n)| n).collect();
    assert_eq!(nodes, vec![mid, top, mid, top, mid]);
    // a walk over nothing does not spin
    let mut empty = Cycle::new(Recursive::new(top, first_parent));
    assert_eq!(empty.walk_next(&dag), None);
    assert_eq!(empty.walk_next(&dag), None);
}

#[test]
fn combinators_can_be_cloned() {
    let mut dag = Dag::<i32, ()>::new();
    let top = dag.add_node(0);
    let (_, mid) = dag.add_child(top, (), 1);
    let (_, low) = dag.add_child(mid, (), 2);
    let mut first = Take::new(Skip::new(Recursive::new(low, first_parent), 1), 3);
    let mut second = first.clone();
    assert_eq!(first.walk_next(&dag).map(|(_, n)| n), Some(top));
    assert_eq!(second.walk_next(&dag).map(|(_, n)| n), Some(top));
    assert_eq!(second.walk_next(&dag), None);
}

#[test]
fn peekable_can_be_cloned() {
    let mut dag = Dag::<i32, ()>::new();
    let top = dag.add_node(0);
    let (_, mid) = dag.add_child(top, (), 1);
    let (_, low) = dag.add_child(mid, (), 2);
    let mut first = Peekable::new(Recursive::new(low, first_parent));
    assert_eq!(first.peek(&dag).map(|&(_, n)| n), Some(mid));
    let mut second = first.clone();
    assert_eq!(first.walk_next(&dag).map(|(_, n)| n), Some(mid));
    assert_eq!(first.walk_next(&dag).map(|(_, n)| n), Some(top));
    assert_eq!(second.peek(&dag).map(|&(_, n)| n), Some(mid));
    assert_eq!(second.walk_next(&dag).map(|(_, n)| n), Some(mid));
}

#[test]
fn iteration_ends() {
    let (dag, parent) = fan(3);
    let mut it = dag.children(parent).iter(&dag);
    assert_eq!(it.nth(1).map(|(_, n)| dag[n]), Some(1));
    assert_eq!(it.next().map(|(_, n)| dag[n]), Some(0));
    assert_eq!(it.next(), None);
    assert_eq!(dag.children(parent).iter(&dag).last().map(|(_, n)| dag[n]), Some(0));
    assert_eq!(dag.children(NodeId::new(1)).iter(&dag).last(), None);
    assert_eq!(dag.children(parent).iter(&dag).fold(100, |acc, (_, n)| acc - dag[n]), 97);
    assert_eq!(dag.children(parent).iter(&dag).find(|&(_, n)| dag[n] < 2).map(|(_, n)| dag[n]), Some(1));
    assert!(dag.children(parent).iter(&dag).any(|(_, n)| dag[n] == 0));
    assert!(!dag.children(parent).iter(&dag).all(|(_, n)| dag[n] > 0));
}
