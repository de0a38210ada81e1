use daggy::{Dag, EdgeId, NodeId, Walker, WouldCycle};

fn path_of(n: usize) -> Dag<usize, usize> {
    let mut dag = Dag::new();
    for i in 0..n {
        dag.add_node(i);
    }
    for i in 1..n {
        dag.add_edge(NodeId::new(i - 1), NodeId::new(i), i).unwrap();
    }
    dag
}

#[test]
fn new_graph_is_empty() {
    let dag = Dag::<u8, u8>::new();
    assert_eq!(dag.node_count(), 0);
    assert_eq!(dag.edge_count(), 0);
    let dag = Dag::<u8, u8>::with_capacity(16, 32);
    assert_eq!(dag.node_count(), 0);
    assert_eq!(dag.edge_count(), 0);
    let dag = Dag::<u8, u8>::default();
    assert_eq!(dag.node_count(), 0);
}

#[test]
fn add_node_returns_consecutive_indices() {
    let mut dag = Dag::<&str, ()>::new();
    assert_eq!(dag.add_node("a"), NodeId::new(0));
    assert_eq!(dag.add_node("b"), NodeId::new(1));
    assert_eq!(dag.add_node("c").index(), 2);
    assert_eq!(dag.node_count(), 3);
    assert_eq!(dag.node_weight(NodeId::new(1)), Some(&"b"));
}

#[test]
fn add_edge_returns_consecutive_indices() {
    let mut dag = Dag::<(), u8>::new();
    let a = dag.add_node(());
    let b = dag.add_node(());
    let c = dag.add_node(());
    assert_eq!(dag.add_edge(a, b, 7).unwrap(), EdgeId::new(0));
    assert_eq!(dag.add_edge(b, c, 8).unwrap(), EdgeId::new(1));
    assert_eq!(dag.edge_count(), 2);
    assert_eq!(dag.edge_endpoints(EdgeId::new(1)), Some((b, c)));
    assert_eq!(dag.edge_weight(EdgeId::new(0)), Some(&7));
}

#[test]
fn rejected_edge_hands_back_its_weight_and_changes_nothing() {
    let mut dag = path_of(4);
    let before = dag.edge_count();
    match dag.add_edge(NodeId::new(3), NodeId::new(0), 99) {
        Err(WouldCycle(weight)) => assert_eq!(weight, 99),
        Ok(_) => panic!("the edge closes a cycle"),
    }
    assert_eq!(dag.edge_count(), before);
    assert_eq!(dag.find_edge(NodeId::new(3), NodeId::new(0)), None);
    // the graph still takes edges that close no cycle
    assert!(dag.add_edge(NodeId::new(0), NodeId::new(3), 1).is_ok());
}

#[test]
fn edge_between_inner_nodes_is_searched() {
    let mut dag = path_of(5);
    // 1 has a parent and 3 has a child: the search runs and finds no way back
    assert!(dag.add_edge(NodeId::new(1), NodeId::new(3), 0).is_ok());
    // 3 has a parent and 1 has a child: the search finds 1 -> 2 -> 3
    assert!(dag.add_edge(NodeId::new(3), NodeId::new(1), 0).is_err());
}

#[test]
fn parallel_edges_are_kept() {
    let mut dag = path_of(3);
    let first = dag.find_edge(NodeId::new(0), NodeId::new(1)).unwrap();
    let second = dag.add_edge(NodeId::new(0), NodeId::new(1), 50).unwrap();
    assert!(first != second);
    assert_eq!(dag.edge_count(), 3);
    // the edge added last is found first
    assert_eq!(dag.find_edge(NodeId::new(0), NodeId::new(1)), Some(second));
}

#[test]
fn fast_path_agrees_with_the_search() {
    // wherever the shortcut applies between two nodes, no way leads back
    let mut dag = path_of(4);
    let leaf = dag.add_node(9);
    let root = dag.add_node(10);
    let pairs = [
        (NodeId::new(0), NodeId::new(2)), // source without parents
        (NodeId::new(1), NodeId::new(3)), // target without children
        (NodeId::new(1), NodeId::new(2)), // edge exists
        (NodeId::new(2), leaf),
        (root, NodeId::new(1)),
    ];
    for &(a, b) in pairs.iter() {
        assert!(!dag.has_path(b, a));
        assert!(dag.add_edge(a, b, 0).is_ok());
    }
}

#[test]
fn self_loop_is_refused_where_the_search_runs() {
    let mut dag = path_of(3);
    let before = dag.edge_count();
    // node 1 has a parent and a child
    assert!(dag.add_edge(NodeId::new(1), NodeId::new(1), 0).is_err());
    assert_eq!(dag.edge_count(), before);
}

#[test]
fn self_loop_on_a_bare_node_is_rejected() {
    let mut dag = Dag::<(), u32>::new();
    let n0 = dag.add_node(());
    match dag.add_edge(n0, n0, 5) {
        Err(WouldCycle(weight)) => assert_eq!(weight, 5),
        Ok(_) => panic!("an edge from a node to itself is a cycle"),
    }
    assert_eq!(dag.edge_count(), 0);
    assert_eq!(dag.find_edge(n0, n0), None);
}

#[test]
fn self_loop_is_rejected_wherever_it_stands() {
    // on a node without incoming edge, on one without outgoing edge, on an
    // inner node, and on a node without edges
    let mut dag = path_of(3);
    let bare = dag.add_node(9);
    for n in [NodeId::new(0), NodeId::new(2), NodeId::new(1), bare] {
        assert!(dag.add_edge(n, n, 0).is_err());
        match dag.update_edge(n, n, 7) {
            Err(WouldCycle(weight)) => assert_eq!(weight, 7),
            Ok(_) => panic!("an edge from a node to itself is a cycle"),
        }
        assert_eq!(dag.edge_count(), 2);
        assert_eq!(dag.find_edge(n, n), None);
    }
}

#[test]
fn batch_with_a_self_loop_is_rejected() {
    let mut dag = path_of(3);
    let bare = dag.add_node(9);
    let rejected = dag.add_edges(vec![
        (NodeId::new(0), NodeId::new(2), 10),
        (bare, bare, 11),
        (NodeId::new(2), bare, 12),
    ]);
    match rejected {
        Err(WouldCycle(weights)) => assert_eq!(weights, vec![12, 11, 10]),
        Ok(_) => panic!("the batch holds an edge from a node to itself"),
    }
    assert_eq!(dag.edge_count(), 2);
    // a batch of the self-loop alone, on a node without incoming edge
    match dag.add_edges(vec![(NodeId::new(0), NodeId::new(0), 13)]) {
        Err(WouldCycle(weights)) => assert_eq!(weights, vec![13]),
        Ok(_) => panic!("the batch holds an edge from a node to itself"),
    }
    assert_eq!(dag.edge_count(), 2);
    assert!(!petgraph::algo::is_cyclic_directed(dag.graph()));
}

#[test]
fn update_edge_overwrites_or_adds() {
    let mut dag = path_of(3);
    let e = dag.find_edge(NodeId::new(0), NodeId::new(1)).unwrap();
    assert_eq!(dag.update_edge(NodeId::new(0), NodeId::new(1), 77).unwrap(), e);
    assert_eq!(dag.edge_count(), 2);
    assert_eq!(dag.edge_weight(e), Some(&77));

    let added = dag.update_edge(NodeId::new(0), NodeId::new(2), 5).unwrap();
    assert_eq!(added, EdgeId::new(2));
    assert_eq!(dag.edge_count(), 3);
    assert_eq!(dag.edge_weight(added), Some(&5));

    match dag.update_edge(NodeId::new(2), NodeId::new(0), 6) {
        Err(WouldCycle(weight)) => assert_eq!(weight, 6),
        Ok(_) => panic!("the edge closes a cycle"),
    }
    assert_eq!(dag.edge_count(), 3);
}

#[test]
fn add_child_and_add_parent_return_the_new_indices() {
    let mut dag = Dag::<&str, &str>::new();
    let a = dag.add_node("a");
    let (ab, b) = dag.add_child(a, "a->b", "b");
    let (ca, c) = dag.add_parent(a, "c->a", "c");
    assert_eq!((ab, b), (EdgeId::new(0), NodeId::new(1)));
    assert_eq!((ca, c), (EdgeId::new(1), NodeId::new(2)));
    assert_eq!(dag.edge_endpoints(ab), Some((a, b)));
    assert_eq!(dag.edge_endpoints(ca), Some((c, a)));
    assert_eq!(dag.node_weight(c), Some(&"c"));
    assert_eq!(dag.edge_weight(ca), Some(&"c->a"));
    assert!(dag.has_path(c, b));
    assert!(!dag.has_path(b, c));
}

#[test]
fn add_edges_counts() {
    let mut dag = path_of(4);
    let before = dag.edge_count();
    let ok = dag.add_edges(vec![
        (NodeId::new(0), NodeId::new(2), 10),
        (NodeId::new(1), NodeId::new(3), 11),
    ]);
    assert!(ok.is_ok());
    assert_eq!(dag.edge_count(), before + 2);

    let before = dag.edge_count();
    let rejected = dag.add_edges(vec![
        (NodeId::new(0), NodeId::new(3), 20),
        (NodeId::new(3), NodeId::new(1), 21),
        (NodeId::new(0), NodeId::new(1), 22),
    ]);
    match rejected {
        Err(WouldCycle(weights)) => assert_eq!(weights, vec![22, 21, 20]),
        Ok(_) => panic!("the batch closes a cycle"),
    }
    assert_eq!(dag.edge_count(), before);
    // what was there before is still there, under the same indices
    assert_eq!(dag.edge_endpoints(EdgeId::new(3)), Some((NodeId::new(0), NodeId::new(2))));
    assert_eq!(dag.edge_weight(EdgeId::new(4)), Some(&11));
    assert_eq!(dag.find_edge(NodeId::new(0), NodeId::new(3)), None);
}

#[test]
fn add_edges_leaves_walking_order_as_it_was_after_a_rejection() {
    let mut dag = path_of(3);
    dag.add_edge(NodeId::new(0), NodeId::new(2), 9).unwrap();
    let before: Vec<_> = dag.children(NodeId::new(0)).iter(&dag).collect();
    assert!(dag
        .add_edges(vec![(NodeId::new(0), NodeId::new(1), 1), (NodeId::new(2), NodeId::new(0), 2)])
        .is_err());
    let after: Vec<_> = dag.children(NodeId::new(0)).iter(&dag).collect();
    assert_eq!(before, after);
}

#[test]
fn add_edges_of_empty_batch() {
    let mut dag = path_of(3);
    let mut indices = dag.add_edges(Vec::new()).unwrap();
    assert_eq!(indices.next(), None);
    assert_eq!(dag.edge_count(), 2);
}

#[test]
fn add_edges_many() {
    let pairs = [
        (1, 4),
        (3, 4),
        (2, 5),
        (3, 5),
        (2, 8),
        (1, 9),
        (1, 8),
        (1, 3),
        (2, 7),
        (1, 7),
        (0, 6),
        (1, 2),
        (0, 7),
        (1, 6),
        (2, 4),
        (0, 1),
        (0, 9),
        (2, 9),
        (2, 6),
        (0, 4),
        (2, 3),
        (0, 2),
        (0, 3),
        (0, 5),
        (0, 8),
        (1, 5),
    ];
    let mut dag = Dag::<(), usize>::with_capacity(10, pairs.len());
    for _ in 0..10 {
        dag.add_node(());
    }
    let batch: Vec<_> = pairs
        .iter()
        .enumerate()
        .map(|(i, &(a, b))| (NodeId::new(a), NodeId::new(b), i))
        .collect();
    let mut indices = dag.add_edges(batch).unwrap();
    for (i, &(a, b)) in pairs.iter().enumerate() {
        let e = indices.next().unwrap();
        assert_eq!(e, EdgeId::new(i));
        assert_eq!(dag.edge_endpoints(e), Some((NodeId::new(a), NodeId::new(b))));
        assert_eq!(dag.edge_weight(e), Some(&i));
    }
    assert_eq!(indices.next(), None);
    assert_eq!(indices.next(), None);
    assert_eq!(dag.edge_count(), 26);
}

#[test]
fn would_cycle_describes_itself() {
    let error = WouldCycle(3u8);
    assert_eq!(error.description(), "Adding this edge would have created a cycle");
    let copy = error;
    assert_eq!(copy.0, error.0);
    assert!(format!("{:?}", error).starts_with("WouldCycle"));
}

#[test]
fn node_id_keeps_the_low_32_bits() {
    assert_eq!(NodeId::new(5).index(), 5);
    assert_eq!(EdgeId::new(7).index(), 7);
    assert_eq!(NodeId::end().index(), u32::MAX as usize);
    assert_eq!(EdgeId::end().index(), u32::MAX as usize);
    assert_eq!(NodeId::new(u32::MAX as usize), NodeId::end());
    assert!(NodeId::new(1) < NodeId::new(2));
}
