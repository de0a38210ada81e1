use daggy::{Dag, EdgeId, Element, NodeId, Walker, WouldCycle};
use petgraph::graph::{EdgeIndex, Graph, NodeIndex};
use petgraph::Direction;

/// The same graph twice: as a `Dag`, and as a weighted graph of the storage
/// engine itself.
fn twins() -> (Dag<&'static str, u32>, Graph<&'static str, u32>) {
    let names = ["a", "b", "c", "d", "e", "f"];
    let pairs = [(0, 1), (0, 2), (1, 3), (2, 3), (3, 4), (0, 4), (2, 5), (1, 3), (5, 4)];
    let mut dag = Dag::new();
    let mut graph = Graph::new();
    for name in names.iter() {
        dag.add_node(*name);
        graph.add_node(*name);
    }
    for (i, &(a, b)) in pairs.iter().enumerate() {
        dag.add_edge(NodeId::new(a), NodeId::new(b), i as u32).unwrap();
        graph.add_edge(NodeIndex::new(a), NodeIndex::new(b), i as u32);
    }
    (dag, graph)
}

fn assert_same(dag: &Dag<&'static str, u32>, graph: &Graph<&'static str, u32>) {
    assert_eq!(dag.node_count(), graph.node_count());
    assert_eq!(dag.edge_count(), graph.edge_count());
    for i in 0..graph.node_count() {
        assert_eq!(dag.node_weight(NodeId::new(i)), graph.node_weight(NodeIndex::new(i)));
        let mut out = graph.neighbors_directed(NodeIndex::new(i), Direction::Outgoing).detach();
        let mut children = dag.children(NodeId::new(i));
        loop {
            let expected = out.next(graph).map(|(e, n)| (EdgeId::new(e.index()), NodeId::new(n.index())));
            assert_eq!(children.walk_next(dag), expected);
            if expected.is_none() {
                break;
            }
        }
        let mut inc = graph.neighbors_directed(NodeIndex::new(i), Direction::Incoming).detach();
        let mut parents = dag.parents(NodeId::new(i));
        loop {
            let expected = inc.next(graph).map(|(e, n)| (EdgeId::new(e.index()), NodeId::new(n.index())));
            assert_eq!(parents.walk_next(dag), expected);
            if expected.is_none() {
                break;
            }
        }
    }
    for i in 0..graph.edge_count() {
        assert_eq!(dag.edge_weight(EdgeId::new(i)), graph.edge_weight(EdgeIndex::new(i)));
        let ends = graph
            .edge_endpoints(EdgeIndex::new(i))
            .map(|(s, t)| (NodeId::new(s.index()), NodeId::new(t.index())));
        assert_eq!(dag.edge_endpoints(EdgeId::new(i)), ends);
    }
    assert_eq!(dag.node_weight(NodeId::new(graph.node_count())), None);
    assert_eq!(dag.edge_weight(EdgeId::new(graph.edge_count())), None);
    assert_eq!(dag.edge_endpoints(EdgeId::new(graph.edge_count())), None);
}

#[test]
fn built_like_the_storage_engine() {
    let (dag, graph) = twins();
    assert_same(&dag, &graph);
}

#[test]
fn remove_edge_moves_the_last_edge() {
    let (mut dag, mut graph) = twins();
    for e in [2usize, 0, 6, 3, 0] {
        assert_eq!(dag.remove_edge(EdgeId::new(e)), graph.remove_edge(EdgeIndex::new(e)));
        assert_same(&dag, &graph);
    }
}

#[test]
fn remove_edge_of_stale_index() {
    let (mut dag, graph) = twins();
    assert_eq!(dag.remove_edge(EdgeId::new(9)), None);
    assert_eq!(dag.remove_edge(EdgeId::end()), None);
    assert_same(&dag, &graph);
}

#[test]
fn remove_last_edge_keeps_the_others() {
    let (mut dag, mut graph) = twins();
    assert_eq!(dag.remove_edge(EdgeId::new(8)), Some(8));
    graph.remove_edge(EdgeIndex::new(8));
    assert_same(&dag, &graph);
}

#[test]
fn remove_node_moves_the_last_node() {
    for first in 0..6usize {
        let (mut dag, mut graph) = twins();
        assert_eq!(dag.remove_node(NodeId::new(first)), graph.remove_node(NodeIndex::new(first)));
        assert_same(&dag, &graph);
        for second in 0..5usize {
            let mut dag = dag.clone();
            let mut graph = graph.clone();
            assert_eq!(
                dag.remove_node(NodeId::new(second)),
                graph.remove_node(NodeIndex::new(second))
            );
            assert_same(&dag, &graph);
        }
    }
}

#[test]
fn remove_node_of_stale_index() {
    let (mut dag, graph) = twins();
    assert_eq!(dag.remove_node(NodeId::new(6)), None);
    assert_same(&dag, &graph);
}

#[test]
fn remove_node_takes_its_edges_along() {
    let (mut dag, _) = twins();
    assert_eq!(dag.remove_node(NodeId::new(3)), Some("d"));
    assert_eq!(dag.node_count(), 5);
    // 1->3 (twice), 2->3 and 3->4 are gone
    assert_eq!(dag.edge_count(), 5);
    // node 5 ("f") took index 3
    assert_eq!(dag.node_weight(NodeId::new(3)), Some(&"f"));
    assert!(dag.find_edge(NodeId::new(2), NodeId::new(3)).is_some());
    assert!(dag.find_edge(NodeId::new(3), NodeId::new(4)).is_some());
    assert!(dag.find_edge(NodeId::new(1), NodeId::new(3)).is_none());
}

#[test]
fn clear_and_clear_edges() {
    let (mut dag, mut graph) = twins();
    dag.clear_edges();
    graph.clear_edges();
    assert_same(&dag, &graph);
    assert_eq!(dag.edge_count(), 0);
    assert_eq!(dag.node_count(), 6);
    assert!(dag.add_edge(NodeId::new(4), NodeId::new(0), 1).is_ok());
    dag.clear();
    assert_eq!(dag.node_count(), 0);
    assert_eq!(dag.edge_count(), 0);
    assert_eq!(dag.add_node("x"), NodeId::new(0));
}

#[test]
fn clone_is_a_graph_of_its_own() {
    let (dag, graph) = twins();
    let mut copy = dag.clone();
    assert_same(&copy, &graph);
    copy.remove_node(NodeId::new(0));
    copy.add_node("z");
    assert_same(&dag, &graph);
    assert_eq!(copy.edge_count(), 6);
}

#[test]
fn weights_can_be_changed_in_place() {
    let (mut dag, _) = twins();
    *dag.node_weight_mut(NodeId::new(2)).unwrap() = "C";
    *dag.edge_weight_mut(EdgeId::new(4)).unwrap() += 100;
    assert_eq!(dag[NodeId::new(2)], "C");
    assert_eq!(dag[EdgeId::new(4)], 104);
    dag[NodeId::new(3)] = "D";
    dag[EdgeId::new(0)] += 7;
    assert_eq!(dag.node_weight(NodeId::new(3)), Some(&"D"));
    assert_eq!(dag.edge_weight(EdgeId::new(0)), Some(&7));
    assert_eq!(dag.node_weight(NodeId::new(1)), Some(&"b"));
    assert!(dag.node_weight_mut(NodeId::new(6)).is_none());
    assert!(dag.edge_weight_mut(EdgeId::new(9)).is_none());
}

#[test]
fn all_weights_can_be_changed_in_place() {
    let (mut dag, graph) = twins();
    for weight in dag.edge_weights_mut().iter_mut() {
        *weight *= 2;
    }
    for (i, weight) in dag.node_weights_mut().iter_mut().enumerate() {
        if i % 2 == 0 {
            *weight = "even";
        }
    }
    assert_eq!(dag.node_count(), 6);
    assert_eq!(dag.edge_count(), 9);
    for i in 0..9 {
        assert_eq!(dag[EdgeId::new(i)], 2 * graph[EdgeIndex::new(i)]);
    }
    assert_eq!(dag[NodeId::new(4)], "even");
    assert_eq!(dag[NodeId::new(5)], "f");
}

#[test]
fn node_and_edge_weight_can_be_held_together() {
    let mut dag = Dag::<u32, u32>::new();
    let a = dag.add_node(1);
    let (ab, b) = dag.add_child(a, 10, 2);
    let (ac, _) = dag.add_child(a, 20, 3);
    {
        let (node, edge) = dag.index_twice_mut(b, ab);
        *node += *edge;
        *edge = 0;
    }
    assert_eq!(dag[b], 12);
    assert_eq!(dag[ab], 0);
    assert_eq!(dag[ac], 20);
    assert_eq!(dag[a], 1);
}

#[test]
fn find_edge_and_has_path() {
    let (mut dag, graph) = twins();
    for a in 0..7usize {
        for b in 0..7usize {
            let expected = graph
                .find_edge(NodeIndex::new(a), NodeIndex::new(b))
                .map(|e| EdgeId::new(e.index()));
            assert_eq!(dag.find_edge(NodeId::new(a), NodeId::new(b)), expected);
        }
    }
    assert!(dag.has_path(NodeId::new(0), NodeId::new(4)));
    assert!(dag.has_path(NodeId::new(2), NodeId::new(4)));
    assert!(dag.has_path(NodeId::new(3), NodeId::new(3)));
    assert!(!dag.has_path(NodeId::new(4), NodeId::new(0)));
    assert!(!dag.has_path(NodeId::new(1), NodeId::new(5)));
}

#[test]
fn map_keeps_the_shape() {
    let (dag, _) = twins();
    let mapped = dag.map(|n, w| format!("{}{}", w, n.index()), |e, w| *w as usize + e.index());
    assert_eq!(mapped.node_count(), 6);
    assert_eq!(mapped.edge_count(), 9);
    assert_eq!(mapped.node_weight(NodeId::new(2)).unwrap(), "c2");
    assert_eq!(mapped.edge_weight(EdgeId::new(5)), Some(&10));
    for i in 0..9 {
        assert_eq!(mapped.edge_endpoints(EdgeId::new(i)), dag.edge_endpoints(EdgeId::new(i)));
    }
    let children: Vec<_> = mapped.children(NodeId::new(0)).iter(&mapped).collect();
    assert_eq!(children, dag.children(NodeId::new(0)).iter(&dag).collect());
}

#[test]
fn into_nodes_edges_lists_everything() {
    let (dag, _) = twins();
    let (nodes, edges) = dag.into_nodes_edges();
    assert_eq!(nodes, vec!["a", "b", "c", "d", "e", "f"]);
    assert_eq!(edges.len(), 9);
    assert_eq!(edges[0], (NodeId::new(0), NodeId::new(1), 0));
    assert_eq!(edges[7], (NodeId::new(1), NodeId::new(3), 7));
    assert_eq!(edges[8], (NodeId::new(5), NodeId::new(4), 8));
}

#[test]
fn extend_with_edges_makes_nodes() {
    let mut dag = Dag::<u8, &str>::new();
    dag.add_node(7);
    let extended = dag.extend_with_edges(vec![
        (NodeId::new(0), NodeId::new(3), "0->3"),
        (NodeId::new(3), NodeId::new(1), "3->1"),
        (NodeId::new(5), NodeId::new(0), "5->0"),
    ]);
    assert!(extended.is_ok());
    assert_eq!(dag.node_count(), 6);
    assert_eq!(dag.edge_count(), 3);
    assert_eq!(dag.node_weight(NodeId::new(0)), Some(&7));
    assert_eq!(dag.node_weight(NodeId::new(4)), Some(&0));
    assert_eq!(dag.edge_endpoints(EdgeId::new(2)), Some((NodeId::new(5), NodeId::new(0))));
}

#[test]
fn extend_with_edges_stops_at_the_first_refusal() {
    let mut dag = Dag::<u8, u32>::new();
    let extended = dag.extend_with_edges(vec![
        (NodeId::new(0), NodeId::new(1), 1),
        (NodeId::new(1), NodeId::new(2), 2),
        (NodeId::new(2), NodeId::new(7), 3),
        (NodeId::new(2), NodeId::new(0), 4),
        (NodeId::new(0), NodeId::new(9), 5),
    ]);
    match extended {
        Err(WouldCycle(weight)) => assert_eq!(weight, 4),
        Ok(_) => panic!("the fourth edge closes a cycle"),
    }
    // the edges before it stay, and so do the nodes made for them
    assert_eq!(dag.edge_count(), 3);
    assert_eq!(dag.node_count(), 8);
}

#[test]
fn from_edges_builds_or_refuses() {
    let dag = Dag::<(), u32>::from_edges(vec![
        (NodeId::new(0), NodeId::new(1), 1),
        (NodeId::new(1), NodeId::new(2), 2),
    ])
    .unwrap();
    assert_eq!(dag.node_count(), 3);
    assert_eq!(dag.edge_count(), 2);

    let refused = Dag::<(), u32>::from_edges(vec![
        (NodeId::new(0), NodeId::new(1), 1),
        (NodeId::new(1), NodeId::new(2), 2),
        (NodeId::new(2), NodeId::new(0), 3),
    ]);
    match refused {
        Err(WouldCycle(weight)) => assert_eq!(weight, 3),
        Ok(_) => panic!("the third edge closes a cycle"),
    }
}

#[test]
fn from_elements_builds_or_refuses() {
    let dag = Dag::<&str, u32>::from_elements(vec![
        Element::Node { weight: "a" },
        Element::Node { weight: "b" },
        Element::Edge { source: 0, target: 1, weight: 1 },
        Element::Node { weight: "c" },
        Element::Edge { source: 1, target: 2, weight: 2 },
        Element::Edge { source: 0, target: 1, weight: 3 },
    ])
    .unwrap();
    assert_eq!(dag.node_count(), 3);
    // the second edge from 0 to 1 gave its weight to the first
    assert_eq!(dag.edge_count(), 2);
    assert_eq!(dag.edge_weight(EdgeId::new(0)), Some(&3));
    assert_eq!(dag.edge_weight(EdgeId::new(1)), Some(&2));

    let refused = Dag::<&str, u32>::from_elements(vec![
        Element::Node { weight: "a" },
        Element::Node { weight: "b" },
        Element::Node { weight: "c" },
        Element::Edge { source: 0, target: 1, weight: 1 },
        Element::Edge { source: 1, target: 2, weight: 2 },
        Element::Edge { source: 2, target: 0, weight: 3 },
    ]);
    match refused {
        Err(WouldCycle(weight)) => assert_eq!(weight, 3),
        Ok(_) => panic!("the last edge closes a cycle"),
    }
}

#[test]
fn filter_map_like_the_storage_engine() {
    let (dag, graph) = twins();
    let keep_node = |i: usize, w: &&'static str| if i == 2 || *w == "e" { None } else { Some(*w) };
    let keep_edge = |i: usize, w: &u32| if i == 0 { None } else { Some(*w) };
    let sub = dag.filter_map(|n, w| keep_node(n.index(), w), |e, w| keep_edge(e.index(), w));
    let expected = graph.filter_map(|n, w| keep_node(n.index(), w), |e, w| keep_edge(e.index(), w));
    assert_same(&sub, &expected);
    assert_eq!(sub.node_count(), 4);
    // 1->3 (twice) stay, as edges 0 and 1 between the nodes 1 and 2
    assert_eq!(sub.edge_count(), 2);
    assert_eq!(sub.edge_endpoints(EdgeId::new(0)), Some((NodeId::new(1), NodeId::new(2))));
    assert_eq!(sub.edge_weight(EdgeId::new(1)), Some(&7));

    let all = dag.filter_map(|_, w| Some(*w), |_, w| Some(*w));
    assert_same(&all, &graph);
    let none = dag.filter_map(|_, _| None::<u8>, |_, w| Some(*w));
    assert_eq!(none.node_count(), 0);
    assert_eq!(none.edge_count(), 0);
}

#[test]
fn topology_is_open_to_the_storage_engine() {
    let (dag, graph) = twins();
    assert_eq!(dag.graph().node_count(), 6);
    assert_eq!(dag.graph().edge_count(), 9);
    assert!(!petgraph::algo::is_cyclic_directed(dag.graph()));
    let order = petgraph::algo::toposort(dag.graph(), None).unwrap();
    let expected = petgraph::algo::toposort(&graph, None).unwrap();
    assert_eq!(order, expected);
}

#[test]
fn self_loops_never_reach_the_storage() {
    let (mut dag, graph) = twins();
    // node 0 has no incoming edge, node 4 no outgoing edge
    assert!(dag.add_edge(NodeId::new(0), NodeId::new(0), 50).is_err());
    assert!(dag.add_edge(NodeId::new(4), NodeId::new(4), 51).is_err());
    assert!(dag.update_edge(NodeId::new(4), NodeId::new(4), 52).is_err());
    assert!(dag.add_edges(vec![(NodeId::new(0), NodeId::new(0), 53)]).is_err());
    match dag.extend_with_edges(vec![
        (NodeId::new(1), NodeId::new(5), 60),
        (NodeId::new(7), NodeId::new(7), 61),
        (NodeId::new(0), NodeId::new(5), 62),
    ]) {
        Err(WouldCycle(weight)) => assert_eq!(weight, 61),
        Ok(_) => panic!("the second edge leads from a node to itself"),
    }
    // the first edge stays, and the nodes up to 7 were made
    assert_eq!(dag.edge_count(), graph.edge_count() + 1);
    assert_eq!(dag.node_count(), 8);
    assert!(!petgraph::algo::is_cyclic_directed(dag.graph()));

    let made = Dag::<&str, u32>::from_elements(vec![
        Element::Node { weight: "a" },
        Element::Edge { source: 0, target: 0, weight: 1 },
    ]);
    match made {
        Err(WouldCycle(weight)) => assert_eq!(weight, 1),
        Ok(_) => panic!("the edge leads from a node to itself"),
    }
    let made = Dag::<(), u32>::from_edges(vec![(NodeId::new(2), NodeId::new(2), 3)]);
    match made {
        Err(WouldCycle(weight)) => assert_eq!(weight, 3),
        Ok(_) => panic!("the edge leads from a node to itself"),
    }
}
