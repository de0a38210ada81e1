use daggy::{Dag, EdgeId, NodeId};

fn edges_of(dag: &Dag<(), u32>) -> Vec<(usize, usize, u32)> {
    let mut edges: Vec<_> = (0..dag.edge_count())
        .map(|i| {
            let (s, t) = dag.edge_endpoints(EdgeId::new(i)).unwrap();
            (s.index(), t.index(), *dag.edge_weight(EdgeId::new(i)).unwrap())
        })
        .collect();
    edges.sort();
    edges
}

fn graph(nodes: usize, pairs: &[(usize, usize)]) -> Dag<(), u32> {
    let mut dag = Dag::new();
    for _ in 0..nodes {
        dag.add_node(());
    }
    for (i, &(a, b)) in pairs.iter().enumerate() {
        dag.add_edge(NodeId::new(a), NodeId::new(b), i as u32).unwrap();
    }
    dag
}

#[test]
fn reduce_is_idempotent() {
    let mut dag = graph(
        6,
        &[(0, 1), (0, 2), (0, 3), (1, 2), (2, 3), (1, 3), (3, 4), (0, 4), (2, 4), (4, 5), (1, 5)],
    );
    dag.transitive_reduce(vec![NodeId::new(0)]);
    let once = edges_of(&dag);
    let count = dag.edge_count();
    dag.transitive_reduce(vec![NodeId::new(0)]);
    assert_eq!(dag.edge_count(), count);
    assert_eq!(edges_of(&dag), once);
    assert_eq!(once, vec![(0, 1, 0), (1, 2, 3), (2, 3, 4), (3, 4, 6), (4, 5, 9)]);
}

#[test]
fn reduce_keeps_an_edge_that_is_the_only_way() {
    let mut dag = graph(4, &[(0, 1), (0, 2), (1, 3), (2, 3)]);
    dag.transitive_reduce(vec![NodeId::new(0)]);
    assert_eq!(dag.edge_count(), 4);
    assert_eq!(edges_of(&dag), vec![(0, 1, 0), (0, 2, 1), (1, 3, 2), (2, 3, 3)]);
}

#[test]
fn reduce_keeps_what_reaches_what() {
    let pairs = [(0, 1), (0, 2), (1, 2), (2, 3), (0, 3), (1, 3), (4, 3), (4, 0), (4, 2)];
    let mut dag = graph(5, &pairs);
    let mut before = Vec::new();
    for a in 0..5 {
        for b in 0..5 {
            before.push(dag.has_path(NodeId::new(a), NodeId::new(b)));
        }
    }
    dag.transitive_reduce(vec![NodeId::new(4)]);
    let mut after = Vec::new();
    for a in 0..5 {
        for b in 0..5 {
            after.push(dag.has_path(NodeId::new(a), NodeId::new(b)));
        }
    }
    assert_eq!(before, after);
    assert_eq!(edges_of(&dag), vec![(0, 1, 0), (1, 2, 2), (2, 3, 3), (4, 0, 7)]);
    assert_eq!(dag.node_count(), 5);
}

#[test]
fn reduce_leaves_alone_what_the_roots_do_not_reach() {
    // 0 -> 1 -> 2 and 0 -> 2 are not reached from 3
    let mut dag = graph(6, &[(0, 1), (1, 2), (0, 2), (3, 4), (4, 5), (3, 5)]);
    dag.transitive_reduce(vec![NodeId::new(3)]);
    assert_eq!(edges_of(&dag), vec![(0, 1, 0), (0, 2, 2), (1, 2, 1), (3, 4, 3), (4, 5, 4)]);
    // a root in the middle reduces what lies below it only
    let mut dag = graph(4, &[(0, 1), (1, 2), (0, 2), (1, 3), (2, 3)]);
    dag.transitive_reduce(vec![NodeId::new(1)]);
    assert_eq!(edges_of(&dag), vec![(0, 1, 0), (0, 2, 2), (1, 2, 1), (2, 3, 4)]);
}

#[test]
fn reduce_with_parallel_edges() {
    // both edges 0 -> 2 are gone round by 0 -> 1 -> 2; the two edges 0 -> 1 stay
    let mut dag = graph(3, &[(0, 1), (0, 2), (0, 1), (1, 2), (0, 2)]);
    dag.transitive_reduce(vec![NodeId::new(0)]);
    assert_eq!(edges_of(&dag), vec![(0, 1, 0), (0, 1, 2), (1, 2, 3)]);
}

#[test]
fn reduce_with_odd_roots() {
    let mut dag = graph(3, &[(0, 1), (1, 2), (0, 2)]);
    dag.transitive_reduce(Vec::new());
    assert_eq!(dag.edge_count(), 3);
    dag.transitive_reduce(vec![NodeId::new(17), NodeId::end()]);
    assert_eq!(dag.edge_count(), 3);
    dag.transitive_reduce(vec![NodeId::new(2), NodeId::new(0), NodeId::new(0), NodeId::new(1)]);
    assert_eq!(edges_of(&dag), vec![(0, 1, 0), (1, 2, 1)]);
    let mut empty = Dag::<(), u32>::new();
    empty.transitive_reduce(vec![NodeId::new(0)]);
    assert_eq!(empty.node_count(), 0);
}

/// What reaches what over at least one edge.
fn closure(n: usize, pairs: &[(usize, usize)]) -> Vec<Vec<bool>> {
    let mut reach = vec![vec![false; n]; n];
    for &(a, b) in pairs {
        reach[a][b] = true;
    }
    for k in 0..n {
        for i in 0..n {
            for j in 0..n {
                if reach[i][k] && reach[k][j] {
                    reach[i][j] = true;
                }
            }
        }
    }
    reach
}

#[test]
fn reduce_agrees_with_the_definition() {
    let mut seed: u64 = 0x2545F4914F6CDD1D;
    let mut next = move |bound: u64| {
        seed ^= seed << 13;
        seed ^= seed >> 7;
        seed ^= seed << 17;
        seed % bound
    };
    for round in 0..40 {
        let n = 3 + (round % 9);
        let mut pairs = Vec::new();
        for _ in 0..(n * 2 + round % 5) {
            let a = next(n as u64 - 1) as usize;
            let b = a + 1 + next((n - a - 1) as u64) as usize;
            pairs.push((a, b));
        }
        let roots: Vec<usize> = (0..1 + round % 3).map(|_| next(n as u64) as usize).collect();
        let reach = closure(n, &pairs);
        let from_roots =
            |u: usize| roots.iter().any(|&r| r == u || reach[r][u]);
        let gone_round = |u: usize, v: usize| {
            pairs.iter().any(|&(a, c)| a == u && c != v && reach[c][v])
        };
        let mut expected: Vec<(usize, usize, u32)> = pairs
            .iter()
            .enumerate()
            .filter(|&(_, &(u, v))| !(from_roots(u) && gone_round(u, v)))
            .map(|(i, &(u, v))| (u, v, i as u32))
            .collect();
        expected.sort();

        let mut dag = graph(n, &pairs);
        dag.transitive_reduce(roots.iter().map(|&r| NodeId::new(r)).collect());
        assert_eq!(edges_of(&dag), expected, "round {}", round);
        let count = dag.edge_count();
        dag.transitive_reduce(roots.iter().map(|&r| NodeId::new(r)).collect());
        assert_eq!(dag.edge_count(), count);
    }
}
