use library::graph::{DirectedAdjGraph, Graph, Tree, UndirectedAdjGraph};

#[test]
fn test_001_directed_graph() {
    let size = 500;
    let mut graph = DirectedAdjGraph::new(size);

    for i in 0..size {
        for j in i + 1..size {
            graph.add_edge(i, j, ());
        }
    }

    for i in 0..size {
        assert_eq!(
            graph.adjacent(i),
            &(i + 1..size).map(|v| (v, ())).collect::<Vec<_>>()
        );
    }

    let graph = graph.to_crs();

    for i in 0..size {
        assert_eq!(
            graph.adjacent(i),
            &(i + 1..size).map(|v| (v, ())).collect::<Vec<_>>()
        );
    }
}

#[test]
fn test_graph_edges() {
    let mut graph = DirectedAdjGraph::new(5);
    graph.add_edge(0, 1, 1u32);
    graph.add_edge(1, 2, 10);
    graph.add_edge(3, 0, 100);
    graph.add_edge(1, 4, 1000);
    assert_eq!(graph.adjacent(0), &vec![(1, 1)]);
    assert_eq!(graph.adjacent(1), &vec![(2, 10), (4, 1000)]);
    assert_eq!(graph.size(), 5);
    assert!(graph.is_directed_edge());

    let graph =
        UndirectedAdjGraph::from_edges_no_weight(6, &[(0, 1), (1, 2), (2, 0), (2, 4), (5, 4)]);
    assert_eq!(graph.adjacent(2), vec![(1, ()), (0, ()), (4, ())]);
    assert!(!graph.is_directed_edge());
    let graph = graph.to_crs();
    assert_eq!(graph.adjacent(4), vec![(2, ()), (5, ())]);
    assert_eq!(graph.adjacent(3), vec![]);
    assert_eq!(graph.size(), 6);

    let graph = UndirectedAdjGraph::from_edges(3, &[(0, 1, 7u64), (1, 1, 9)]);
    assert_eq!(graph.adjacent(1), vec![(0, 7), (1, 9), (1, 9)]);
}

#[test]
fn test_005_bfs() {
    let graph = DirectedAdjGraph::from_edges_no_weight(5, &[(0, 1), (1, 2), (2, 3), (3, 4)]);

    assert_eq!(graph.bfs(0), vec![0, 1, 2, 3, 4]);
}

#[test]
fn test_bfs_unreachable_and_shortcuts() {
    let graph =
        UndirectedAdjGraph::from_edges_no_weight(6, &[(0, 1), (1, 2), (2, 0), (2, 4), (5, 4)]);
    let graph = graph.to_crs();
    let dist = graph.bfs(0);
    assert_eq!(dist, vec![0, 1, 1, u32::MAX, 2, 3]);
    let graph = DirectedAdjGraph::from_edges(4, &[(0, 1, 5u8), (1, 2, 5), (0, 2, 5), (2, 3, 5), (3, 0, 5)]);
    assert_eq!(graph.bfs(1), vec![3, 0, 1, 2]);
}

#[test]
fn test_tree_dist() {
    let graph = UndirectedAdjGraph::from_edges(
        6,
        &[
            (0, 1, 1u32),
            (2, 1, 10),
            (0, 3, 100),
            (4, 2, 1000),
            (2, 5, 10000),
        ],
    );
    assert_eq!(graph.dist(0), vec![0, 1, 11, 100, 1011, 10011]);

    let graph =
        UndirectedAdjGraph::from_edges(5, &[(0, 1, 1u32), (1, 2, 10), (3, 0, 100), (0, 4, 1000)]);
    assert_eq!(graph.dist(1), vec![1, 0, 10, 101, 1001]);
    assert_eq!(graph.to_crs().dist(4), vec![1000, 1001, 1011, 1100, 0]);
}
