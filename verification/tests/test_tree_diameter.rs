use library::graph::UndirectedAdjGraph;
use library::tree_diameter::tree_diameter;

#[test]
fn test_tree_diameter_example() {
    let graph = UndirectedAdjGraph::from_edges(
        6,
        &[
            (0, 1, 1u32),
            (1, 2, 100),
            (1, 3, 10),
            (0, 4, 1000),
            (4, 5, 10000),
        ],
    );
    let diameter = tree_diameter(&graph);

    assert_eq!(diameter.path, [5, 4, 0, 1, 2]);
    assert_eq!(diameter.dist, 11101);
    assert_eq!(diameter.furthest_vertex_pair(), (5, 2));
}

#[test]
fn test_tree_diameter_small() {
    let graph = UndirectedAdjGraph::from_edges(1, &[] as &[(u32, u32, u64)]);
    let diameter = tree_diameter(&graph);
    assert_eq!(diameter.path, [0]);
    assert_eq!(diameter.dist, 0);
    assert_eq!(diameter.furthest_vertex_pair(), (0, 0));

    let graph = UndirectedAdjGraph::from_edges(4, &[(0, 1, 3u64), (1, 2, 4), (1, 3, 5)]).to_crs();
    let diameter = tree_diameter(&graph);
    assert_eq!(diameter.dist, 9);
    assert_eq!(diameter.path, [3, 1, 2]);
}
