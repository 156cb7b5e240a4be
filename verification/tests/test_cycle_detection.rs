use library::cycle_detection::cycle_detection;
use library::graph::DirectedAdjGraph;

#[test]
fn test_001_cycle_detection_directed() {
    let graph = DirectedAdjGraph::from_edges_no_weight(5, &[(0, 1), (1, 2), (2, 3), (3, 4)]);
    let has_cycle = cycle_detection(&graph);
    assert_eq!(has_cycle, false);

    let graph =
        DirectedAdjGraph::from_edges_no_weight(5, &[(0, 1), (1, 2), (2, 3), (3, 4), (4, 0)]);
    let has_cycle = cycle_detection(&graph);
    assert_eq!(has_cycle, true);
}

#[test]
fn test_cycle_detection_shapes() {
    let graph = DirectedAdjGraph::from_edges_no_weight(0, &[]);
    assert!(!cycle_detection(&graph));
    let graph = DirectedAdjGraph::from_edges_no_weight(1, &[(0, 0)]);
    assert!(cycle_detection(&graph));
    let graph = DirectedAdjGraph::from_edges_no_weight(4, &[(0, 1), (0, 2), (1, 3), (2, 3)]);
    assert!(!cycle_detection(&graph));
    let graph = DirectedAdjGraph::from_edges_no_weight(4, &[(0, 1), (0, 2), (1, 3), (2, 3)]).to_crs();
    assert!(!cycle_detection(&graph));
    let graph = DirectedAdjGraph::from_edges_no_weight(6, &[(3, 4), (4, 5), (5, 3), (0, 1)]);
    assert!(cycle_detection(&graph));
    let graph = DirectedAdjGraph::from_edges_no_weight(3, &[(0, 1), (1, 0)]);
    assert!(cycle_detection(&graph));
}
