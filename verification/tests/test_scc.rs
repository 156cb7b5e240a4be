use library::graph::DirectedAdjGraph;
use library::scc::strongly_connected_components;

#[test]
fn test_scc_components() {
    let graph = DirectedAdjGraph::from_edges_no_weight(
        6,
        &[(0, 1), (1, 0), (1, 2), (2, 3), (3, 4), (4, 2), (4, 5)],
    );
    let scc = strongly_connected_components(&graph);

    assert_eq!(scc[0], scc[1]);
    assert_eq!(scc[2], scc[3]);
    assert_eq!(scc[3], scc[4]);

    assert_ne!(scc[5], scc[0]);
    assert_ne!(scc[5], scc[2]);
    assert_ne!(scc[0], scc[2]);

    assert!(scc[0] < scc[2]);
    assert!(scc[2] < scc[5]);
    assert_eq!(scc, vec![0, 0, 1, 1, 1, 2]);
}

#[test]
fn test_scc_edge_cases() {
    let graph = DirectedAdjGraph::from_edges_no_weight(0, &[]);
    assert_eq!(strongly_connected_components(&graph), vec![]);
    let graph = DirectedAdjGraph::from_edges_no_weight(3, &[]);
    let scc = strongly_connected_components(&graph);
    assert_eq!(scc.len(), 3);
    assert!(scc[0] != scc[1] && scc[1] != scc[2] && scc[0] != scc[2]);
}

/// Whether a walk leads from `a` to `b`, by a search of the edges.
fn walk_leads(n: usize, edges: &[(u32, u32)], a: usize, b: usize) -> bool {
    let mut seen = vec![false; n];
    let mut pending = vec![a];
    seen[a] = true;
    while let Some(x) = pending.pop() {
        for &(u, v) in edges {
            if u as usize == x && !seen[v as usize] {
                seen[v as usize] = true;
                pending.push(v as usize);
            }
        }
    }
    seen[b]
}

#[test]
fn test_scc_numbers_components() {
    let n = 9;
    let edges = [
        (0, 1),
        (1, 2),
        (2, 0),
        (2, 3),
        (3, 4),
        (4, 5),
        (5, 3),
        (6, 5),
        (6, 7),
        (7, 6),
        (8, 8),
        (1, 1),
        (0, 1),
    ];
    let graph = DirectedAdjGraph::from_edges_no_weight(n as u32, &edges);
    let scc = strongly_connected_components(&graph);
    assert_eq!(scc.len(), n);
    for a in 0..n {
        for b in 0..n {
            let together = walk_leads(n, &edges, a, b) && walk_leads(n, &edges, b, a);
            assert_eq!(scc[a] == scc[b], together, "{} {}", a, b);
        }
    }
    for &(u, v) in &edges {
        assert!(scc[u as usize] <= scc[v as usize]);
    }
    let most = *scc.iter().max().unwrap();
    for k in 0..=most {
        assert!(scc.contains(&k));
    }
    assert_eq!(most, 3);
}

#[test]
fn test_scc_chain_is_numbered_along_its_edges() {
    let graph = DirectedAdjGraph::from_edges_no_weight(4, &[(3, 2), (2, 1), (1, 0)]);
    assert_eq!(strongly_connected_components(&graph), vec![3, 2, 1, 0]);
}
