use library::graph::UndirectedAdjGraph;
use library::lowlink::LowLink;

#[test]
fn test_001_lowlink_construct() {
    let graph = UndirectedAdjGraph::from_edges_no_weight(4, &[(0, 1), (1, 2), (2, 0), (2, 3)]);

    let lowlink = LowLink::from(&graph);

    assert_eq!(lowlink.bridges(), &vec![(2, 3)]);
}

#[test]
fn test_lowlink_points_and_bridges() {
    let graph =
        UndirectedAdjGraph::from_edges_no_weight(5, &[(0, 1), (1, 2), (2, 0), (1, 3), (4, 3)]);
    let lowlink = LowLink::from(&graph);

    assert_eq!(lowlink.articulation_points(), [3, 1]);
    assert_eq!(lowlink.bridges(), [(3, 4), (1, 3)]);

    let graph = UndirectedAdjGraph::from_edges_no_weight(3, &[(0, 1), (1, 2), (2, 0)]).to_crs();
    let lowlink = LowLink::from(&graph);
    assert_eq!(lowlink.articulation_points(), []);
    assert_eq!(lowlink.bridges(), []);
}

/// Whether a walk joins `a` and `b` where the vertex `without` and the
/// edges between `cut.0` and `cut.1` are taken away.
fn joined(n: usize, edges: &[(u32, u32)], a: usize, b: usize, without: usize, cut: (usize, usize)) -> bool {
    let mut seen = vec![false; n];
    let mut pending = vec![a];
    seen[a] = true;
    while let Some(x) = pending.pop() {
        for &(s, t) in edges {
            let (s, t) = (s as usize, t as usize);
            if (s, t) == cut || (t, s) == cut || s == without || t == without {
                continue;
            }
            for (from, to) in [(s, t), (t, s)] {
                if from == x && !seen[to] {
                    seen[to] = true;
                    pending.push(to);
                }
            }
        }
    }
    seen[b]
}

fn check_against_search(n: usize, edges: &[(u32, u32)]) {
    let graph = UndirectedAdjGraph::from_edges_no_weight(n as u32, edges);
    let lowlink = LowLink::from(&graph);
    let none = usize::MAX;
    let mut bridges = vec![];
    for a in 0..n {
        for b in a + 1..n {
            let edge = edges
                .iter()
                .any(|&(s, t)| (s as usize, t as usize) == (a, b) || (t as usize, s as usize) == (a, b));
            if edge && !joined(n, edges, a, b, none, (a, b)) {
                bridges.push((a as u32, b as u32));
            }
        }
    }
    let mut points = vec![];
    for v in 0..n {
        let mut cuts = false;
        for a in 0..n {
            for b in 0..n {
                if a != v
                    && b != v
                    && joined(n, edges, a, b, none, (none, none))
                    && !joined(n, edges, a, b, v, (none, none))
                {
                    cuts = true;
                }
            }
        }
        if cuts {
            points.push(v as u32);
        }
    }
    let mut found = lowlink.bridges().to_vec();
    found.sort();
    assert_eq!(found, bridges);
    let mut found = lowlink.articulation_points().to_vec();
    found.sort();
    assert_eq!(found, points);
}

#[test]
fn test_lowlink_finds_what_a_search_finds() {
    check_against_search(1, &[]);
    check_against_search(2, &[(0, 1)]);
    check_against_search(3, &[(0, 1), (1, 2)]);
    check_against_search(4, &[(0, 1), (1, 2), (2, 0), (2, 3)]);
    check_against_search(5, &[(0, 1), (1, 2), (2, 0), (1, 3), (4, 3)]);
    check_against_search(7, &[(0, 1), (1, 2), (2, 3), (3, 1), (3, 4), (4, 5), (5, 6), (6, 4)]);
    check_against_search(8, &[(5, 6), (6, 7), (7, 5), (0, 1), (2, 3), (3, 4), (4, 2), (1, 2)]);
    check_against_search(
        10,
        &[(0, 1), (0, 2), (1, 2), (2, 3), (3, 4), (4, 5), (5, 3), (5, 6), (7, 8), (8, 9), (9, 7), (6, 8)],
    );
    check_against_search(6, &[(3, 0), (3, 1), (3, 2), (3, 4), (3, 5), (0, 1)]);
}

#[test]
fn test_lowlink_star_and_cycle() {
    let graph = UndirectedAdjGraph::from_edges_no_weight(4, &[(0, 1), (0, 2), (0, 3)]);
    let lowlink = LowLink::from(&graph);
    assert_eq!(lowlink.articulation_points(), [0]);
    assert_eq!(lowlink.bridges(), [(0, 1), (0, 2), (0, 3)]);

    let graph = UndirectedAdjGraph::from_edges_no_weight(4, &[(0, 1), (1, 2), (2, 3), (3, 0)]);
    let lowlink = LowLink::from(&graph);
    assert_eq!(lowlink.articulation_points(), []);
    assert_eq!(lowlink.bridges(), []);
}

#[test]
fn test_lowlink_doubled_edge_counts_as_one() {
    let graph = UndirectedAdjGraph::from_edges_no_weight(3, &[(0, 1), (0, 1), (1, 2)]);
    let lowlink = LowLink::from(&graph);
    assert_eq!(lowlink.bridges(), [(1, 2), (0, 1)]);
    assert_eq!(lowlink.articulation_points(), [1]);
}
