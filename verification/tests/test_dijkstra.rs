use library::dijkstra::{dijkstras_algorithm, dijkstras_algorithm_restore_path, Dist};
use library::graph::{DirectedAdjGraph, UndirectedAdjGraph};

#[test]
fn test_dijkstra_distances() {
    let graph = DirectedAdjGraph::from_edges(
        5,
        &[(0, 1, 1u16), (1, 2, 10), (2, 4, 100), (3, 0, 1), (3, 1, 2)],
    );

    let res = dijkstras_algorithm(&graph, 0);

    assert_eq!(res.get(0), Dist::VALUE(0));
    assert_eq!(res.get(1), Dist::VALUE(1));
    assert_eq!(res.get(2), Dist::VALUE(11));
    assert_eq!(res.get(3), Dist::UNREACHABLE);
    assert_eq!(res.get(4), Dist::VALUE(111));
}

#[test]
fn test_dijkstra_restore_path() {
    let graph = DirectedAdjGraph::from_edges(
        5,
        &[
            (0, 1, 1u16),
            (1, 2, 10),
            (1, 3, 100),
            (3, 4, 1000),
            (2, 4, 10000),
        ],
    );

    let (dist, path) = dijkstras_algorithm_restore_path(&graph, 0, 4);

    assert_eq!(dist, Dist::VALUE(1101));
    assert_eq!(path, vec![0, 1, 3, 4]);

    let (dist, path) = dijkstras_algorithm_restore_path(&graph, 3, 0);
    assert_eq!(dist, Dist::UNREACHABLE);
    assert_eq!(path, vec![]);

    let (dist, path) = dijkstras_algorithm_restore_path(&graph, 2, 2);
    assert_eq!(dist, Dist::VALUE(0));
    assert_eq!(path, vec![2]);
}

#[test]
fn test_dijkstra_against_all_pairs() {
    let n = 12u32;
    let mut edges: Vec<(u32, u32, u32)> = Vec::new();
    for i in 0..40u32 {
        let u = (i * 7 + 3) % n;
        let v = (i * 5 + 1) % n;
        let w = (i * 13) % 17;
        edges.push((u, v, w));
    }
    let graph = UndirectedAdjGraph::from_edges(n, &edges);
    let inf = u64::MAX / 4;
    let mut best = vec![vec![inf; n as usize]; n as usize];
    for v in 0..n as usize {
        best[v][v] = 0;
    }
    for &(u, v, w) in &edges {
        let (u, v, w) = (u as usize, v as usize, w as u64);
        best[u][v] = best[u][v].min(w);
        best[v][u] = best[v][u].min(w);
    }
    for k in 0..n as usize {
        for i in 0..n as usize {
            for j in 0..n as usize {
                best[i][j] = best[i][j].min(best[i][k] + best[k][j]);
            }
        }
    }
    for s in 0..n {
        let res = dijkstras_algorithm(&graph, s);
        for t in 0..n {
            let expected = best[s as usize][t as usize];
            if expected == inf {
                assert_eq!(res.get(t), Dist::UNREACHABLE);
            } else {
                assert_eq!(res.get(t), Dist::VALUE(expected as u32));
            }
            let (d, path) = dijkstras_algorithm_restore_path(&graph, s, t);
            assert_eq!(d, res.get(t));
            if expected != inf {
                assert_eq!(path[0], s);
                assert_eq!(*path.last().unwrap(), t);
                let mut total = 0u64;
                for step in path.windows(2) {
                    total += best[step[0] as usize][step[1] as usize];
                }
                assert_eq!(total, expected);
            }
        }
    }
}
