use library::tsp::{first_meetings, spanning_tree, tour_of_distances, tsp_two_approximation, MetricSpace};

struct Line;

impl MetricSpace for Line {
    type P = i64;
    type W = u64;
    fn d(lhs: &i64, rhs: &i64) -> u64 {
        lhs.abs_diff(*rhs)
    }
}

struct Grid;

impl MetricSpace for Grid {
    type P = (i32, i32);
    type W = u32;
    fn d(lhs: &(i32, i32), rhs: &(i32, i32)) -> u32 {
        lhs.0.abs_diff(rhs.0) + lhs.1.abs_diff(rhs.1)
    }
}

fn check_tour(path: &[usize], n: usize) {
    assert_eq!(path.len(), n + 1);
    assert_eq!(path[0], 0);
    assert_eq!(path[n], 0);
    let mut met = vec![false; n];
    for &p in &path[..n] {
        assert!(!met[p]);
        met[p] = true;
    }
}

#[test]
fn test_tsp_line() {
    let points = [0i64, 10, 3, 7, 1];
    let path = tsp_two_approximation::<Line>(&points);
    check_tour(&path, points.len());
    let mut length = 0u64;
    for step in path.windows(2) {
        length += Line::d(&points[step[0]], &points[step[1]]);
    }
    assert!(length <= 2 * 20);
    assert_eq!(tsp_two_approximation::<Line>(&[5]), vec![0, 0]);
}

#[test]
fn test_tsp_grid() {
    let points: Vec<(i32, i32)> = (0..40).map(|i| ((i * 37) % 23, (i * 11) % 17)).collect();
    let path = tsp_two_approximation::<Grid>(&points);
    check_tour(&path, points.len());
}

/// The tour by the lightest pairs first, and of pairs of the same weight
/// the greatest first, with a plain search for the parts.
fn tour_by_sorting(matrix: &[Vec<u32>]) -> Vec<usize> {
    let n = matrix.len();
    let mut part: Vec<usize> = (0..n).collect();
    let mut queue = std::collections::BinaryHeap::new();
    for i in 0..n {
        for j in 0..n {
            queue.push((std::cmp::Reverse(matrix[i][j]), i, j));
        }
    }
    let mut tree = vec![vec![]; n];
    while let Some((_, u, v)) = queue.pop() {
        if part[u] != part[v] {
            let (from, to) = (part[u], part[v]);
            for p in part.iter_mut() {
                if *p == from {
                    *p = to;
                }
            }
            tree[u].push(v);
            tree[v].push(u);
        }
    }
    let mut seen = vec![false; n];
    let mut path = vec![0];
    let mut stack = vec![0];
    seen[0] = true;
    while let Some(u) = stack.pop() {
        for &v in tree[u].iter() {
            if !seen[v] {
                stack.push(v);
                path.push(v);
                seen[v] = true;
            }
        }
    }
    path.push(0);
    path
}

#[test]
fn test_tsp_takes_pairs_of_the_same_distance_in_one_order() {
    for n in [1usize, 2, 3, 7, 25, 40] {
        let points: Vec<(i32, i32)> = (0..n as i32).map(|i| ((i * 37) % 5, (i * 11) % 4)).collect();
        let matrix: Vec<Vec<u32>> = points
            .iter()
            .map(|p| points.iter().map(|q| Grid::d(p, q)).collect())
            .collect();
        assert_eq!(tsp_two_approximation::<Grid>(&points), tour_by_sorting(&matrix));
    }
}

#[test]
fn test_spanning_tree_takes_the_lightest_pairs() {
    let matrix: Vec<Vec<u32>> = vec![
        vec![0, 4, 1, 9],
        vec![4, 0, 2, 7],
        vec![1, 2, 0, 3],
        vec![9, 7, 3, 0],
    ];
    let tree = spanning_tree(&matrix);
    assert_eq!(tree, vec![vec![2], vec![2], vec![0, 1, 3], vec![2]]);
}

#[test]
fn test_spanning_tree_of_equal_distances_takes_the_greatest_pairs_first() {
    let matrix: Vec<Vec<u32>> = vec![vec![1; 3]; 3];
    let tree = spanning_tree(&matrix);
    assert_eq!(tree, vec![vec![2], vec![2], vec![1, 0]]);
    let matrix: Vec<Vec<u32>> = vec![vec![0, 5], vec![3, 0]];
    assert_eq!(spanning_tree(&matrix), vec![vec![1], vec![0]]);
}

#[test]
fn test_first_meetings_walks_from_the_point_that_waited_least() {
    let tree: Vec<Vec<usize>> = vec![vec![1, 2], vec![0, 3], vec![0, 4], vec![1], vec![2]];
    assert_eq!(first_meetings(&tree), vec![0, 1, 2, 4, 3, 0]);
    assert_eq!(first_meetings(&vec![vec![]]), vec![0, 0]);
}

#[test]
fn test_tour_of_distances_matches_the_tour_by_sorting() {
    let mut x: u32 = 7;
    for n in [1usize, 2, 5, 12, 30] {
        let mut matrix = vec![vec![0u32; n]; n];
        for row in matrix.iter_mut() {
            for d in row.iter_mut() {
                x = x.wrapping_mul(1103515245).wrapping_add(12345);
                *d = (x >> 16) % 6;
            }
        }
        assert_eq!(tour_of_distances(&matrix), tour_by_sorting(&matrix));
    }
}
