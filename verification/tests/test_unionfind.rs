use library::unionfind::UnionFind;

#[test]
fn test_001_size_check() {
    let mut uf = UnionFind::new(5);

    assert_eq!(uf.size(0), 1);

    uf.unite(0, 1);
    assert_eq!(uf.size(0), 2);

    uf.unite(2, 3);
    uf.unite(3, 4);
    uf.unite(0, 4);
    assert_eq!(uf.size(0), 5);
}

#[test]
fn test_unionfind_same() {
    let mut uf = UnionFind::new(3);

    assert_eq!(uf.is_same(0, 0), true);
    assert_eq!(uf.is_same(0, 2), false);
    assert_eq!(uf.size(0), 1);

    uf.unite(0, 2);
    assert_eq!(uf.is_same(0, 2), true);

    assert_eq!(uf.is_same(0, 1), false);
    uf.unite(2, 1);
    assert_eq!(uf.is_same(1, 0), true);

    assert_eq!(uf.size(1), 3);
    uf.unite(1, 0);
    assert_eq!(uf.size(2), 3);
}

#[test]
fn test_unionfind_chains() {
    let n = 64usize;
    let mut uf = UnionFind::new(n);
    for i in 0..n - 2 {
        uf.unite(i, i + 2);
    }
    for i in 0..n {
        for j in 0..n {
            assert_eq!(uf.is_same(i, j), i % 2 == j % 2);
        }
        assert_eq!(uf.size(i), 32);
    }
    uf.unite(0, 63);
    assert_eq!(uf.size(17), 64);
}
