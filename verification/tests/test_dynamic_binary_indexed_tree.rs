use library::dynamic_binary_indexed_tree::DynamicBinaryIndexedTree;

#[test]
fn test_dynamic_binary_indexed_tree_sparse() {
    let mut bit = DynamicBinaryIndexedTree::new(1 << 32);

    bit.add(1 << 30, 1u64);
    bit.add(1 << 15, 10);
    bit.add(1, 100);

    assert_eq!(bit.sum(1 << 15, (1 << 30) + 1), 11);
    assert_eq!(bit.sum(1 << 15, 1 << 30), 10);
    assert_eq!(bit.sum(1, (1 << 15) + 1), 110);
    assert_eq!(bit.sum((1 << 15) + 1, 1 << 30), 0);
    assert_eq!(bit.sum(0, 1 << 32), 111);
    assert_eq!(bit.sum(0, 0), 0);
    assert_eq!(bit.sum(0, 1), 0);
    assert_eq!(bit.size, 1 << 32);
}

#[test]
fn test_dynamic_binary_indexed_tree_dense() {
    let n = 33usize;
    let mut bit: DynamicBinaryIndexedTree<u32> = DynamicBinaryIndexedTree::new(n);
    let mut plain = vec![0u32; n];
    for step in 0..60usize {
        let place = (step * 11) % n;
        bit.add(place, step as u32);
        plain[place] += step as u32;
        for l in [0usize, 1, 8, 32] {
            for r in [l, 16.max(l), 33] {
                let expected: u32 = plain[l..r].iter().sum();
                assert_eq!(bit.sum(l, r), expected);
            }
        }
    }
}
