use library::binary_indexed_tree::BinaryIndexedTree;

#[test]
fn test_binary_indexed_tree_test_001_range() {
    let a = [1u32, 2, 3, 4, 5, 6, 7];

    let bit: BinaryIndexedTree<u32> = BinaryIndexedTree::from(&a);

    assert_eq!(bit.sum(0, 3), 6);
    assert_eq!(bit.sum(1, 5), 14);
    assert_eq!(bit.sum(0, 4), 10);
    assert_eq!(bit.sum(3, 7), 22);
}

#[test]
fn test_002_lower_bound() {
    let a = [1u32, 10, 100, 1000, 10000];
    let bit = BinaryIndexedTree::from(&a);

    assert_eq!(bit.upper_bound(5), 1);
    assert_eq!(bit.upper_bound(0), 0);
    assert_eq!(bit.upper_bound(123), 3);
    assert_eq!(bit.upper_bound(11), 2);
}

#[test]
fn test_binary_indexed_tree_add() {
    let mut bit: BinaryIndexedTree<u32> = BinaryIndexedTree::new(5);
    bit.add(0, 1);
    bit.add(2, 100);
    bit.add(4, 10000);

    assert_eq!(bit.sum(0, 2), 1);
    assert_eq!(bit.sum(0, 3), 101);
    assert_eq!(bit.sum(2, 5), 10100);
    assert_eq!(bit.sum(0, 5), 10101);

    bit.add(1, 10);
    assert_eq!(bit.sum(1, 4), 110);
    assert_eq!(bit.sum(0, 2), 11);
    assert_eq!(bit.prefix_sum(1), 11);
    assert_eq!(bit.prefix_sum(4), 10111);
    assert_eq!(bit.sum(3, 3), 0);
    assert_eq!(bit.size, 5);
}

#[test]
fn test_binary_indexed_tree_against_plain_sums() {
    let a: Vec<u64> = (0..45u64).map(|i| (i * 31 + 7) % 50).collect();
    let mut plain = a.clone();
    let mut bit = BinaryIndexedTree::from(&a);
    for step in 0..45usize {
        let place = (step * 17) % 45;
        bit.add(place, step as u64);
        plain[place] += step as u64;
        for l in [0usize, 1, 7, 22, 44] {
            for r in [l, l + 1, 30.max(l), 45] {
                let expected: u64 = plain[l..r].iter().sum();
                assert_eq!(bit.sum(l, r), expected);
            }
        }
    }
    let total: u64 = plain.iter().sum();
    assert_eq!(bit.upper_bound(total), 45);
    assert_eq!(bit.upper_bound(total - 1), 44);
    let mut prefix = 0u64;
    for j in 0..45usize {
        prefix += plain[j];
        if plain[j] > 0 {
            assert_eq!(bit.upper_bound(prefix - 1), plain[..j].len());
        }
    }
}

#[test]
fn test_binary_indexed_tree_empty() {
    let bit: BinaryIndexedTree<u32> = BinaryIndexedTree::new(0);
    assert_eq!(bit.sum(0, 0), 0);
    assert_eq!(bit.upper_bound(7), 0);
    let bit: BinaryIndexedTree<u8> = BinaryIndexedTree::from(&[]);
    assert_eq!(bit.upper_bound(0), 0);
}
