use library::binary_trie::MultiBinaryTrie;

#[test]
fn test_binary_trie_set() {
    let mut bt: MultiBinaryTrie<4> = MultiBinaryTrie::new();

    bt.insert(0b0011);
    bt.insert(0b0101);
    assert!(bt.contains(0b0101));
    assert!(!bt.contains(0b1011));

    assert!(bt.remove(0b0101));
    assert!(!bt.contains(0b0101));
    assert!(!bt.remove(0b0101));

    bt.insert(0b1001);
    bt.insert(0b1100);
    bt.insert(0b1011);
    assert_eq!(bt.max().unwrap(), 0b1100);
    assert_eq!(bt.min().unwrap(), 0b0011);
    assert_eq!(bt.kth_elem(0).unwrap(), 0b0011);
    assert_eq!(bt.kth_elem(1).unwrap(), 0b1001);
    assert_eq!(bt.kth_elem(2).unwrap(), 0b1011);
    assert_eq!(bt.kth_elem(3).unwrap(), 0b1100);
    assert_eq!(bt.kth_elem(4), None);
    assert_eq!(bt.lower_bound(0b1010).unwrap(), 0b1011);
    assert_eq!(bt.lower_bound(0b1011).unwrap(), 0b1011);
    assert_eq!(bt.lower_bound(0b1101), None);
    assert_eq!(bt.lower_bound(0), Some(0b0011));
    assert_eq!(bt.upper_bound(0b1100).unwrap(), 0b1100);
    assert_eq!(bt.upper_bound(0b1111).unwrap(), 0b1100);
    assert_eq!(bt.upper_bound(0b1010).unwrap(), 0b1001);
    assert_eq!(bt.upper_bound(0b0010), None);
    assert_eq!(bt.all_count(), 4);
}

#[test]
fn test_binary_trie_multiset() {
    let mut bt: MultiBinaryTrie<4> = MultiBinaryTrie::new();

    bt.insert(0b0001);
    assert!(bt.contains(0b0001));

    bt.insert(0b0001);
    assert_eq!(bt.count(0b0001), 2);
    assert_eq!(bt.all_count(), 2);
    assert_eq!(bt.kth_elem(1), Some(1));

    bt.remove(0b0001);
    assert_eq!(bt.count(0b0001), 1);
    assert_eq!(bt.count(0b0010), 0);
    bt.remove(0b0001);
    assert_eq!(bt.count(0b0001), 0);
    assert_eq!(bt.all_count(), 0);
    assert_eq!(bt.min(), None);
    assert_eq!(bt.max(), None);
    assert_eq!(bt.xor_min(5), None);
    assert_eq!(bt.kth_elem(0), None);
    assert_eq!(bt.lower_bound(0), None);
    assert_eq!(bt.upper_bound(15), None);
}

#[test]
fn test_binary_trie_xor_min() {
    let mut bt: MultiBinaryTrie<8> = MultiBinaryTrie::new();
    let elems = [6u64, 7, 130, 200, 255, 0, 64];
    for e in elems {
        bt.insert(e);
    }
    for x in 0..256u64 {
        let expected = elems.iter().map(|e| e ^ x).min().unwrap();
        assert_eq!(bt.xor_min(x), Some(expected));
    }
    assert_eq!(bt.xor_min(1 << 40), Some(1 << 40));
}

#[test]
fn test_binary_trie_against_sorted_list() {
    let mut bt: MultiBinaryTrie<10> = MultiBinaryTrie::new();
    let mut plain: Vec<u64> = Vec::new();
    for step in 0..300u64 {
        let x = (step * 7919 + 13) % 1024;
        if step % 3 == 2 {
            let had = plain.iter().position(|&e| e == x);
            assert_eq!(bt.remove(x), had.is_some());
            if let Some(i) = had {
                plain.remove(i);
            }
        } else {
            bt.insert(x);
            plain.push(x);
        }
        let mut sorted = plain.clone();
        sorted.sort();
        assert_eq!(bt.all_count() as usize, sorted.len());
        assert_eq!(bt.min(), sorted.first().copied());
        assert_eq!(bt.max(), sorted.last().copied());
        if step % 10 == 0 {
            for k in 0..sorted.len() + 1 {
                assert_eq!(bt.kth_elem(k), sorted.get(k).copied());
            }
            for y in (0..1024u64).step_by(37) {
                assert_eq!(bt.contains(y), sorted.contains(&y));
                assert_eq!(bt.count(y) as usize, sorted.iter().filter(|&&e| e == y).count());
                assert_eq!(bt.lower_bound(y), sorted.iter().copied().find(|&e| e >= y));
                assert_eq!(bt.upper_bound(y), sorted.iter().rev().copied().find(|&e| e <= y));
            }
        }
    }
}

#[test]
fn test_binary_trie_full_width() {
    let mut bt: MultiBinaryTrie<64> = MultiBinaryTrie::new();
    bt.insert(u64::MAX);
    bt.insert(0);
    bt.insert(1 << 63);
    assert_eq!(bt.min(), Some(0));
    assert_eq!(bt.max(), Some(u64::MAX));
    assert_eq!(bt.kth_elem(1), Some(1 << 63));
    assert_eq!(bt.lower_bound(1), Some(1 << 63));
    assert_eq!(bt.upper_bound(u64::MAX - 1), Some(1 << 63));
    assert_eq!(bt.xor_min(u64::MAX), Some(0));
    let mut one: MultiBinaryTrie<1> = MultiBinaryTrie::new();
    one.insert(1);
    assert_eq!(one.min(), Some(1));
    assert!(!one.contains(0));
    assert_eq!(one.lower_bound(0), Some(1));
}
