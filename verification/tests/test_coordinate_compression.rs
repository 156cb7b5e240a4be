use library::coordinate_compression::{coordinate_compression, CoordinateCompress};

#[test]
fn test_coordinate_compression_searches() {
    let a = [100, 10, 1, 10000u32, 1000, 10, 100, 1000];
    let cc = coordinate_compression(&a);

    assert_eq!(cc.get(0), 1);
    assert_eq!(cc.get(2), 100);
    assert_eq!(cc.len(), 5);
    assert_eq!(cc.length, 5);

    assert_eq!(cc.next(55), Some(100));
    assert_eq!(cc.prev(2000), Some(1000));

    assert_eq!(cc.next(100000), None);
    assert_eq!(cc.prev(0), None);

    assert_eq!(cc.index(10), Some(1));
    assert_eq!(cc.next_index(101), Some(3));
    assert_eq!(cc.prev_index(99), Some(1));

    assert_eq!(cc.min(), 1);
    assert_eq!(cc.max(), 10000);
    assert!(cc.contains(1000));
    assert!(!cc.contains(999));
    assert_eq!(cc.index(999), None);
    assert_eq!(cc.index(0), None);
    assert_eq!(cc.index(20000), None);
    assert_eq!(cc.next(1), Some(1));
    assert_eq!(cc.next(10000), Some(10000));
    assert_eq!(cc.next_index(0), Some(0));
    assert_eq!(cc.next_index(10001), None);
    assert_eq!(cc.prev(10000), Some(10000));
    assert_eq!(cc.prev(99999), Some(10000));
    assert_eq!(cc.prev(1), Some(1));
    assert_eq!(cc.prev_index(0), None);
    assert_eq!(cc.prev_index(1), Some(0));
    assert_eq!(cc.prev_index(10000), Some(4));
    assert_eq!(cc.prev_index(10001), None);
}

#[test]
fn test_coordinate_compression_sorts_and_drops_repeats() {
    let a: Vec<i64> = (0..200i64).map(|i| (i * 7919) % 61 - 30).collect();
    let cc = CoordinateCompress::from(&a);
    let mut expected = a.clone();
    expected.sort();
    expected.dedup();
    assert_eq!(cc.len(), expected.len());
    for i in 0..expected.len() {
        assert_eq!(cc.get(i), expected[i]);
        assert_eq!(cc.index(expected[i]), Some(i));
    }
    let none: [u8; 0] = [];
    let cc = CoordinateCompress::from(&none);
    assert_eq!(cc.len(), 0);
    assert_eq!(cc.next(3), None);
    assert_eq!(cc.prev(3), None);
    assert_eq!(cc.prev_index(3), None);
    assert_eq!(cc.next_index(3), None);
    assert_eq!(cc.index(3), None);
    assert!(!cc.contains(3));
}
