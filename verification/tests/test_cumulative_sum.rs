use library::cumulative_sum::CumulativeSum;

#[test]
fn test_cumulative_sum_test_001_range() {
    let a: [u32; 5] = [1, 10, 100, 1000, 10000];
    let cs = CumulativeSum::from(&a);

    assert_eq!(cs.sum(0, 1), 1);
    assert_eq!(cs.sum(1, 3), 110);

    assert_eq!(cs.sum(3, 5), 11000);

    assert_eq!(cs.sum(2, 5), 11100);
    assert_eq!(cs.sum(0, 3), 111);
    assert_eq!(cs.sum(0, 5), 11111);
}

#[test]
fn test_cumulative_sum_prefix_and_empty() {
    let a: [u64; 4] = [1, 10, 100, 1000];
    let cs = CumulativeSum::from(&a);
    assert_eq!(cs.prefix_sum(0), 1);
    assert_eq!(cs.prefix_sum(3), 1111);
    assert_eq!(cs.sum(2, 2), 0);
    assert_eq!(cs.sum(1, 4), 1110);
    let none: [u8; 0] = [];
    let cs = CumulativeSum::from(&none);
    assert_eq!(cs.sum(0, 0), 0);
}
