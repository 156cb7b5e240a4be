use library::prime_factorize::prime_factorize;

#[test]
fn test_prime_factorize_small() {
    assert_eq!(prime_factorize(0), vec![(0, 1)]);
    assert_eq!(prime_factorize(1), vec![]);
    assert_eq!(prime_factorize(2), vec![(2, 1)]);
    assert_eq!(prime_factorize(12), vec![(2, 2), (3, 1)]);
    assert_eq!(prime_factorize(97), vec![(97, 1)]);
    assert_eq!(prime_factorize(1024), vec![(2, 10)]);
    assert_eq!(prime_factorize(360), vec![(2, 3), (3, 2), (5, 1)]);
    assert_eq!(prime_factorize(49), vec![(7, 2)]);
}

#[test]
fn test_prime_factorize_large() {
    assert_eq!(prime_factorize(1 << 63), vec![(2, 63)]);
    assert_eq!(
        prime_factorize(u64::MAX),
        vec![(3, 1), (5, 1), (17, 1), (257, 1), (641, 1), (65537, 1), (6700417, 1)]
    );
    assert_eq!(prime_factorize(1_000_003 * 1_000_033), vec![(1_000_003, 1), (1_000_033, 1)]);
    assert_eq!(prime_factorize(999_983 * 999_983), vec![(999_983, 2)]);
}
