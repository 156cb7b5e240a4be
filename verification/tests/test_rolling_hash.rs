use library::rolling_hash::RollingHash;

const MOD: u128 = (1 << 61) - 1;

fn plain(s: &[char], base: u128, str_base: u32) -> u64 {
    let mut h: u128 = 0;
    for &c in s {
        h = (h * base + (c as u32 + 1 - str_base) as u128) % MOD;
    }
    h as u64
}

#[test]
fn test_rolling_hash_mississippi() {
    let s = "mississippi".chars().collect::<Vec<_>>();
    let rh: RollingHash<{ 'a' as u32 }, 100> = RollingHash::from(&s);

    assert_eq!(rh.hash(1, 5), rh.hash(4, 8));
    assert_ne!(rh.hash(8, 11), rh.hash(0, 3));
    assert_eq!(rh.hash(0, 11), rh.hash(0, 11));
    assert_eq!(rh.hash(3, 3), 0);
    assert_eq!(rh.hash(0, 1), 13);
    assert_eq!(rh.hash(0, 2), 1309);
}

#[test]
fn test_rolling_hash_matches_polynomial() {
    let s: Vec<char> = "the quick brown fox jumps over the lazy dog, again and again"
        .chars()
        .collect();
    let rh: RollingHash<32, 1_000_000_007> = RollingHash::from(&s);
    for l in 0..=s.len() {
        for r in l..=s.len() {
            assert_eq!(rh.hash(l, r), plain(&s[l..r], 1_000_000_007, 32));
        }
    }
    let big: RollingHash<0, { (1 << 61) - 2 }> = RollingHash::from(&s);
    for l in (0..s.len()).step_by(7) {
        for r in (l..=s.len()).step_by(5) {
            assert_eq!(big.hash(l, r), plain(&s[l..r], (1 << 61) - 2, 0));
        }
    }
    let wide: Vec<char> = vec!['\u{10ffff}'; 40];
    let rh: RollingHash<0, { (1 << 61) - 2 }> = RollingHash::from(&wide);
    assert_eq!(rh.hash(0, 40), plain(&wide, (1 << 61) - 2, 0));
    assert_eq!(rh.hash(3, 20), rh.hash(20, 37));
}
