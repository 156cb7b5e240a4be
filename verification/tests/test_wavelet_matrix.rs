use library::bit_vector::BitVector;
use library::wavelet_matrix::{accepts, WaveletMatrix};

const KEYS: [u64; 6] = [3, 1, 4, 1, 5, 9];

fn weighted_items() -> Vec<(u64, u32)> {
    vec![
        (9, 1),
        (9, 10),
        (8, 100),
        (2, 1_000),
        (4, 10_000),
        (4, 100_000),
        (3, 1_000_000),
        (5, 10_000_000),
        (3, 100_000_000),
    ]
}

#[test]
fn test_wavelet_access_example() {
    let wm: WaveletMatrix<()> = WaveletMatrix::from(&KEYS, 4);
    assert_eq!(wm.access(2), 4);
    assert_eq!(wm.access(4), 5);
}

#[test]
fn test_wavelet_access_round_trip() {
    let wm: WaveletMatrix<()> = WaveletMatrix::from(&KEYS, 4);
    for i in 0..KEYS.len() {
        assert_eq!(wm.access(i), KEYS[i]);
    }
}

#[test]
fn test_wavelet_quantile_example() {
    let wm: WaveletMatrix<()> = WaveletMatrix::from(&KEYS, 4);
    assert_eq!(wm.quantile(2, 5, 0), 1);
    assert_eq!(wm.quantile(2, 5, 1), 4);
    assert_eq!(wm.quantile(2, 5, 2), 5);
}

#[test]
fn test_wavelet_quantile_is_sorted_order() {
    let wm: WaveletMatrix<()> = WaveletMatrix::from(&KEYS, 4);
    for l in 0..KEYS.len() {
        for r in l + 1..=KEYS.len() {
            let mut sorted = KEYS[l..r].to_vec();
            sorted.sort();
            for k in 0..r - l {
                assert_eq!(wm.quantile(l, r, k), sorted[k]);
            }
        }
    }
}

#[test]
fn test_wavelet_quantile_monotone_in_k() {
    let wm: WaveletMatrix<()> = WaveletMatrix::from(&KEYS, 4);
    let mut last = 0;
    for k in 0..KEYS.len() {
        let q = wm.quantile(0, KEYS.len(), k);
        assert!(last <= q);
        last = q;
    }
    assert_eq!(last, 9);
}

#[test]
fn test_wavelet_range_freq_example() {
    let wm: WaveletMatrix<()> = WaveletMatrix::from(&KEYS, 4);
    assert_eq!(wm.range_freq(0, 4, 2), 2);
    assert_eq!(wm.range_freq(2, 6, 5), 2);
}

#[test]
fn test_wavelet_range_freq_counts() {
    let wm: WaveletMatrix<()> = WaveletMatrix::from(&KEYS, 4);
    for l in 0..=KEYS.len() {
        for r in l..=KEYS.len() {
            let mut last = 0;
            for upper in 0..20u64 {
                let expected = KEYS[l..r].iter().filter(|&&x| x < upper).count() as u64;
                let got = wm.range_freq(l, r, upper);
                assert_eq!(got, expected);
                assert!(last <= got);
                last = got;
            }
        }
    }
}

#[test]
fn test_wavelet_range_freq_bound_beyond_the_bits() {
    let wm: WaveletMatrix<()> = WaveletMatrix::from(&KEYS, 4);
    assert_eq!(wm.range_freq(0, 6, 16), 6);
    assert_eq!(wm.range_freq(1, 4, 17), 3);
    assert_eq!(wm.range_freq(0, 6, u64::MAX), 6);
}

#[test]
fn test_wavelet_range_sum_example() {
    let wm = WaveletMatrix::from_weighted(&weighted_items(), 4);
    assert_eq!(wm.range_sum(1, 5, 9), 11_100);
    assert_eq!(wm.range_sum(2, 7, 4), 1_001_000);
}

#[test]
fn test_wavelet_range_sum_matches_filter() {
    let items = weighted_items();
    let wm = WaveletMatrix::from_weighted(&items, 4);
    for l in 0..=items.len() {
        for r in l..=items.len() {
            for upper in 0..18u64 {
                let expected: u32 =
                    items[l..r].iter().filter(|p| p.0 < upper).map(|p| p.1).sum();
                assert_eq!(wm.range_sum(l, r, upper), expected);
            }
        }
    }
}

#[test]
fn test_wavelet_sum_consistency() {
    let items = weighted_items();
    let wm = WaveletMatrix::from_weighted(&items, 4);
    for l in 0..=items.len() {
        for r in l..=items.len() {
            let expected: u32 = items[l..r].iter().map(|p| p.1).sum();
            assert_eq!(wm.sum(l, r), expected);
            assert_eq!(wm.sum(l, r), wm.range_sum(l, r, 1 << 4));
            assert_eq!(wm.range_sum(l, r, 0), 0);
        }
    }
}

#[test]
fn test_wavelet_sum_counts_the_largest_key() {
    let wm = WaveletMatrix::from_weighted(&[(15u64, 7u64), (0, 1), (15, 20)], 4);
    assert_eq!(wm.sum(0, 3), 28);
    assert_eq!(wm.range_sum(0, 3, 15), 1);
    assert_eq!(wm.range_sum(0, 3, 16), 28);
}

#[test]
fn test_wavelet_weighted_own() {
    let wm = WaveletMatrix::from_weighted_own(&KEYS, 4);
    assert_eq!(wm.sum(0, 6), 23);
    assert_eq!(wm.sum(2, 5), 10);
    assert_eq!(wm.range_sum(0, 6, 4), 5);
    assert_eq!(wm.range_sum(0, 6, 5), 9);
    assert_eq!(wm.access(5), 9);
    assert_eq!(wm.quantile(0, 6, 5), 9);
    assert_eq!(wm.range_freq(0, 6, 4), 3);
}

#[test]
fn test_wavelet_empty() {
    let wm: WaveletMatrix<()> = WaveletMatrix::from(&[], 4);
    assert_eq!(wm.range_freq(0, 0, 3), 0);
    assert_eq!(wm.range_freq(0, 0, 100), 0);
    let wm = WaveletMatrix::from_weighted_own(&[], 4);
    assert_eq!(wm.range_sum(0, 0, 5), 0);
    assert_eq!(wm.sum(0, 0), 0);
    let wm: WaveletMatrix<u32> = WaveletMatrix::from_weighted(&[], 0);
    assert_eq!(wm.sum(0, 0), 0);
    assert_eq!(wm.range_sum(0, 0, 1), 0);
}

#[test]
fn test_wavelet_height_zero_and_full_width() {
    let wm = WaveletMatrix::from_weighted(&[(0u64, 5u32), (0, 6)], 0);
    assert_eq!(wm.access(1), 0);
    assert_eq!(wm.quantile(0, 2, 1), 0);
    assert_eq!(wm.range_freq(0, 2, 0), 0);
    assert_eq!(wm.range_freq(0, 2, 1), 2);
    assert_eq!(wm.sum(0, 2), 11);
    assert_eq!(wm.range_sum(0, 2, 1), 11);
    let keys = [u64::MAX, 0, 1 << 63, 12345];
    let wm: WaveletMatrix<()> = WaveletMatrix::from(&keys, 64);
    for i in 0..keys.len() {
        assert_eq!(wm.access(i), keys[i]);
    }
    assert_eq!(wm.quantile(0, 4, 0), 0);
    assert_eq!(wm.quantile(0, 4, 3), u64::MAX);
    assert_eq!(wm.range_freq(0, 4, u64::MAX), 3);
    assert_eq!(wm.range_freq(0, 4, 1 << 63), 2);
}

#[test]
fn test_wavelet_many_words() {
    let keys: Vec<u64> = (0..300u64).map(|i| (i * 37 + 11) % 128).collect();
    let wm: WaveletMatrix<()> = WaveletMatrix::from(&keys, 7);
    for i in 0..keys.len() {
        assert_eq!(wm.access(i), keys[i]);
    }
    let mut sorted = keys[17..283].to_vec();
    sorted.sort();
    for k in [0usize, 1, 63, 64, 65, 128, 200, 265] {
        assert_eq!(wm.quantile(17, 283, k), sorted[k]);
    }
    for upper in [0u64, 1, 64, 100, 127, 128, 500] {
        let expected = keys[60..260].iter().filter(|&&x| x < upper).count() as u64;
        assert_eq!(wm.range_freq(60, 260, upper), expected);
    }
}

#[test]
fn test_bit_vector_access_and_rank() {
    let words = [0b1011u64, u64::MAX, 0, 1 << 63];
    let bv = BitVector::from(&words);
    assert!(bv.access(0));
    assert!(bv.access(1));
    assert!(!bv.access(2));
    assert!(bv.access(3));
    assert!(!bv.access(4));
    assert!(bv.access(64));
    assert!(bv.access(127));
    assert!(!bv.access(128));
    assert!(bv.access(255));
    assert_eq!(bv.rank(0, true), 1);
    assert_eq!(bv.rank(2, true), 2);
    assert_eq!(bv.rank(3, true), 3);
    assert_eq!(bv.rank(62, true), 3);
    assert_eq!(bv.rank(63, true), 3);
    assert_eq!(bv.rank(64, true), 4);
    assert_eq!(bv.rank(127, true), 67);
    assert_eq!(bv.rank(200, true), 67);
    assert_eq!(bv.rank(254, true), 67);
    assert_eq!(bv.rank(255, true), 68);
    assert_eq!(bv.rank(255, false), 188);
}

#[test]
fn test_bit_vector_rank_complement() {
    let words = [0x0123_4567_89ab_cdefu64, 0xfedc_ba98_7654_3210, 0xffff_0000_ffff_0000];
    let bv = BitVector::from(&words);
    let mut ones = 0u32;
    for i in 0..192usize {
        if bv.access(i) {
            ones += 1;
        }
        assert_eq!(bv.rank(i, true), ones);
        assert_eq!(bv.rank(i, true) + bv.rank(i, false), i as u32 + 1);
    }
}

#[test]
fn test_bit_vector_empty() {
    let _ = BitVector::from(&[]);
}

#[test]
fn test_wavelet_accepts_keys_that_fit() {
    assert!(accepts(&KEYS, 4));
    assert!(!accepts(&KEYS, 3));
    assert!(accepts(&[], 0));
    assert!(accepts(&[0, 0], 0));
    assert!(!accepts(&[0, 1], 0));
    assert!(accepts(&[u64::MAX], 64));
    assert!(!accepts(&[u64::MAX], 63));
    assert!(accepts(&[u64::MAX >> 1], 63));
    assert!(!accepts(&[1], 65));
}
