use library::fastset::FastSet;

#[test]
fn test_fastset_basics() {
    let mut set = FastSet::new(1000);

    assert!(!set.contains(0));
    set.insert(0);
    assert!(set.contains(0));

    set.insert(999);
    assert!(set.contains(999));

    assert_eq!(set.next(100), Some(999));
    assert_eq!(set.prev(100), Some(0));
    set.remove(999);
    assert_eq!(set.next(100), None);
    assert_eq!(set.next(0), Some(0));
    set.remove(0);
    assert_eq!(set.prev(999), None);
    assert_eq!(set.next(0), None);
}

#[test]
fn test_fastset_against_plain_set() {
    for size in [1usize, 2, 63, 64, 65, 4095, 4096, 4097, 5000] {
        let mut set = FastSet::new(size);
        let mut plain = vec![false; size];
        for step in 0..400usize {
            let x = (step * 7919 + 31) % size;
            if step % 4 == 3 {
                set.remove(x);
                plain[x] = false;
            } else {
                set.insert(x);
                plain[x] = true;
            }
            let probes = [0usize, x, size - 1, size / 2, (x + 1) % size, (x + 64) % size];
            for &q in &probes {
                assert_eq!(set.contains(q), plain[q]);
                let next = (q..size).find(|&e| plain[e]);
                let prev = (0..=q).rev().find(|&e| plain[e]);
                assert_eq!(set.next(q), next);
                assert_eq!(set.prev(q), prev);
            }
        }
    }
}

#[test]
fn test_fastset_default() {
    let mut set = FastSet::default();
    assert_eq!(set.next(0), None);
    set.insert((1 << 24) - 1);
    set.insert(12345);
    assert_eq!(set.next(0), Some(12345));
    assert_eq!(set.next(12346), Some((1 << 24) - 1));
    assert_eq!(set.prev((1 << 24) - 2), Some(12345));
    assert_eq!(set.prev(12344), None);
    set.remove(12345);
    assert!(!set.contains(12345));
    assert_eq!(set.prev((1 << 24) - 1), Some((1 << 24) - 1));
}

#[test]
fn test_fastset_empty_bound() {
    let set = FastSet::new(0);
    let _ = set;
}
