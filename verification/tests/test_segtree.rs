use library::algebra::{Add, Max, Min};
use library::segtree::SegmentTree;

#[test]
fn test_segtree_add() {
    let mut stree: SegmentTree<Add<i32>> = SegmentTree::new(5);

    stree.insert(0, 1);
    stree.insert(3, 1000);
    assert_eq!(stree.get(0), 1);
    assert_eq!(stree.get(3), 1000);
    assert_eq!(stree.prod(0, 4), 1001);

    stree.insert(2, 100);
    assert_eq!(stree.prod(0, 4), 1101);
    assert_eq!(stree.prod(3, 3), 0);
    assert_eq!(stree.prod(0, 0), 0);
}

#[test]
fn test_segtree_every_stretch() {
    for n in 0..20usize {
        let a: Vec<u32> = (0..n as u32).map(|i| (i * 37 + 11) % 100).collect();
        let mut st: SegmentTree<Min<u32>> = SegmentTree::from(&a);
        let mut plain = a.clone();
        for round in 0..3u32 {
            for l in 0..=n {
                for r in l..=n {
                    let expected = plain[l..r].iter().copied().min().unwrap_or(u32::MAX);
                    assert_eq!(st.prod(l, r), expected);
                }
            }
            if n > 0 {
                let place = (round as usize * 7) % n;
                st.insert(place, round);
                plain[place] = round;
                assert_eq!(st.get(place), round);
            }
        }
    }
}

#[test]
fn test_segtree_max_unit() {
    let st: SegmentTree<Max<i64>> = SegmentTree::new(3);
    assert_eq!(st.prod(0, 3), i64::MIN);
    assert_eq!(st.get(1), i64::MIN);
}
