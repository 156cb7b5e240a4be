use library::algebra::{BitOr, Max, Min};
use library::sparse_table::SparseTable;

#[test]
fn test_000_elem_nothing() {
    let a = [];
    let _: SparseTable<Min<u32>> = SparseTable::from(&a);
}

#[test]
fn test_001() {
    let a = [7, 6, 5, 4, 3, 2, 1];
    let st: SparseTable<Min<u32>> = SparseTable::from(&a);

    assert_eq!(st.prod(0, 2), 6);
    assert_eq!(st.prod(2, 5), 3);
    assert_eq!(st.prod(1, 7), 1);
}

#[test]
fn test_sparse_table_max() {
    let a = [100, 10, 1, 1000, 10000, 1, 100, 10];
    let st: SparseTable<Max<u32>> = SparseTable::from(&a);

    assert_eq!(st.prod(1, 4), 1000);
    assert_eq!(st.prod(3, 6), 10000);
    assert_eq!(st.prod(7, 8), 10);
    assert_eq!(st.prod(0, 3), 100);
    assert_eq!(st.prod(0, 8), 10000);
}

#[test]
fn test_sparse_table_every_stretch() {
    let a: Vec<u64> = (0..37u64).map(|i| (i * 29 + 5) % 64).collect();
    let st: SparseTable<BitOr<u64>> = SparseTable::from(&a);
    for l in 0..a.len() {
        for r in l + 1..=a.len() {
            let expected = a[l..r].iter().fold(0, |x, y| x | y);
            assert_eq!(st.prod(l, r), expected);
        }
    }
}
