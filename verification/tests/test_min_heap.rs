use library::min_heap::MinHeap;

#[test]
fn test_min_heap_order() {
    let mut heap: MinHeap<u32, usize> = MinHeap::new();
    assert_eq!(heap.pop(), None);
    let keys = [5u32, 3, 9, 1, 7, 3, 8, 0, 2, 6, 4, 3];
    for (i, &k) in keys.iter().enumerate() {
        heap.push(k, i);
        assert_eq!(heap.len(), i + 1);
    }
    let mut sorted = keys.to_vec();
    sorted.sort();
    let mut seen = vec![false; keys.len()];
    for &expected in &sorted {
        let (k, i) = heap.pop().unwrap();
        assert_eq!(k, expected);
        assert_eq!(keys[i], k);
        assert!(!seen[i]);
        seen[i] = true;
    }
    assert_eq!(heap.pop(), None);
    assert_eq!(heap.len(), 0);
}

#[test]
fn test_min_heap_ties_come_out_greatest_value_first() {
    let mut heap: MinHeap<u32, u32> = MinHeap::new();
    let mut model = std::collections::BinaryHeap::new();
    let mut x: u32 = 12345;
    for _ in 0..500 {
        x = x.wrapping_mul(1103515245).wrapping_add(12345);
        let key = (x >> 16) % 7;
        x = x.wrapping_mul(1103515245).wrapping_add(12345);
        let value = (x >> 16) % 50;
        heap.push(key, value);
        model.push((std::cmp::Reverse(key), value));
        if x % 3 == 0 {
            let got = heap.pop();
            let want = model.pop().map(|(k, v)| (k.0, v));
            assert_eq!(got, want);
        }
    }
    while let Some((k, v)) = model.pop() {
        assert_eq!(heap.pop(), Some((k.0, v)));
    }
    assert_eq!(heap.pop(), None);
}
