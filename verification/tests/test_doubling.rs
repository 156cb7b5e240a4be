use library::doubling::Doubling;

#[test]
fn test_001_one_elem() {
    let nxt = vec![0];

    let dbl = Doubling::build(&nxt, 30);
    assert_eq!(dbl.next(0, (1 << 31) - 1), 0);
}

#[test]
fn test_002_mini() {
    let nxt = vec![1, 2, 0];

    let dbl = Doubling::build(&nxt, 30);
    assert_eq!(dbl.next(0, 1), 1);
    assert_eq!(dbl.next(0, 2), 2);
    assert_eq!(dbl.next(0, 3 << 15), 0);
}

#[test]
fn test_doubling_cycles() {
    let dbl = Doubling::build(&vec![1, 0, 3, 4, 2], 30);

    assert_eq!(dbl.next(0, 1), 1);
    assert_eq!(dbl.next(1, (1 << 30) + 1), 0);
    assert_eq!(dbl.next(3, 123456), 3);
    assert_eq!(dbl.jump_power_of_two(2, 10), 3);
    assert_eq!(dbl.next(2, 0), 2);
    assert_eq!(dbl.size, 5);
    assert_eq!(dbl.depth, 30);
}

#[test]
fn test_doubling_uses_the_top_level() {
    let dbl = Doubling::build(&vec![1, 2, 3, 4, 0], 3);
    for k in 0..16u64 {
        assert_eq!(dbl.next(0, k), (k % 5) as u32);
    }
    assert_eq!(dbl.jump_power_of_two(1, 3), 4);
    let dbl = Doubling::build(&vec![1, 2, 0], 0);
    assert_eq!(dbl.next(0, 0), 0);
    assert_eq!(dbl.next(0, 1), 1);
}
