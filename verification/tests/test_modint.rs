use library::modint::ModInt;

type M = ModInt<998244353>;

#[test]
fn test_modint_arithmetic() {
    let a = M::from_raw(998244352);
    let b = M::from_raw(5);
    assert_eq!(a.add(b).raw(), 4);
    assert_eq!(b.sub(a).raw(), 6);
    assert_eq!(a.sub(b).raw(), 998244347);
    assert_eq!(a.mul(b).raw(), 998244348);
    assert_eq!(b.neg().raw(), 998244348);
    assert_eq!(M::from_raw(0).neg().raw(), 0);
    assert_eq!(a, M::from_raw(998244352));
    assert_eq!(M::default().raw(), 0);
}

#[test]
fn test_modint_pow_and_inv() {
    let two = M::from_raw(2);
    assert_eq!(two.pow(0).raw(), 1);
    assert_eq!(two.pow(1).raw(), 2);
    assert_eq!(two.pow(10).raw(), 1024);
    assert_eq!(two.pow(30).raw(), 75497471);
    assert_eq!(M::from_raw(0).pow(0).raw(), 1);
    assert_eq!(M::from_raw(0).pow(5).raw(), 0);
    for v in [1u32, 2, 3, 12345, 998244352] {
        let x = M::from_raw(v);
        assert_eq!(x.mul(x.inv()).raw(), 1);
        assert_eq!(x.div(x).raw(), 1);
    }
    assert_eq!(M::from_raw(10).div(M::from_raw(5)).raw(), 2);
    let seven = ModInt::<7>::from_raw(3);
    assert_eq!(seven.pow(6).raw(), 1);
    assert_eq!(seven.inv().raw(), 5);
}
