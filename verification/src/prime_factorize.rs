//! Factorisation into primes by trial division.

use vstd::prelude::*;
use vstd::arithmetic::power::{pow, lemma_pow0, lemma_pow1, lemma_pow_adds};
use vstd::arithmetic::power2::{pow2, lemma_pow2_unfold, lemma_pow2_strictly_increases, lemma2_to64};
use vstd::arithmetic::div_mod::{lemma_fundamental_div_mod, lemma_mod_multiples_basic};

verus! {

/// Whether `p` is a prime number.
pub open spec fn is_prime(p: int) -> bool {
    p >= 2 && forall|d: int| 2 <= d < p ==> #[trigger] (p % d) != 0
}

/// The product of the powers that a factorisation lists, each given as a
/// base and an exponent.
pub open spec fn factor_product(pf: Seq<(u64, usize)>) -> int
    decreases pf.len(),
{
    if pf.len() == 0 {
        1
    } else {
        factor_product(pf.drop_last()) * pow(pf.last().0 as int, pf.last().1 as nat)
    }
}

/// Whether no number from 2 up to, but not including, `bound` divides `m`.
pub open spec fn no_divisor_below(m: int, bound: int) -> bool {
    forall|d: int| 2 <= d < bound ==> #[trigger] (m % d) != 0
}

/// A divisor of a factor divides the product.
proof fn lemma_divides_product(d: int, a: int, b: int)
    requires
        d > 0,
        a % d == 0,
    ensures
        (a * b) % d == 0,
{
    lemma_fundamental_div_mod(a, d);
    let k = a / d;
    assert(a * b == (k * b) * d) by (nonlinear_arith)
        requires
            a == d * k,
    ;
    lemma_mod_multiples_basic(k * b, d);
}

/// A number without a divisor from 2 up to a bound whose square exceeds it
/// is one or a prime.
proof fn lemma_no_divisor_prime(m: int, bound: int)
    requires
        m >= 2,
        bound >= 2,
        no_divisor_below(m, bound),
        bound * bound > m,
    ensures
        is_prime(m),
        m >= bound,
{
    if m < bound {
        assert(m % m == 0) by (nonlinear_arith)
            requires
                m >= 2,
        ;
    }
    assert forall|d: int| 2 <= d < m implies #[trigger] (m % d) != 0 by {
        if d >= bound && m % d == 0 {
            lemma_fundamental_div_mod(m, d);
            let q = m / d;
            assert(q >= 2) by (nonlinear_arith)
                requires
                    m == d * q,
                    2 <= d < m,
            ;
            assert(q < bound) by (nonlinear_arith)
                requires
                    m == d * q,
                    d >= bound,
                    bound * bound > m,
                    bound >= 2,
            ;
            assert(m == q * d) by (nonlinear_arith)
                requires
                    m == d * q,
            ;
            lemma_mod_multiples_basic(d, q);
            assert(m % q == 0) by (nonlinear_arith)
                requires
                    m == d * q,
                    (d * q) % q == 0,
            ;
        }
    }
}

/// The factorisation of `n` into primes: the primes that divide `n` in
/// ascending order, each with the exponent of the greatest of its powers
/// that divides `n`. Zero is listed as the single factor zero.
pub fn prime_factorize(n: u64) -> (pf: Vec<(u64, usize)>)
    ensures
        factor_product(pf@) == n,
        forall|i: int| 0 <= i < pf.len() ==> (#[trigger] pf[i]).1 >= 1,
        forall|i: int, j: int| 0 <= i < j < pf.len() ==> pf[i].0 < pf[j].0,
        n >= 1 ==> forall|i: int| 0 <= i < pf.len() ==> is_prime((#[trigger] pf[i]).0 as int),
        n == 0 ==> pf@ == seq![(0u64, 1usize)],
{
    let mut pf: Vec<(u64, usize)> = Vec::new();
    let mut m: u64 = n;
    let mut p: u64 = 2;
    proof {
        lemma2_to64();
    }
    while p <= m / p
        invariant
            2 <= p <= 0x1_0000_0000,
            n >= 1 ==> m >= 1,
            n == 0 ==> m == 0 && pf@.len() == 0,
            m * factor_product(pf@) == n,
            no_divisor_below(m as int, p as int),
            forall|i: int| 0 <= i < pf.len() ==> (#[trigger] pf[i]).1 >= 1,
            forall|i: int| 0 <= i < pf.len() ==> (#[trigger] pf[i]).0 < p,
            forall|i: int, j: int| 0 <= i < j < pf.len() ==> pf[i].0 < pf[j].0,
            forall|i: int| 0 <= i < pf.len() ==> is_prime((#[trigger] pf[i]).0 as int),
        decreases 0x1_0000_0000 - p,
    {
        proof {
            lemma_fundamental_div_mod(m as int, p as int);
            assert(p * p <= m) by (nonlinear_arith)
                requires
                    p <= m / p,
                    m == p * (m / p) + m % p,
                    0 <= m % p,
                    p >= 2,
            ;
            assert(p < 0x1_0000_0000) by (nonlinear_arith)
                requires
                    p * p <= m,
                    m <= 0xffff_ffff_ffff_ffff,
                    p >= 0,
            ;
        }
        if m % p == 0 {
            let ghost start = m;
            let mut e: usize = 0;
            proof {
                lemma_pow0(p as int);
                lemma2_to64();
                assert forall|d: int| 2 <= d < p implies #[trigger] ((p as int) % d) != 0 by {
                    if (p as int) % d == 0 {
                        lemma_fundamental_div_mod(m as int, p as int);
                        lemma_divides_product(d, p as int, (m / p) as int);
                    }
                }
            }
            while m % p == 0
                invariant
                    2 <= p,
                    1 <= m <= start,
                    start == m * pow(p as int, e as nat),
                    pow2(e as nat) * m <= start,
                    no_divisor_below(m as int, p as int),
                decreases m,
            {
                proof {
                    lemma2_to64();
                    lemma_fundamental_div_mod(m as int, p as int);
                    let q = (m / p) as int;
                    assert(q >= 1 && q < m) by (nonlinear_arith)
                        requires
                            m == p * q,
                            m >= 1,
                            p >= 2,
                    ;
                    lemma_pow_adds(p as int, 1, e as nat);
                    lemma_pow1(p as int);
                    assert(q * (p * pow(p as int, e as nat)) == (p * q) * pow(p as int, e as nat))
                        by (nonlinear_arith);
                    lemma_pow2_unfold((e + 1) as nat);
                    assert(2 * pow2(e as nat) * q <= pow2(e as nat) * m) by (nonlinear_arith)
                        requires
                            m == p * q,
                            p >= 2,
                            q >= 0,
                            pow2(e as nat) >= 0,
                    ;
                    if e >= 64 {
                        if e > 64 {
                            lemma_pow2_strictly_increases(64, e as nat);
                        }
                        assert(pow2(e as nat) * m >= pow2(e as nat)) by (nonlinear_arith)
                            requires
                                m >= 1,
                                pow2(e as nat) >= 0,
                        ;
                    }
                    assert forall|d: int| 2 <= d < p implies #[trigger] (q % d) != 0 by {
                        if q % d == 0 {
                            lemma_divides_product(d, q, p as int);
                            assert(q * p == m) by (nonlinear_arith)
                                requires
                                    m == p * q,
                            ;
                        }
                    }
                }
                e += 1;
                m = m / p;
            }
            proof {
                assert(factor_product(pf@.push((p, e))) == factor_product(pf@) * pow(
                    p as int,
                    e as nat,
                )) by {
                    assert(pf@.push((p, e)).drop_last() =~= pf@);
                }
                assert(m * (factor_product(pf@) * pow(p as int, e as nat)) == (m * pow(
                    p as int,
                    e as nat,
                )) * factor_product(pf@)) by (nonlinear_arith);
                if e == 0 {
                    assert(false);
                }
            }
            pf.push((p, e));
        }
        p += 1;
    }
    if m != 1 {
        proof {
            if m >= 2 {
                lemma_fundamental_div_mod(m as int, p as int);
                assert(p * p > m) by (nonlinear_arith)
                    requires
                        p > m / p,
                        m == p * (m / p) + m % p,
                        m % p < p,
                        p >= 2,
                        m / p >= 0,
                ;
                lemma_no_divisor_prime(m as int, p as int);
            }
            lemma_pow1(m as int);
            assert(pf@.push((m, 1usize)).drop_last() =~= pf@);
            assert(factor_product(pf@) * m == m * factor_product(pf@)) by (nonlinear_arith);
            if n == 0 {
                assert(pf@.push((m, 1usize)) =~= seq![(0u64, 1usize)]);
            }
        }
        pf.push((m, 1));
    } else {
        proof {
            assert(1 * factor_product(pf@) == factor_product(pf@));
        }
    }
    pf
}

} // verus!
