//! Arithmetic on the residues modulo a fixed number `P`.

use vstd::prelude::*;
use vstd::arithmetic::power::{pow, lemma_pow_adds, lemma_pow_mod_noop, lemma_pow0, lemma_pow1};
use vstd::arithmetic::div_mod::{lemma_mul_mod_noop_general, lemma_small_mod};

verus! {

/// A residue modulo `P`, kept as its least non-negative representative.
#[derive(Copy, Clone, PartialEq, Eq, Hash, Debug, Default)]
pub struct ModInt<const P: u32>(u32);

/// The square of `b` to the power `q` is `b` to the power `2 * q`.
proof fn lemma_pow_square(b: int, q: nat)
    ensures
        pow(b * b, q) == pow(b, 2 * q),
    decreases q,
{
    reveal(pow);
    if q > 0 {
        lemma_pow_square(b, (q - 1) as nat);
        assert(pow(b, 2 * q) == b * pow(b, (2 * q - 1) as nat));
        assert(pow(b, (2 * q - 1) as nat) == b * pow(b, (2 * q - 2) as nat));
        assert(b * (b * pow(b, (2 * q - 2) as nat)) == (b * b) * pow(b, (2 * q - 2) as nat))
            by (nonlinear_arith);
    }
}

impl<const P: u32> ModInt<P> {
    /// The representative of the residue, a number below `P`.
    pub closed spec fn residue(self) -> int {
        self.0 as int
    }

    /// The representative is below the modulus.
    pub open spec fn wf(self) -> bool {
        0 <= self.residue() < P
    }

    /// The residue of `value`, a number below `P`.
    pub fn from_raw(value: u32) -> (r: Self)
        requires
            value < P,
        ensures
            r.wf(),
            r.residue() == value,
    {
        Self(value)
    }

    /// The representative of the residue.
    pub fn raw(self) -> (value: u32)
        ensures
            value == self.residue(),
    {
        self.0
    }

    /// The sum of two residues.
    pub fn add(self, rhs: Self) -> (r: Self)
        requires
            self.wf(),
            rhs.wf(),
        ensures
            r.wf(),
            r.residue() == (self.residue() + rhs.residue()) % (P as int),
    {
        Self(((self.0 as u64 + rhs.0 as u64) % (P as u64)) as u32)
    }

    /// The difference of two residues.
    pub fn sub(self, rhs: Self) -> (r: Self)
        requires
            self.wf(),
            rhs.wf(),
        ensures
            r.wf(),
            r.residue() == (self.residue() - rhs.residue()) % (P as int),
    {
        proof {
            let a = self.residue();
            let b = rhs.residue();
            let m = P as int;
            if a >= b {
                lemma_small_mod((a - b) as nat, m as nat);
                assert((m + a - b) % m == a - b) by (nonlinear_arith)
                    requires
                        0 <= a - b < m,
                ;
            } else {
                lemma_small_mod((m + a - b) as nat, m as nat);
                assert((a - b) % m == m + a - b) by (nonlinear_arith)
                    requires
                        -m <= a - b < 0,
                ;
            }
        }
        Self(((P as u64 + self.0 as u64 - rhs.0 as u64) % (P as u64)) as u32)
    }

    /// The product of two residues.
    pub fn mul(self, rhs: Self) -> (r: Self)
        requires
            self.wf(),
            rhs.wf(),
        ensures
            r.wf(),
            r.residue() == (self.residue() * rhs.residue()) % (P as int),
    {
        proof {
            assert(self.0 * rhs.0 <= u32::MAX * u32::MAX) by (nonlinear_arith)
                requires
                    self.0 <= u32::MAX,
                    rhs.0 <= u32::MAX,
            ;
        }
        Self(((self.0 as u64 * rhs.0 as u64) % (P as u64)) as u32)
    }

    /// The residue that added to this one gives zero.
    pub fn neg(self) -> (r: Self)
        requires
            self.wf(),
        ensures
            r.wf(),
            r.residue() == (-self.residue()) % (P as int),
    {
        proof {
            let a = self.residue();
            let m = P as int;
            if a == 0 {
                assert((m - a) % m == 0) by (nonlinear_arith)
                    requires
                        a == 0,
                        m > 0,
                ;
                assert((-a) % m == 0) by (nonlinear_arith)
                    requires
                        a == 0,
                        m > 0,
                ;
            } else {
                lemma_small_mod((m - a) as nat, m as nat);
                assert((-a) % m == m - a) by (nonlinear_arith)
                    requires
                        0 < a < m,
                ;
            }
        }
        Self((P - self.0) % P)
    }

    /// This residue to the power `x`.
    pub fn pow(&self, x: u32) -> (r: Self)
        requires
            self.wf(),
            P >= 2,
        ensures
            r.wf(),
            r.residue() == pow(self.residue(), x as nat) % (P as int),
    {
        let mut a: Self = *self;
        let mut r: Self = Self::from_raw(1);
        let mut x: u32 = x;
        let ghost base = self.residue();
        let ghost exponent = x as nat;
        let ghost m = P as int;
        proof {
            lemma_small_mod(1, m as nat);
            assert(1 * pow(base, exponent) == pow(base, exponent));
        }
        while x > 0
            invariant
                P >= 2,
                m == P as int,
                a.wf(),
                r.wf(),
                (r.residue() * pow(a.residue(), x as nat)) % m == pow(base, exponent) % m,
            decreases x,
        {
            let ghost rv = r.residue();
            let ghost av = a.residue();
            let ghost half = (x / 2) as nat;
            proof {
                lemma_pow_square(av, half);
                lemma_pow_mod_noop(av * av, half, m);
                // pow(av, x) in terms of the square
                if x % 2 == 1 {
                    lemma_pow_adds(av, 1, 2 * half);
                    lemma_pow1(av);
                    let tail = pow(av * av, half);
                    let next = pow((av * av) % m, half);
                    assert(rv * (av * tail) == (rv * av) * tail) by (nonlinear_arith);
                    lemma_mul_mod_noop_general(rv * av, tail, m);
                    lemma_mul_mod_noop_general((rv * av) % m, next, m);
                    lemma_mul_mod_noop_general((rv * av) % m, tail, m);
                } else {
                    let tail = pow(av * av, half);
                    let next = pow((av * av) % m, half);
                    lemma_mul_mod_noop_general(rv, tail, m);
                    lemma_mul_mod_noop_general(rv, next, m);
                }
            }
            if x % 2 == 1 {
                r = r.mul(a);
            }
            a = a.mul(a);
            x = x / 2;
        }
        proof {
            lemma_pow0(a.residue());
            lemma_small_mod(r.residue() as nat, m as nat);
        }
        r
    }

    /// This residue to the power `P - 2`: for a prime `P`, by Fermat's
    /// little theorem, the residue whose product with this one is one.
    pub fn inv(&self) -> (r: Self)
        requires
            self.wf(),
            P >= 2,
        ensures
            r.wf(),
            r.residue() == pow(self.residue(), (P - 2) as nat) % (P as int),
    {
        self.pow(P - 2)
    }

    /// The quotient of two residues: the product with the inverse of `rhs`.
    pub fn div(self, rhs: Self) -> (r: Self)
        requires
            self.wf(),
            rhs.wf(),
            P >= 2,
        ensures
            r.wf(),
            r.residue() == (self.residue() * (pow(rhs.residue(), (P - 2) as nat) % (P as int)))
                % (P as int),
    {
        self.mul(rhs.inv())
    }
}

} // verus!
