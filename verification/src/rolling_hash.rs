//! Hashes of the stretches of a string, each in constant time from a table
//! of the hashes of the prefixes: the hash of a string is the value, modulo
//! the prime `2^61 - 1`, of the polynomial in the base whose coefficients
//! are the characters.

use vstd::prelude::*;
use vstd::arithmetic::power::{pow, lemma_pow0, lemma_pow1, lemma_pow_adds};
use vstd::arithmetic::div_mod::{
    lemma_mul_mod_noop_general,
    lemma_add_mod_noop,
    lemma_sub_mod_noop,
    lemma_mod_multiples_vanish,
    lemma_small_mod,
    lemma_mod_bound,
    lemma_mod_twice,
    lemma_fundamental_div_mod,
};

verus! {

/// The modulus of the hashes, the prime `2^61 - 1`.
pub const MOD: u64 = 0x1fff_ffff_ffff_ffff;

const MASK_30: u64 = 0x3fff_ffff;

const MASK_31: u64 = 0x7fff_ffff;

const MASK_61: u64 = 0x1fff_ffff_ffff_ffff;

/// The coefficient that a character gives: its code and one, less the code
/// of the least character.
pub open spec fn coefficient(c: char, str_base: u32) -> int {
    c as u32 + 1 - str_base
}

/// The value of the polynomial in `base` whose coefficients are the
/// characters of `s`, the first the highest.
pub open spec fn polynomial(s: Seq<char>, str_base: u32, base: int) -> int
    decreases s.len(),
{
    if s.len() == 0 {
        0
    } else {
        polynomial(s.drop_last(), str_base, base) * base + coefficient(s.last(), str_base)
    }
}

/// The hash of `s`.
pub open spec fn hash_of(s: Seq<char>, str_base: u32, base: int) -> int {
    polynomial(s, str_base, base) % (MOD as int)
}

/// The polynomial of a string is the polynomial of a prefix, times the
/// power of the base by the length of the rest, and the polynomial of the
/// rest.
pub proof fn lemma_polynomial_split(s: Seq<char>, str_base: u32, base: int, l: int)
    requires
        0 <= l <= s.len(),
    ensures
        polynomial(s, str_base, base) == polynomial(s.take(l), str_base, base) * pow(
            base,
            (s.len() - l) as nat,
        ) + polynomial(s.skip(l), str_base, base),
    decreases s.len() - l,
{
    if l == s.len() {
        assert(s.take(l) =~= s);
        assert(s.skip(l) =~= Seq::<char>::empty());
        lemma_pow0(base);
    } else {
        let d = s.drop_last();
        lemma_polynomial_split(d, str_base, base, l);
        assert(d.take(l) =~= s.take(l));
        assert(s.skip(l).drop_last() =~= d.skip(l));
        let a = polynomial(s.take(l), str_base, base);
        let k = (s.len() - l - 1) as nat;
        lemma_pow_adds(base, k, 1);
        lemma_pow1(base);
        assert((a * pow(base, k) + polynomial(d.skip(l), str_base, base)) * base == a * (pow(
            base,
            k,
        ) * base) + polynomial(d.skip(l), str_base, base) * base) by (nonlinear_arith);
    }
}

/// What shifting and masking by the constants of this module do to a word.
proof fn lemma_words(v: u64)
    by (bit_vector)
    ensures
        v >> 31 == v / 0x8000_0000,
        v & 0x7fff_ffff == v % 0x8000_0000,
        v >> 30 == v / 0x4000_0000,
        v & 0x3fff_ffff == v % 0x4000_0000,
        v >> 61 == v / 0x2000_0000_0000_0000,
        v & 0x1fff_ffff_ffff_ffff == v % 0x2000_0000_0000_0000,
        v < 0x4000_0000 ==> v << 31 == v * 0x8000_0000,
{
}

/// The table of the hashes of the prefixes of a string, for characters from
/// the code `STR_BASE` up and the base `BASE`. Its view is the string.
pub struct RollingHash<const STR_BASE: u32, const BASE: u64> {
    hash: Vec<u64>,
    pow: Vec<u64>,
    text: Ghost<Seq<char>>,
}

impl<const STR_BASE: u32, const BASE: u64> View for RollingHash<STR_BASE, BASE> {
    type V = Seq<char>;

    closed spec fn view(&self) -> Seq<char> {
        self.text@
    }
}

impl<const STR_BASE: u32, const BASE: u64> RollingHash<STR_BASE, BASE> {
    /// Entry `i` of the one table is congruent to the polynomial of the
    /// first `i` characters, and entry `i` of the other is the power of the
    /// base by `i`, reduced.
    pub closed spec fn wf(&self) -> bool {
        &&& BASE < MOD
        &&& self.hash.len() == self.text@.len() + 1
        &&& self.pow.len() == self.text@.len() + 1
        &&& forall|i: int|
            0 <= i <= self.text@.len() ==> (#[trigger] self.hash[i]) < 0x2000_0000_0040_0000
                && self.hash[i] % MOD == hash_of(self.text@.take(i), STR_BASE, BASE as int)
        &&& forall|i: int|
            0 <= i <= self.text@.len() ==> (#[trigger] self.pow[i]) < MOD && self.pow[i] == pow(
                BASE as int,
                i as nat,
            ) % (MOD as int)
    }

    /// The code of a character.
    fn code(c: char) -> (v: u64)
        ensures
            v == c as u32,
            v <= 0x10_ffff,
    {
        c as u32 as u64
    }

    /// The product of `a` and `b` modulo `2^61 - 1`.
    fn mul(a: u64, b: u64) -> (r: u64)
        requires
            a < 0x2000_0000_0040_0000,
            b < 0x2000_0000_0040_0000,
        ensures
            r == (a * b) % (MOD as int),
            r < MOD,
    {
        let au = a >> 31;
        let ad = a & MASK_31;
        let bu = b >> 31;
        let bd = b & MASK_31;
        proof {
            lemma_words(a);
            lemma_words(b);
            assert(ad * bu + au * bd <= 0x7fff_ffff * 0x4000_0000 * 2 && au * bu * 2 <= 0x4000_0000
                * 0x4000_0000 * 2 && ad * bd <= 0x7fff_ffff * 0x7fff_ffff) by (nonlinear_arith)
                requires
                    au <= 0x4000_0000,
                    bu <= 0x4000_0000,
                    ad <= 0x7fff_ffff,
                    bd <= 0x7fff_ffff,
            ;
        }
        let mid = ad * bu + au * bd;
        let midu = mid >> 30;
        let midd = mid & MASK_30;
        proof {
            lemma_words(mid);
            lemma_words(midd);
        }
        let sum = au * bu * 2 + midu + (midd << 31) + ad * bd;
        proof {
            let m = MOD as int;
            lemma_fundamental_div_mod(a as int, 0x8000_0000);
            lemma_fundamental_div_mod(b as int, 0x8000_0000);
            lemma_fundamental_div_mod(mid as int, 0x4000_0000);
            // a * b == au * bu * 2^62 + mid * 2^31 + ad * bd
            assert(a * b == (au * bu) * 0x4000_0000_0000_0000 + mid * 0x8000_0000 + ad * bd)
                by (nonlinear_arith)
                requires
                    a == 0x8000_0000 * au + ad,
                    b == 0x8000_0000 * bu + bd,
                    mid == ad * bu + au * bd,
            ;
            // 2^62 == 2 * MOD + 2 and 2^61 == MOD + 1
            assert(a * b == sum + m * (2 * (au * bu) + midu)) by (nonlinear_arith)
                requires
                    a * b == (au * bu) * 0x4000_0000_0000_0000 + mid * 0x8000_0000 + ad * bd,
                    mid == 0x4000_0000 * midu + midd,
                    sum == au * bu * 2 + midu + midd * 0x8000_0000 + ad * bd,
                    m == 0x1fff_ffff_ffff_ffff,
            ;
            lemma_mod_multiples_vanish(2 * (au * bu) + midu, sum as int, m);
        }
        Self::cmod(sum)
    }

    /// `x` modulo `2^61 - 1`.
    fn cmod(x: u64) -> (r: u64)
        ensures
            r == x % MOD,
            r < MOD,
    {
        let xu = x >> 61;
        let xd = x & MASK_61;
        proof {
            lemma_words(x);
        }
        let ret = xu + xd;
        proof {
            let m = MOD as int;
            lemma_fundamental_div_mod(x as int, 0x2000_0000_0000_0000);
            assert(x == ret + m * xu) by (nonlinear_arith)
                requires
                    x == 0x2000_0000_0000_0000 * xu + xd,
                    ret == xu + xd,
                    m == 0x1fff_ffff_ffff_ffff,
            ;
            lemma_mod_multiples_vanish(xu as int, ret as int, m);
            if ret >= MOD {
                lemma_mod_multiples_vanish(-1, ret as int, m);
                lemma_small_mod((ret - MOD) as nat, m as nat);
            } else {
                lemma_small_mod(ret as nat, m as nat);
            }
        }
        if ret >= MOD {
            ret - MOD
        } else {
            ret
        }
    }

    /// The tables for the string `s`.
    pub fn from(s: &[char]) -> (rh: Self)
        requires
            BASE < MOD,
            forall|i: int| 0 <= i < s.len() ==> STR_BASE <= (#[trigger] s[i]) as u32,
        ensures
            rh.wf(),
            rh@ == s@,
    {
        let length = s.len();
        let mut hash: Vec<u64> = Vec::new();
        let mut powers: Vec<u64> = Vec::new();
        hash.push(0);
        powers.push(1);
        let ghost m = MOD as int;
        proof {
            lemma_pow0(BASE as int);
            lemma_small_mod(1, m as nat);
            lemma_small_mod(0, m as nat);
            assert(s@.take(0) =~= Seq::<char>::empty());
        }
        let mut i: usize = 0;
        while i < length
            invariant
                i <= length == s.len(),
                BASE < MOD,
                m == MOD,
                forall|i: int| 0 <= i < s.len() ==> STR_BASE <= (#[trigger] s[i]) as u32,
                hash.len() == i + 1,
                powers.len() == i + 1,
                forall|k: int|
                    0 <= k <= i ==> (#[trigger] hash[k]) < 0x2000_0000_0040_0000 && hash[k] % MOD
                        == hash_of(s@.take(k), STR_BASE, BASE as int),
                forall|k: int|
                    0 <= k <= i ==> (#[trigger] powers[k]) < MOD && powers[k] == pow(
                        BASE as int,
                        k as nat,
                    ) % m,
            decreases length - i,
        {
            let c: u64 = Self::code(s[i]);
            let shifted = Self::cmod(Self::mul(hash[i], BASE));
            let next = shifted + c + 1 - STR_BASE as u64;
            let power = Self::cmod(Self::mul(powers[i], BASE));
            proof {
                let before = s@.take(i as int);
                let p = polynomial(before, STR_BASE, BASE as int);
                assert(s@.take(i + 1).drop_last() =~= before);
                assert(s@.take(i + 1).last() == s[i as int]);
                let co = coefficient(s[i as int], STR_BASE);
                assert(next == shifted + co);
                // the first table
                lemma_mul_mod_noop_general(hash[i as int] as int, BASE as int, m);
                lemma_mul_mod_noop_general(p, BASE as int, m);
                lemma_small_mod(shifted as nat, m as nat);
                assert(shifted == (p * BASE) % m);
                assert(polynomial(s@.take(i + 1), STR_BASE, BASE as int) == p * BASE + co);
                lemma_add_mod_noop(p * BASE, co, m);
                lemma_add_mod_noop(shifted as int, co, m);
                lemma_mod_twice(p * BASE, m);
                // the second table
                lemma_pow_adds(BASE as int, i as nat, 1);
                lemma_pow1(BASE as int);
                lemma_mul_mod_noop_general(pow(BASE as int, i as nat), BASE as int, m);
                lemma_small_mod(power as nat, m as nat);
            }
            hash.push(next);
            powers.push(power);
            i += 1;
        }
        proof {
            assert(s@.take(length as int) =~= s@);
        }
        Self { hash, pow: powers, text: Ghost(s@) }
    }

    /// The hash of the characters at the places `l..r`.
    fn _h(&self, l: usize, r: usize) -> (h: u64)
        requires
            self.wf(),
            l <= r <= self@.len(),
        ensures
            h == hash_of(self@.subrange(l as int, r as int), STR_BASE, BASE as int),
    {
        let part = Self::mul(self.hash[l], self.pow[r - l]);
        proof {
            let m = MOD as int;
            let text = self@;
            let whole = text.take(r as int);
            let head = text.take(l as int);
            let tail = text.subrange(l as int, r as int);
            assert(whole.take(l as int) =~= head);
            assert(whole.skip(l as int) =~= tail);
            lemma_polynomial_split(whole, STR_BASE, BASE as int, l as int);
            let pw = polynomial(whole, STR_BASE, BASE as int);
            let ph = polynomial(head, STR_BASE, BASE as int);
            let pt = polynomial(tail, STR_BASE, BASE as int);
            let bp = pow(BASE as int, (r - l) as nat);
            // part is congruent to ph * bp
            lemma_mul_mod_noop_general(self.hash[l as int] as int, self.pow[r - l] as int, m);
            lemma_mul_mod_noop_general(ph, bp, m);
            lemma_mul_mod_noop_general(ph % m, bp % m, m);
            // hash[r] - part is congruent to pt
            let x = self.hash[r as int] + MOD * 4 - part;
            lemma_mod_multiples_vanish(4, self.hash[r as int] - part, m);
            lemma_sub_mod_noop(self.hash[r as int] as int, part as int, m);
            lemma_sub_mod_noop(pw, ph * bp, m);
            lemma_small_mod(part as nat, m as nat);
            lemma_mod_twice(ph * bp, m);
            lemma_mod_twice(pw, m);
        }
        Self::cmod(self.hash[r] + MOD * 4 - part)
    }

    /// The hash of the characters at the places `left..right`.
    pub fn hash(&self, left: usize, right: usize) -> (h: u64)
        requires
            self.wf(),
            left <= right <= self@.len(),
        ensures
            h == hash_of(self@.subrange(left as int, right as int), STR_BASE, BASE as int),
            h < MOD,
    {
        proof {
            lemma_mod_bound(
                polynomial(self@.subrange(left as int, right as int), STR_BASE, BASE as int),
                MOD as int,
            );
        }
        self._h(left, right)
    }
}

} // verus!
