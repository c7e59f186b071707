//! A polynomial rolling hash over a character sequence.
//!
//! Prefix hashes and powers of a randomly drawn base are tabulated once;
//! the hash of any substring then comes from two table lookups.  Every
//! published hash value equals the canonical polynomial hash of the
//! substring modulo the modulus, so equal substrings always hash equal;
//! unequal substrings may collide, which the contracts do not hide.

use core::marker::PhantomData;
use core::ops::Range;
use vstd::arithmetic::div_mod::{
    lemma_add_mod_noop, lemma_div_is_ordered, lemma_div_multiples_vanish_fancy,
    lemma_fundamental_div_mod, lemma_mod_multiples_vanish, lemma_mul_mod_noop_general,
    lemma_small_mod, lemma_sub_mod_noop,
};
use vstd::arithmetic::power::{lemma_pow0, lemma_pow1, lemma_pow_adds, pow};
use vstd::arithmetic::power2::{lemma2_to64, lemma2_to64_rest, pow2};
use vstd::bits::lemma_u128_shr_is_div;
use vstd::prelude::*;

verus! {

/// The value of a symbol sequence read as a polynomial in `b`, most
/// significant symbol first, before any reduction.
pub open spec fn poly_val(t: Seq<char>, b: int) -> int
    decreases t.len(),
{
    if t.len() == 0 {
        0
    } else {
        poly_val(t.drop_last(), b) * b + (t.last() as u32) as int
    }
}

/// A modulus together with its reduction function.  The reduction need not
/// be canonical everywhere, but it must agree with the true remainder up to
/// congruence, and must be canonical below `modulus * modulus`, the range
/// in which the tables work.
pub trait Mod {
    spec fn spec_modulus() -> u128;

    spec fn spec_rem(x: u128) -> u128;

    /// The modulus is large enough to dominate the base and the symbol
    /// codes, and small enough that its square fits the arithmetic.
    proof fn lemma_modulus_bounds()
        ensures
            0x40000000 <= Self::spec_modulus() <= 0x2000000000000000,
    ;

    /// The reduction is congruent to its argument, and canonical on
    /// arguments up to the square of the modulus.
    proof fn lemma_rem(x: u128)
        ensures
            (Self::spec_rem(x) as int) % (Self::spec_modulus() as int) == (x as int) % (
            Self::spec_modulus() as int),
            (x as int) <= (Self::spec_modulus() as int) * (Self::spec_modulus() as int) ==> (
            Self::spec_rem(x) as int) < (Self::spec_modulus() as int),
    ;

    fn rem(x: u128) -> (r: u128)
        ensures
            r == Self::spec_rem(x),
    ;

    fn modulus() -> (r: u128)
        ensures
            r == Self::spec_modulus(),
    ;
}

/// The default modulus: the Mersenne prime `2^61 - 1`, reduced by folding
/// the high bits onto the low ones.
#[derive(Debug, Clone)]
pub struct DefaultMod;

impl Mod for DefaultMod {
    open spec fn spec_modulus() -> u128 {
        0x1FFFFFFFFFFFFFFFu128
    }

    open spec fn spec_rem(x: u128) -> u128 {
        let q = x >> 61u128;
        let lo = x & 0x1FFFFFFFFFFFFFFFu128;
        if q + lo < 0x1FFFFFFFFFFFFFFFu128 {
            (q + lo) as u128
        } else {
            (q + lo - 0x1FFFFFFFFFFFFFFF) as u128
        }
    }

    proof fn lemma_modulus_bounds() {
    }

    proof fn lemma_rem(x: u128) {
        let m: int = 0x1FFFFFFFFFFFFFFF;
        let d: int = 0x2000000000000000;
        lemma2_to64();
        lemma2_to64_rest();
        assert(pow2(61) == 0x2000000000000000);
        lemma_u128_shr_is_div(x, 61);
        let q = (x >> 61u128) as int;
        assert(q == (x as int) / d);
        assert(x & 0x1FFFFFFFFFFFFFFFu128 == x % 0x2000000000000000u128) by (bit_vector);
        let lo = (x & 0x1FFFFFFFFFFFFFFFu128) as int;
        assert(lo == (x as int) % d);
        lemma_fundamental_div_mod(x as int, d);
        assert(x as int == d * q + lo);
        // d == m + 1, so x == m * q + (q + lo), and the multiple vanishes.
        assert(x as int == m * q + (q + lo)) by (nonlinear_arith)
            requires
                x as int == d * q + lo,
                d == m + 1,
        ;
        lemma_mod_multiples_vanish(q, q + lo, m);
        let r = Self::spec_rem(x) as int;
        if q + lo < m {
            assert(r == q + lo);
        } else {
            assert(r == q + lo - m);
            lemma_mod_multiples_vanish(-1, q + lo, m);
            assert((m * -1 + (q + lo)) % m == (q + lo) % m);
        }
        if x as int <= m * m {
            // The quotient is at most m - 1, the remainder at most m, so
            // one conditional subtraction lands below the modulus.
            assert(m * m == d * (d - 2) + 1) by (nonlinear_arith)
                requires
                    d == m + 1,
            ;
            lemma_div_is_ordered(x as int, m * m, d);
            lemma_div_multiples_vanish_fancy(d - 2, 1, d);
            assert((m * m) / d == d - 2);
            assert(q <= d - 2);
            assert(lo <= m);
            assert(r < m);
        }
    }

    fn rem(x: u128) -> (r: u128) {
        proof {
            assert((x >> 61u128) <= 0x7FFFFFFFFFFFFFFFF) by (bit_vector);
            assert((x & 0x1FFFFFFFFFFFFFFFu128) <= 0x1FFFFFFFFFFFFFFF) by (bit_vector);
        }
        let res = (x >> 61) + (x & 0x1FFFFFFFFFFFFFFF);
        if res < 0x1FFFFFFFFFFFFFFF {
            res
        } else {
            res - 0x1FFFFFFFFFFFFFFF
        }
    }

    fn modulus() -> (r: u128) {
        0x1FFFFFFFFFFFFFFF
    }
}

/// Relies on `rand::random_range`: a value drawn uniformly from the given
/// range; nothing is assumed of the draw beyond its bounds.
#[verifier::external_body]
fn random_base() -> (r: u128)
    ensures
        1 <= r < 1000000000,
{
    rand::random_range(1u128..1000000000u128)
}

/// A character's code stays below the smallest allowed modulus.
proof fn lemma_char_code_small(c: char)
    ensures
        ((c as u32) as u128) < 0x40000000,
{
}

/// Rolling hash tables over a character sequence, for the modulus `M`.
pub struct RollingHash<M: Mod = DefaultMod> {
    phantom: PhantomData<M>,
    pub s: Vec<char>,
    hash: Vec<u128>,
    powers: Vec<u128>,
    base: Ghost<u128>,
}

impl<M: Mod> RollingHash<M> {
    /// The hashed text.
    pub closed spec fn text(self) -> Seq<char> {
        self.s@
    }

    /// The randomly drawn base of the polynomial.
    pub closed spec fn spec_base(self) -> int {
        self.base@ as int
    }

    /// The tables hold the canonical prefix hashes and base powers.
    pub closed spec fn wf(self) -> bool {
        let m = M::spec_modulus() as int;
        let b = self.base@ as int;
        &&& 1 <= self.base@ < 1000000000
        &&& self.hash@.len() == self.s@.len() + 1
        &&& self.powers@.len() == self.s@.len() + 1
        &&& (forall|j: int|
            0 <= j <= self.s@.len() ==> (#[trigger] self.hash@[j]) as int == poly_val(
                self.s@.take(j),
                b,
            ) % m)
        &&& (forall|j: int| 0 <= j <= self.s@.len() ==> #[trigger] self.hash@[j] < M::spec_modulus())
        &&& (forall|j: int|
            0 <= j <= self.s@.len() ==> (#[trigger] self.powers@[j]) as int == pow(b, j as nat) % m)
        &&& (forall|j: int|
            0 <= j <= self.s@.len() ==> #[trigger] self.powers@[j] < M::spec_modulus())
    }

    /// Builds the prefix-hash and power tables for `s` under a freshly
    /// drawn base.
    pub fn new(s: Vec<char>) -> (r: Self)
        ensures
            r.wf(),
            r.text() == s@,
    {
        proof {
            M::lemma_modulus_bounds();
        }
        let base = random_base();
        let modulus = M::modulus();
        let ghost m = modulus as int;
        let ghost b = base as int;
        let n = s.len();
        let mut hash: Vec<u128> = Vec::new();
        hash.push(0);
        proof {
            assert(s@.take(0) =~= Seq::<char>::empty());
            lemma_small_mod(0, m as nat);
        }
        let mut i: usize = 0;
        while i < n
            invariant
                i <= n,
                n == s@.len(),
                hash@.len() == i + 1,
                1 <= base < 1000000000,
                modulus == M::spec_modulus(),
                m == modulus as int,
                b == base as int,
                0x40000000 <= modulus <= 0x2000000000000000,
                forall|j: int|
                    0 <= j <= i ==> (#[trigger] hash@[j]) as int == poly_val(s@.take(j), b) % m,
                forall|j: int| 0 <= j <= i ==> #[trigger] hash@[j] < modulus,
            decreases n - i,
        {
            let h = hash[i];
            let c = (s[i] as u32) as u128;
            proof {
                lemma_char_code_small(s@[i as int]);
                assert(h * base <= (m - 1) * m) by (nonlinear_arith)
                    requires
                        h as int <= m - 1,
                        base as int <= m,
                        m >= 2,
                ;
                assert((m - 1) * m + c < m * m) by (nonlinear_arith)
                    requires
                        (c as int) < m,
                        m >= 2,
                ;
                assert(m * m <= 0x2000000000000000 * 0x2000000000000000) by (nonlinear_arith)
                    requires
                        0 <= m <= 0x2000000000000000,
                ;
            }
            let x = h * base + c;
            let hr = M::rem(x);
            proof {
                M::lemma_rem(x);
                // The new prefix value is the old one shifted by the base
                // plus the new symbol, reduced.
                let pv = poly_val(s@.take(i as int), b);
                lemma_mul_mod_noop_general(pv, b, m);
                assert((h as int * b) % m == (pv * b) % m);
                lemma_add_mod_noop(h as int * b, c as int, m);
                lemma_add_mod_noop(pv * b, c as int, m);
                assert((x as int) % m == (pv * b + c as int) % m);
                assert(s@.take(i + 1).drop_last() =~= s@.take(i as int));
                assert(s@.take(i + 1).last() == s@[i as int]);
                assert(poly_val(s@.take(i + 1), b) == pv * b + c as int);
                lemma_small_mod(hr as nat, m as nat);
            }
            hash.push(hr);
            i = i + 1;
        }
        let mut powers: Vec<u128> = Vec::new();
        powers.push(1);
        proof {
            lemma_pow0(b);
            lemma_small_mod(1, m as nat);
        }
        let mut i2: usize = 0;
        while i2 < n
            invariant
                i2 <= n,
                n == s@.len(),
                powers@.len() == i2 + 1,
                1 <= base < 1000000000,
                modulus == M::spec_modulus(),
                m == modulus as int,
                b == base as int,
                0x40000000 <= modulus <= 0x2000000000000000,
                forall|j: int|
                    0 <= j <= i2 ==> (#[trigger] powers@[j]) as int == pow(b, j as nat) % m,
                forall|j: int| 0 <= j <= i2 ==> #[trigger] powers@[j] < modulus,
            decreases n - i2,
        {
            let p = powers[i2];
            proof {
                assert(p * base <= (m - 1) * m && (m - 1) * m < m * m) by (nonlinear_arith)
                    requires
                        p as int <= m - 1,
                        base as int <= m,
                        m >= 2,
                ;
                assert(m * m <= 0x2000000000000000 * 0x2000000000000000) by (nonlinear_arith)
                    requires
                        0 <= m <= 0x2000000000000000,
                ;
            }
            let x = p * base;
            let pr = M::rem(x);
            proof {
                M::lemma_rem(x);
                let pw = pow(b, i2 as nat);
                lemma_mul_mod_noop_general(pw, b, m);
                assert((x as int) % m == (pw * b) % m);
                lemma_pow_adds(b, i2 as nat, 1);
                lemma_pow1(b);
                assert(pow(b, (i2 + 1) as nat) == pw * b);
                lemma_small_mod(pr as nat, m as nat);
            }
            powers.push(pr);
            i2 = i2 + 1;
        }
        RollingHash { phantom: PhantomData, s, hash, powers, base: Ghost(base) }
    }

    /// The length of the hashed text.
    pub fn len(&self) -> (r: usize)
        ensures
            r == self.text().len(),
    {
        self.s.len()
    }
}

/// Splitting a prefix at `from`: the long prefix reads as the short prefix
/// shifted past the window, plus the window itself.
proof fn lemma_poly_split(s: Seq<char>, from: int, to: int, b: int)
    requires
        0 <= from <= to <= s.len(),
    ensures
        poly_val(s.take(to), b) == poly_val(s.take(from), b) * pow(b, (to - from) as nat)
            + poly_val(s.subrange(from, to), b),
    decreases to - from,
{
    if to == from {
        assert(s.subrange(from, to) =~= Seq::<char>::empty());
        lemma_pow0(b);
    } else {
        lemma_poly_split(s, from, to - 1, b);
        let p = poly_val(s.take(from), b);
        let q = poly_val(s.subrange(from, to - 1), b);
        let pw = pow(b, (to - 1 - from) as nat);
        assert(s.take(to).drop_last() =~= s.take(to - 1));
        assert(s.take(to).last() == s[to - 1]);
        let c = (s[to - 1] as u32) as int;
        assert(poly_val(s.take(to), b) == (p * pw + q) * b + c);
        assert(s.subrange(from, to).drop_last() =~= s.subrange(from, to - 1));
        assert(s.subrange(from, to).last() == s[to - 1]);
        assert(poly_val(s.subrange(from, to), b) == q * b + c);
        lemma_pow_adds(b, (to - 1 - from) as nat, 1);
        lemma_pow1(b);
        assert(pow(b, (to - from) as nat) == pw * b);
        assert((p * pw + q) * b + c == p * (pw * b) + (q * b + c)) by (nonlinear_arith);
    }
}

impl<M: Mod> RollingHash<M> {
    /// The canonical polynomial hash of the substring `range` of the text:
    /// the value of that substring as a polynomial in the base, modulo the
    /// modulus.
    pub fn hash(&self, range: Range<usize>) -> (r: u128)
        requires
            self.wf(),
            range.start <= range.end <= self.text().len(),
        ensures
            r as int == poly_val(
                self.text().subrange(range.start as int, range.end as int),
                self.spec_base(),
            ) % (M::spec_modulus() as int),
            r < M::spec_modulus(),
    {
        proof {
            M::lemma_modulus_bounds();
        }
        let from = range.start;
        let to = range.end;
        let d = to - from;
        let modulus = M::modulus();
        let ghost m = modulus as int;
        let ghost b = self.base@ as int;
        let hf = self.hash[from];
        let pw = self.powers[d];
        proof {
            assert(hf * pw <= m * m) by (nonlinear_arith)
                requires
                    0 <= (hf as int),
                    (hf as int) < m,
                    0 <= (pw as int),
                    (pw as int) < m,
            ;
            assert(m * m <= 0x2000000000000000 * 0x2000000000000000) by (nonlinear_arith)
                requires
                    0 <= m <= 0x2000000000000000,
            ;
        }
        let x1 = hf * pw;
        let a = M::rem(x1);
        proof {
            M::lemma_rem(x1);
            assert(2 * m <= m * m) by (nonlinear_arith)
                requires
                    m >= 2,
            ;
        }
        let ht = self.hash[to];
        let x2 = ht + modulus - a;
        let r = M::rem(x2);
        proof {
            M::lemma_rem(x2);
            let pv_from = poly_val(self.s@.take(from as int), b);
            let pv_to = poly_val(self.s@.take(to as int), b);
            let pv_sub = poly_val(self.s@.subrange(from as int, to as int), b);
            let pwv = pow(b, d as nat);
            lemma_poly_split(self.s@, from as int, to as int, b);
            assert(pv_sub == pv_to - pv_from * pwv);
            // a is congruent to the shifted short prefix.
            lemma_mul_mod_noop_general(pv_from, pwv, m);
            lemma_mul_mod_noop_general(hf as int, pw as int, m);
            assert((a as int) % m == (pv_from * pwv) % m);
            // r is congruent to the difference of the two table values.
            lemma_mod_multiples_vanish(1, ht as int - a as int, m);
            assert((x2 as int) % m == (ht as int - a as int) % m);
            lemma_small_mod(ht as nat, m as nat);
            lemma_small_mod(a as nat, m as nat);
            lemma_sub_mod_noop(ht as int, a as int, m);
            lemma_sub_mod_noop(pv_to, pv_from * pwv, m);
            assert((ht as int - a as int) % m == (pv_to - pv_from * pwv) % m);
            assert((r as int) % m == pv_sub % m);
            lemma_small_mod(r as nat, m as nat);
        }
        r
    }

    /// Whether the two substrings have the same length and the same hash
    /// value.  Equal substrings always satisfy both; unequal ones may
    /// collide on the hash.
    pub fn is_same(&self, r1: Range<usize>, r2: Range<usize>) -> (r: bool)
        requires
            self.wf(),
            r1.start <= r1.end <= self.text().len(),
            r2.start <= r2.end <= self.text().len(),
        ensures
            r == ({
                let m = M::spec_modulus() as int;
                let h1 = poly_val(
                    self.text().subrange(r1.start as int, r1.end as int),
                    self.spec_base(),
                ) % m;
                let h2 = poly_val(
                    self.text().subrange(r2.start as int, r2.end as int),
                    self.spec_base(),
                ) % m;
                r1.end - r1.start == r2.end - r2.start && h1 == h2
            }),
            self.text().subrange(r1.start as int, r1.end as int) == self.text().subrange(
                r2.start as int,
                r2.end as int,
            ) ==> r,
    {
        let len1 = r1.end - r1.start;
        let len2 = r2.end - r2.start;
        proof {
            if self.text().subrange(r1.start as int, r1.end as int) == self.text().subrange(
                r2.start as int,
                r2.end as int,
            ) {
                assert(self.text().subrange(r1.start as int, r1.end as int).len()
                    == self.text().subrange(r2.start as int, r2.end as int).len());
            }
        }
        if len1 != len2 {
            return false;
        }
        let h1 = self.hash(r1);
        let h2 = self.hash(r2);
        h1 == h2
    }
}

/// The rolling hash under the default Mersenne modulus.
pub type RollingHashDefault = RollingHash<DefaultMod>;

} // verus!
