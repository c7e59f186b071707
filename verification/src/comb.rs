//! Factorials, permutations and combinations modulo a fixed modulus `M`.
//!
//! The table holds `k!` modulo `M` and the inverse factorials derived from
//! one modular exponentiation by Fermat's rule, extended downward by the
//! recurrence `inv(k) = inv(k + 1) * (k + 1)`.  Every published value is
//! pinned to these defining formulas; that the inverse factorial really
//! inverts the factorial additionally needs `M` prime, which the contracts
//! do not assume.

use vstd::arithmetic::div_mod::{lemma_mul_mod_noop_general, lemma_small_mod};
use vstd::arithmetic::power::{
    lemma_pow0, lemma_pow1, lemma_pow_adds, lemma_pow_mod_noop, lemma_pow_multiplies, pow,
};
use vstd::prelude::*;

verus! {

/// `k!` as a mathematical integer.
pub open spec fn fact(k: nat) -> nat
    decreases k,
{
    if k == 0 {
        1
    } else {
        k * fact((k - 1) as nat)
    }
}

/// The inverse-factorial table value at `k`, for a table built to size
/// `nn`: at the top, `(nn!)^(m-2) mod m`; below, the downward recurrence.
pub open spec fn inv_fact(k: nat, nn: nat, m: int) -> int
    decreases nn - k,
{
    if k >= nn {
        pow(fact(nn) as int, (m - 2) as nat) % m
    } else {
        (inv_fact((k + 1) as nat, nn, m) * (k + 1)) % m
    }
}

/// `(a * b) % m`, computed without overflow.
fn mul_mod(a: u64, b: u64, m: u64) -> (r: u64)
    requires
        m >= 2,
    ensures
        r as int == ((a as int) * (b as int)) % (m as int),
        r < m,
{
    proof {
        assert((a as u128) * (b as u128) <= 0xFFFFFFFFFFFFFFFFu128 * 0xFFFFFFFFFFFFFFFFu128)
            by (nonlinear_arith)
            requires
                a as u128 <= 0xFFFFFFFFFFFFFFFFu128,
                b as u128 <= 0xFFFFFFFFFFFFFFFFu128,
        ;
    }
    let r = ((a as u128) * (b as u128)) % (m as u128);
    r as u64
}

/// `base^e % m` by binary exponentiation.
fn pow_mod(base: u64, e: u64, m: u64) -> (r: u64)
    requires
        m >= 2,
    ensures
        r as int == pow(base as int, e as nat) % (m as int),
        r < m,
{
    let mut result: u64 = 1;
    let mut b: u64 = base % m;
    let mut ee: u64 = e;
    proof {
        lemma_pow_mod_noop(base as int, e as nat, m as int);
    }
    while ee > 0
        invariant
            m >= 2,
            result < m,
            b < m,
            ((result as int) * pow(b as int, ee as nat)) % (m as int) == pow(
                base as int,
                e as nat,
            ) % (m as int),
        decreases ee,
    {
        let ghost r0 = result as int;
        let ghost b0 = b as int;
        let ghost e0 = ee as nat;
        let ghost mi = m as int;
        if ee % 2 == 1 {
            result = mul_mod(result, b, m);
            proof {
                // Peeling one factor off an odd exponent.
                lemma_pow_adds(b0, 1, (e0 - 1) as nat);
                lemma_pow1(b0);
                lemma_mul_mod_noop_general(r0 * b0, pow(b0, (e0 - 1) as nat), mi);
                lemma_mul_mod_noop_general(r0, b0, mi);
                assert(r0 * b0 * pow(b0, (e0 - 1) as nat) == r0 * (b0 * pow(b0, (e0 - 1) as nat)))
                    by (nonlinear_arith);
                assert(((result as int) * pow(b0, (e0 - 1) as nat)) % mi == (r0 * pow(b0, e0))
                    % mi);
            }
        }
        proof {
            let eh = (ee / 2) as nat;
            let cur = result as int;
            // The remaining even exponent becomes a power of the square.
            lemma_pow_adds(b0, 1, 1);
            lemma_pow1(b0);
            lemma_pow_multiplies(b0, 2, eh);
            assert(pow(b0, (2 * eh) as nat) == pow(b0 * b0, eh));
            lemma_pow_mod_noop(b0 * b0, eh, mi);
            lemma_mul_mod_noop_general(cur, pow(b0 * b0, eh), mi);
            lemma_mul_mod_noop_general(cur, pow((b0 * b0) % mi, eh), mi);
        }
        let b2 = mul_mod(b, b, m);
        b = b2;
        ee = ee / 2;
    }
    proof {
        lemma_pow0(b as int);
        lemma_small_mod(result as nat, m as nat);
    }
    result
}

/// Factorials and inverse factorials modulo `M`, tabulated up to a size
/// fixed at construction.
#[derive(Debug, Clone)]
pub struct CombTable<const M: u64> {
    factorials: Vec<u64>,
    factorials_inversed: Vec<u64>,
}

/// The permutation-count formula over the table values:
/// `n! * inv((n-k)!)`, modulo `m`.
pub open spec fn perm_mod(n: nat, k: nat, nn: nat, m: int) -> int {
    (((fact(n) as int) % m) * inv_fact((n - k) as nat, nn, m)) % m
}

/// The combination-count formula over the table values:
/// the permutation count times `inv(k!)`, modulo `m`.
pub open spec fn comb_mod(n: nat, k: nat, nn: nat, m: int) -> int {
    (perm_mod(n, k, nn, m) * inv_fact(k, nn, m)) % m
}

impl<const M: u64> CombTable<M> {
    /// The size the table was built for.
    pub closed spec fn size(self) -> int {
        self.factorials@.len() - 1
    }

    /// Both tables hold their defining values, reduced modulo `M`.
    pub closed spec fn wf(self) -> bool {
        let m = M as int;
        &&& M >= 2
        &&& self.factorials@.len() >= 1
        &&& self.factorials_inversed@.len() == self.factorials@.len()
        &&& (forall|j: int|
            0 <= j <= self.size() ==> (#[trigger] self.factorials@[j]) as int == (fact(
                j as nat,
            ) as int) % m)
        &&& (forall|j: int|
            0 <= j <= self.size() ==> (#[trigger] self.factorials_inversed@[j]) as int == inv_fact(
                j as nat,
                self.size() as nat,
                m,
            ))
    }

    /// Tabulates factorials and inverse factorials for `0`, ..., `n`.
    pub fn new(n: usize) -> (r: Self)
        requires
            M >= 2,
            n < usize::MAX,
        ensures
            r.wf(),
            r.size() == n as int,
    {
        let m: u64 = M;
        let ghost mi = m as int;
        let mut factorials: Vec<u64> = Vec::new();
        let mut cur: u64 = 1;
        factorials.push(cur);
        proof {
            lemma_small_mod(1, m as nat);
        }
        let mut i: usize = 1;
        while i <= n
            invariant
                1 <= i <= n + 1,
                n < usize::MAX,
                m == M,
                m >= 2,
                factorials@.len() == i,
                cur == factorials@[i - 1],
                forall|j: int|
                    0 <= j < i ==> (#[trigger] factorials@[j]) as int == (fact(j as nat) as int)
                        % (m as int),
            decreases n + 1 - i,
        {
            let ghost prev = cur as int;
            cur = mul_mod(cur, i as u64, m);
            proof {
                lemma_mul_mod_noop_general(fact((i - 1) as nat) as int, i as int, m as int);
                assert(fact(i as nat) == i * fact((i - 1) as nat));
                assert((i as int) * (fact((i - 1) as nat) as int) == (fact((i - 1) as nat) as int)
                    * (i as int)) by (nonlinear_arith);
            }
            factorials.push(cur);
            i = i + 1;
        }
        let last = factorials[n];
        let inv_last = pow_mod(last, m - 2, m);
        proof {
            lemma_pow_mod_noop(fact(n as nat) as int, (m - 2) as nat, mi);
        }
        let mut fi: Vec<u64> = vec![0u64; n + 1];
        fi.set(n, inv_last);
        let mut k = n;
        while k > 0
            invariant
                k <= n,
                m == M,
                m >= 2,
                fi@.len() == n + 1,
                forall|j: int|
                    k <= j <= n ==> (#[trigger] fi@[j]) as int == inv_fact(
                        j as nat,
                        n as nat,
                        m as int,
                    ),
            decreases k,
        {
            k = k - 1;
            let v = mul_mod(fi[k + 1], (k + 1) as u64, m);
            fi.set(k, v);
        }
        CombTable { factorials, factorials_inversed: fi }
    }

    /// `k!` modulo `M`.
    pub fn factorial(&self, k: usize) -> (r: u64)
        requires
            self.wf(),
            k <= self.size(),
        ensures
            r as int == (fact(k as nat) as int) % (M as int),
    {
        self.factorials[k]
    }

    /// The inverse-factorial table value at `k`.
    pub fn factorial_inversed(&self, k: usize) -> (r: u64)
        requires
            self.wf(),
            k <= self.size(),
        ensures
            r as int == inv_fact(k as nat, self.size() as nat, M as int),
    {
        self.factorials_inversed[k]
    }

    /// The number of `k`-permutations of `n` items, modulo `M`.
    pub fn permutation(&self, n: usize, k: usize) -> (r: u64)
        requires
            self.wf(),
            k <= n <= self.size(),
        ensures
            r as int == perm_mod(n as nat, k as nat, self.size() as nat, M as int),
    {
        let f = self.factorial(n);
        let fi = self.factorial_inversed(n - k);
        proof {
            assert(inv_fact((n - k) as nat, self.size() as nat, M as int) >= 0) by {
                lemma_inv_fact_bounds((n - k) as nat, self.size() as nat, M as int);
            }
        }
        mul_mod(f, fi, M)
    }

    /// The number of `k`-combinations of `n` items, modulo `M`.
    pub fn combination(&self, n: usize, k: usize) -> (r: u64)
        requires
            self.wf(),
            k <= n <= self.size(),
        ensures
            r as int == comb_mod(n as nat, k as nat, self.size() as nat, M as int),
    {
        let p = self.permutation(n, k);
        let fi = self.factorial_inversed(k);
        proof {
            lemma_inv_fact_bounds(k as nat, self.size() as nat, M as int);
        }
        mul_mod(p, fi, M)
    }

    /// The binomial coefficient: the same value as `combination`.
    pub fn binomial(&self, n: usize, k: usize) -> (r: u64)
        requires
            self.wf(),
            k <= n <= self.size(),
        ensures
            r as int == comb_mod(n as nat, k as nat, self.size() as nat, M as int),
    {
        self.combination(n, k)
    }
}

/// The inverse-factorial table values are canonical residues.
proof fn lemma_inv_fact_bounds(k: nat, nn: nat, m: int)
    requires
        m >= 2,
    ensures
        0 <= inv_fact(k, nn, m) < m,
    decreases nn - k,
{
    if k >= nn {
        vstd::arithmetic::div_mod::lemma_mod_bound(
            pow(fact(nn) as int, (m - 2) as nat),
            m,
        );
    } else {
        lemma_inv_fact_bounds((k + 1) as nat, nn, m);
        vstd::arithmetic::div_mod::lemma_mod_bound(inv_fact((k + 1) as nat, nn, m) * (k + 1), m);
    }
}

} // verus!
