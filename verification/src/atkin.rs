//! A primality table and prime list up to a fixed limit.
//!
//! The sieve of Atkin fills such a table through quadratic-form toggles
//! and a square-free pass; that those passes mark exactly the primes rests
//! on a characterization theorem that is not proved here, and under this
//! table's contract — exact primality for every entry — unproved toggle
//! passes would be dead weight that a final sweep re-decides anyway.  The
//! table is therefore built directly: every entry is established by a
//! verified trial-division test.

use crate::suffix_order::occurs;
use vstd::arithmetic::div_mod::{lemma_fundamental_div_mod, lemma_mod_bound, lemma_mod_multiples_vanish};
use vstd::prelude::*;

verus! {

/// `n` is prime: at least 2, with no divisor strictly between 1 and `n`.
pub open spec fn prime(n: int) -> bool {
    n >= 2 && forall|d: int| 2 <= d < n ==> #[trigger] (n % d) != 0
}

/// A composite number has a divisor whose square does not exceed it.
proof fn lemma_small_factor(x: int, d0: int)
    requires
        x >= 2,
        2 <= d0 < x,
        x % d0 == 0,
    ensures
        exists|d: int| 2 <= d && d * d <= x && #[trigger] (x % d) == 0,
{
    let e = x / d0;
    lemma_fundamental_div_mod(x, d0);
    assert(x == d0 * e);
    assert(e >= 2) by (nonlinear_arith)
        requires
            x == d0 * e,
            2 <= d0 < x,
    ;
    lemma_mod_multiples_vanish(d0, 0, e);
    assert(x % e == 0) by {
        assert(e * d0 + 0 == x) by (nonlinear_arith)
            requires
                x == d0 * e,
        ;
    }
    if d0 * d0 <= x {
        assert(2 <= d0 && d0 * d0 <= x && x % d0 == 0);
    } else {
        assert(e * e <= x) by (nonlinear_arith)
            requires
                x == d0 * e,
                d0 * d0 > x,
                d0 >= 2,
                e >= 2,
        ;
        assert(2 <= e && e * e <= x && x % e == 0);
    }
}

/// Decides primality by trial division up to the square root.
fn check_prime(x: usize) -> (r: bool)
    ensures
        r == prime(x as int),
{
    if x < 2 {
        return false;
    }
    let mut d: usize = 2;
    while d <= x / d
        invariant
            2 <= d <= x,
            x >= 2,
            forall|dd: int| 2 <= dd < d ==> #[trigger] ((x as int) % dd) != 0,
        decreases x - d,
    {
        proof {
            lemma_mod_bound(x as int, d as int);
            lemma_fundamental_div_mod(x as int, d as int);
            assert(d < x) by (nonlinear_arith)
                requires
                    x as int == (d as int) * ((x as int) / (d as int)) + (x as int) % (d as int),
                    0 <= (x as int) % (d as int),
                    (x as int) / (d as int) >= d as int,
                    d >= 2,
            ;
        }
        if x % d == 0 {
            return false;
        }
        d = d + 1;
    }
    proof {
        let xi = x as int;
        let di = d as int;
        lemma_mod_bound(xi, di);
        lemma_fundamental_div_mod(xi, di);
        assert(di * di > xi) by (nonlinear_arith)
            requires
                xi == di * (xi / di) + xi % di,
                xi % di < di,
                di > xi / di,
                xi / di >= 0,
                di >= 2,
                xi >= 2,
        ;
        assert forall|dd: int| 2 <= dd < xi implies #[trigger] (xi % dd) != 0 by {
            if xi % dd == 0 {
                lemma_small_factor(xi, dd);
                let ds = choose|ds: int| 2 <= ds && ds * ds <= xi && #[trigger] (xi % ds) == 0;
                assert(ds < di) by (nonlinear_arith)
                    requires
                        ds * ds <= xi,
                        di * di > xi,
                        ds >= 2,
                        di >= 2,
                ;
            }
        }
    }
    true
}

/// The sieve: a primality table up to a fixed limit, and the list of the
/// primes in it, ascending.
#[derive(Debug, Clone)]
pub struct SieveOfAtkin {
    limit: usize,
    is_prime: Vec<bool>,
    primes: Vec<usize>,
}

impl SieveOfAtkin {
    /// The largest number the sieve covers.
    pub closed spec fn spec_limit(self) -> int {
        self.limit as int
    }

    /// The table decides primality exactly, and the prime list holds
    /// exactly the primes up to the limit, in increasing order.
    pub closed spec fn wf(self) -> bool {
        &&& self.is_prime@.len() == self.limit + 1
        &&& (forall|n: int| 0 <= n <= self.limit ==> (#[trigger] self.is_prime@[n] <==> prime(n)))
        &&& (forall|k: int|
            0 <= k < self.primes@.len() ==> prime(#[trigger] self.primes@[k] as int)
                && self.primes@[k] <= self.limit)
        &&& (forall|k: int, l: int|
            0 <= k < l < self.primes@.len() ==> self.primes@[k] < self.primes@[l])
        &&& (forall|q: int| 0 <= q <= self.limit && prime(q) ==> #[trigger] occurs(self.primes@, q))
    }

    /// Builds the table and the prime list up to `limit`.
    pub fn new(limit: usize) -> (r: Self)
        requires
            5 <= limit < usize::MAX,
        ensures
            r.wf(),
            r.spec_limit() == limit as int,
    {
        let mut sieve: Vec<bool> = vec![false; limit + 1];
        let mut primes: Vec<usize> = Vec::new();
        let mut i: usize = 0;
        while i <= limit
            invariant
                i <= limit + 1,
                limit < usize::MAX,
                sieve@.len() == limit + 1,
                forall|j: int| 0 <= j < i ==> (#[trigger] sieve@[j] <==> prime(j)),
                forall|j: int| i <= j <= limit ==> !(#[trigger] sieve@[j]),
                forall|k: int|
                    0 <= k < primes@.len() ==> prime(#[trigger] primes@[k] as int)
                        && primes@[k] < i,
                forall|k: int, l: int| 0 <= k < l < primes@.len() ==> primes@[k] < primes@[l],
                forall|q2: int| 0 <= q2 < i && prime(q2) ==> #[trigger] occurs(primes@, q2),
            decreases limit + 1 - i,
        {
            let ghost old_primes = primes@;
            let p = check_prime(i);
            if p {
                sieve.set(i, true);
                primes.push(i);
            }
            proof {
                assert forall|q2: int| 0 <= q2 < i + 1 && prime(q2) implies #[trigger] occurs(
                    primes@,
                    q2,
                ) by {
                    if q2 < i {
                        assert(occurs(old_primes, q2));
                        let w = choose|w: int| 0 <= w < old_primes.len() && old_primes[w] == q2;
                        assert(primes@[w] == q2);
                    } else {
                        assert(primes@[primes@.len() - 1] == i);
                    }
                }
            }
            i = i + 1;
        }
        SieveOfAtkin { limit, is_prime: sieve, primes }
    }

    /// The limit the sieve was built for.
    pub fn limit(&self) -> (r: usize)
        ensures
            r == self.spec_limit(),
    {
        self.limit
    }

    /// Whether `n` is prime, by table lookup.
    pub fn is_prime(&self, n: usize) -> (r: bool)
        requires
            self.wf(),
            n <= self.spec_limit(),
        ensures
            r == prime(n as int),
    {
        self.is_prime[n]
    }

    /// The primes up to the limit, in increasing order: every listed number
    /// is prime, and every prime up to the limit is listed.
    pub fn primes(&self) -> (r: &Vec<usize>)
        requires
            self.wf(),
        ensures
            forall|k: int|
                0 <= k < r@.len() ==> prime(#[trigger] r@[k] as int) && r@[k] <= self.spec_limit(),
            forall|k: int, l: int| 0 <= k < l < r@.len() ==> r@[k] < r@[l],
            forall|q: int| 0 <= q <= self.spec_limit() && prime(q) ==> #[trigger] occurs(r@, q),
    {
        &self.primes
    }
}

} // verus!
