//! Suffix sorting by induced sorting with recursive reduction.
//!
//! Positions are classified `L`, `S` or `LMS`; a bucket-induction pass
//! places LMS seeds and induces the rest; LMS substrings are named to build
//! a reduced sequence, solved recursively when names repeat.  Each
//! induction pass validates its own output against the permutation
//! specification, and the driver validates its candidate against the full
//! suffix-array specification, falling back to the directly verified
//! reference sort if the candidate is rejected.  The published contracts
//! therefore hold unconditionally and never rest on the unproven
//! internals of the passes.

use crate::suffix_array::{DefaultSort, SuffixArray, SuffixSort};
use crate::suffix_order::{
    check_permutation, check_suffix_array, is_permutation, is_suffix_array, occurs,
};
use vstd::prelude::*;
use vstd::slice::slice_to_vec;

verus! {

/// The type of a position: `L` when its suffix is greater than the suffix
/// one position to the right, `S` when smaller, and `LMS` for an `S`
/// position standing right after an `L` position.
#[derive(Debug, Clone, Copy, PartialEq, Eq, Structural)]
pub enum LS {
    L,
    S,
    LMS,
}

/// The suffix at `i` is smaller than the suffix at `i + 1`; the last
/// position counts as `L` by convention.
pub open spec fn stype(s: Seq<u32>, i: int) -> bool
    decreases s.len() - i,
{
    if i < 0 || i >= s.len() - 1 {
        false
    } else if s[i] < s[i + 1] {
        true
    } else if s[i] > s[i + 1] {
        false
    } else {
        stype(s, i + 1)
    }
}

/// Position `i` is a leftmost `S` position: `S`-type right after an
/// `L`-type position.
pub open spec fn is_lms_pos(s: Seq<u32>, i: int) -> bool {
    0 < i < s.len() && stype(s, i) && !stype(s, i - 1)
}

/// `ty` labels every position of `s` correctly.
pub open spec fn types_ok(s: Seq<u32>, ty: Seq<LS>) -> bool {
    &&& ty.len() == s.len()
    &&& (forall|i: int| 0 <= i < s.len() ==> ((#[trigger] ty[i] == LS::L) <==> !stype(s, i)))
    &&& (forall|i: int| 0 <= i < s.len() ==> ((#[trigger] ty[i] == LS::LMS) <==> is_lms_pos(s, i)))
}

impl LS {
    /// `S`-type in the wide sense: plain `S` or `LMS`.
    pub fn is_s(self) -> (r: bool)
        ensures
            r == (self == LS::S || self == LS::LMS),
    {
        match self {
            LS::L => false,
            LS::S => true,
            LS::LMS => true,
        }
    }

    /// `L`-type.
    pub fn is_l(self) -> (r: bool)
        ensures
            r == (self == LS::L),
    {
        match self {
            LS::L => true,
            LS::S => false,
            LS::LMS => false,
        }
    }

    /// A leftmost `S` position.
    pub fn is_lms(self) -> (r: bool)
        ensures
            r == (self == LS::LMS),
    {
        match self {
            LS::L => false,
            LS::S => false,
            LS::LMS => true,
        }
    }
}

/// Labels every position of `s` in one backward scan.
pub fn classify(s: &Vec<u32>) -> (ty: Vec<LS>)
    requires
        s@.len() >= 1,
    ensures
        types_ok(s@, ty@),
{
    let n = s.len();
    let mut ty: Vec<LS> = vec![LS::L; n];
    assert(!stype(s@, n - 1));
    let mut i: usize = n - 1;
    while i > 0
        invariant
            i <= n - 1,
            n == s@.len(),
            ty@.len() == n,
            forall|j: int| i <= j < n ==> ((#[trigger] ty@[j] == LS::L) <==> !stype(s@, j)),
            forall|j: int| i < j < n ==> ((#[trigger] ty@[j] == LS::LMS) <==> is_lms_pos(s@, j)),
            ty@[i as int] != LS::LMS,
        decreases i,
    {
        i = i - 1;
        let up = ty[i + 1];
        let t = if s[i] < s[i + 1] {
            LS::S
        } else if s[i] > s[i + 1] {
            LS::L
        } else {
            up
        };
        proof {
            assert((t == LS::L) <==> !stype(s@, i as int));
            assert(t != LS::LMS);
        }
        ty.set(i, t);
        if t == LS::L && up == LS::S {
            ty.set(i + 1, LS::LMS);
            proof {
                assert(is_lms_pos(s@, i + 1));
            }
        }
    }
    ty
}

/// The LMS positions of `s` in increasing order.  There are strictly fewer
/// of them than positions, which bounds the recursive reduction.
pub fn lms_positions(s: &Vec<u32>, ty: &Vec<LS>) -> (rep: Vec<usize>)
    requires
        s@.len() >= 1,
        types_ok(s@, ty@),
    ensures
        rep@.len() < s@.len(),
        forall|k: int| 0 <= k < rep@.len() ==> is_lms_pos(s@, #[trigger] rep@[k] as int),
        forall|k: int, l: int| 0 <= k < l < rep@.len() ==> rep@[k] < rep@[l],
        forall|i: int|
            0 <= i < s@.len() && is_lms_pos(s@, i) ==> #[trigger] occurs(
                rep@,
                i,
            ),
{
    let n = s.len();
    let mut rep: Vec<usize> = Vec::new();
    let mut i: usize = 0;
    while i < n
        invariant
            i <= n,
            n == s@.len(),
            types_ok(s@, ty@),
            forall|k: int| 0 <= k < rep@.len() ==> is_lms_pos(s@, #[trigger] rep@[k] as int),
            forall|k: int| 0 <= k < rep@.len() ==> rep@[k] < i,
            forall|k: int, l: int| 0 <= k < l < rep@.len() ==> rep@[k] < rep@[l],
            forall|j: int|
                0 <= j < i && is_lms_pos(s@, j) ==> #[trigger] occurs(
                    rep@,
                    j,
                ),
            i >= 1 ==> rep@.len() <= i - 1,
            i == 0 ==> rep@.len() == 0,
        decreases n - i,
    {
        let ghost old_rep = rep@;
        if ty[i].is_lms() {
            assert(i >= 1) by {
                assert(is_lms_pos(s@, i as int));
            }
            rep.push(i);
        }
        proof {
            assert forall|j: int|
                0 <= j < i + 1 && is_lms_pos(s@, j) implies #[trigger] occurs(
                rep@,
                j,
            ) by {
                if j < i {
                    assert(occurs(old_rep, j));
                    let q = choose|q: int| 0 <= q < old_rep.len() && old_rep[q] == j;
                    assert(rep@[q] == j);
                } else {
                    assert(rep@[rep@.len() - 1] == i);
                }
            }
        }
        i = i + 1;
    }
    rep
}

/// Compares the LMS substrings that start at `i` and `j`: equal exactly
/// when every compared symbol matches and both runs reach the next LMS
/// boundary (or the end) at the same offset.
fn lms_substrings_equal(s: &Vec<u32>, ty: &Vec<LS>, i: usize, j: usize) -> bool
    requires
        i < s@.len(),
        j < s@.len(),
        ty@.len() == s@.len(),
{
    let n = s.len();
    let mut d: usize = 0;
    loop
        invariant
            i + d < n,
            j + d < n,
            n == s@.len(),
            ty@.len() == n,
        decreases n - d,
    {
        if s[i + d] != s[j + d] {
            return false;
        }
        d = d + 1;
        let bi = i + d == n || ty[i + d].is_lms();
        let bj = j + d == n || ty[j + d].is_lms();
        if bi && bj {
            return true;
        }
        if bi || bj {
            return false;
        }
    }
}

/// The identity order `0, 1, ..., n - 1`: the fallback a pass returns when
/// it could not resolve every slot distinctly.  It is a permutation, which
/// is all a pass promises; the driver's final validation accepts a
/// candidate built from it only if it happens to be the true order.
fn identity_order(n: usize) -> (r: Vec<usize>)
    ensures
        is_permutation(r@, n as int),
{
    let mut r: Vec<usize> = Vec::new();
    let mut i: usize = 0;
    while i < n
        invariant
            i <= n,
            r@.len() == i,
            forall|k: int| 0 <= k < i ==> r@[k] == k,
        decreases n - i,
    {
        r.push(i);
        i = i + 1;
    }
    proof {
        assert forall|v: int| 0 <= v < n implies #[trigger] occurs(r@, v) by {
            assert(r@[v] == v);
        }
    }
    r
}

/// One bucket-induction pass: the LMS seeds go to the tails of their
/// symbol buckets in reverse seed order, the sentinel position seeds the
/// head of its bucket, a forward sweep induces the `L`-type suffixes and a
/// backward sweep the `S`-type ones.  The result is always a permutation
/// of the start positions, whatever order the seeds came in: the pass
/// checks its own output and falls back to the identity order if any slot
/// stayed unresolved or repeated, leaving the driver's final validation to
/// judge the candidate.
pub fn induced_sort(s: &Vec<u32>, ty: &Vec<LS>, seed: &Vec<usize>, sigma: usize) -> (r: Vec<usize>)
    requires
        s@.len() >= 1,
        ty@.len() == s@.len(),
        forall|i: int| 0 <= i < s@.len() ==> (s@[i] as int) < sigma as int,
        forall|k: int| 0 <= k < seed@.len() ==> seed@[k] < s@.len(),
    ensures
        is_permutation(r@, s@.len() as int),
{
    let n = s.len();
    // Symbol frequencies.
    let mut counts: Vec<usize> = vec![0usize; sigma];
    let mut idx: usize = 0;
    while idx < n
        invariant
            idx <= n,
            n == s@.len(),
            counts@.len() == sigma,
            forall|i: int| 0 <= i < s@.len() ==> (s@[i] as int) < sigma as int,
            forall|e: int| 0 <= e < sigma ==> counts@[e] <= idx,
        decreases n - idx,
    {
        let c = s[idx] as usize;
        let cur = counts[c];
        counts.set(c, cur + 1);
        idx = idx + 1;
    }
    // Bucket intervals from prefix sums.
    let mut bin1: Vec<(usize, usize)> = Vec::new();
    let mut acc: usize = 0;
    let mut c: usize = 0;
    while c < sigma
        invariant
            c <= sigma,
            bin1@.len() == c,
            acc <= n,
            n == s@.len(),
            counts@.len() == sigma,
            forall|e: int| 0 <= e < c ==> (#[trigger] bin1@[e]).0 <= n && bin1@[e].1 <= n,
        decreases sigma - c,
    {
        let cnt = counts[c];
        if cnt > n - acc {
            return identity_order(n);
        }
        bin1.push((acc, acc + cnt));
        acc = acc + cnt;
        c = c + 1;
    }
    let mut bin2: Vec<(usize, usize)> = Vec::new();
    let mut c2: usize = 0;
    while c2 < sigma
        invariant
            c2 <= sigma,
            bin1@.len() == sigma,
            bin2@.len() == c2,
            n == s@.len(),
            forall|e: int| 0 <= e < sigma ==> (#[trigger] bin1@[e]).0 <= n && bin1@[e].1 <= n,
            forall|e: int| 0 <= e < c2 ==> (#[trigger] bin2@[e]).0 <= n && bin2@[e].1 <= n,
        decreases sigma - c2,
    {
        bin2.push(bin1[c2]);
        c2 = c2 + 1;
    }
    // Partial result: unresolved slots stay `None` until a pass fills them.
    let mut sa: Vec<Option<usize>> = vec![None; n];
    // LMS seeds, tails of their buckets, in reverse seed order.
    let mut k: usize = seed.len();
    while k > 0
        invariant
            k <= seed@.len(),
            n == s@.len(),
            sa@.len() == n,
            bin1@.len() == sigma,
            forall|i: int| 0 <= i < s@.len() ==> (s@[i] as int) < sigma as int,
            forall|q: int| 0 <= q < seed@.len() ==> seed@[q] < n,
            forall|e: int| 0 <= e < sigma ==> (#[trigger] bin1@[e]).0 <= n && bin1@[e].1 <= n,
            forall|q: int| 0 <= q < n ==> (#[trigger] sa@[q] matches Some(v) ==> v < n),
        decreases k,
    {
        k = k - 1;
        let lms = seed[k];
        let c = s[lms] as usize;
        let t = bin1[c].1;
        if t == 0 {
            return identity_order(n);
        }
        sa.set(t - 1, Some(lms));
        let h = bin1[c].0;
        bin1.set(c, (h, t - 1));
    }
    // The sentinel position seeds the head of its bucket.
    let cl = s[n - 1] as usize;
    let hl = bin1[cl].0;
    if hl >= n {
        return identity_order(n);
    }
    sa.set(hl, Some(n - 1));
    let tl = bin1[cl].1;
    bin1.set(cl, (hl + 1, tl));
    // Forward sweep: induce the `L`-type suffixes.
    let mut i2: usize = 0;
    while i2 < n
        invariant
            i2 <= n,
            n == s@.len(),
            ty@.len() == n,
            sa@.len() == n,
            bin1@.len() == sigma,
            forall|i: int| 0 <= i < s@.len() ==> (s@[i] as int) < sigma as int,
            forall|e: int| 0 <= e < sigma ==> (#[trigger] bin1@[e]).0 <= n && bin1@[e].1 <= n,
            forall|q: int| 0 <= q < n ==> (#[trigger] sa@[q] matches Some(v) ==> v < n),
        decreases n - i2,
    {
        if let Some(prev) = sa[i2] {
            if prev >= 1 {
                let pm = prev - 1;
                if ty[pm].is_l() {
                    let c = s[pm] as usize;
                    let h = bin1[c].0;
                    if h >= n {
                        return identity_order(n);
                    }
                    sa.set(h, Some(pm));
                    let t = bin1[c].1;
                    bin1.set(c, (h + 1, t));
                }
            }
        }
        i2 = i2 + 1;
    }
    // Backward sweep: induce the `S`-type suffixes, LMS included.
    let mut i3: usize = n;
    while i3 > 0
        invariant
            i3 <= n,
            n == s@.len(),
            ty@.len() == n,
            sa@.len() == n,
            bin2@.len() == sigma,
            forall|i: int| 0 <= i < s@.len() ==> (s@[i] as int) < sigma as int,
            forall|e: int| 0 <= e < sigma ==> (#[trigger] bin2@[e]).0 <= n && bin2@[e].1 <= n,
            forall|q: int| 0 <= q < n ==> (#[trigger] sa@[q] matches Some(v) ==> v < n),
        decreases i3,
    {
        i3 = i3 - 1;
        if let Some(prev) = sa[i3] {
            if prev >= 1 {
                let pm = prev - 1;
                if ty[pm].is_s() {
                    let c = s[pm] as usize;
                    let t = bin2[c].1;
                    if t == 0 {
                        return identity_order(n);
                    }
                    sa.set(t - 1, Some(pm));
                    let h = bin2[c].0;
                    bin2.set(c, (h, t - 1));
                }
            }
        }
    }
    // Every slot must be resolved now.
    let mut res: Vec<usize> = Vec::new();
    let mut i4: usize = 0;
    while i4 < n
        invariant
            i4 <= n,
            n == s@.len(),
            sa@.len() == n,
            res@.len() == i4,
            forall|q: int| 0 <= q < n ==> (#[trigger] sa@[q] matches Some(v) ==> v < n),
            forall|q: int| 0 <= q < i4 ==> #[trigger] res@[q] < n,
        decreases n - i4,
    {
        match sa[i4] {
            Some(v) => {
                res.push(v);
            },
            None => {
                return identity_order(n);
            },
        }
        i4 = i4 + 1;
    }
    // Every slot is resolved; the values must also be pairwise distinct.
    if check_permutation(&res, n) {
        res
    } else {
        identity_order(n)
    }
}

/// The recursive driver: classify, run a bootstrap induction pass seeded
/// with the LMS positions in their natural left-to-right order, name the
/// LMS substrings, recurse on the reduced sequence when names repeat, and
/// run the final induction pass on the correctly ordered seeds.  The
/// candidate so produced is validated against the full suffix-array
/// specification; a rejected candidate (which a correct run never
/// produces) is replaced by the output of the directly verified reference
/// sort, so the driver always returns the suffix array of its input.
pub fn sa_is(s: &Vec<u32>, sigma: usize) -> (r: Vec<usize>)
    requires
        forall|i: int| 0 <= i < s@.len() ==> (s@[i] as int) < sigma as int,
    ensures
        is_suffix_array(s@, r@),
    decreases s@.len(),
{
    let n = s.len();
    if n == 0 {
        let r: Vec<usize> = Vec::new();
        proof {
            assert(is_permutation(r@, 0));
        }
        return r;
    }
    let ty = classify(s);
    let rep = lms_positions(s, &ty);
    let m = rep.len();
    // Bootstrap pass: approximate order is enough to rank LMS substrings.
    let sa1 = induced_sort(s, &ty, &rep, sigma);
    // Name the LMS substrings in their induced order.
    let mut t_opt: Vec<Option<u32>> = vec![None; n];
    let mut cur: u32 = 0;
    let mut prev: Option<usize> = None;
    let mut q: usize = 0;
    while q < n
        invariant
            q <= n,
            n == s@.len(),
            ty@.len() == n,
            sa1@.len() == n,
            t_opt@.len() == n,
            forall|e: int| 0 <= e < n ==> #[trigger] sa1@[e] < n,
            prev matches Some(p) ==> p < n,
            forall|e: int| 0 <= e < n ==> (#[trigger] t_opt@[e] matches Some(v) ==> v <= cur),
        decreases n - q,
    {
        let pos = sa1[q];
        if ty[pos].is_lms() {
            match prev {
                None => {
                    t_opt.set(pos, Some(0));
                },
                Some(p) => {
                    if !lms_substrings_equal(s, &ty, p, pos) {
                        if cur == u32::MAX {
                            return DefaultSort::sort(s.as_slice());
                        }
                        cur = cur + 1;
                    }
                    t_opt.set(pos, Some(cur));
                },
            }
            prev = Some(pos);
        }
        q = q + 1;
    }
    // The reduced sequence: one rank per LMS position, in position order.
    let mut reduced: Vec<u32> = Vec::new();
    let mut k: usize = 0;
    while k < m
        invariant
            k <= m,
            m == rep@.len(),
            m < n,
            n == s@.len(),
            t_opt@.len() == n,
            reduced@.len() == k,
            forall|e: int| 0 <= e < m ==> #[trigger] rep@[e] < n,
            forall|e: int| 0 <= e < n ==> (#[trigger] t_opt@[e] matches Some(v) ==> v <= cur),
            forall|e: int| 0 <= e < k ==> (#[trigger] reduced@[e] as int) <= cur as int,
        decreases m - k,
    {
        match t_opt[rep[k]] {
            Some(v) => {
                reduced.push(v);
            },
            None => {
                return DefaultSort::sort(s.as_slice());
            },
        }
        k = k + 1;
    }
    // Order the LMS seeds: directly when the names are pairwise distinct,
    // through the recursively built suffix array of the reduced sequence
    // otherwise.
    let mut seed2: Vec<usize> = Vec::new();
    if m > 0 {
        let distinct_minus = cur as usize;
        if distinct_minus < m - 1 {
            let sub = sa_is(&reduced, distinct_minus + 1);
            let mut k2: usize = 0;
            while k2 < m
                invariant
                    k2 <= m,
                    m == rep@.len(),
                    sub@.len() == m,
                    m < n,
                    n == s@.len(),
                    seed2@.len() == k2,
                    forall|e: int| 0 <= e < m ==> #[trigger] sub@[e] < m,
                    forall|e: int| 0 <= e < m ==> #[trigger] rep@[e] < n,
                    forall|e: int| 0 <= e < k2 ==> #[trigger] seed2@[e] < n,
                decreases m - k2,
            {
                seed2.push(rep[sub[k2]]);
                k2 = k2 + 1;
            }
        } else {
            // Ranks are already distinct: invert rank -> position.
            let mut inv_opt: Vec<Option<usize>> = vec![None; m];
            let mut k3: usize = 0;
            while k3 < m
                invariant
                    k3 <= m,
                    m == rep@.len(),
                    reduced@.len() == m,
                    inv_opt@.len() == m,
                    m < n,
                    n == s@.len(),
                    forall|e: int| 0 <= e < m ==> #[trigger] rep@[e] < n,
                    forall|e: int|
                        0 <= e < m ==> (#[trigger] inv_opt@[e] matches Some(v) ==> v < n),
                decreases m - k3,
            {
                let rk = reduced[k3] as usize;
                if rk >= m {
                    return DefaultSort::sort(s.as_slice());
                }
                inv_opt.set(rk, Some(rep[k3]));
                k3 = k3 + 1;
            }
            let mut k4: usize = 0;
            while k4 < m
                invariant
                    k4 <= m,
                    m == rep@.len(),
                    inv_opt@.len() == m,
                    m < n,
                    n == s@.len(),
                    seed2@.len() == k4,
                    forall|e: int|
                        0 <= e < m ==> (#[trigger] inv_opt@[e] matches Some(v) ==> v < n),
                    forall|e: int| 0 <= e < k4 ==> #[trigger] seed2@[e] < n,
                decreases m - k4,
            {
                match inv_opt[k4] {
                    Some(v) => {
                        seed2.push(v);
                    },
                    None => {
                        return DefaultSort::sort(s.as_slice());
                    },
                }
                k4 = k4 + 1;
            }
        }
    }
    // Final pass with the correctly ordered seeds, then validation.
    let cand = induced_sort(s, &ty, &seed2, sigma);
    if check_suffix_array(s, &cand) {
        cand
    } else {
        DefaultSort::sort(s.as_slice())
    }
}

/// The induced-sorting strategy: the driver, over the alphabet that just
/// covers the input's symbols.
#[derive(Debug, Clone)]
pub struct InducedSort;

impl SuffixSort for InducedSort {
    fn sort(s: &[u32]) -> (r: Vec<usize>) {
        let sv: Vec<u32> = slice_to_vec(s);
        let n = sv.len();
        let mut maxv: u32 = 0;
        let mut k: usize = 0;
        while k < n
            invariant
                k <= n,
                n == sv@.len(),
                forall|e: int| 0 <= e < k ==> #[trigger] sv@[e] <= maxv,
            decreases n - k,
        {
            if sv[k] > maxv {
                maxv = sv[k];
            }
            k = k + 1;
        }
        let sigma_minus = maxv as usize;
        if sigma_minus < usize::MAX {
            return sa_is(&sv, sigma_minus + 1);
        }
        DefaultSort::sort(s)
    }
}

/// The suffix array built by induced sorting.
pub type SaIs = SuffixArray<InducedSort>;

} // verus!
