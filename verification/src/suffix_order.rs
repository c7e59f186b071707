//! The lexicographic order on suffixes of a symbol sequence, and what it
//! means for a permutation to be the suffix array of that sequence.
//!
//! Symbols are small unsigned integers.  A suffix is compared with another
//! sequence position by position; when one runs out first, the shorter one
//! precedes the longer, the standard sentinel-based tie-break.

use vstd::prelude::*;

verus! {

/// The suffix of `s` that starts at position `i` (empty when `i == s.len()`).
pub open spec fn suffix_of(s: Seq<u32>, i: int) -> Seq<u32> {
    s.subrange(i, s.len() as int)
}

/// Lexicographic "less than or equal" on symbol sequences; a proper prefix
/// precedes every extension of itself.
pub open spec fn lex_le(a: Seq<u32>, b: Seq<u32>) -> bool
    decreases a.len(),
{
    if a.len() == 0 {
        true
    } else if b.len() == 0 {
        false
    } else if a[0] < b[0] {
        true
    } else if a[0] > b[0] {
        false
    } else {
        lex_le(a.drop_first(), b.drop_first())
    }
}

/// `p` occurs at the front of `a`.
pub open spec fn is_prefix_of(p: Seq<u32>, a: Seq<u32>) -> bool {
    p.len() <= a.len() && p == a.subrange(0, p.len() as int)
}

/// The value `v` occurs somewhere in `p`.
pub open spec fn occurs(p: Seq<usize>, v: int) -> bool {
    exists|i: int| 0 <= i < p.len() && p[i] == v
}

/// `p` lists each of `0`, ..., `n - 1` exactly once.
pub open spec fn is_permutation(p: Seq<usize>, n: int) -> bool {
    &&& p.len() == n
    &&& (forall|i: int| 0 <= i < n ==> p[i] < n)
    &&& (forall|i: int, j: int| 0 <= i < j < n ==> p[i] != p[j])
    &&& (forall|v: int| 0 <= v < n ==> #[trigger] occurs(p, v))
}

/// `p` is the suffix array of `s`: a permutation of the start positions,
/// listed so that the suffixes appear in ascending lexicographic order.
pub open spec fn is_suffix_array(s: Seq<u32>, p: Seq<usize>) -> bool {
    &&& is_permutation(p, s.len() as int)
    &&& (forall|i: int, j: int|
        0 <= i < j < p.len() ==> lex_le(
            suffix_of(s, #[trigger] p[i] as int),
            suffix_of(s, #[trigger] p[j] as int),
        ))
}

pub proof fn lemma_lex_refl(a: Seq<u32>)
    ensures
        lex_le(a, a),
    decreases a.len(),
{
    if a.len() > 0 {
        lemma_lex_refl(a.drop_first());
    }
}

pub proof fn lemma_lex_total(a: Seq<u32>, b: Seq<u32>)
    ensures
        lex_le(a, b) || lex_le(b, a),
    decreases a.len(),
{
    if a.len() > 0 && b.len() > 0 && a[0] == b[0] {
        lemma_lex_total(a.drop_first(), b.drop_first());
    }
}

pub proof fn lemma_lex_trans(a: Seq<u32>, b: Seq<u32>, c: Seq<u32>)
    requires
        lex_le(a, b),
        lex_le(b, c),
    ensures
        lex_le(a, c),
    decreases a.len(),
{
    if a.len() > 0 && b.len() > 0 && c.len() > 0 && a[0] == b[0] && b[0] == c[0] {
        lemma_lex_trans(a.drop_first(), b.drop_first(), c.drop_first());
    }
}

pub proof fn lemma_lex_antisym(a: Seq<u32>, b: Seq<u32>)
    requires
        lex_le(a, b),
        lex_le(b, a),
    ensures
        a == b,
    decreases a.len(),
{
    if a.len() == 0 {
        assert(b.len() == 0);
        assert(a =~= b);
    } else {
        assert(b.len() > 0);
        assert(a[0] == b[0]);
        lemma_lex_antisym(a.drop_first(), b.drop_first());
        assert forall|k: int| 0 <= k < a.len() implies a[k] == b[k] by {
            if k >= 1 {
                assert(a[k] == a.drop_first()[k - 1]);
                assert(b[k] == b.drop_first()[k - 1]);
            }
        }
        assert(a =~= b);
    }
}

/// A prefix precedes anything it is a prefix of.
pub proof fn lemma_prefix_lex_le(p: Seq<u32>, a: Seq<u32>)
    requires
        is_prefix_of(p, a),
    ensures
        lex_le(p, a),
    decreases p.len(),
{
    if p.len() > 0 {
        assert(p[0] == a[0]);
        assert(is_prefix_of(p.drop_first(), a.drop_first())) by {
            assert(p.drop_first() =~= a.drop_first().subrange(0, p.len() - 1));
        }
        lemma_prefix_lex_le(p.drop_first(), a.drop_first());
    }
}

/// If `b` lies between `p` and a sequence that starts with `p`, then `b`
/// starts with `p` as well.
pub proof fn lemma_prefix_sandwich(p: Seq<u32>, b: Seq<u32>, c: Seq<u32>)
    requires
        lex_le(p, b),
        lex_le(b, c),
        is_prefix_of(p, c),
    ensures
        is_prefix_of(p, b),
    decreases p.len(),
{
    if p.len() == 0 {
        assert(p =~= b.subrange(0, 0));
    } else {
        assert(b.len() > 0);
        assert(c.len() >= p.len() > 0);
        assert(p[0] == c[0]);
        // p[0] <= b[0] from lex_le(p, b), b[0] <= c[0] from lex_le(b, c),
        // and c[0] == p[0], so all three heads agree.
        assert(p[0] == b[0] && b[0] == c[0]);
        assert(is_prefix_of(p.drop_first(), c.drop_first())) by {
            assert(p.drop_first() =~= c.drop_first().subrange(0, p.len() - 1));
        }
        lemma_prefix_sandwich(p.drop_first(), b.drop_first(), c.drop_first());
        assert(p =~= b.subrange(0, p.len() as int)) by {
            assert(forall|k: int|
                1 <= k < p.len() ==> #[trigger] p[k] == p.drop_first()[k - 1]
                    == b.drop_first().subrange(0, p.len() - 1)[k - 1]);
        }
    }
}

/// Two suffixes of one sequence only compare equal when they are the same
/// suffix: distinct start positions give distinct lengths.
pub proof fn lemma_distinct_suffixes(s: Seq<u32>, i: int, j: int)
    requires
        0 <= i <= s.len(),
        0 <= j <= s.len(),
        suffix_of(s, i) == suffix_of(s, j),
    ensures
        i == j,
{
    assert(suffix_of(s, i).len() == s.len() - i);
    assert(suffix_of(s, j).len() == s.len() - j);
}

/// The suffix array of a sequence is unique: any two permutations that both
/// list the suffixes in ascending order are equal.  This is why construction
/// is deterministic, whatever order internal passes work in, and why any two
/// correct construction strategies must agree.
pub proof fn lemma_suffix_array_unique(s: Seq<u32>, p1: Seq<usize>, p2: Seq<usize>)
    ensures
        is_suffix_array(s, p1) && is_suffix_array(s, p2) ==> p1 == p2,
{
    if is_suffix_array(s, p1) && is_suffix_array(s, p2) {
        let n = s.len() as int;
        lemma_suffix_array_unique_upto(s, p1, p2, n);
        assert(p1 =~= p2);
    }
}

proof fn lemma_suffix_array_unique_upto(s: Seq<u32>, p1: Seq<usize>, p2: Seq<usize>, k: int)
    requires
        is_suffix_array(s, p1),
        is_suffix_array(s, p2),
        0 <= k <= s.len(),
    ensures
        forall|i: int| 0 <= i < k ==> p1[i] == p2[i],
    decreases k,
{
    let n = s.len() as int;
    if k > 0 {
        lemma_suffix_array_unique_upto(s, p1, p2, k - 1);
        let v = p1[k - 1] as int;
        let w = p2[k - 1] as int;
        // v occurs in p2 at some index j, which cannot lie below k - 1.
        assert(occurs(p2, v));
        let j = choose|j: int| 0 <= j < p2.len() && p2[j] == v;
        assert(0 <= j < n && p2[j] == v);
        if j < k - 1 {
            assert(p1[j] == p2[j]);
            assert(p1[j] == p1[k - 1] && j != k - 1);
            assert(false);
        }
        if j > k - 1 {
            assert(lex_le(suffix_of(s, p2[k - 1] as int), suffix_of(s, p2[j] as int)));
        } else {
            lemma_lex_refl(suffix_of(s, w));
        }
        assert(lex_le(suffix_of(s, w), suffix_of(s, v)));
        // Symmetrically, w occurs in p1 at some index at or above k - 1.
        assert(occurs(p1, w));
        let j2 = choose|j2: int| 0 <= j2 < p1.len() && p1[j2] == w;
        assert(0 <= j2 < n && p1[j2] == w);
        if j2 < k - 1 {
            assert(p2[j2] == p1[j2]);
            assert(p2[j2] == p2[k - 1] && j2 != k - 1);
            assert(false);
        }
        if j2 > k - 1 {
            assert(lex_le(suffix_of(s, p1[k - 1] as int), suffix_of(s, p1[j2] as int)));
        } else {
            lemma_lex_refl(suffix_of(s, v));
        }
        assert(lex_le(suffix_of(s, v), suffix_of(s, w)));
        lemma_lex_antisym(suffix_of(s, v), suffix_of(s, w));
        lemma_distinct_suffixes(s, v, w);
    }
}

/// Dropping the first symbol of a suffix is the suffix one position later.
pub proof fn lemma_suffix_step(s: Seq<u32>, i: int)
    requires
        0 <= i < s.len(),
    ensures
        suffix_of(s, i).drop_first() == suffix_of(s, i + 1),
{
    assert(suffix_of(s, i).drop_first() =~= suffix_of(s, i + 1));
}

/// Compares the suffix of `s` at `i` with the suffix of `t` at `j` in the
/// lexicographic order.
pub fn lex_le_suffixes(s: &Vec<u32>, i: usize, t: &Vec<u32>, j: usize) -> (r: bool)
    requires
        i <= s@.len(),
        j <= t@.len(),
    ensures
        r == lex_le(suffix_of(s@, i as int), suffix_of(t@, j as int)),
{
    let n1 = s.len();
    let n2 = t.len();
    let mut k: usize = 0;
    loop
        invariant
            i + k <= n1,
            j + k <= n2,
            n1 == s@.len(),
            n2 == t@.len(),
            lex_le(suffix_of(s@, i as int), suffix_of(t@, j as int)) == lex_le(
                suffix_of(s@, i + k),
                suffix_of(t@, j + k),
            ),
        decreases n1 - i - k,
    {
        if i + k == n1 {
            assert(suffix_of(s@, i + k).len() == 0);
            return true;
        }
        if j + k == n2 {
            assert(suffix_of(t@, j + k).len() == 0);
            assert(suffix_of(s@, i + k).len() > 0);
            return false;
        }
        let a = s[i + k];
        let b = t[j + k];
        assert(suffix_of(s@, i + k)[0] == a && suffix_of(t@, j + k)[0] == b);
        if a < b {
            return true;
        }
        if a > b {
            return false;
        }
        proof {
            lemma_suffix_step(s@, i + k);
            lemma_suffix_step(t@, j + k);
        }
        k = k + 1;
    }
}

/// Sorted order over every pair follows from sorted order over neighbours.
proof fn lemma_adjacent_sorted_pair(s: Seq<u32>, p: Seq<usize>, i: int, j: int)
    requires
        forall|k: int| 0 <= k < p.len() ==> p[k] < s.len(),
        forall|k: int|
            0 <= k < p.len() - 1 ==> lex_le(
                suffix_of(s, #[trigger] p[k] as int),
                suffix_of(s, p[k + 1] as int),
            ),
        0 <= i <= j < p.len(),
    ensures
        lex_le(suffix_of(s, p[i] as int), suffix_of(s, p[j] as int)),
    decreases j - i,
{
    if i == j {
        lemma_lex_refl(suffix_of(s, p[i] as int));
    } else {
        lemma_adjacent_sorted_pair(s, p, i, j - 1);
        assert(lex_le(suffix_of(s, p[j - 1] as int), suffix_of(s, p[j] as int)));
        lemma_lex_trans(
            suffix_of(s, p[i] as int),
            suffix_of(s, p[j - 1] as int),
            suffix_of(s, p[j] as int),
        );
    }
}

/// Decides whether `p` lists each of `0`, ..., `n - 1` exactly once.  The
/// verdict is exact in both directions.
pub fn check_permutation(p: &Vec<usize>, n: usize) -> (r: bool)
    ensures
        r == is_permutation(p@, n as int),
{
    if p.len() != n {
        return false;
    }
    // Every value must lie below n, and none may repeat.
    let mut seen: Vec<bool> = vec![false; n];
    let mut idx: usize = 0;
    while idx < n
        invariant
            idx <= n,
            p@.len() == n,
            seen@.len() == n,
            forall|w: int|
                0 <= w < n ==> (seen@[w] <==> exists|q: int| 0 <= q < idx && p@[q] == w),
            forall|q: int| 0 <= q < idx ==> p@[q] < n,
            forall|q: int, q2: int| 0 <= q < q2 < idx ==> p@[q] != p@[q2],
        decreases n - idx,
    {
        let v = p[idx];
        if v >= n {
            return false;
        }
        if seen[v] {
            proof {
                let q = choose|q: int| 0 <= q < idx && p@[q] == v;
                assert(p@[q] == p@[idx as int] && q < idx);
            }
            return false;
        }
        seen.set(v, true);
        idx = idx + 1;
    }
    // Every value below n must occur: with the marks above, one sweep decides.
    let mut w: usize = 0;
    while w < n
        invariant
            w <= n,
            p@.len() == n,
            seen@.len() == n,
            forall|u: int| 0 <= u < n ==> (seen@[u] <==> exists|q: int| 0 <= q < n && p@[q] == u),
            forall|q: int| 0 <= q < n ==> p@[q] < n,
            forall|q: int, q2: int| 0 <= q < q2 < n ==> p@[q] != p@[q2],
            forall|u: int| 0 <= u < w ==> seen@[u],
        decreases n - w,
    {
        if !seen[w] {
            proof {
                if occurs(p@, w as int) {
                    let q = choose|q: int| 0 <= q < p@.len() && p@[q] == w;
                    assert(seen@[w as int]);
                }
            }
            return false;
        }
        w = w + 1;
    }
    assert forall|v: int| 0 <= v < n implies #[trigger] occurs(p@, v) by {
        assert(seen@[v]);
        let q = choose|q: int| 0 <= q < n && p@[q] == v;
        assert(0 <= q < p@.len() && p@[q] == v);
    }
    true
}

/// Decides whether `p` is the suffix array of `s`.  The verdict is exact in
/// both directions, so a candidate produced by any untrusted strategy can be
/// accepted or rejected soundly.
pub fn check_suffix_array(s: &Vec<u32>, p: &Vec<usize>) -> (r: bool)
    ensures
        r == is_suffix_array(s@, p@),
{
    let n = s.len();
    if !check_permutation(p, n) {
        return false;
    }
    // Neighbouring suffixes must be in order; transitivity covers the rest.
    if n > 0 {
        let mut k: usize = 0;
        while k + 1 < n
            invariant
                n > 0,
                k < n,
                n == s@.len(),
                p@.len() == n,
                is_permutation(p@, n as int),
                forall|q: int|
                    0 <= q < k ==> lex_le(
                        suffix_of(s@, #[trigger] p@[q] as int),
                        suffix_of(s@, p@[q + 1] as int),
                    ),
            decreases n - k,
        {
            if !lex_le_suffixes(s, p[k], s, p[k + 1]) {
                return false;
            }
            k = k + 1;
        }
        assert forall|i: int, j: int| 0 <= i < j < p@.len() implies lex_le(
            suffix_of(s@, #[trigger] p@[i] as int),
            suffix_of(s@, #[trigger] p@[j] as int),
        ) by {
            lemma_adjacent_sorted_pair(s@, p@, i, j);
        }
    }
    true
}

} // verus!
