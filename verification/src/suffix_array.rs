//! The suffix array facade: construction over a character sequence, indexed
//! suffix access, and prefix-pattern search by binary search over the sorted
//! suffix order.

use crate::suffix_order::{
    is_permutation, is_prefix_of, is_suffix_array, lemma_lex_refl, lemma_lex_total,
    lemma_lex_trans, lemma_prefix_lex_le, lemma_prefix_sandwich, lemma_suffix_array_unique,
    lex_le, lex_le_suffixes, occurs, suffix_of,
};
use core::marker::PhantomData;
use vstd::prelude::*;
use vstd::slice::{slice_subrange, slice_to_vec};
use vstd::string::StrSliceExecFns;

verus! {

/// The symbol codes of a character sequence: each character as its code
/// point, which orders characters the same way the characters themselves
/// are ordered.
pub open spec fn codes_of(s: Seq<char>) -> Seq<u32> {
    s.map_values(|c: char| c as u32)
}

/// The pattern `pat` occurs in `s` starting at position `i`.
pub open spec fn occurs_at(s: Seq<char>, pat: Seq<char>, i: int) -> bool {
    &&& 0 <= i
    &&& i + pat.len() <= s.len()
    &&& s.subrange(i, i + pat.len() as int) == pat
}

/// A strategy that sorts the suffixes of a symbol sequence.  Every
/// implementation must return the suffix array of its input.
pub trait SuffixSort {
    fn sort(s: &[u32]) -> (r: Vec<usize>)
        ensures
            is_suffix_array(s@, r@),
    ;
}

/// The reference strategy: order the start positions directly by comparing
/// whole suffixes, inserting each position into an already sorted list.
#[derive(Debug, Clone)]
pub struct DefaultSort;

impl SuffixSort for DefaultSort {
    fn sort(s: &[u32]) -> (r: Vec<usize>) {
        let sv: Vec<u32> = slice_to_vec(s);
        let n = sv.len();
        let mut out: Vec<usize> = Vec::new();
        let mut i: usize = 0;
        while i < n
            invariant
                i <= n,
                n == sv@.len(),
                sv@ == s@,
                out@.len() == i,
                forall|k: int| 0 <= k < i ==> out@[k] < i,
                forall|k: int, l: int| 0 <= k < l < i ==> out@[k] != out@[l],
                forall|v: int| 0 <= v < i ==> #[trigger] occurs(out@, v),
                forall|k: int, l: int|
                    0 <= k < l < i ==> lex_le(
                        suffix_of(sv@, #[trigger] out@[k] as int),
                        suffix_of(sv@, #[trigger] out@[l] as int),
                    ),
            decreases n - i,
        {
            let mut pos: usize = 0;
            while pos < out.len() && !lex_le_suffixes(&sv, i, &sv, out[pos])
                invariant
                    pos <= out@.len(),
                    i < n,
                    n == sv@.len(),
                    out@.len() == i,
                    forall|k: int| 0 <= k < i ==> out@[k] < i,
                    forall|k: int|
                        0 <= k < pos ==> !lex_le(
                            suffix_of(sv@, i as int),
                            suffix_of(sv@, #[trigger] out@[k] as int),
                        ),
                decreases out@.len() - pos,
            {
                pos = pos + 1;
            }
            let ghost old_out = out@;
            out.insert(pos, i);
            proof {
                let iv = i as int;
                old_out.insert_ensures(pos as int, i as usize);
                assert forall|k: int| 0 <= k < i + 1 implies out@[k] < i + 1 by {
                    if k > pos {
                        assert(out@[k] == old_out[k - 1]);
                    }
                }
                assert forall|k: int, l: int| 0 <= k < l < i + 1 implies out@[k] != out@[l] by {
                    let a = if k < pos { old_out[k] } else if k == pos { iv as usize } else { old_out[k - 1] };
                    assert(out@[k] == a);
                    let b = if l < pos { old_out[l] } else if l == pos { iv as usize } else { old_out[l - 1] };
                    assert(out@[l] == b);
                }
                assert forall|v: int| 0 <= v < i + 1 implies #[trigger] occurs(out@, v) by {
                    if v == iv {
                        assert(out@[pos as int] == i as usize);
                    } else {
                        assert(occurs(old_out, v));
                        let q = choose|q: int| 0 <= q < old_out.len() && old_out[q] == v;
                        if q < pos {
                            assert(out@[q] == old_out[q]);
                        } else {
                            assert(out@[q + 1] == old_out[q]);
                        }
                    }
                }
                assert forall|k: int, l: int| 0 <= k < l < i + 1 implies lex_le(
                    suffix_of(sv@, #[trigger] out@[k] as int),
                    suffix_of(sv@, #[trigger] out@[l] as int),
                ) by {
                    let sp = pos as int;
                    if k < sp {
                        assert(out@[k] == old_out[k]);
                        assert(!lex_le(suffix_of(sv@, iv), suffix_of(sv@, old_out[k] as int)));
                        lemma_lex_total(suffix_of(sv@, iv), suffix_of(sv@, old_out[k] as int));
                    }
                    if l > sp {
                        assert(out@[l] == old_out[l - 1]);
                    }
                    if k == sp && l > sp {
                        // The element at the insertion point is at most the old
                        // element there, and transitively at most all later ones.
                        assert(sp < old_out.len());
                        assert(lex_le(suffix_of(sv@, iv), suffix_of(sv@, old_out[sp] as int)));
                        if l - 1 > sp {
                            lemma_lex_trans(
                                suffix_of(sv@, iv),
                                suffix_of(sv@, old_out[sp] as int),
                                suffix_of(sv@, old_out[l - 1] as int),
                            );
                        }
                    }
                }
            }
            i = i + 1;
        }
        proof {
            assert(is_permutation(out@, n as int));
        }
        out
    }
}

/// The suffix array of a character sequence, built once by the sorting
/// strategy `S` and immutable afterwards.
#[derive(Debug)]
pub struct SuffixArray<S> {
    phantom: PhantomData<S>,
    buffer: Vec<usize>,
    pub s: Vec<char>,
}

impl<S> SuffixArray<S> {
    /// The underlying text.
    pub closed spec fn text(self) -> Seq<char> {
        self.s@
    }

    /// The sorted order: entry `k` is the start position of the suffix of
    /// sorted rank `k`.
    pub closed spec fn order(self) -> Seq<usize> {
        self.buffer@
    }

    /// The resolved permutation really is the suffix array of the text.
    pub open spec fn wf(self) -> bool {
        is_suffix_array(codes_of(self.text()), self.order())
    }
}

impl<S: SuffixSort> SuffixArray<S> {
    /// Builds the suffix array of `s` in one call.
    pub fn new(s: Vec<char>) -> (r: Self)
        ensures
            r.wf(),
            r.text() == s@,
    {
        let n = s.len();
        let mut codes: Vec<u32> = Vec::new();
        let mut idx: usize = 0;
        while idx < n
            invariant
                idx <= n,
                n == s@.len(),
                codes@.len() == idx,
                forall|k: int| 0 <= k < idx ==> codes@[k] == s@[k] as u32,
            decreases n - idx,
        {
            codes.push(s[idx] as u32);
            idx = idx + 1;
        }
        proof {
            assert(codes@ =~= codes_of(s@));
        }
        let buffer = S::sort(codes.as_slice());
        SuffixArray { phantom: PhantomData, buffer, s }
    }
}

impl<S> SuffixArray<S> {
    /// The length of the underlying text.
    pub fn len(&self) -> (r: usize)
        ensures
            r == self.text().len(),
    {
        self.s.len()
    }

    /// The suffix of the text that starts at position `k`, as a view into
    /// the stored sequence.
    pub fn suffix(&self, k: usize) -> (r: &[char])
        requires
            k <= self.text().len(),
        ensures
            r@ == self.text().subrange(k as int, self.text().len() as int),
    {
        slice_subrange(self.s.as_slice(), k, self.s.len())
    }

    /// The suffix of sorted rank `k`: the `k`-th smallest suffix.
    pub fn index(&self, k: usize) -> (r: &[char])
        requires
            self.wf(),
            k < self.text().len(),
        ensures
            r@ == self.text().subrange(self.order()[k as int] as int, self.text().len() as int),
    {
        let p = self.buffer[k];
        self.suffix(p)
    }
}

/// Two characters with the same code point are the same character.
proof fn lemma_char_code_injective(a: char, b: char)
    requires
        a as u32 == b as u32,
    ensures
        a == b,
{
}

/// Occurrence of a pattern is the same statement over characters and over
/// their codes: the code map respects both equality and order.
pub proof fn lemma_occurs_codes(s: Seq<char>, pat: Seq<char>, i: int)
    requires
        0 <= i <= s.len(),
    ensures
        occurs_at(s, pat, i) <==> is_prefix_of(codes_of(pat), suffix_of(codes_of(s), i)),
{
    let cp = codes_of(pat);
    let cs = codes_of(s);
    assert(cp.len() == pat.len());
    assert(cs.len() == s.len());
    if occurs_at(s, pat, i) {
        assert(cp =~= suffix_of(cs, i).subrange(0, cp.len() as int)) by {
            assert forall|k: int| 0 <= k < cp.len() implies cp[k] == suffix_of(cs, i).subrange(
                0,
                cp.len() as int,
            )[k] by {
                assert(pat[k] == s.subrange(i, i + pat.len() as int)[k]);
                assert(cp[k] == pat[k] as u32);
                assert(suffix_of(cs, i).subrange(0, cp.len() as int)[k] == cs[i + k]);
            }
        }
    }
    if is_prefix_of(cp, suffix_of(cs, i)) {
        assert(i + pat.len() <= s.len());
        assert(s.subrange(i, i + pat.len() as int) =~= pat) by {
            assert forall|k: int| 0 <= k < pat.len() implies s.subrange(
                i,
                i + pat.len() as int,
            )[k] == pat[k] by {
                assert(cp[k] == suffix_of(cs, i).subrange(0, cp.len() as int)[k]);
                assert(cp[k] == pat[k] as u32);
                assert(suffix_of(cs, i)[k] == cs[i + k]);
                assert(pat[k] as u32 == s[i + k] as u32);
                lemma_char_code_injective(pat[k], s[i + k]);
            }
        }
    }
}

/// `p@` is a prefix of the suffix of `s@` at `i`.
fn is_prefix_at(p: &Vec<u32>, s: &Vec<u32>, i: usize) -> (r: bool)
    requires
        i <= s@.len(),
    ensures
        r == is_prefix_of(p@, suffix_of(s@, i as int)),
{
    let m = p.len();
    let n = s.len();
    if m > n - i {
        return false;
    }
    let mut k: usize = 0;
    while k < m
        invariant
            k <= m,
            m == p@.len(),
            n == s@.len(),
            i + m <= n,
            forall|d: int| 0 <= d < k ==> p@[d] == s@[i + d],
        decreases m - k,
    {
        if p[k] != s[i + k] {
            assert(p@[k as int] != suffix_of(s@, i as int).subrange(0, m as int)[k as int]);
            return false;
        }
        k = k + 1;
    }
    proof {
        assert(p@ =~= suffix_of(s@, i as int).subrange(0, m as int));
    }
    true
}

/// If every rank below `lo` holds a suffix strictly below the pattern, and
/// the suffix of rank `lo` (when there is one) does not start with the
/// pattern, then the pattern occurs nowhere: an occurrence would sandwich
/// the pattern below a suffix that starts with it, forcing the suffix of
/// rank `lo` to start with it as well.
proof fn lemma_no_occurrence(
    s: Seq<char>,
    pat: Seq<char>,
    ord: Seq<usize>,
    cs: Seq<u32>,
    pc: Seq<u32>,
    lo: int,
)
    requires
        is_suffix_array(cs, ord),
        cs == codes_of(s),
        pc == codes_of(pat),
        0 <= lo <= ord.len(),
        forall|q: int| 0 <= q < lo ==> !lex_le(pc, suffix_of(cs, #[trigger] ord[q] as int)),
        forall|q: int| lo <= q < ord.len() ==> lex_le(pc, suffix_of(cs, #[trigger] ord[q] as int)),
        lo < ord.len() ==> !is_prefix_of(pc, suffix_of(cs, ord[lo] as int)),
    ensures
        forall|i: int| 0 <= i < s.len() ==> !occurs_at(s, pat, i),
{
    assert forall|i: int| 0 <= i < s.len() implies !occurs_at(s, pat, i) by {
        if occurs_at(s, pat, i) {
            lemma_occurs_codes(s, pat, i);
            assert(is_prefix_of(pc, suffix_of(cs, i)));
            lemma_prefix_lex_le(pc, suffix_of(cs, i));
            assert(occurs(ord, i));
            let q = choose|q: int| 0 <= q < ord.len() && ord[q] == i;
            assert(lex_le(pc, suffix_of(cs, ord[q] as int)));
            assert(q >= lo);
            assert(lo < ord.len());
            assert(lex_le(pc, suffix_of(cs, ord[lo] as int)));
            assert(lex_le(suffix_of(cs, ord[lo] as int), suffix_of(cs, ord[q] as int))) by {
                if q > lo {
                } else {
                    lemma_lex_refl(suffix_of(cs, ord[lo] as int));
                }
            }
            lemma_prefix_sandwich(pc, suffix_of(cs, ord[lo] as int), suffix_of(cs, ord[q] as int));
        }
    }
}

impl<S> SuffixArray<S> {
    /// Searches for a suffix that starts with `pat` by binary search over
    /// the sorted suffix order.  Returns the start position of the
    /// lexicographically least suffix with that prefix, or `None` when the
    /// pattern occurs nowhere in the text; the empty pattern on a nonempty
    /// text matches at the first position in sort order.
    pub fn find(&self, pat: &str) -> (r: Option<usize>)
        requires
            self.wf(),
        ensures
            match r {
                Some(i) => {
                    &&& i < self.text().len()
                    &&& occurs_at(self.text(), pat@, i as int)
                    &&& forall|p2: int|
                        0 <= p2 < self.text().len() && #[trigger] occurs_at(self.text(), pat@, p2)
                            ==> lex_le_chars(
                            self.text().subrange(i as int, self.text().len() as int),
                            self.text().subrange(p2, self.text().len() as int),
                        )
                },
                None => forall|i: int|
                    0 <= i < self.text().len() ==> !occurs_at(self.text(), pat@, i),
            },
            pat@.len() == 0 && self.text().len() > 0 ==> r == Some(self.order()[0]),
    {
        let n = self.s.len();
        // Materialize the pattern and the text as code sequences.
        let m = pat.unicode_len();
        let mut pc: Vec<u32> = Vec::new();
        let mut k: usize = 0;
        while k < m
            invariant
                k <= m,
                m == pat@.len(),
                pc@.len() == k,
                forall|d: int| 0 <= d < k ==> pc@[d] == pat@[d] as u32,
            decreases m - k,
        {
            pc.push(pat.get_char(k) as u32);
            k = k + 1;
        }
        proof {
            assert(pc@ =~= codes_of(pat@));
        }
        let mut cs: Vec<u32> = Vec::new();
        let mut k2: usize = 0;
        while k2 < n
            invariant
                k2 <= n,
                n == self.s@.len(),
                cs@.len() == k2,
                forall|d: int| 0 <= d < k2 ==> cs@[d] == self.s@[d] as u32,
            decreases n - k2,
        {
            cs.push(self.s[k2] as u32);
            k2 = k2 + 1;
        }
        proof {
            assert(cs@ =~= codes_of(self.s@));
        }
        let ghost ord = self.order();
        // Lower bound: the least rank whose suffix is at least the pattern.
        let mut lo: usize = 0;
        let mut hi: usize = n;
        while lo < hi
            invariant
                lo <= hi <= n,
                n == self.s@.len(),
                self.wf(),
                ord == self.order(),
                cs@ == codes_of(self.s@),
                pc@ == codes_of(pat@),
                forall|q: int|
                    0 <= q < lo ==> !lex_le(pc@, suffix_of(cs@, #[trigger] ord[q] as int)),
                forall|q: int| hi <= q < n ==> lex_le(pc@, suffix_of(cs@, #[trigger] ord[q] as int)),
            decreases hi - lo,
        {
            let mid = lo + (hi - lo) / 2;
            let b = self.buffer[mid];
            assert(b == ord[mid as int] && b < n);
            if lex_le_suffixes(&pc, 0, &cs, b) {
                proof {
                    assert(suffix_of(pc@, 0) =~= pc@);
                    assert forall|q: int| mid <= q < n implies lex_le(
                        pc@,
                        suffix_of(cs@, #[trigger] ord[q] as int),
                    ) by {
                        if q > mid {
                            lemma_lex_trans(
                                pc@,
                                suffix_of(cs@, ord[mid as int] as int),
                                suffix_of(cs@, ord[q] as int),
                            );
                        }
                    }
                }
                hi = mid;
            } else {
                proof {
                    assert(suffix_of(pc@, 0) =~= pc@);
                    assert forall|q: int| 0 <= q < mid + 1 implies !lex_le(
                        pc@,
                        suffix_of(cs@, #[trigger] ord[q] as int),
                    ) by {
                        if q < mid {
                            if lex_le(pc@, suffix_of(cs@, ord[q] as int)) {
                                lemma_lex_trans(
                                    pc@,
                                    suffix_of(cs@, ord[q] as int),
                                    suffix_of(cs@, ord[mid as int] as int),
                                );
                            }
                        }
                    }
                }
                lo = mid + 1;
            }
        }
        if lo < n {
            let b0 = self.buffer[lo];
            assert(b0 == ord[lo as int] && b0 < n);
            if is_prefix_at(&pc, &cs, b0) {
                proof {
                    lemma_occurs_codes(self.s@, pat@, b0 as int);
                    // Least match: any occurrence sits at a rank at or
                    // after lo, so its suffix is at least the one returned.
                    assert forall|p2: int|
                        0 <= p2 < self.s@.len() && #[trigger] occurs_at(
                        self.s@,
                        pat@,
                        p2,
                    ) implies lex_le_chars(
                        self.s@.subrange(b0 as int, self.s@.len() as int),
                        self.s@.subrange(p2, self.s@.len() as int),
                    ) by {
                        let ni = self.s@.len() as int;
                        lemma_occurs_codes(self.s@, pat@, p2);
                        assert(is_prefix_of(pc@, suffix_of(cs@, p2)));
                        lemma_prefix_lex_le(pc@, suffix_of(cs@, p2));
                        assert(occurs(ord, p2));
                        let q = choose|q: int| 0 <= q < ord.len() && ord[q] == p2;
                        assert(lex_le(pc@, suffix_of(cs@, ord[q] as int)));
                        assert(q >= lo);
                        assert(lex_le(suffix_of(cs@, b0 as int), suffix_of(cs@, ord[q] as int)))
                            by {
                            if q > lo {
                            } else {
                                lemma_lex_refl(suffix_of(cs@, b0 as int));
                            }
                        }
                        assert(codes_of(self.s@.subrange(b0 as int, ni)) =~= suffix_of(
                            cs@,
                            b0 as int,
                        ));
                        assert(codes_of(self.s@.subrange(p2, ni)) =~= suffix_of(cs@, p2));
                        lemma_lex_le_codes(
                            self.s@.subrange(b0 as int, ni),
                            self.s@.subrange(p2, ni),
                        );
                    }
                    // The empty pattern precedes every suffix, so its lower
                    // bound is rank 0.
                    if pat@.len() == 0 {
                        if lo > 0 {
                            assert(!lex_le(pc@, suffix_of(cs@, ord[0] as int)));
                            assert(false);
                        }
                    }
                }
                return Some(b0);
            }
            proof {
                lemma_no_occurrence(self.s@, pat@, ord, cs@, pc@, lo as int);
                if pat@.len() == 0 {
                    // An empty prefix always holds, so this branch is
                    // unreachable for the empty pattern.
                    assert(pc@ =~= suffix_of(cs@, ord[lo as int] as int).subrange(0, 0));
                    assert(is_prefix_of(pc@, suffix_of(cs@, ord[lo as int] as int)));
                    assert(false);
                }
            }
            return None;
        }
        proof {
            lemma_no_occurrence(self.s@, pat@, ord, cs@, pc@, lo as int);
            if pat@.len() == 0 && self.s@.len() > 0 {
                assert(!lex_le(pc@, suffix_of(cs@, ord[0] as int)));
                assert(false);
            }
        }
        None
    }
}

/// Lexicographic order on character sequences, with the shorter-first
/// tie-break: a proper prefix precedes every extension of itself.
pub open spec fn lex_le_chars(a: Seq<char>, b: Seq<char>) -> bool
    decreases a.len(),
{
    if a.len() == 0 {
        true
    } else if b.len() == 0 {
        false
    } else if a[0] < b[0] {
        true
    } else if a[0] > b[0] {
        false
    } else {
        lex_le_chars(a.drop_first(), b.drop_first())
    }
}

/// Characters compare exactly as their code points do.
proof fn lemma_char_order(a: char, b: char)
    ensures
        (a < b) == ((a as u32) < (b as u32)),
{
}

/// The code map preserves the lexicographic order.
pub proof fn lemma_lex_le_codes(a: Seq<char>, b: Seq<char>)
    ensures
        lex_le_chars(a, b) == lex_le(codes_of(a), codes_of(b)),
    decreases a.len(),
{
    let ca = codes_of(a);
    let cb = codes_of(b);
    if a.len() > 0 && b.len() > 0 {
        assert(ca[0] == a[0] as u32 && cb[0] == b[0] as u32);
        lemma_char_order(a[0], b[0]);
        lemma_char_order(b[0], a[0]);
        if a[0] == b[0] || !(a[0] < b[0]) && !(a[0] > b[0]) {
            lemma_lex_le_codes(a.drop_first(), b.drop_first());
            assert(codes_of(a.drop_first()) =~= ca.drop_first());
            assert(codes_of(b.drop_first()) =~= cb.drop_first());
        }
    }
}

/// The sorted-order property of a well-formed suffix array, stated over
/// the characters themselves: for ranks `i < j`, the suffix at rank `i`
/// precedes (or equals) the suffix at rank `j` lexicographically, ties
/// broken by the shorter suffix first.
pub proof fn lemma_sorted_order<S>(sa: SuffixArray<S>, i: int, j: int)
    requires
        sa.wf(),
        0 <= i < j < sa.text().len(),
    ensures
        sa.order()[i] < sa.text().len(),
        sa.order()[j] < sa.text().len(),
        lex_le_chars(
            sa.text().subrange(sa.order()[i] as int, sa.text().len() as int),
            sa.text().subrange(sa.order()[j] as int, sa.text().len() as int),
        ),
{
    let s = sa.text();
    let n = s.len() as int;
    let cs = codes_of(s);
    let pi = sa.order()[i] as int;
    let pj = sa.order()[j] as int;
    assert(lex_le(suffix_of(cs, pi), suffix_of(cs, pj)));
    assert(codes_of(s.subrange(pi, n)) =~= suffix_of(cs, pi));
    assert(codes_of(s.subrange(pj, n)) =~= suffix_of(cs, pj));
    lemma_lex_le_codes(s.subrange(pi, n), s.subrange(pj, n));
}

/// Construction is deterministic: any two well-formed suffix arrays over the
/// same text carry the same permutation, whichever strategies built them and
/// whatever order their internal passes worked in.
pub proof fn lemma_reconstruction_deterministic<S1, S2>(a: SuffixArray<S1>, b: SuffixArray<S2>)
    requires
        a.wf(),
        b.wf(),
        a.text() == b.text(),
    ensures
        a.order() == b.order(),
{
    lemma_suffix_array_unique(codes_of(a.text()), a.order(), b.order());
}

} // verus!
