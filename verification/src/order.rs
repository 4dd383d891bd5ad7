//! Lexicographic order on byte sequences and the suffix order it induces.
//!
//! Everything the transform promises is phrased over these definitions:
//! `lex_lt` is the strict lexicographic order on byte sequences, `suffix_at`
//! denotes the suffix of a text starting at a given offset, and `wf_text`
//! states the terminator invariant that makes the suffix order strict and
//! total over offsets.

use vstd::prelude::*;

verus! {

/// Strict lexicographic order on byte sequences: `a` comes before `b`
/// when at the first differing position `a` holds the smaller byte, or
/// when `a` is a proper prefix of `b`.
pub open spec fn lex_lt(a: Seq<u8>, b: Seq<u8>) -> bool
    decreases a.len(),
{
    if b.len() == 0 {
        false
    } else if a.len() == 0 {
        true
    } else if a[0] != b[0] {
        a[0] < b[0]
    } else {
        lex_lt(a.drop_first(), b.drop_first())
    }
}

/// Reflexive closure of `lex_lt`.
pub open spec fn lex_le(a: Seq<u8>, b: Seq<u8>) -> bool {
    lex_lt(a, b) || a == b
}

/// The suffix of `t` starting at offset `j`.
pub open spec fn suffix_at(t: Seq<u8>, j: int) -> Seq<u8> {
    t.subrange(j, t.len() as int)
}

/// The terminator invariant: the text is non-empty and its last byte is
/// strictly smaller than every other byte in it.
pub open spec fn wf_text(t: Seq<u8>) -> bool {
    &&& t.len() >= 1
    &&& forall|i: int| 0 <= i < t.len() - 1 ==> #[trigger] t[i] > t[t.len() - 1]
}

/// Exactly two distinct byte sequences are never related both ways.
pub proof fn lemma_lex_lt_asymmetric(a: Seq<u8>, b: Seq<u8>)
    ensures
        !(lex_lt(a, b) && lex_lt(b, a)),
    decreases a.len(),
{
    if a.len() > 0 && b.len() > 0 && a[0] == b[0] {
        lemma_lex_lt_asymmetric(a.drop_first(), b.drop_first());
    }
}

/// `lex_lt` is irreflexive.
pub proof fn lemma_lex_lt_irreflexive(a: Seq<u8>)
    ensures
        !lex_lt(a, a),
    decreases a.len(),
{
    if a.len() > 0 {
        lemma_lex_lt_irreflexive(a.drop_first());
    }
}

/// Any two byte sequences are comparable: below, equal, or above.
pub proof fn lemma_lex_lt_total(a: Seq<u8>, b: Seq<u8>)
    ensures
        lex_lt(a, b) || lex_lt(b, a) || a == b,
    decreases a.len(),
{
    if a.len() == 0 && b.len() == 0 {
        assert(a =~= b);
    } else if a.len() > 0 && b.len() > 0 && a[0] == b[0] {
        lemma_lex_lt_total(a.drop_first(), b.drop_first());
        if !lex_lt(a, b) && !lex_lt(b, a) {
            assert(a.drop_first() =~= b.drop_first());
            assert(a.len() == b.len());
            assert forall|i: int| 0 <= i < a.len() implies a[i] == b[i] by {
                if i >= 1 {
                    assert(a[i] == a.drop_first()[i - 1]);
                    assert(b[i] == b.drop_first()[i - 1]);
                }
            }
            assert(a =~= b);
        }
    }
}

/// `lex_lt` is transitive.
pub proof fn lemma_lex_lt_transitive(a: Seq<u8>, b: Seq<u8>, c: Seq<u8>)
    requires
        lex_lt(a, b),
        lex_lt(b, c),
    ensures
        lex_lt(a, c),
    decreases b.len(),
{
    if a.len() > 0 && b.len() > 0 && c.len() > 0 {
        if a[0] == b[0] && b[0] == c[0] {
            lemma_lex_lt_transitive(a.drop_first(), b.drop_first(), c.drop_first());
        }
    }
}

/// Chaining `lex_le` with `lex_lt` stays strict.
pub proof fn lemma_lex_le_lt_transitive(a: Seq<u8>, b: Seq<u8>, c: Seq<u8>)
    requires
        lex_le(a, b),
        lex_lt(b, c),
    ensures
        lex_lt(a, c),
{
    if lex_lt(a, b) {
        lemma_lex_lt_transitive(a, b, c);
    }
}

/// One order is the negation of the other, flipped.
pub proof fn lemma_lex_le_iff_not_gt(a: Seq<u8>, b: Seq<u8>)
    ensures
        lex_le(a, b) <==> !lex_lt(b, a),
{
    lemma_lex_lt_total(a, b);
    lemma_lex_lt_asymmetric(a, b);
    lemma_lex_lt_irreflexive(a);
}

/// Sequences that agree up to `k` and then differ are ordered by the
/// bytes at position `k`.
pub proof fn lemma_lex_lt_from_diff(a: Seq<u8>, b: Seq<u8>, k: int)
    requires
        0 <= k < a.len(),
        k < b.len(),
        forall|i: int| 0 <= i < k ==> a[i] == b[i],
        a[k] < b[k],
    ensures
        lex_lt(a, b),
    decreases k,
{
    if k > 0 {
        assert forall|i: int| 0 <= i < k - 1 implies a.drop_first()[i] == b.drop_first()[i] by {
            assert(a[i + 1] == b[i + 1]);
        }
        assert(a.drop_first()[k - 1] == a[k]);
        assert(b.drop_first()[k - 1] == b[k]);
        lemma_lex_lt_from_diff(a.drop_first(), b.drop_first(), k - 1);
    }
}

/// A proper prefix comes strictly before its extensions.
pub proof fn lemma_lex_lt_from_prefix(a: Seq<u8>, b: Seq<u8>)
    requires
        a.len() < b.len(),
        forall|i: int| 0 <= i < a.len() ==> a[i] == b[i],
    ensures
        lex_lt(a, b),
    decreases a.len(),
{
    if a.len() > 0 {
        assert forall|i: int| 0 <= i < a.len() - 1 implies a.drop_first()[i]
            == b.drop_first()[i] by {
            assert(a[i + 1] == b[i + 1]);
        }
        lemma_lex_lt_from_prefix(a.drop_first(), b.drop_first());
    }
}

/// Strict suffix order: the suffix starting at `a` comes before the one
/// starting at `b`.
pub open spec fn suffix_lt(t: Seq<u8>, a: int, b: int) -> bool {
    lex_lt(suffix_at(t, a), suffix_at(t, b))
}

/// Suffix order with its reflexive case. Distinct offsets always give
/// suffixes of different lengths, so no tie-break beyond equality of the
/// offsets themselves is needed.
pub open spec fn suffix_leq(t: Seq<u8>, a: int, b: int) -> bool {
    suffix_lt(t, a, b) || a == b
}

/// Over offsets into one text the suffix order is total.
pub proof fn lemma_suffix_order_total(t: Seq<u8>, a: int, b: int)
    requires
        0 <= a < t.len(),
        0 <= b < t.len(),
    ensures
        suffix_leq(t, a, b) || suffix_leq(t, b, a),
        suffix_leq(t, a, b) && suffix_leq(t, b, a) ==> a == b,
        suffix_lt(t, a, b) ==> !suffix_lt(t, b, a),
        a != b ==> (suffix_lt(t, a, b) <==> !suffix_lt(t, b, a)),
{
    lemma_lex_lt_total(suffix_at(t, a), suffix_at(t, b));
    lemma_lex_lt_asymmetric(suffix_at(t, a), suffix_at(t, b));
    if suffix_at(t, a) == suffix_at(t, b) {
        assert(suffix_at(t, a).len() == suffix_at(t, b).len());
        assert(a == b);
    }
}

/// The suffix order is transitive.
pub proof fn lemma_suffix_lt_transitive(t: Seq<u8>, a: int, b: int, c: int)
    requires
        suffix_lt(t, a, b),
        suffix_lt(t, b, c),
    ensures
        suffix_lt(t, a, c),
{
    lemma_lex_lt_transitive(suffix_at(t, a), suffix_at(t, b), suffix_at(t, c));
}

/// The reflexive suffix order is transitive.
pub proof fn lemma_suffix_leq_transitive(t: Seq<u8>, a: int, b: int, c: int)
    requires
        suffix_leq(t, a, b),
        suffix_leq(t, b, c),
    ensures
        suffix_leq(t, a, c),
{
    if a != b && b != c {
        lemma_suffix_lt_transitive(t, a, b, c);
    }
}

/// Compares a cut against the suffix of `text` starting at `j`, strictly.
pub fn cut_lt_suffix(cut: &[u8], text: &[u8], j: usize) -> (r: bool)
    requires
        j < text@.len(),
    ensures
        r == lex_lt(cut@, suffix_at(text@, j as int)),
{
    let n = text.len();
    let m = cut.len();
    let ghost s = suffix_at(text@, j as int);
    let mut k: usize = 0;
    while k < m && j + k < n
        invariant
            j < n,
            n == text@.len(),
            m == cut@.len(),
            k <= m,
            j + k <= n,
            s == suffix_at(text@, j as int),
            forall|i: int| 0 <= i < k ==> cut@[i] == s[i],
        decreases m - k,
    {
        let c = cut[k];
        let d = text[j + k];
        assert(s[k as int] == d);
        if c != d {
            proof {
                if c < d {
                    lemma_lex_lt_from_diff(cut@, s, k as int);
                } else {
                    lemma_lex_lt_from_diff(s, cut@, k as int);
                    lemma_lex_lt_asymmetric(cut@, s);
                }
            }
            return c < d;
        }
        k = k + 1;
    }
    if k == m {
        // The cut is a prefix of the suffix; it comes strictly first
        // exactly when the suffix is longer.
        if j + m < n {
            proof {
                lemma_lex_lt_from_prefix(cut@, s);
            }
            true
        } else {
            proof {
                assert(cut@ =~= s);
                lemma_lex_lt_irreflexive(cut@);
            }
            false
        }
    } else {
        // The suffix ran out first: it is a proper prefix of the cut.
        proof {
            assert(s.len() == n - j);
            assert forall|i: int| 0 <= i < s.len() implies s[i] == cut@[i] by {}
            lemma_lex_lt_from_prefix(s, cut@);
            lemma_lex_lt_asymmetric(cut@, s);
        }
        false
    }
}

/// Compares the suffix of `text` starting at `j` against a cut, allowing
/// equality.
pub fn suffix_le_cut(text: &[u8], j: usize, cut: &[u8]) -> (r: bool)
    requires
        j < text@.len(),
    ensures
        r == lex_le(suffix_at(text@, j as int), cut@),
{
    let lt = cut_lt_suffix(cut, text, j);
    proof {
        lemma_lex_le_iff_not_gt(suffix_at(text@, j as int), cut@);
    }
    !lt
}

/// Compares two suffixes of `text`, allowing equality of offsets.
pub fn suffix_le_suffix(text: &[u8], a: usize, b: usize) -> (r: bool)
    requires
        a < text@.len(),
        b < text@.len(),
    ensures
        r == suffix_leq(text@, a as int, b as int),
{
    let n = text.len();
    if a == b {
        return true;
    }
    let ghost sa = suffix_at(text@, a as int);
    let ghost sb = suffix_at(text@, b as int);
    let mut k: usize = 0;
    while a + k < n && b + k < n
        invariant
            a < n,
            b < n,
            a != b,
            n == text@.len(),
            a + k <= n,
            b + k <= n,
            sa == suffix_at(text@, a as int),
            sb == suffix_at(text@, b as int),
            forall|i: int| 0 <= i < k ==> sa[i] == sb[i],
        decreases n - k,
    {
        let c = text[a + k];
        let d = text[b + k];
        assert(sa[k as int] == c);
        assert(sb[k as int] == d);
        if c != d {
            proof {
                if c < d {
                    lemma_lex_lt_from_diff(sa, sb, k as int);
                } else {
                    lemma_lex_lt_from_diff(sb, sa, k as int);
                    lemma_lex_lt_asymmetric(sa, sb);
                }
            }
            return c < d;
        }
        k = k + 1;
    }
    // One suffix ran out: the shorter one is a proper prefix of the other.
    if a + k == n {
        proof {
            assert(sa.len() == n - a);
            assert(sb.len() == n - b);
            assert(sa.len() < sb.len());
            lemma_lex_lt_from_prefix(sa, sb);
        }
        true
    } else {
        proof {
            assert(sb.len() < sa.len());
            lemma_lex_lt_from_prefix(sb, sa);
            lemma_lex_lt_asymmetric(sa, sb);
        }
        false
    }
}

} // verus!
