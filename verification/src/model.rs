//! The mathematical statement of the transform.
//!
//! `sorted_offsets` is the sequence of all suffix offsets of a text in
//! ascending lexicographic suffix order, and `bwt_of` maps each of them to
//! the byte cyclically preceding it: the transform itself. Everything the
//! encoder promises is phrased against these definitions.

use vstd::prelude::*;
use vstd::relations::total_ordering;

use crate::order::lemma_lex_lt_asymmetric;
use crate::order::lemma_lex_lt_irreflexive;
use crate::order::lemma_lex_lt_total;
use crate::order::lemma_lex_lt_transitive;
use crate::order::lemma_suffix_order_total;
use crate::order::suffix_at;
use crate::order::suffix_lt;

verus! {

/// Reflexive total order on offsets: by suffix, ties (which valid distinct
/// offsets never produce) by offset value.
pub open spec fn off_leq(t: Seq<u8>, a: usize, b: usize) -> bool {
    if suffix_lt(t, a as int, b as int) {
        true
    } else if suffix_lt(t, b as int, a as int) {
        false
    } else {
        a <= b
    }
}

/// The offset order as a function value, for use with sequence sorting.
pub open spec fn off_leq_fn(t: Seq<u8>) -> spec_fn(usize, usize) -> bool {
    |a: usize, b: usize| off_leq(t, a, b)
}

/// `off_leq` is a total ordering over all offsets.
pub proof fn lemma_off_leq_total_ordering(t: Seq<u8>)
    ensures
        total_ordering(off_leq_fn(t)),
{
    let leq = off_leq_fn(t);
    assert forall|a: usize, b: usize| #[trigger] leq(a, b) || #[trigger] leq(b, a) by {
        lemma_lex_lt_asymmetric(suffix_at(t, a as int), suffix_at(t, b as int));
    }
    assert forall|a: usize, b: usize| #[trigger] leq(a, b) && #[trigger] leq(b, a) implies a
        == b by {
        lemma_lex_lt_asymmetric(suffix_at(t, a as int), suffix_at(t, b as int));
    }
    assert forall|a: usize, b: usize, c: usize|
        #[trigger] leq(a, b) && #[trigger] leq(b, c) implies leq(a, c) by {
        let sa = suffix_at(t, a as int);
        let sb = suffix_at(t, b as int);
        let sc = suffix_at(t, c as int);
        lemma_lex_lt_total(sa, sb);
        lemma_lex_lt_total(sb, sc);
        lemma_lex_lt_total(sa, sc);
        lemma_lex_lt_asymmetric(sa, sb);
        lemma_lex_lt_asymmetric(sb, sc);
        lemma_lex_lt_asymmetric(sa, sc);
        if suffix_lt(t, a as int, b as int) && suffix_lt(t, b as int, c as int) {
            lemma_lex_lt_transitive(sa, sb, sc);
        } else if sa == sb && suffix_lt(t, b as int, c as int) {
        } else if suffix_lt(t, a as int, b as int) && sb == sc {
        }
    }
    assert forall|a: usize| #[trigger] leq(a, a) by {
        lemma_lex_lt_irreflexive(suffix_at(t, a as int));
    }
}

/// All offsets of a text of length `n`, in position order.
pub open spec fn identity_offsets(n: nat) -> Seq<usize> {
    Seq::new(n, |i: int| i as usize)
}

/// All suffix offsets of `t`, arranged in ascending suffix order.
pub open spec fn sorted_offsets(t: Seq<u8>) -> Seq<usize> {
    identity_offsets(t.len()).sort_by(off_leq_fn(t))
}

/// The byte cyclically preceding the suffix that starts at `j`.
pub open spec fn pred_byte(t: Seq<u8>, j: int) -> u8 {
    if j == 0 {
        t[t.len() - 1]
    } else {
        t[j - 1]
    }
}

/// The cyclic predecessor byte of each offset in a sequence.
pub open spec fn pred_map(t: Seq<u8>, s: Seq<usize>) -> Seq<u8> {
    s.map_values(|j: usize| pred_byte(t, j as int))
}

/// The Burrows-Wheeler transform of `t`: the cyclic predecessor of every
/// suffix, in ascending suffix order.
pub open spec fn bwt_of(t: Seq<u8>) -> Seq<u8> {
    pred_map(t, sorted_offsets(t))
}

/// The transform is as long as the text.
pub proof fn lemma_bwt_len(t: Seq<u8>)
    requires
        t.len() <= usize::MAX,
    ensures
        bwt_of(t).len() == t.len(),
{
    lemma_sorted_offsets_props(t);
}

/// What `sorted_offsets` delivers: a strictly suffix-ordered arrangement
/// of exactly the offsets `0 .. t.len()`.
pub proof fn lemma_sorted_offsets_props(t: Seq<u8>)
    requires
        t.len() <= usize::MAX,
    ensures
        sorted_offsets(t).len() == t.len(),
        forall|k: int|
            0 <= k < sorted_offsets(t).len() ==> (#[trigger] sorted_offsets(t)[k]) < t.len(),
        sorted_offsets(t).no_duplicates(),
        forall|j: usize| j < t.len() ==> sorted_offsets(t).contains(j),
        forall|p: int, q: int|
            0 <= p < q < sorted_offsets(t).len() ==> suffix_lt(
                t,
                #[trigger] sorted_offsets(t)[p] as int,
                #[trigger] sorted_offsets(t)[q] as int,
            ),
{
    broadcast use vstd::seq_lib::group_to_multiset_ensures;

    let ident = identity_offsets(t.len());
    let s = sorted_offsets(t);
    let leq = off_leq_fn(t);
    lemma_off_leq_total_ordering(t);
    ident.lemma_sort_by_ensures(leq);
    assert(ident.no_duplicates());
    assert(s.to_multiset() == ident.to_multiset());
    crate::radixsort::lemma_no_dup_transfer(ident, s);
    crate::radixsort::lemma_multiset_membership(ident, s);
    assert(s.to_multiset().len() == s.len());
    assert(ident.to_multiset().len() == ident.len());
    assert(s.len() == ident.len());
    assert forall|j: usize| j < t.len() implies s.contains(j) by {
        assert(ident[j as int] == j);
        assert(ident.contains(j));
    }
    assert forall|k: int| 0 <= k < s.len() implies (#[trigger] s[k]) < t.len() by {
        assert(s.contains(s[k]));
        assert(ident.contains(s[k]));
        let l = choose|l: int| 0 <= l < ident.len() && ident[l] == s[k];
        assert(ident[l] == l as usize);
    }
    assert forall|p: int, q: int| 0 <= p < q < s.len() implies suffix_lt(
        t,
        #[trigger] s[p] as int,
        #[trigger] s[q] as int,
    ) by {
        assert(vstd::relations::sorted_by(s, leq));
        assert(leq(s[p], s[q]));
        assert(s[p] != s[q]);
        lemma_suffix_order_total(t, s[p] as int, s[q] as int);
    }
}

/// Law: ascending suffix order arranges a set of distinct offsets in
/// exactly one way. Any two strictly suffix-ordered sequences holding the
/// same offsets are equal — in particular, the hybrid sorter's output
/// equals a direct comparison sort of the same offsets.
pub proof fn lemma_strict_sorted_unique(t: Seq<u8>, a: Seq<usize>, b: Seq<usize>)
    requires
        forall|p: int, q: int|
            0 <= p < q < a.len() ==> suffix_lt(t, #[trigger] a[p] as int, #[trigger] a[q] as int),
        forall|p: int, q: int|
            0 <= p < q < b.len() ==> suffix_lt(t, #[trigger] b[p] as int, #[trigger] b[q] as int),
        forall|k: int| 0 <= k < a.len() ==> (#[trigger] a[k]) < t.len(),
        forall|k: int| 0 <= k < b.len() ==> (#[trigger] b[k]) < t.len(),
        forall|x: usize| a.contains(x) <==> b.contains(x),
    ensures
        a == b,
    decreases a.len(),
{
    if a.len() == 0 {
        if b.len() > 0 {
            assert(b.contains(b[0]));
            assert(a.contains(b[0]));
        }
        assert(a =~= b);
    } else {
        assert(a.contains(a[0]));
        assert(b.contains(a[0]));
        let ia = choose|i: int| 0 <= i < b.len() && b[i] == a[0];
        assert(b.contains(b[0]));
        assert(a.contains(b[0]));
        let ib = choose|i: int| 0 <= i < a.len() && a[i] == b[0];
        lemma_suffix_order_total(t, a[0] as int, b[0] as int);
        if ia > 0 {
            assert(suffix_lt(t, b[0] as int, b[ia] as int));
        }
        if ib > 0 {
            assert(suffix_lt(t, a[0] as int, a[ib] as int));
        }
        assert(a[0] == b[0]);
        let a1 = a.drop_first();
        let b1 = b.drop_first();
        assert forall|p: int, q: int| 0 <= p < q < a1.len() implies suffix_lt(
            t,
            #[trigger] a1[p] as int,
            #[trigger] a1[q] as int,
        ) by {
            assert(a1[p] == a[p + 1]);
            assert(a1[q] == a[q + 1]);
        }
        assert forall|p: int, q: int| 0 <= p < q < b1.len() implies suffix_lt(
            t,
            #[trigger] b1[p] as int,
            #[trigger] b1[q] as int,
        ) by {
            assert(b1[p] == b[p + 1]);
            assert(b1[q] == b[q + 1]);
        }
        assert forall|k: int| 0 <= k < a1.len() implies (#[trigger] a1[k]) < t.len() by {
            assert(a1[k] == a[k + 1]);
        }
        assert forall|k: int| 0 <= k < b1.len() implies (#[trigger] b1[k]) < t.len() by {
            assert(b1[k] == b[k + 1]);
        }
        assert forall|x: usize| a1.contains(x) <==> b1.contains(x) by {
            lemma_tail_membership(t, a, x);
            lemma_tail_membership(t, b, x);
        }
        lemma_strict_sorted_unique(t, a1, b1);
        assert forall|k: int| 0 <= k < a.len() implies a[k] == b[k] by {
            if k > 0 {
                assert(a1[k - 1] == b1[k - 1]);
            }
        }
        assert(a =~= b);
    }
}

/// In a strictly ordered sequence an offset sits in the tail exactly when
/// it is present and is not the head.
proof fn lemma_tail_membership(t: Seq<u8>, s: Seq<usize>, x: usize)
    requires
        s.len() > 0,
        forall|p: int, q: int|
            0 <= p < q < s.len() ==> suffix_lt(t, #[trigger] s[p] as int, #[trigger] s[q] as int),
    ensures
        s.drop_first().contains(x) <==> (s.contains(x) && x != s[0]),
{
    let s1 = s.drop_first();
    if s1.contains(x) {
        let i = choose|i: int| 0 <= i < s1.len() && s1[i] == x;
        assert(s[i + 1] == x);
        assert(suffix_lt(t, s[0] as int, s[i + 1] as int));
        lemma_lex_lt_irreflexive(suffix_at(t, s[0] as int));
        assert(x != s[0]);
        assert(s.contains(x));
    }
    if s.contains(x) && x != s[0] {
        let i = choose|i: int| 0 <= i < s.len() && s[i] == x;
        assert(i > 0);
        assert(s1[i - 1] == x);
        assert(s1.contains(x));
    }
}

} // verus!
