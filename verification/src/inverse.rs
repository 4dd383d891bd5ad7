//! The inversion theorem: decoding undoes encoding.
//!
//! The decoder walks the LF map of the transform; this module proves that
//! on a genuine transform that walk visits the text's offsets in descending
//! order, so the decoder reproduces the text exactly. The heart of the
//! argument is the LF step: the map sends the row of suffix `j` to the row
//! of suffix `j - 1`, shown by counting rows in two ways.

use vstd::prelude::*;

use crate::decode::count_below_upto;
use crate::decode::count_byte;
use crate::decode::count_byte_upto;
use crate::decode::decode_spec;
use crate::decode::lf_map;
use crate::decode::lf_walk;
use crate::decode::min_byte;
use crate::model::bwt_of;
use crate::model::identity_offsets;
use crate::model::lemma_off_leq_total_ordering;
use crate::model::lemma_sorted_offsets_props;
use crate::model::off_leq_fn;
use crate::model::pred_byte;
use crate::model::pred_map;
use crate::model::sorted_offsets;
use crate::order::lemma_lex_lt_asymmetric;
use crate::order::lemma_lex_lt_from_diff;
use crate::order::lemma_lex_lt_irreflexive;
use crate::order::suffix_at;
use crate::order::suffix_lt;
use crate::order::wf_text;

verus! {

/// How many of the first `i` entries of `s` satisfy `p`.
spec fn cnt_off(p: spec_fn(usize) -> bool, s: Seq<usize>, i: int) -> int
    decreases i,
{
    if i <= 0 {
        0
    } else {
        cnt_off(p, s, i - 1) + if p(s[i - 1]) {
            1int
        } else {
            0int
        }
    }
}

/// Sequences that agree entrywise are counted alike.
proof fn lemma_cnt_agree(p: spec_fn(usize) -> bool, a: Seq<usize>, b: Seq<usize>, i: int)
    requires
        forall|l: int| 0 <= l < i ==> a[l] == b[l],
    ensures
        cnt_off(p, a, i) == cnt_off(p, b, i),
    decreases i,
{
    if i > 0 {
        lemma_cnt_agree(p, a, b, i - 1);
    }
}

/// Predicates that agree on the counted entries are counted alike.
proof fn lemma_cnt_equiv(
    p1: spec_fn(usize) -> bool,
    p2: spec_fn(usize) -> bool,
    s: Seq<usize>,
    i: int,
)
    requires
        forall|l: int| 0 <= l < i ==> (p1(#[trigger] s[l]) <==> p2(s[l])),
    ensures
        cnt_off(p1, s, i) == cnt_off(p2, s, i),
    decreases i,
{
    if i > 0 {
        lemma_cnt_equiv(p1, p2, s, i - 1);
    }
}

/// Removing one entry lowers the count by that entry's contribution.
proof fn lemma_cnt_remove(p: spec_fn(usize) -> bool, s: Seq<usize>, i: int)
    requires
        0 <= i < s.len(),
    ensures
        cnt_off(p, s.remove(i), s.len() - 1) == cnt_off(p, s, s.len() as int) - (if p(s[i]) {
            1int
        } else {
            0int
        }),
    decreases s.len(),
{
    let len = s.len() as int;
    if i == len - 1 {
        assert(s.remove(i) =~= s.drop_last());
        lemma_cnt_agree(p, s.remove(i), s, len - 1);
    } else {
        let shorter = s.drop_last();
        lemma_cnt_remove(p, shorter, i);
        assert(s.remove(i).drop_last() =~= shorter.remove(i));
        lemma_cnt_agree(p, s.remove(i).drop_last(), s.remove(i), len - 2);
        assert(s.remove(i)[len - 2] == s[len - 1]);
        assert(shorter[i] == s[i]);
        assert forall|l: int| 0 <= l < len - 1 implies shorter[l] == s[l] by {}
        lemma_cnt_agree(p, shorter, s, len - 1);
    }
}

/// Counting sees only the multiset of entries, not their arrangement.
proof fn lemma_cnt_perm(p: spec_fn(usize) -> bool, a: Seq<usize>, b: Seq<usize>)
    requires
        a.to_multiset() == b.to_multiset(),
    ensures
        cnt_off(p, a, a.len() as int) == cnt_off(p, b, b.len() as int),
    decreases a.len(),
{
    broadcast use vstd::seq_lib::group_to_multiset_ensures;

    assert(a.to_multiset().len() == a.len());
    assert(b.to_multiset().len() == b.len());
    if a.len() > 0 {
        let x = a.last();
        let head = a.drop_last();
        assert(a =~= head.push(x));
        assert(a.to_multiset() == head.to_multiset().insert(x));
        assert(a.contains(x));
        assert(b.to_multiset().count(x) > 0);
        assert(b.contains(x));
        let i = choose|i: int| 0 <= i < b.len() && b[i] == x;
        let rest = b.remove(i);
        assert(rest.to_multiset() == b.to_multiset().remove(x));
        assert(head.to_multiset() =~= rest.to_multiset()) by {
            broadcast use vstd::multiset::group_multiset_axioms;

            assert(head.to_multiset() =~= a.to_multiset().remove(x));
        }
        lemma_cnt_perm(p, head, rest);
        lemma_cnt_remove(p, b, i);
        lemma_cnt_agree(p, head, a, a.len() - 1);
    }
}

/// Counting a prefix equals counting the whole under an extra filter that
/// holds exactly on that prefix.
proof fn lemma_cnt_restrict(
    p: spec_fn(usize) -> bool,
    q: spec_fn(usize) -> bool,
    pq: spec_fn(usize) -> bool,
    s: Seq<usize>,
    k: int,
    i: int,
)
    requires
        0 <= k <= s.len(),
        k <= i <= s.len(),
        forall|l: int| 0 <= l < s.len() ==> (q(#[trigger] s[l]) <==> l < k),
        forall|l: int| 0 <= l < s.len() ==> (pq(#[trigger] s[l]) <==> (p(s[l]) && q(s[l]))),
    ensures
        cnt_off(pq, s, i) == cnt_off(p, s, k),
    decreases i,
{
    if i > k {
        lemma_cnt_restrict(p, q, pq, s, k, i - 1);
        assert(!q(s[i - 1]));
    } else {
        lemma_cnt_same_below(p, pq, s, k);
    }
}

/// Below the boundary the filtered and unfiltered counts agree.
proof fn lemma_cnt_same_below(
    p: spec_fn(usize) -> bool,
    pq: spec_fn(usize) -> bool,
    s: Seq<usize>,
    i: int,
)
    requires
        i <= s.len(),
        forall|l: int| 0 <= l < i ==> (pq(#[trigger] s[l]) <==> p(s[l])),
    ensures
        cnt_off(pq, s, i) == cnt_off(p, s, i),
    decreases i,
{
    if i > 0 {
        lemma_cnt_same_below(p, pq, s, i - 1);
    }
}

/// A count of entries that hold exactly below an index is that index.
proof fn lemma_cnt_sorted_index(p: spec_fn(usize) -> bool, s: Seq<usize>, k: int, i: int)
    requires
        0 <= k <= s.len(),
        0 <= i <= s.len(),
        forall|l: int| 0 <= l < s.len() ==> (p(#[trigger] s[l]) <==> l < k),
    ensures
        cnt_off(p, s, i) == if i <= k {
            i
        } else {
            k
        },
    decreases i,
{
    if i > 0 {
        lemma_cnt_sorted_index(p, s, k, i - 1);
    }
}

/// A count of a disjunction of incompatible predicates is the sum of their
/// counts.
proof fn lemma_cnt_sum(
    p: spec_fn(usize) -> bool,
    q1: spec_fn(usize) -> bool,
    q2: spec_fn(usize) -> bool,
    s: Seq<usize>,
    i: int,
)
    requires
        i <= s.len(),
        forall|l: int| 0 <= l < i ==> (p(#[trigger] s[l]) <==> (q1(s[l]) || q2(s[l]))),
        forall|l: int| 0 <= l < i ==> !(q1(#[trigger] s[l]) && q2(s[l])),
    ensures
        cnt_off(p, s, i) == cnt_off(q1, s, i) + cnt_off(q2, s, i),
    decreases i,
{
    if i > 0 {
        lemma_cnt_sum(p, q1, q2, s, i - 1);
    }
}

/// Over the identity arrangement, a predicate and its successor-shifted
/// form count alike, up to the two boundary entries.
proof fn lemma_cnt_shift(p1: spec_fn(usize) -> bool, p2: spec_fn(usize) -> bool, n: nat, i: int)
    requires
        i <= n <= usize::MAX,
        forall|o: int| 1 <= o < n ==> (#[trigger] p1(o as usize) <==> p2((o - 1) as usize)),
    ensures
        cnt_off(p1, identity_offsets(n), i) == (if i >= 1 && p1(0usize) {
            1int
        } else {
            0int
        }) + cnt_off(p2, identity_offsets(n), i - 1),
    decreases i,
{
    let ident = identity_offsets(n);
    if i == 1 {
        assert(ident[0] == 0usize);
        assert(cnt_off(p1, ident, 0) == 0);
        assert(cnt_off(p1, ident, 1) == if p1(0usize) {
            1int
        } else {
            0int
        });
        assert(cnt_off(p2, ident, 0) == 0);
    } else if i > 1 {
        lemma_cnt_shift(p1, p2, n, i - 1);
        assert(ident[i - 1] == (i - 1) as usize);
        assert(ident[i - 2] == (i - 2) as usize);
        assert(p1((i - 1) as usize) <==> p2((i - 1 - 1) as usize));
        assert(cnt_off(p1, ident, i) == cnt_off(p1, ident, i - 1) + if p1(ident[i - 1]) {
            1int
        } else {
            0int
        });
        assert(cnt_off(p2, ident, i - 1) == cnt_off(p2, ident, i - 2) + if p2(ident[i - 2]) {
            1int
        } else {
            0int
        });
    }
}

/// A smaller head byte decides the suffix order.
proof fn lemma_suffix_lt_head(t: Seq<u8>, a: int, b: int)
    requires
        0 <= a < t.len(),
        0 <= b < t.len(),
        t[a] < t[b],
    ensures
        suffix_lt(t, a, b),
{
    let sa = suffix_at(t, a);
    let sb = suffix_at(t, b);
    assert(sa[0] == t[a]);
    assert(sb[0] == t[b]);
    lemma_lex_lt_from_diff(sa, sb, 0);
}

/// With equal head bytes the suffix order is decided by the tails.
proof fn lemma_suffix_head_strip(t: Seq<u8>, a: int, b: int)
    requires
        0 <= a < t.len(),
        0 <= b < t.len(),
        t[a] == t[b],
    ensures
        suffix_lt(t, a, b) <==> suffix_lt(t, a + 1, b + 1),
{
    let sa = suffix_at(t, a);
    let sb = suffix_at(t, b);
    assert(sa[0] == t[a]);
    assert(sb[0] == t[b]);
    assert(sa.drop_first() =~= suffix_at(t, a + 1));
    assert(sb.drop_first() =~= suffix_at(t, b + 1));
}

/// The byte counts of a mapped arrangement, as counts over the offsets.
proof fn lemma_bwt_counts(
    t: Seq<u8>,
    s: Seq<usize>,
    c: u8,
    pb: spec_fn(usize) -> bool,
    plt: spec_fn(usize) -> bool,
    i: int,
)
    requires
        i <= s.len(),
        forall|o: usize| #[trigger] pb(o) <==> pred_byte(t, o as int) == c,
        forall|o: usize| #[trigger] plt(o) <==> (pred_byte(t, o as int) as int) < c as int,
    ensures
        count_byte_upto(pred_map(t, s), c, i) == cnt_off(pb, s, i),
        count_below_upto(pred_map(t, s), c as int, i) == cnt_off(plt, s, i),
    decreases i,
{
    if i > 0 {
        lemma_bwt_counts(t, s, c, pb, plt, i - 1);
        assert(pred_map(t, s)[i - 1] == pred_byte(t, s[i - 1] as int));
    }
}

/// The LF step: on a genuine transform, the LF map carries the row of
/// suffix `j` to the row of suffix `j - 1`. Shown by counting the rows
/// before each of the two positions in two ways and matching them through
/// the offset permutation.
proof fn lemma_lf_step(t: Seq<u8>, k: int)
    requires
        wf_text(t),
        t.len() <= usize::MAX,
        0 <= k < sorted_offsets(t).len(),
        sorted_offsets(t)[k] >= 1,
    ensures
        0 <= lf_map(bwt_of(t), k) < sorted_offsets(t).len(),
        sorted_offsets(t)[lf_map(bwt_of(t), k)] == sorted_offsets(t)[k] - 1,
{
    let n = t.len() as int;
    let s = sorted_offsets(t);
    let b = bwt_of(t);
    let ident = identity_offsets(t.len());
    lemma_sorted_offsets_props(t);
    lemma_off_leq_total_ordering(t);
    ident.lemma_sort_by_ensures(off_leq_fn(t));
    let j = s[k] as int;
    let c = t[j - 1];
    assert(b.len() == n);
    assert(b[k] == pred_byte(t, s[k] as int));
    assert(b[k] == c);
    assert(t[j - 1] > t[n - 1]);
    assert(s.contains((j - 1) as usize));
    let k2 = choose|l: int| 0 <= l < s.len() && s[l] == (j - 1) as usize;

    let p_lt_jm1 = |o: usize| suffix_lt(t, o as int, j - 1);
    let p_first = |o: usize| (o as int) < n && t[o as int] < c;
    let p_tail = |o: usize| (o as int) < n && t[o as int] == c && suffix_lt(t, o as int + 1, j);
    let p_pred_eq = |o: usize| pred_byte(t, o as int) == c;
    let p_pred_lt = |o: usize| (pred_byte(t, o as int) as int) < c as int;
    let p_lt_j = |o: usize| suffix_lt(t, o as int, j);
    let p_eq_and_lt = |o: usize| pred_byte(t, o as int) == c && suffix_lt(t, o as int, j);
    let p_shift1 = |o: usize|
        1 <= o as int && (o as int) < n && t[o as int - 1] == c && suffix_lt(t, o as int, j);

    // The target row index, as a count of smaller suffixes.
    assert forall|l: int| 0 <= l < s.len() implies (p_lt_jm1(#[trigger] s[l]) <==> l < k2) by {
        if l < k2 {
            assert(suffix_lt(t, s[l] as int, s[k2] as int));
        } else if l == k2 {
            lemma_lex_lt_irreflexive(suffix_at(t, j - 1));
        } else {
            assert(suffix_lt(t, s[k2] as int, s[l] as int));
            lemma_lex_lt_asymmetric(suffix_at(t, s[l] as int), suffix_at(t, j - 1));
        }
    }
    lemma_cnt_sorted_index(p_lt_jm1, s, k2, s.len() as int);
    assert(cnt_off(p_lt_jm1, s, n) == k2);

    // Split that count by the head byte of each suffix.
    assert forall|l: int| 0 <= l < s.len() implies (p_lt_jm1(#[trigger] s[l]) <==> (p_first(s[l])
        || p_tail(s[l]))) && !(p_first(s[l]) && p_tail(s[l])) by {
        let o = s[l] as int;
        if t[o] < c {
            lemma_suffix_lt_head(t, o, j - 1);
        } else if t[o] > c {
            lemma_suffix_lt_head(t, j - 1, o);
            lemma_lex_lt_asymmetric(suffix_at(t, o), suffix_at(t, j - 1));
        } else {
            lemma_suffix_head_strip(t, o, j - 1);
        }
    }
    lemma_cnt_sum(p_lt_jm1, p_first, p_tail, s, s.len() as int);

    // The rank of the row among equal predecessor bytes, moved through the
    // permutation and shifted onto head bytes.
    lemma_bwt_counts(t, s, c, p_pred_eq, p_pred_lt, k);
    assert(count_byte_upto(b, c, k) == cnt_off(p_pred_eq, s, k));
    assert forall|l: int| 0 <= l < s.len() implies (p_lt_j(#[trigger] s[l]) <==> l < k) by {
        if l < k {
            assert(suffix_lt(t, s[l] as int, s[k] as int));
        } else if l == k {
            lemma_lex_lt_irreflexive(suffix_at(t, j));
        } else {
            assert(suffix_lt(t, s[k] as int, s[l] as int));
            lemma_lex_lt_asymmetric(suffix_at(t, s[l] as int), suffix_at(t, j));
        }
    }
    assert forall|l: int| 0 <= l < s.len() implies (p_eq_and_lt(#[trigger] s[l]) <==> (p_pred_eq(
        s[l],
    ) && p_lt_j(s[l]))) by {}
    lemma_cnt_restrict(p_pred_eq, p_lt_j, p_eq_and_lt, s, k, s.len() as int);
    assert(cnt_off(p_eq_and_lt, s, n) == cnt_off(p_pred_eq, s, k));
    assert forall|l: int| 0 <= l < s.len() implies (p_eq_and_lt(#[trigger] s[l]) <==> p_shift1(
        s[l],
    )) by {
        let o = s[l] as int;
        if o == 0 {
            assert(pred_byte(t, 0) == t[n - 1]);
        }
    }
    lemma_cnt_equiv(p_eq_and_lt, p_shift1, s, s.len() as int);
    lemma_cnt_perm(p_shift1, s, ident);
    assert forall|o: int| 1 <= o < n implies (#[trigger] p_shift1(o as usize) <==> p_tail(
        (o - 1) as usize,
    )) by {}
    lemma_cnt_shift(p_shift1, p_tail, t.len(), n);
    assert(!p_shift1(0usize));
    assert(ident[n - 1] == (n - 1) as usize);
    assert(!p_tail((n - 1) as usize));
    assert(cnt_off(p_tail, ident, n) == cnt_off(p_tail, ident, n - 1));
    lemma_cnt_perm(p_tail, ident, s);
    assert(count_byte_upto(b, c, k) == cnt_off(p_tail, s, n));

    // The rows of strictly smaller predecessor bytes, the same way.
    lemma_bwt_counts(t, s, c, p_pred_eq, p_pred_lt, s.len() as int);
    assert(count_below_upto(b, c as int, n) == cnt_off(p_pred_lt, s, n));
    lemma_cnt_perm(p_pred_lt, s, ident);
    assert forall|o: int| 1 <= o < n implies (#[trigger] p_pred_lt(o as usize) <==> p_first(
        (o - 1) as usize,
    )) by {
        assert(pred_byte(t, o) == t[o - 1]);
    }
    lemma_cnt_shift(p_pred_lt, p_first, t.len(), n);
    assert(p_pred_lt(0usize)) by {
        assert(pred_byte(t, 0) == t[n - 1]);
    }
    assert(p_first((n - 1) as usize));
    assert(cnt_off(p_first, ident, n) == cnt_off(p_first, ident, n - 1) + 1);
    lemma_cnt_perm(p_first, ident, s);
    assert(count_below_upto(b, c as int, n) == cnt_off(p_first, s, n));

    // Both counting schemes describe the same set of rows.
    assert(lf_map(b, k) == count_below_upto(b, c as int, n) + count_byte_upto(b, c, k));
    assert(lf_map(b, k) == k2);
}

/// A count of a predicate holding at exactly one position is one.
proof fn lemma_cnt_single(p: spec_fn(usize) -> bool, s: Seq<usize>, k0: int, i: int)
    requires
        0 <= k0 < s.len(),
        0 <= i <= s.len(),
        forall|l: int| 0 <= l < s.len() ==> (p(#[trigger] s[l]) <==> l == k0),
    ensures
        cnt_off(p, s, i) == if i <= k0 {
            0int
        } else {
            1int
        },
    decreases i,
{
    if i > 0 {
        lemma_cnt_single(p, s, k0, i - 1);
    }
}

/// On a genuine transform the terminator byte of the text is the minimum
/// byte, it occurs exactly once, and it marks the row of suffix zero.
proof fn lemma_bwt_basics(t: Seq<u8>)
    requires
        wf_text(t),
        t.len() <= usize::MAX,
    ensures
        bwt_of(t).len() == t.len(),
        min_byte(bwt_of(t)) == t[t.len() - 1],
        count_byte(bwt_of(t), t[t.len() - 1]) == 1,
        forall|k: int|
            0 <= k < t.len() ==> ((#[trigger] bwt_of(t)[k]) == t[t.len() - 1] <==> sorted_offsets(
                t,
            )[k] == 0),
{
    let n = t.len() as int;
    let s = sorted_offsets(t);
    let b = bwt_of(t);
    let ident = identity_offsets(t.len());
    let term = t[n - 1];
    lemma_sorted_offsets_props(t);
    lemma_off_leq_total_ordering(t);
    ident.lemma_sort_by_ensures(off_leq_fn(t));
    assert(b.len() == n);
    assert forall|k: int| 0 <= k < n implies ((#[trigger] b[k]) == term <==> s[k] == 0) by {
        assert(b[k] == pred_byte(t, s[k] as int));
        let o = s[k] as int;
        if o >= 1 {
            assert(t[o - 1] > term);
        }
    }
    // The terminator occurs and every entry is at least it.
    assert(s.contains(0usize));
    let k0 = choose|l: int| 0 <= l < s.len() && s[l] == 0usize;
    assert(b[k0] == term);
    assert forall|k: int| 0 <= k < n implies (#[trigger] b[k]) >= term by {
        assert(b[k] == pred_byte(t, s[k] as int));
        let o = s[k] as int;
        if o >= 1 {
            assert(t[o - 1] > term);
        }
    }
    crate::decode::lemma_min_byte_props(b);
    let km = choose|l: int| 0 <= l < b.len() && b[l] == min_byte(b);
    assert(min_byte(b) == term);
    // It occurs exactly once: only the row of suffix zero carries it.
    let p_term = |o: usize| pred_byte(t, o as int) == term;
    lemma_bwt_counts(t, s, term, p_term, |o: usize| (pred_byte(t, o as int) as int) < term as int, n);
    assert(count_byte_upto(b, term, n) == cnt_off(p_term, s, n));
    assert forall|l: int| 0 <= l < s.len() implies (p_term(#[trigger] s[l]) <==> l == k0) by {
        let o = s[l] as int;
        if o >= 1 {
            assert(t[o - 1] > term);
        }
        if l != k0 {
            assert(s[l] != s[k0]);
        }
    }
    lemma_cnt_single(p_term, s, k0, n);
}

/// With enough fuel, the LF walk from the row of suffix `j` spells out the
/// first `j` bytes of the text backwards.
proof fn lemma_lf_walk_reaches(t: Seq<u8>, j: int, fuel: nat, k: int)
    requires
        wf_text(t),
        t.len() <= usize::MAX,
        0 <= j < t.len(),
        fuel >= j,
        0 <= k < sorted_offsets(t).len(),
        sorted_offsets(t)[k] == j,
    ensures
        lf_walk(bwt_of(t), k, fuel) == t.subrange(0, j).reverse(),
    decreases j,
{
    let n = t.len() as int;
    let s = sorted_offsets(t);
    let b = bwt_of(t);
    lemma_sorted_offsets_props(t);
    lemma_bwt_basics(t);
    if j == 0 {
        assert(b[k] == min_byte(b));
        assert(lf_walk(b, k, fuel) =~= Seq::<u8>::empty());
        assert(t.subrange(0, 0).reverse() =~= Seq::<u8>::empty());
    } else {
        assert(b[k] != min_byte(b));
        assert(b[k] == pred_byte(t, s[k] as int));
        assert(b[k] == t[j - 1]);
        lemma_lf_step(t, k);
        let k2 = lf_map(b, k);
        assert(s[k2] == j - 1);
        lemma_lf_walk_reaches(t, j - 1, (fuel - 1) as nat, k2);
        assert(lf_walk(b, k, fuel) == seq![t[j - 1]] + t.subrange(0, j - 1).reverse());
        assert(t.subrange(0, j).reverse() =~= seq![t[j - 1]] + t.subrange(0, j - 1).reverse()) by {
            assert forall|i: int| 0 <= i < j implies t.subrange(0, j).reverse()[i] == (seq![
                t[j - 1],
            ] + t.subrange(0, j - 1).reverse())[i] by {
                assert(t.subrange(0, j).reverse()[i] == t.subrange(0, j)[j - 1 - i]);
                if i >= 1 {
                    assert((seq![t[j - 1]] + t.subrange(0, j - 1).reverse())[i] == t.subrange(
                        0,
                        j - 1,
                    ).reverse()[i - 1]);
                    assert(t.subrange(0, j - 1).reverse()[i - 1] == t.subrange(0, j - 1)[j - 1 - i]);
                }
            }
        }
    }
}

/// Law: decoding inverts encoding. For every text whose last byte is
/// strictly smaller than every other byte, the transform is as long as the
/// text, the decoder accepts it — its minimum byte occurs exactly once —
/// and what the decoder computes on it is the text itself.
pub proof fn lemma_round_trip(t: Seq<u8>)
    requires
        wf_text(t),
        t.len() <= usize::MAX,
    ensures
        bwt_of(t).len() == t.len(),
        count_byte(bwt_of(t), min_byte(bwt_of(t))) == 1,
        decode_spec(bwt_of(t)) == t,
        decode_spec(bwt_of(t)).len() == bwt_of(t).len(),
{
    let n = t.len() as int;
    let s = sorted_offsets(t);
    let b = bwt_of(t);
    let term = t[n - 1];
    lemma_sorted_offsets_props(t);
    lemma_bwt_basics(t);
    // The first row is the terminator suffix.
    assert(s[0] == (n - 1) as usize) by {
        if s[0] != (n - 1) as usize {
            assert(s.contains((n - 1) as usize));
            let kt = choose|l: int| 0 <= l < s.len() && s[l] == (n - 1) as usize;
            assert(kt > 0);
            assert(suffix_lt(t, s[0] as int, s[kt] as int));
            assert(t[s[0] as int] > term);
            lemma_suffix_lt_head(t, n - 1, s[0] as int);
            lemma_lex_lt_asymmetric(suffix_at(t, s[0] as int), suffix_at(t, n - 1));
        }
    }
    lemma_lf_walk_reaches(t, n - 1, (n - 1) as nat, 0);
    assert(lf_walk(b, 0, (b.len() - 1) as nat) == t.subrange(0, n - 1).reverse());
    let collected = seq![min_byte(b)] + t.subrange(0, n - 1).reverse();
    assert(decode_spec(b) == collected.reverse());
    assert(collected.reverse() =~= t) by {
        assert forall|i: int| 0 <= i < n implies collected.reverse()[i] == t[i] by {
            assert(collected.reverse()[i] == collected[n - 1 - i]);
            if i < n - 1 {
                assert(collected[n - 1 - i] == t.subrange(0, n - 1).reverse()[n - 2 - i]);
                assert(t.subrange(0, n - 1).reverse()[n - 2 - i] == t.subrange(0, n - 1)[i]);
            }
        }
    }
}

} // verus!

