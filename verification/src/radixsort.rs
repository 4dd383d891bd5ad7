//! Hybrid most-significant-digit radix / comparison sorter over suffix
//! offsets.
//!
//! [`MsdRadixSorter::sort`] permutes a list of distinct suffix offsets into
//! ascending lexicographic suffix order. Large ranges are bucketed by the
//! byte each suffix holds at the current comparison level; small ranges are
//! finished by an insertion sort on full suffix comparisons.

use vstd::prelude::*;
use vstd::multiset::Multiset;

use crate::order::lemma_lex_lt_from_diff;
use crate::order::lemma_suffix_leq_transitive;
use crate::order::lemma_suffix_order_total;
use crate::order::suffix_at;
use crate::order::suffix_le_suffix;
use crate::order::suffix_leq;
use crate::order::suffix_lt;
use crate::order::wf_text;

verus! {

/// The byte a suffix offset contributes at a comparison level, as an
/// integer, so that the byte value one past `u8::MAX` can serve as an
/// exclusive bound.
pub open spec fn level_byte(t: Seq<u8>, off: usize, level: int) -> int {
    t[off + level] as int
}

/// How many offsets in `offs[lo..hi)` hold exactly byte `c` at `level`.
pub open spec fn count_eq(t: Seq<u8>, offs: Seq<usize>, level: int, c: int, lo: int, hi: int) -> int
    decreases hi - lo,
{
    if lo >= hi {
        0
    } else {
        count_eq(t, offs, level, c, lo, hi - 1) + if level_byte(t, offs[hi - 1], level) == c {
            1int
        } else {
            0int
        }
    }
}

/// How many offsets in `offs[lo..hi)` hold a byte smaller than `c` at
/// `level`.
pub open spec fn count_lt(t: Seq<u8>, offs: Seq<usize>, level: int, c: int, lo: int, hi: int) -> int
    decreases hi - lo,
{
    if lo >= hi {
        0
    } else {
        count_lt(t, offs, level, c, lo, hi - 1) + if level_byte(t, offs[hi - 1], level) < c {
            1int
        } else {
            0int
        }
    }
}

/// The offsets of `offs[lo..hi)` holding byte `c` at `level`, in their
/// original order.
pub open spec fn select_eq(
    t: Seq<u8>,
    offs: Seq<usize>,
    level: int,
    c: int,
    lo: int,
    hi: int,
) -> Seq<usize>
    decreases hi - lo,
{
    if lo >= hi {
        Seq::empty()
    } else {
        let rest = select_eq(t, offs, level, c, lo, hi - 1);
        if level_byte(t, offs[hi - 1], level) == c {
            rest.push(offs[hi - 1])
        } else {
            rest
        }
    }
}

/// Counts are bounded by the width of the range.
proof fn lemma_count_bounds(t: Seq<u8>, offs: Seq<usize>, level: int, c: int, lo: int, hi: int)
    requires
        lo <= hi,
    ensures
        0 <= count_eq(t, offs, level, c, lo, hi) <= hi - lo,
        0 <= count_lt(t, offs, level, c, lo, hi) <= hi - lo,
    decreases hi - lo,
{
    if lo < hi {
        lemma_count_bounds(t, offs, level, c, lo, hi - 1);
    }
}

/// Everything below `c + 1` is everything below `c` plus everything at `c`.
proof fn lemma_count_lt_step(t: Seq<u8>, offs: Seq<usize>, level: int, c: int, lo: int, hi: int)
    requires
        lo <= hi,
    ensures
        count_lt(t, offs, level, c + 1, lo, hi) == count_lt(t, offs, level, c, lo, hi) + count_eq(
            t,
            offs,
            level,
            c,
            lo,
            hi,
        ),
    decreases hi - lo,
{
    if lo < hi {
        lemma_count_lt_step(t, offs, level, c, lo, hi - 1);
    }
}

/// `count_lt` grows with its bound.
proof fn lemma_count_lt_monotone(
    t: Seq<u8>,
    offs: Seq<usize>,
    level: int,
    c: int,
    d: int,
    lo: int,
    hi: int,
)
    requires
        lo <= hi,
        c <= d,
    ensures
        count_lt(t, offs, level, c, lo, hi) <= count_lt(t, offs, level, d, lo, hi),
    decreases hi - lo,
{
    if lo < hi {
        lemma_count_lt_monotone(t, offs, level, c, d, lo, hi - 1);
    }
}

/// Every byte lies below the exclusive alphabet bound.
proof fn lemma_count_lt_all(t: Seq<u8>, offs: Seq<usize>, level: int, lo: int, hi: int)
    requires
        lo <= hi,
    ensures
        count_lt(t, offs, level, 256, lo, hi) == hi - lo,
        count_lt(t, offs, level, 0, lo, hi) == 0,
    decreases hi - lo,
{
    if lo < hi {
        lemma_count_lt_all(t, offs, level, lo, hi - 1);
    }
}

/// The selected subsequence has as many entries as the matching count, and
/// each of its entries holds byte `c` at `level`.
proof fn lemma_select_eq_props(t: Seq<u8>, offs: Seq<usize>, level: int, c: int, lo: int, hi: int)
    requires
        lo <= hi,
    ensures
        select_eq(t, offs, level, c, lo, hi).len() == count_eq(t, offs, level, c, lo, hi),
        forall|i: int|
            0 <= i < select_eq(t, offs, level, c, lo, hi).len() ==> level_byte(
                t,
                #[trigger] select_eq(t, offs, level, c, lo, hi)[i],
                level,
            ) == c,
    decreases hi - lo,
{
    if lo < hi {
        lemma_select_eq_props(t, offs, level, c, lo, hi - 1);
    }
}

/// The multiset sum of the selections of all byte classes below `c`.
pub open spec fn class_multiset_below(
    t: Seq<u8>,
    offs: Seq<usize>,
    level: int,
    c: int,
    lo: int,
    hi: int,
) -> Multiset<usize>
    decreases c,
{
    if c <= 0 {
        Multiset::empty()
    } else {
        class_multiset_below(t, offs, level, c - 1, lo, hi).add(
            select_eq(t, offs, level, c - 1, lo, hi).to_multiset(),
        )
    }
}

/// Extending the range by one element inserts that element into the class
/// sum, provided its byte falls below the class bound.
proof fn lemma_class_multiset_extend(
    t: Seq<u8>,
    offs: Seq<usize>,
    level: int,
    c: int,
    lo: int,
    hi: int,
)
    requires
        lo < hi,
        0 <= c <= 256,
    ensures
        class_multiset_below(t, offs, level, c, lo, hi) == if level_byte(t, offs[hi - 1], level)
            < c {
            class_multiset_below(t, offs, level, c, lo, hi - 1).insert(offs[hi - 1])
        } else {
            class_multiset_below(t, offs, level, c, lo, hi - 1)
        },
    decreases c,
{
    broadcast use vstd::seq_lib::group_seq_properties;

    if c > 0 {
        lemma_class_multiset_extend(t, offs, level, c - 1, lo, hi);
        let sel_new = select_eq(t, offs, level, c - 1, lo, hi);
        let sel_old = select_eq(t, offs, level, c - 1, lo, hi - 1);
        sel_old.to_multiset_ensures();
        let b = level_byte(t, offs[hi - 1], level);
        if b == c - 1 {
            assert(sel_new == sel_old.push(offs[hi - 1]));
            assert(sel_new.to_multiset() =~= sel_old.to_multiset().insert(offs[hi - 1]));
            assert(class_multiset_below(t, offs, level, c, lo, hi) =~= class_multiset_below(
                t,
                offs,
                level,
                c,
                lo,
                hi - 1,
            ).insert(offs[hi - 1]));
        } else {
            assert(sel_new == sel_old);
            if b < c - 1 {
                assert(class_multiset_below(t, offs, level, c, lo, hi) =~= class_multiset_below(
                    t,
                    offs,
                    level,
                    c,
                    lo,
                    hi - 1,
                ).insert(offs[hi - 1]));
            } else {
                assert(class_multiset_below(t, offs, level, c, lo, hi) =~= class_multiset_below(
                    t,
                    offs,
                    level,
                    c,
                    lo,
                    hi - 1,
                ));
            }
        }
    }
}

/// The full class sum is exactly the multiset of the range.
proof fn lemma_class_multiset_complete(t: Seq<u8>, offs: Seq<usize>, level: int, lo: int, hi: int)
    requires
        0 <= lo <= hi <= offs.len(),
    ensures
        class_multiset_below(t, offs, level, 256, lo, hi) == offs.subrange(lo, hi).to_multiset(),
    decreases hi - lo,
{
    broadcast use vstd::seq_lib::group_seq_properties;

    if lo >= hi {
        assert(offs.subrange(lo, hi) =~= Seq::<usize>::empty());
        assert(offs.subrange(lo, hi).to_multiset() =~= Multiset::<usize>::empty()) by {
            offs.subrange(lo, hi).to_multiset_ensures();
            assert(offs.subrange(lo, hi).to_multiset().len() == 0);
        }
        assert(class_multiset_below(t, offs, level, 256, lo, hi) =~= Multiset::<usize>::empty())
            by {
            lemma_class_multiset_all_empty(t, offs, level, 256, lo, hi);
        }
    } else {
        lemma_class_multiset_complete(t, offs, level, lo, hi - 1);
        lemma_class_multiset_extend(t, offs, level, 256, lo, hi);
        let prev = offs.subrange(lo, hi - 1);
        assert(offs.subrange(lo, hi) =~= prev.push(offs[hi - 1]));
        prev.to_multiset_ensures();
        assert(prev.push(offs[hi - 1]).to_multiset() =~= prev.to_multiset().insert(offs[hi - 1]));
    }
}

/// `count_eq` grows with the range.
proof fn lemma_count_eq_monotone(
    t: Seq<u8>,
    offs: Seq<usize>,
    level: int,
    c: int,
    lo: int,
    h1: int,
    h2: int,
)
    requires
        lo <= h1 <= h2,
    ensures
        count_eq(t, offs, level, c, lo, h1) <= count_eq(t, offs, level, c, lo, h2),
    decreases h2 - h1,
{
    if h1 < h2 {
        lemma_count_eq_monotone(t, offs, level, c, lo, h1, h2 - 1);
    }
}

/// Locates the byte class whose segment holds position `p`, scanning the
/// classes upward from `c0`.
proof fn lemma_class_of(
    t: Seq<u8>,
    offs: Seq<usize>,
    level: int,
    lo: int,
    hi: int,
    p: int,
    c0: int,
) -> (c: int)
    requires
        lo <= hi,
        0 <= c0 < 256,
        count_lt(t, offs, level, c0, lo, hi) <= p < hi - lo,
    ensures
        c0 <= c < 256,
        count_lt(t, offs, level, c, lo, hi) <= p < count_lt(t, offs, level, c + 1, lo, hi),
    decreases 256 - c0,
{
    if p < count_lt(t, offs, level, c0 + 1, lo, hi) {
        c0
    } else {
        lemma_count_lt_all(t, offs, level, lo, hi);
        if c0 == 255 {
            assert(false);
        }
        lemma_class_of(t, offs, level, lo, hi, p, c0 + 1)
    }
}

/// When at least two distinct offsets extend one shared prefix, none of
/// them can end exactly at the end of the text: the shared prefix would
/// have to contain the terminator away from the last position.
proof fn lemma_shared_range_in_bounds(
    t: Seq<u8>,
    offs: Seq<usize>,
    prefix: Seq<u8>,
    lo: int,
    hi: int,
)
    requires
        wf_text(t),
        offs.no_duplicates(),
        hi - lo >= 2,
        0 <= lo,
        hi <= offs.len(),
        forall|k: int| lo <= k < hi ==> share_ok(t, prefix, #[trigger] offs[k]),
    ensures
        forall|k: int| lo <= k < hi ==> (#[trigger] offs[k]) + prefix.len() < t.len(),
{
    let level = prefix.len() as int;
    let n = t.len() as int;
    assert forall|k: int| lo <= k < hi implies (#[trigger] offs[k]) + prefix.len() < t.len() by {
        assert(share_ok(t, prefix, offs[k]));
        if offs[k] + level == n {
            assert(level >= 1);
            let l: int = if k == lo {
                lo + 1
            } else {
                lo
            };
            assert(offs[l] != offs[k]);
            assert(share_ok(t, prefix, offs[l]));
            assert(t[offs[k] + (level - 1)] == prefix[level - 1]);
            assert(offs[k] + (level - 1) == n - 1);
            assert(t[offs[l] + (level - 1)] == prefix[level - 1]);
            assert(offs[l] + level <= n);
            assert(offs[l] + level != n);
            assert(offs[l] + (level - 1) < n - 1);
            assert(t[offs[l] + (level - 1)] > t[n - 1]);
            assert(false);
        }
    }
}

/// The offset points into the text and the bytes it leads with are exactly
/// `prefix`.
pub open spec fn share_ok(t: Seq<u8>, prefix: Seq<u8>, off: usize) -> bool {
    &&& off < t.len()
    &&& off + prefix.len() <= t.len()
    &&& forall|i: int| 0 <= i < prefix.len() ==> #[trigger] t[off + i] == prefix[i]
}

/// Sharing a prefix is a property of an offset's value alone, so it
/// survives any rearrangement.
proof fn lemma_share_transfer(t: Seq<u8>, prefix: Seq<u8>, a: Seq<usize>, b: Seq<usize>)
    requires
        a.to_multiset() == b.to_multiset(),
        forall|k: int| 0 <= k < a.len() ==> share_ok(t, prefix, #[trigger] a[k]),
    ensures
        forall|k: int| 0 <= k < b.len() ==> share_ok(t, prefix, #[trigger] b[k]),
{
    lemma_multiset_membership(a, b);
    assert forall|k: int| 0 <= k < b.len() implies share_ok(t, prefix, #[trigger] b[k]) by {
        assert(b.contains(b[k]));
        assert(a.contains(b[k]));
        let l = choose|l: int| 0 <= l < a.len() && a[l] == b[k];
        assert(share_ok(t, prefix, a[l]));
    }
}

/// A byte difference right after a shared prefix orders the suffixes.
proof fn lemma_suffix_lt_by_byte(t: Seq<u8>, a: usize, b: usize, prefix: Seq<u8>)
    requires
        a + prefix.len() < t.len(),
        b + prefix.len() < t.len(),
        forall|i: int| 0 <= i < prefix.len() ==> #[trigger] t[a + i] == prefix[i],
        forall|i: int| 0 <= i < prefix.len() ==> #[trigger] t[b + i] == prefix[i],
        t[a + prefix.len()] < t[b + prefix.len()],
    ensures
        suffix_lt(t, a as int, b as int),
{
    let level = prefix.len() as int;
    let sa = suffix_at(t, a as int);
    let sb = suffix_at(t, b as int);
    assert forall|i: int| 0 <= i < level implies sa[i] == sb[i] by {
        assert(sa[i] == t[a + i]);
        assert(sb[i] == t[b + i]);
    }
    assert(sa[level] == t[a + level]);
    assert(sb[level] == t[b + level]);
    lemma_lex_lt_from_diff(sa, sb, level);
}

/// A buffer whose class segments each equal the matching selection is
/// ordered by the byte at the comparison level.
proof fn lemma_grouping(t: Seq<u8>, offs: Seq<usize>, level: int, lo: int, hi: int, buf: Seq<usize>)
    requires
        lo <= hi,
        buf.len() == hi - lo,
        forall|c: int|
            0 <= c < 256 ==> buf.subrange(
                count_lt(t, offs, level, c, lo, hi),
                count_lt(t, offs, level, c, lo, hi) + count_eq(t, offs, level, c, lo, hi),
            ) == select_eq(t, offs, level, c, lo, hi),
    ensures
        forall|p: int, q: int|
            0 <= p < q < buf.len() ==> level_byte(t, #[trigger] buf[p], level) <= level_byte(
                t,
                #[trigger] buf[q],
                level,
            ),
{
    lemma_count_lt_all(t, offs, level, lo, hi);
    assert forall|p: int, q: int| 0 <= p < q < buf.len() implies level_byte(
        t,
        #[trigger] buf[p],
        level,
    ) <= level_byte(t, #[trigger] buf[q], level) by {
        let cp = lemma_class_of(t, offs, level, lo, hi, p, 0);
        let cq = lemma_class_of(t, offs, level, lo, hi, q, 0);
        lemma_class_byte(t, offs, level, lo, hi, buf, p, cp);
        lemma_class_byte(t, offs, level, lo, hi, buf, q, cq);
        if cp > cq {
            lemma_count_lt_monotone(t, offs, level, cq + 1, cp, lo, hi);
            assert(false);
        }
    }
}

/// The entry at a position inside class `c`'s segment holds byte `c`.
proof fn lemma_class_byte(
    t: Seq<u8>,
    offs: Seq<usize>,
    level: int,
    lo: int,
    hi: int,
    buf: Seq<usize>,
    p: int,
    c: int,
)
    requires
        lo <= hi,
        buf.len() == hi - lo,
        0 <= c < 256,
        forall|cc: int|
            0 <= cc < 256 ==> buf.subrange(
                count_lt(t, offs, level, cc, lo, hi),
                count_lt(t, offs, level, cc, lo, hi) + count_eq(t, offs, level, cc, lo, hi),
            ) == select_eq(t, offs, level, cc, lo, hi),
        count_lt(t, offs, level, c, lo, hi) <= p < count_lt(t, offs, level, c + 1, lo, hi),
    ensures
        level_byte(t, buf[p], level) == c,
{
    let left = count_lt(t, offs, level, c, lo, hi);
    let cnt = count_eq(t, offs, level, c, lo, hi);
    lemma_count_lt_step(t, offs, level, c, lo, hi);
    lemma_count_bounds(t, offs, level, c, lo, hi);
    lemma_count_lt_monotone(t, offs, level, c + 1, 256, lo, hi);
    lemma_count_lt_all(t, offs, level, lo, hi);
    lemma_select_eq_props(t, offs, level, c, lo, hi);
    assert(buf.subrange(left, left + cnt) == select_eq(t, offs, level, c, lo, hi));
    assert(buf.subrange(left, left + cnt)[p - left] == buf[p]);
    assert(level_byte(t, select_eq(t, offs, level, c, lo, hi)[p - left], level) == c);
}

/// The prefix of the buffer covered by the classes below `c` carries
/// exactly their multiset sum.
proof fn lemma_sorted_tiles(
    t: Seq<u8>,
    offs: Seq<usize>,
    level: int,
    lo: int,
    hi: int,
    buf: Seq<usize>,
    c: int,
)
    requires
        0 <= lo <= hi <= offs.len(),
        buf.len() == hi - lo,
        0 <= c <= 256,
        forall|cc: int|
            0 <= cc < 256 ==> buf.subrange(
                count_lt(t, offs, level, cc, lo, hi),
                count_lt(t, offs, level, cc, lo, hi) + count_eq(t, offs, level, cc, lo, hi),
            ) == select_eq(t, offs, level, cc, lo, hi),
    ensures
        buf.subrange(0, count_lt(t, offs, level, c, lo, hi)).to_multiset() == class_multiset_below(
            t,
            offs,
            level,
            c,
            lo,
            hi,
        ),
    decreases c,
{
    lemma_count_lt_all(t, offs, level, lo, hi);
    if c == 0 {
        let empty_part = buf.subrange(0, 0);
        assert(empty_part =~= Seq::<usize>::empty());
        empty_part.to_multiset_ensures();
        assert(empty_part.to_multiset() =~= Multiset::<usize>::empty());
    } else {
        lemma_sorted_tiles(t, offs, level, lo, hi, buf, c - 1);
        lemma_count_lt_step(t, offs, level, c - 1, lo, hi);
        lemma_count_bounds(t, offs, level, c - 1, lo, hi);
        lemma_count_lt_monotone(t, offs, level, c, 256, lo, hi);
        let left = count_lt(t, offs, level, c - 1, lo, hi);
        let cnt = count_eq(t, offs, level, c - 1, lo, hi);
        let low_part = buf.subrange(0, left);
        let seg = buf.subrange(left, left + cnt);
        assert(buf.subrange(0, count_lt(t, offs, level, c, lo, hi)) =~= low_part + seg);
        vstd::seq_lib::lemma_multiset_commutative(low_part, seg);
        assert(seg == select_eq(t, offs, level, c - 1, lo, hi));
    }
}

/// Replacing a sub-range by a rearrangement of the same values keeps the
/// multiset of the whole sequence.
pub proof fn lemma_splice_preserves_multiset(a: Seq<usize>, b: Seq<usize>, start: int, end: int)
    requires
        0 <= start <= end <= a.len(),
        b.len() == a.len(),
        forall|k: int| 0 <= k < start || end <= k < a.len() ==> a[k] == b[k],
        a.subrange(start, end).to_multiset() == b.subrange(start, end).to_multiset(),
    ensures
        a.to_multiset() == b.to_multiset(),
{
    let a0 = a.subrange(0, start);
    let a1 = a.subrange(start, end);
    let a2 = a.subrange(end, a.len() as int);
    let b0 = b.subrange(0, start);
    let b1 = b.subrange(start, end);
    let b2 = b.subrange(end, b.len() as int);
    assert(a0 =~= b0);
    assert(a2 =~= b2);
    assert(a =~= (a0 + a1) + a2);
    assert(b =~= (b0 + b1) + b2);
    vstd::seq_lib::lemma_multiset_commutative(a0 + a1, a2);
    vstd::seq_lib::lemma_multiset_commutative(b0 + b1, b2);
    vstd::seq_lib::lemma_multiset_commutative(a0, a1);
    vstd::seq_lib::lemma_multiset_commutative(b0, b1);
}

/// A rearrangement of a sequence without duplicates has none either.
pub proof fn lemma_no_dup_transfer(a: Seq<usize>, b: Seq<usize>)
    requires
        a.to_multiset() == b.to_multiset(),
        a.no_duplicates(),
    ensures
        b.no_duplicates(),
{
    a.lemma_multiset_has_no_duplicates();
    b.lemma_multiset_has_no_duplicates_conv();
}

/// A rearrangement keeps membership.
pub proof fn lemma_multiset_membership(a: Seq<usize>, b: Seq<usize>)
    requires
        a.to_multiset() == b.to_multiset(),
    ensures
        forall|x: usize| a.contains(x) <==> b.contains(x),
{
    broadcast use vstd::seq_lib::group_to_multiset_ensures;

    assert forall|x: usize| a.contains(x) <==> b.contains(x) by {
        assert(a.contains(x) <==> a.to_multiset().count(x) > 0);
        assert(b.contains(x) <==> b.to_multiset().count(x) > 0);
    }
}

/// Swapping two entries keeps the multiset.
proof fn lemma_swap_multiset(s: Seq<usize>, x: int, y: int)
    requires
        0 <= x < s.len(),
        0 <= y < s.len(),
    ensures
        s.update(x, s[y]).update(y, s[x]).to_multiset() == s.to_multiset(),
{
    broadcast use vstd::seq_lib::to_multiset_update;
    broadcast use vstd::seq_lib::group_to_multiset_ensures;
    broadcast use vstd::multiset::group_multiset_axioms;

    if x == y {
        assert(s.update(x, s[y]).update(y, s[x]) =~= s);
    } else {
        let s1 = s.update(x, s[y]);
        assert(s1[y] == s[y]);
        assert(s1.to_multiset() == s.to_multiset().insert(s[y]).remove(s[x]));
        assert(s1.update(y, s[x]).to_multiset() == s1.to_multiset().insert(s[x]).remove(s1[y]));
        assert(s.contains(s[x]));
        assert(s.to_multiset().count(s[x]) > 0);
        assert(s.to_multiset().insert(s[y]).remove(s[x]).insert(s[x]).remove(s[y])
            =~= s.to_multiset());
    }
}

/// Over an empty range every class sum is empty.
proof fn lemma_class_multiset_all_empty(
    t: Seq<u8>,
    offs: Seq<usize>,
    level: int,
    c: int,
    lo: int,
    hi: int,
)
    requires
        lo >= hi,
    ensures
        class_multiset_below(t, offs, level, c, lo, hi) == Multiset::<usize>::empty(),
    decreases c,
{
    if c > 0 {
        lemma_class_multiset_all_empty(t, offs, level, c - 1, lo, hi);
        assert(select_eq(t, offs, level, c - 1, lo, hi).to_multiset() =~= Multiset::<
            usize,
        >::empty()) by {
            select_eq(t, offs, level, c - 1, lo, hi).to_multiset_ensures();
        }
        assert(class_multiset_below(t, offs, level, c, lo, hi) =~= Multiset::<usize>::empty());
    }
}

/// A freshly allocated vector of `n` zeroes.
pub(crate) fn make_zeros(n: usize) -> (v: Vec<usize>)
    ensures
        v@.len() == n,
        forall|i: int| 0 <= i < n ==> v@[i] == 0,
{
    let mut v: Vec<usize> = Vec::new();
    let mut i: usize = 0;
    while i < n
        invariant
            i <= n,
            v@.len() == i,
            forall|k: int| 0 <= k < i ==> v@[k] == 0,
        decreases n - i,
    {
        v.push(0);
        i = i + 1;
    }
    v
}

/// Hybrid radix/comparison sorter state: the text the suffixes point into,
/// the offsets being permuted, and the range size below which a direct
/// comparison sort takes over.
pub struct MsdRadixSorter<'a> {
    text: &'a [u8],
    suffixes: Vec<usize>,
    threshold: usize,
}

impl<'a> MsdRadixSorter<'a> {
    /// The state the sorter maintains throughout: a terminator-bearing text
    /// and distinct, in-range suffix offsets.
    spec fn wf(&self) -> bool {
        &&& wf_text(self.text@)
        &&& self.threshold >= 1
        &&& forall|k: int|
            0 <= k < self.suffixes@.len() ==> (#[trigger] self.suffixes@[k]) < self.text@.len()
        &&& self.suffixes@.no_duplicates()
    }

    /// One counting-sort pass: regroups `self.suffixes[start..end)` by the
    /// byte each suffix holds right after the shared prefix, in ascending
    /// byte order, keeping the multiset of offsets.
    #[verifier::loop_isolation(false)]
    fn redistribute(&mut self, start: usize, end: usize, level: usize, Ghost(prefix): Ghost<
        Seq<u8>,
    >)
        requires
            old(self).wf(),
            start <= end <= old(self).suffixes@.len(),
            end - start >= 2,
            prefix.len() == level,
            forall|k: int|
                start <= k < end ==> share_ok(old(self).text@, prefix, #[trigger] old(
                    self,
                ).suffixes@[k]),
        ensures
            final(self).wf(),
            final(self).text == old(self).text,
            final(self).threshold == old(self).threshold,
            final(self).suffixes@.len() == old(self).suffixes@.len(),
            forall|k: int|
                0 <= k < start || end <= k < final(self).suffixes@.len() ==> final(
                    self
                ).suffixes@[k] == old(self).suffixes@[k],
            final(self).suffixes@.subrange(start as int, end as int).to_multiset() == old(
                self,
            ).suffixes@.subrange(start as int, end as int).to_multiset(),
            forall|k: int|
                start <= k < end ==> share_ok(final(self).text@, prefix, #[trigger] final(
                    self
                ).suffixes@[k]) && final(self).suffixes@[k] + level < final(self).text@.len(),
            forall|p: int, q: int|
                start <= p < q < end ==> level_byte(
                    final(self).text@,
                    #[trigger] final(self).suffixes@[p],
                    level as int,
                ) <= level_byte(final(self).text@, #[trigger] final(self).suffixes@[q], level as int),
    {
        let ghost t = self.text@;
        let ghost offs0 = self.suffixes@;
        let ghost thr = self.threshold;
        let text = self.text;
        let n = text.len();
        proof {
            lemma_shared_range_in_bounds(t, offs0, prefix, start as int, end as int);
        }
        let m = end - start;

        // Count how often each byte occurs at this level.
        let mut counts = make_zeros(256);
        let mut i = start;
        while i < end
            invariant
                start <= i <= end,
                self.suffixes@ == offs0,
                self.text@ == t,
                counts@.len() == 256,
                forall|c: int|
                    0 <= c < 256 ==> counts@[c] == count_eq(
                        t,
                        offs0,
                        level as int,
                        c,
                        start as int,
                        i as int,
                    ),
            decreases end - i,
        {
            let off = self.suffixes[i];
            proof {
                assert(share_ok(t, prefix, offs0[i as int]));
                assert(offs0[i as int] + prefix.len() < t.len());
            }
            let b = text[off + level] as usize;
            proof {
                lemma_count_bounds(t, offs0, level as int, b as int, start as int, i as int);
            }
            let cnt = counts[b];
            counts.set(b, cnt + 1);
            i = i + 1;
        }

        // Exclusive running totals: where each byte class begins.
        proof {
            lemma_count_lt_all(t, offs0, level as int, start as int, end as int);
        }
        let mut cursor = make_zeros(256);
        let mut acc: usize = 0;
        let mut c: usize = 0;
        while c < 256
            invariant
                c <= 256,
                cursor@.len() == 256,
                acc == count_lt(t, offs0, level as int, c as int, start as int, end as int),
                forall|d: int|
                    0 <= d < c ==> cursor@[d] == count_lt(
                        t,
                        offs0,
                        level as int,
                        d,
                        start as int,
                        end as int,
                    ),
            decreases 256 - c,
        {
            cursor.set(c, acc);
            let cnt = counts[c];
            proof {
                lemma_count_lt_step(t, offs0, level as int, c as int, start as int, end as int);
                lemma_count_lt_monotone(
                    t,
                    offs0,
                    level as int,
                    c as int + 1,
                    256,
                    start as int,
                    end as int,
                );
                lemma_count_lt_all(t, offs0, level as int, start as int, end as int);
                lemma_count_bounds(t, offs0, level as int, c as int, start as int, end as int);
            }
            acc = acc + cnt;
            c = c + 1;
        }

        // Stable placement into a scratch buffer.
        let mut buf = make_zeros(m);
        proof {
            assert forall|cc: int| 0 <= cc < 256 implies buf@.subrange(
                count_lt(t, offs0, level as int, cc, start as int, end as int),
                count_lt(t, offs0, level as int, cc, start as int, end as int) + count_eq(
                    t,
                    offs0,
                    level as int,
                    cc,
                    start as int,
                    start as int,
                ),
            ) == select_eq(t, offs0, level as int, cc, start as int, start as int) by {
                lemma_count_bounds(t, offs0, level as int, cc, start as int, end as int);
                let left = count_lt(t, offs0, level as int, cc, start as int, end as int);
                assert(buf@.subrange(left, left) =~= Seq::<usize>::empty());
                assert(select_eq(t, offs0, level as int, cc, start as int, start as int)
                    =~= Seq::<usize>::empty());
            }
        }
        let mut i = start;
        while i < end
            invariant
                start <= i <= end,
                self.suffixes@ == offs0,
                self.text@ == t,
                buf@.len() == m,
                cursor@.len() == 256,
                forall|cc: int|
                    0 <= cc < 256 ==> cursor@[cc] == count_lt(
                        t,
                        offs0,
                        level as int,
                        cc,
                        start as int,
                        end as int,
                    ) + count_eq(t, offs0, level as int, cc, start as int, i as int),
                forall|cc: int|
                    0 <= cc < 256 ==> buf@.subrange(
                        count_lt(t, offs0, level as int, cc, start as int, end as int),
                        count_lt(t, offs0, level as int, cc, start as int, end as int) + count_eq(
                            t,
                            offs0,
                            level as int,
                            cc,
                            start as int,
                            i as int,
                        ),
                    ) == select_eq(t, offs0, level as int, cc, start as int, i as int),
            decreases end - i,
        {
            let ghost i0 = i as int;
            let ghost buf0 = buf@;
            let off = self.suffixes[i];
            let b = text[off + level] as usize;
            let pos = cursor[b];
            proof {
                lemma_count_bounds(t, offs0, level as int, b as int, start as int, i0);
                lemma_count_eq_monotone(
                    t,
                    offs0,
                    level as int,
                    b as int,
                    start as int,
                    i0 + 1,
                    end as int,
                );
                lemma_count_lt_step(t, offs0, level as int, b as int, start as int, end as int);
                lemma_count_lt_monotone(
                    t,
                    offs0,
                    level as int,
                    b as int + 1,
                    256,
                    start as int,
                    end as int,
                );
                lemma_count_lt_all(t, offs0, level as int, start as int, end as int);
                lemma_count_bounds(t, offs0, level as int, b as int, start as int, end as int);
                assert(count_eq(t, offs0, level as int, b as int, start as int, i0 + 1) == count_eq(
                    t,
                    offs0,
                    level as int,
                    b as int,
                    start as int,
                    i0,
                ) + 1);
            }
            buf.set(pos, off);
            cursor.set(b, pos + 1);
            i = i + 1;
            proof {
                assert forall|cc: int| 0 <= cc < 256 implies buf@.subrange(
                    count_lt(t, offs0, level as int, cc, start as int, end as int),
                    count_lt(t, offs0, level as int, cc, start as int, end as int) + count_eq(
                        t,
                        offs0,
                        level as int,
                        cc,
                        start as int,
                        i as int,
                    ),
                ) == select_eq(t, offs0, level as int, cc, start as int, i as int) by {
                    let left = count_lt(t, offs0, level as int, cc, start as int, end as int);
                    let grown = count_eq(t, offs0, level as int, cc, start as int, i as int);
                    let had = count_eq(t, offs0, level as int, cc, start as int, i0);
                    lemma_count_lt_step(t, offs0, level as int, cc, start as int, end as int);
                    lemma_count_bounds(t, offs0, level as int, cc, start as int, i0);
                    lemma_count_bounds(t, offs0, level as int, cc, start as int, end as int);
                    lemma_count_lt_monotone(
                        t,
                        offs0,
                        level as int,
                        cc + 1,
                        256,
                        start as int,
                        end as int,
                    );
                    lemma_count_lt_all(t, offs0, level as int, start as int, end as int);
                    lemma_count_eq_monotone(
                        t,
                        offs0,
                        level as int,
                        cc,
                        start as int,
                        i0,
                        end as int,
                    );
                    lemma_count_eq_monotone(
                        t,
                        offs0,
                        level as int,
                        cc,
                        start as int,
                        i as int,
                        end as int,
                    );
                    if cc == b as int {
                        assert(grown == had + 1);
                        assert(select_eq(t, offs0, level as int, cc, start as int, i as int)
                            == select_eq(t, offs0, level as int, cc, start as int, i0).push(off));
                        assert(buf@.subrange(left, left + grown) =~= buf0.subrange(
                            left,
                            left + had,
                        ).push(off));
                    } else {
                        assert(grown == had);
                        assert(select_eq(t, offs0, level as int, cc, start as int, i as int)
                            == select_eq(t, offs0, level as int, cc, start as int, i0));
                        if cc < b as int {
                            lemma_count_lt_monotone(
                                t,
                                offs0,
                                level as int,
                                cc + 1,
                                b as int,
                                start as int,
                                end as int,
                            );
                            assert(pos >= left + had);
                        } else {
                            lemma_count_lt_step(
                                t,
                                offs0,
                                level as int,
                                b as int,
                                start as int,
                                end as int,
                            );
                            lemma_count_lt_monotone(
                                t,
                                offs0,
                                level as int,
                                b as int + 1,
                                cc,
                                start as int,
                                end as int,
                            );
                            assert(pos < left);
                        }
                        assert(buf@.subrange(left, left + grown) =~= buf0.subrange(
                            left,
                            left + had,
                        ));
                    }
                }
            }
        }

        // Copy the buffer back into the range.
        let ghost bufv = buf@;
        let mut r: usize = 0;
        while r < m
            invariant
                r <= m,
                self.text == text,
                self.text@ == t,
                self.threshold == thr,
                self.suffixes@.len() == offs0.len(),
                forall|k: int|
                    0 <= k < start || end <= k < offs0.len() ==> self.suffixes@[k] == offs0[k],
                forall|k: int| start <= k < start + r ==> self.suffixes@[k] == bufv[k - start],
                forall|k: int| start + r <= k < end ==> self.suffixes@[k] == offs0[k],
            decreases m - r,
        {
            let v = buf[r];
            self.suffixes.set(start + r, v);
            r = r + 1;
        }

        proof {
            let sub_new = self.suffixes@.subrange(start as int, end as int);
            let sub_old = offs0.subrange(start as int, end as int);
            assert(sub_new =~= bufv);
            lemma_class_multiset_complete(t, offs0, level as int, start as int, end as int);
            lemma_sorted_tiles(t, offs0, level as int, start as int, end as int, bufv, 256);
            lemma_count_lt_all(t, offs0, level as int, start as int, end as int);
            assert(bufv.subrange(
                0,
                count_lt(t, offs0, level as int, 256, start as int, end as int),
            ) =~= bufv);
            assert(sub_new.to_multiset() == sub_old.to_multiset());
            lemma_splice_preserves_multiset(offs0, self.suffixes@, start as int, end as int);
            lemma_no_dup_transfer(offs0, self.suffixes@);
            assert forall|k: int| start <= k < end implies share_ok(
                t,
                prefix,
                #[trigger] self.suffixes@[k],
            ) by {
                lemma_share_transfer(t, prefix, sub_old, sub_new);
                assert(share_ok(t, prefix, sub_new[k - start]));
            }
            lemma_shared_range_in_bounds(t, self.suffixes@, prefix, start as int, end as int);
            assert(wf_text(self.text@));
            assert(self.threshold >= 1);
            assert(self.suffixes@.no_duplicates());
            assert forall|k: int|
                0 <= k < self.suffixes@.len() implies (#[trigger] self.suffixes@[k])
                < self.text@.len() by {
                if k < start || end <= k {
                    assert(self.suffixes@[k] == old(self).suffixes@[k]);
                } else {
                    assert(share_ok(t, prefix, self.suffixes@[k]));
                }
            }
            lemma_grouping(t, offs0, level as int, start as int, end as int, bufv);
            assert forall|p: int, q: int| start <= p < q < end implies level_byte(
                t,
                #[trigger] self.suffixes@[p],
                level as int,
            ) <= level_byte(t, #[trigger] self.suffixes@[q], level as int) by {
                assert(self.suffixes@[p] == bufv[p - start]);
                assert(self.suffixes@[q] == bufv[q - start]);
            }
        }
    }

    /// Sorts `self.suffixes[start..end)` into ascending suffix order, given
    /// that every offset in the range leads with the same `level` bytes.
    /// Ranges at or below the threshold go to the comparison sort; larger
    /// ranges are regrouped by their next byte and each group is sorted one
    /// level deeper.
    #[verifier::loop_isolation(false)]
    fn sort_range(&mut self, start: usize, end: usize, level: usize, Ghost(prefix): Ghost<Seq<u8>>)
        requires
            old(self).wf(),
            start <= end <= old(self).suffixes@.len(),
            prefix.len() == level,
            forall|k: int|
                start <= k < end ==> share_ok(old(self).text@, prefix, #[trigger] old(
                    self,
                ).suffixes@[k]),
        ensures
            final(self).wf(),
            final(self).text == old(self).text,
            final(self).threshold == old(self).threshold,
            final(self).suffixes@.len() == old(self).suffixes@.len(),
            forall|k: int|
                0 <= k < start || end <= k < final(self).suffixes@.len() ==> final(
                    self
                ).suffixes@[k] == old(self).suffixes@[k],
            final(self).suffixes@.subrange(start as int, end as int).to_multiset() == old(
                self,
            ).suffixes@.subrange(start as int, end as int).to_multiset(),
            forall|p: int, q: int|
                start <= p < q < end ==> suffix_leq(
                    final(self).text@,
                    #[trigger] final(self).suffixes@[p] as int,
                    #[trigger] final(self).suffixes@[q] as int,
                ),
        decreases old(self).text@.len() - level,
    {
        if end - start <= self.threshold {
            self.comparison_sort_range(start, end);
            return ;
        }
        let ghost offs_entry = self.suffixes@;
        self.redistribute(start, end, level, Ghost(prefix));
        let ghost t = self.text@;
        let ghost offs1 = self.suffixes@;
        let ghost thr = self.threshold;
        let text = self.text;
        let n = text.len();
        proof {
            assert(self.suffixes@[start as int] + level < n);
        }
        let mut i = start;
        while i < end
            invariant
                start <= i <= end <= self.suffixes@.len(),
                self.suffixes@.len() == offs1.len(),
                text == self.text,
                t == self.text@,
                t.len() == n,
                thr == self.threshold,
                self.wf(),
                prefix.len() == level,
                level < n,
                forall|k: int|
                    0 <= k < start || end <= k < offs1.len() ==> self.suffixes@[k] == offs1[k],
                self.suffixes@.subrange(start as int, end as int).to_multiset() == offs1.subrange(
                    start as int,
                    end as int,
                ).to_multiset(),
                forall|k: int|
                    start <= k < end ==> share_ok(t, prefix, #[trigger] self.suffixes@[k])
                        && self.suffixes@[k] + level < n,
                forall|p: int, q: int|
                    start <= p < q < end ==> level_byte(t, #[trigger] self.suffixes@[p], level as int)
                        <= level_byte(t, #[trigger] self.suffixes@[q], level as int),
                forall|p: int, q: int|
                    start <= p < q < i ==> suffix_leq(
                        t,
                        #[trigger] self.suffixes@[p] as int,
                        #[trigger] self.suffixes@[q] as int,
                    ),
                forall|p: int, q: int|
                    start <= p < i && i <= q < end ==> level_byte(
                        t,
                        #[trigger] self.suffixes@[p],
                        level as int,
                    ) < level_byte(t, #[trigger] self.suffixes@[q], level as int),
            decreases end - i,
        {
            let off_i = self.suffixes[i];
            let cb = text[off_i + level];
            let mut j = i + 1;
            while j < end && text[self.suffixes[j] + level] == cb
                invariant
                    start <= i < j <= end <= self.suffixes@.len(),
                    text == self.text,
                    t == self.text@,
                    t.len() == n,
                    cb as int == level_byte(t, self.suffixes@[i as int], level as int),
                    forall|k: int|
                        start <= k < end ==> share_ok(t, prefix, #[trigger] self.suffixes@[k])
                            && self.suffixes@[k] + level < n,
                    forall|k: int|
                        i <= k < j ==> level_byte(t, #[trigger] self.suffixes@[k], level as int)
                            == cb as int,
                decreases end - j,
            {
                j = j + 1;
            }
            let ghost pre_rec = self.suffixes@;
            proof {
                assert forall|k: int| i <= k < j implies share_ok(
                    t,
                    prefix.push(cb),
                    #[trigger] self.suffixes@[k],
                ) by {
                    let off = self.suffixes@[k];
                    assert(share_ok(t, prefix, off));
                    assert forall|ii: int| 0 <= ii < prefix.push(cb).len() implies #[trigger] t[off
                        + ii] == prefix.push(cb)[ii] by {
                        if ii < prefix.len() {
                            assert(t[off + ii] == prefix[ii]);
                        } else {
                            assert(ii == level);
                            assert(level_byte(t, off, level as int) == cb as int);
                        }
                    }
                }
            }
            self.sort_range(i, j, level + 1, Ghost(prefix.push(cb)));
            proof {
                let sub_pre = pre_rec.subrange(i as int, j as int);
                let sub_post = self.suffixes@.subrange(i as int, j as int);
                lemma_multiset_membership(sub_pre, sub_post);
                // Positional facts inside the permuted run.
                assert forall|k: int| i <= k < j implies share_ok(
                    t,
                    prefix,
                    #[trigger] self.suffixes@[k],
                ) && self.suffixes@[k] + level < n && level_byte(t, self.suffixes@[k], level as int)
                    == cb as int by {
                    let x = self.suffixes@[k];
                    assert(sub_post[k - i] == x);
                    assert(sub_post.contains(x));
                    assert(sub_pre.contains(x));
                    let l = choose|l: int| 0 <= l < sub_pre.len() && sub_pre[l] == x;
                    assert(pre_rec[i + l] == x);
                    assert(share_ok(t, prefix, x));
                    assert(level_byte(t, x, level as int) == cb as int);
                }
                // The whole range still carries the same multiset.
                let before_range = pre_rec.subrange(start as int, end as int);
                let after_range = self.suffixes@.subrange(start as int, end as int);
                assert(before_range.subrange(i - start, j - start) =~= sub_pre);
                assert(after_range.subrange(i - start, j - start) =~= sub_post);
                assert forall|k: int|
                    0 <= k < i - start || j - start <= k < before_range.len() implies
                    before_range[k] == after_range[k] by {}
                lemma_splice_preserves_multiset(before_range, after_range, i - start, j - start);
                // Ordering across the run boundary.
                assert forall|p: int, q: int| start <= p < q < j implies suffix_leq(
                    t,
                    #[trigger] self.suffixes@[p] as int,
                    #[trigger] self.suffixes@[q] as int,
                ) by {
                    if q >= i && p < i {
                        let a = self.suffixes@[p];
                        let b = self.suffixes@[q];
                        assert(level_byte(t, a, level as int) < level_byte(t, b, level as int));
                        assert(t[a + prefix.len()] < t[b + prefix.len()]);
                        lemma_suffix_lt_by_byte(t, a, b, prefix);
                    }
                }
            }
            i = j;
        }
        proof {
            let sub_entry = offs_entry.subrange(start as int, end as int);
            let sub_mid = offs1.subrange(start as int, end as int);
            let sub_exit = self.suffixes@.subrange(start as int, end as int);
            assert(sub_exit.to_multiset() == sub_entry.to_multiset());
        }
    }

    /// Sorts distinct suffix offsets of a terminator-bearing text into
    /// ascending lexicographic suffix order. `threshold` is the range size
    /// at which the radix recursion hands over to the comparison sort; any
    /// value is accepted and only affects how the work is split.
    pub fn sort(text: &'a [u8], suffixes: Vec<usize>, threshold: usize) -> (r: Vec<usize>)
        requires
            wf_text(text@),
            forall|k: int| 0 <= k < suffixes@.len() ==> (#[trigger] suffixes@[k]) < text@.len(),
            suffixes@.no_duplicates(),
        ensures
            r@.to_multiset() == suffixes@.to_multiset(),
            r@.len() == suffixes@.len(),
            forall|p: int, q: int|
                0 <= p < q < r@.len() ==> suffix_lt(text@, #[trigger] r@[p] as int, #[trigger] r@[q] as int),
    {
        let n_suffixes = suffixes.len();
        let threshold = if threshold == 0 {
            1
        } else {
            threshold
        };
        let mut sorter = Self { text, suffixes, threshold };
        let ghost orig = sorter.suffixes@;
        proof {
            assert forall|k: int| 0 <= k < n_suffixes implies share_ok(
                text@,
                Seq::empty(),
                #[trigger] sorter.suffixes@[k],
            ) by {}
        }
        sorter.sort_range(0, n_suffixes, 0, Ghost(Seq::empty()));
        proof {
            assert(sorter.suffixes@.subrange(0, n_suffixes as int) =~= sorter.suffixes@);
            assert(orig.subrange(0, n_suffixes as int) =~= orig);
            lemma_no_dup_transfer(orig, sorter.suffixes@);
            assert forall|p: int, q: int| 0 <= p < q < sorter.suffixes@.len() implies suffix_lt(
                text@,
                #[trigger] sorter.suffixes@[p] as int,
                #[trigger] sorter.suffixes@[q] as int,
            ) by {
                assert(suffix_leq(
                    text@,
                    sorter.suffixes@[p] as int,
                    sorter.suffixes@[q] as int,
                ));
                assert(sorter.suffixes@[p] != sorter.suffixes@[q]);
            }
            sorter.suffixes@.to_multiset_ensures();
            orig.to_multiset_ensures();
        }
        sorter.suffixes
    }

    /// Sorts `self.suffixes[start..end)` by direct full-suffix comparison.
    fn comparison_sort_range(&mut self, start: usize, end: usize)
        requires
            old(self).wf(),
            start <= end <= old(self).suffixes@.len(),
        ensures
            final(self).wf(),
            final(self).text == old(self).text,
            final(self).threshold == old(self).threshold,
            final(self).suffixes@.len() == old(self).suffixes@.len(),
            forall|k: int|
                0 <= k < start || end <= k < final(self).suffixes@.len() ==> final(
                    self
                ).suffixes@[k] == old(self).suffixes@[k],
            final(self).suffixes@.subrange(start as int, end as int).to_multiset() == old(
                self,
            ).suffixes@.subrange(start as int, end as int).to_multiset(),
            forall|p: int, q: int|
                start <= p < q < end ==> suffix_leq(
                    final(self).text@,
                    #[trigger] final(self).suffixes@[p] as int,
                    #[trigger] final(self).suffixes@[q] as int,
                ),
    {
        let ghost t = self.text@;
        let ghost orig = self.suffixes@;
        let ghost thr = self.threshold;
        let text = self.text;
        let n = self.suffixes.len();
        if end - start < 2 {
            assert(self.suffixes@.subrange(start as int, end as int) =~= orig.subrange(
                start as int,
                end as int,
            ));
            return ;
        }
        let mut i = start + 1;
        while i < end
            invariant
                start < i <= end <= self.suffixes@.len(),
                self.suffixes@.len() == orig.len(),
                text == self.text,
                t == self.text@,
                thr == self.threshold,
                orig.no_duplicates(),
                self.wf(),
                forall|k: int|
                    0 <= k < start || end <= k < orig.len() ==> self.suffixes@[k] == orig[k],
                self.suffixes@.subrange(start as int, end as int).to_multiset() == orig.subrange(
                    start as int,
                    end as int,
                ).to_multiset(),
                forall|p: int, q: int|
                    start <= p < q < i ==> suffix_leq(
                        t,
                        #[trigger] self.suffixes@[p] as int,
                        #[trigger] self.suffixes@[q] as int,
                    ),
            decreases end - i,
        {
            let mut j = i;
            let mut placed = false;
            while j > start && !placed
                invariant
                    placed ==> suffix_leq(
                        t,
                        self.suffixes@[j - 1] as int,
                        self.suffixes@[j as int] as int,
                    ),
                    start <= j <= i < end <= self.suffixes@.len(),
                    self.suffixes@.len() == orig.len(),
                    text == self.text,
                    t == self.text@,
                    thr == self.threshold,
                    orig.no_duplicates(),
                    self.wf(),
                    forall|k: int|
                        0 <= k < start || end <= k < orig.len() ==> self.suffixes@[k] == orig[k],
                    self.suffixes@.subrange(start as int, end as int).to_multiset()
                        == orig.subrange(start as int, end as int).to_multiset(),
                    forall|p: int, q: int|
                        start <= p < q <= i && q != j ==> suffix_leq(
                            t,
                            #[trigger] self.suffixes@[p] as int,
                            #[trigger] self.suffixes@[q] as int,
                        ),
                decreases j + if placed {
                    0int
                } else {
                    1int
                },
            {
                let ghost before = self.suffixes@;
                let a = self.suffixes[j - 1];
                let b = self.suffixes[j];
                proof {
                    lemma_suffix_order_total(t, a as int, b as int);
                }
                if suffix_le_suffix(text, a, b) {
                    placed = true;
                    continue ;
                }
                self.suffixes.set(j - 1, b);
                self.suffixes.set(j, a);
                proof {
                    lemma_swap_multiset(before, j - 1, j as int);
                    assert(self.suffixes@ =~= before.update(j - 1, before[j as int]).update(
                        j as int,
                        before[j - 1],
                    ));
                    assert(self.suffixes@.subrange(start as int, end as int) =~= before.subrange(
                        start as int,
                        end as int,
                    ).update(j - 1 - start, before[j as int]).update(
                        j - start,
                        before[j - 1],
                    ));
                    assert(before.subrange(start as int, end as int).update(
                        j - 1 - start,
                        before[j as int],
                    ).update(j - start, before[j - 1]) == before.subrange(
                        start as int,
                        end as int,
                    ).update(j - 1 - start, before.subrange(start as int, end as int)[j - start]).update(
                        j - start,
                        before.subrange(start as int, end as int)[j - 1 - start],
                    ));
                    lemma_swap_multiset(before.subrange(start as int, end as int), j - 1 - start, j - start);
                    lemma_splice_preserves_multiset(orig, self.suffixes@, start as int, end as int);
                    lemma_no_dup_transfer(orig, self.suffixes@);
                }
                j = j - 1;
            }
            proof {
                if j > start {
                    assert(suffix_leq(t, self.suffixes@[j - 1] as int, self.suffixes@[j as int] as int));
                    assert forall|p: int, q: int| start <= p < q <= i implies suffix_leq(
                        t,
                        self.suffixes@[p] as int,
                        self.suffixes@[q] as int,
                    ) by {
                        if q == j {
                            if p < j - 1 {
                                lemma_suffix_leq_transitive(
                                    t,
                                    self.suffixes@[p] as int,
                                    self.suffixes@[j - 1] as int,
                                    self.suffixes@[q] as int,
                                );
                            }
                        }
                    }
                }
            }
            i = i + 1;
        }
    }
}

} // verus!
