//! Inversion of a transform by LF-mapping.
//!
//! One left-to-right pass tabulates, for every position, how often its byte
//! occurred before it; an exclusive prefix sum over the byte counts then
//! gives, for every byte value, how many positions hold a smaller byte.
//! Together these define the LF map, and walking it from position zero
//! reproduces the original text backwards, one byte per step.

use vstd::prelude::*;
use vstd::pervasive::VecAdditionalExecFns;

use crate::BwtError;
use crate::radixsort::make_zeros;

verus! {

/// How many of the first `i` positions of `b` hold exactly byte `c`.
pub open spec fn count_byte_upto(b: Seq<u8>, c: u8, i: int) -> int
    decreases i,
{
    if i <= 0 {
        0
    } else {
        count_byte_upto(b, c, i - 1) + if b[i - 1] == c {
            1int
        } else {
            0int
        }
    }
}

/// How often byte `c` occurs in `b`.
pub open spec fn count_byte(b: Seq<u8>, c: u8) -> int {
    count_byte_upto(b, c, b.len() as int)
}

/// How many of the first `i` positions of `b` hold a byte smaller than `c`.
pub open spec fn count_below_upto(b: Seq<u8>, c: int, i: int) -> int
    decreases i,
{
    if i <= 0 {
        0
    } else {
        count_below_upto(b, c, i - 1) + if (b[i - 1] as int) < c {
            1int
        } else {
            0int
        }
    }
}

/// How many positions of `b` hold a byte smaller than `c`.
pub open spec fn count_below(b: Seq<u8>, c: int) -> int {
    count_below_upto(b, c, b.len() as int)
}

/// The smallest byte value occurring in `b`.
pub open spec fn min_byte(b: Seq<u8>) -> u8
    decreases b.len(),
{
    if b.len() <= 1 {
        b[0]
    } else {
        let m = min_byte(b.drop_last());
        if b.last() < m {
            b.last()
        } else {
            m
        }
    }
}

/// The LF map: the row of the sorted rotation table holding the rotation
/// that position `i`'s byte starts.
pub open spec fn lf_map(b: Seq<u8>, i: int) -> int {
    count_below(b, b[i] as int) + count_byte_upto(b, b[i], i)
}

/// The bytes the LF walk visits from position `i`, newest first, stopping
/// at the terminator or when the fuel runs out.
pub open spec fn lf_walk(b: Seq<u8>, i: int, fuel: nat) -> Seq<u8>
    decreases fuel,
{
    if fuel == 0 || b[i] == min_byte(b) {
        Seq::empty()
    } else {
        seq![b[i]] + lf_walk(b, lf_map(b, i), (fuel - 1) as nat)
    }
}

/// What decoding yields on a sequence whose minimum byte occurs exactly
/// once: the LF walk from position zero, with the terminator in front,
/// read backwards.
pub open spec fn decode_spec(b: Seq<u8>) -> Seq<u8> {
    (seq![min_byte(b)] + lf_walk(b, 0, (b.len() - 1) as nat)).reverse()
}

/// Counts lie between zero and the number of positions counted.
pub(crate) proof fn lemma_count_byte_bounds(b: Seq<u8>, c: u8, d: int, i: int)
    ensures
        0 <= count_byte_upto(b, c, i),
        i >= 0 ==> count_byte_upto(b, c, i) <= i,
        0 <= count_below_upto(b, d, i),
        i >= 0 ==> count_below_upto(b, d, i) <= i,
    decreases i,
{
    if i > 0 {
        lemma_count_byte_bounds(b, c, d, i - 1);
    }
}

/// Counting stops growing only where the byte stops occurring.
pub(crate) proof fn lemma_count_byte_monotone(b: Seq<u8>, c: u8, i: int, j: int)
    requires
        i <= j,
    ensures
        count_byte_upto(b, c, i) <= count_byte_upto(b, c, j),
    decreases j - i,
{
    if i < j {
        lemma_count_byte_monotone(b, c, i, j - 1);
    }
}

/// Everything below `c + 1` is everything below `c` plus everything at `c`.
pub(crate) proof fn lemma_count_below_step(b: Seq<u8>, c: u8, i: int)
    ensures
        count_below_upto(b, c as int + 1, i) == count_below_upto(b, c as int, i)
            + count_byte_upto(b, c, i),
    decreases i,
{
    if i > 0 {
        lemma_count_below_step(b, c, i - 1);
    }
}

/// A byte occurs exactly when its count is positive.
pub(crate) proof fn lemma_count_byte_occurs(b: Seq<u8>, c: u8, i: int)
    requires
        i <= b.len(),
    ensures
        count_byte_upto(b, c, i) > 0 <==> exists|k: int| 0 <= k < i && b[k] == c,
    decreases i,
{
    if i > 0 {
        lemma_count_byte_occurs(b, c, i - 1);
        lemma_count_byte_bounds(b, c, c as int, i - 1);
        if b[i - 1] == c {
            assert(count_byte_upto(b, c, i) > 0);
            assert(0 <= i - 1 < i && b[i - 1] == c);
        } else {
            if count_byte_upto(b, c, i) > 0 {
                let k = choose|k: int| 0 <= k < i - 1 && b[k] == c;
                assert(0 <= k < i && b[k] == c);
            }
            if exists|k: int| 0 <= k < i && b[k] == c {
                let k = choose|k: int| 0 <= k < i && b[k] == c;
                assert(0 <= k < i - 1 && b[k] == c);
            }
        }
    }
}

/// Nothing lies below byte value zero.
pub(crate) proof fn lemma_count_below_zero(b: Seq<u8>, i: int)
    ensures
        count_below_upto(b, 0, i) == 0,
    decreases i,
{
    if i > 0 {
        lemma_count_below_zero(b, i - 1);
    }
}

/// The minimum byte occurs, and no byte below it does.
pub(crate) proof fn lemma_min_byte_props(b: Seq<u8>)
    requires
        b.len() >= 1,
    ensures
        exists|k: int| 0 <= k < b.len() && b[k] == min_byte(b),
        forall|k: int| 0 <= k < b.len() ==> b[k] >= min_byte(b),
    decreases b.len(),
{
    if b.len() == 1 {
        assert(b[0] == min_byte(b));
    } else {
        let prefix = b.drop_last();
        lemma_min_byte_props(prefix);
        let m = min_byte(prefix);
        let k0 = choose|k: int| 0 <= k < prefix.len() && prefix[k] == m;
        if b.last() < m {
            assert(b[b.len() - 1] == min_byte(b));
        } else {
            assert(b[k0] == prefix[k0]);
            assert(b[k0] == min_byte(b));
        }
        assert forall|k: int| 0 <= k < b.len() implies b[k] >= min_byte(b) by {
            if k < b.len() - 1 {
                assert(b[k] == prefix[k]);
            }
        }
    }
}

/// Decodes the original text from its Burrows-Wheeler transform.
///
/// Fails exactly when the input is empty or its minimum byte value — the
/// terminator — does not occur exactly once. A sequence that passes those
/// checks without being a genuine transform is not detected: the walk then
/// yields bytes with no further meaning.
#[verifier::loop_isolation(false)]
pub fn decode_bwt(bwt: &[u8]) -> (r: Result<Vec<u8>, BwtError>)
    ensures
        r is Ok <==> (bwt@.len() >= 1 && count_byte(bwt@, min_byte(bwt@)) == 1),
        r is Err ==> r == Result::<Vec<u8>, BwtError>::Err(BwtError::InvalidBwt),
        r is Ok ==> (r->Ok_0)@ == decode_spec(bwt@) && 1 <= (r->Ok_0)@.len() <= bwt@.len() && (
        r->Ok_0)@[(r->Ok_0)@.len() - 1] == min_byte(bwt@),
{
    let ghost b = bwt@;
    let n = bwt.len();
    if n == 0 {
        return Err(BwtError::InvalidBwt);
    }
    // One pass: per-byte running counts, and each position's rank among
    // earlier occurrences of its own byte.
    let mut counts = make_zeros(256);
    let mut ranks = make_zeros(n);
    let mut i: usize = 0;
    while i < n
        invariant
            i <= n,
            counts@.len() == 256,
            ranks@.len() == n,
            forall|c: int| 0 <= c < 256 ==> counts@[c] == count_byte_upto(b, c as u8, i as int),
            forall|k: int| 0 <= k < i ==> ranks@[k] == count_byte_upto(b, b[k], k),
        decreases n - i,
    {
        let c = bwt[i] as usize;
        let cnt = counts[c];
        proof {
            lemma_count_byte_bounds(b, c as u8, c as int, i as int);
        }
        ranks.set(i, cnt);
        counts.set(c, cnt + 1);
        i = i + 1;
    }
    // Exclusive prefix sums: how many positions hold a smaller byte.
    let mut occ = make_zeros(256);
    proof {
        lemma_count_below_zero(b, n as int);
    }
    let mut acc: usize = 0;
    let mut c: usize = 0;
    while c < 256
        invariant
            c <= 256,
            occ@.len() == 256,
            acc == count_below_upto(b, c as int, n as int),
            forall|d: int| 0 <= d < c ==> occ@[d] == count_below_upto(b, d, n as int),
        decreases 256 - c,
    {
        occ.set(c, acc);
        let cnt = counts[c];
        proof {
            lemma_count_below_step(b, c as u8, n as int);
            lemma_count_byte_bounds(b, c as u8, c as int + 1, n as int);
        }
        acc = acc + cnt;
        c = c + 1;
    }
    // The terminator is the smallest occurring byte; it must occur once.
    proof {
        lemma_min_byte_props(b);
        lemma_count_byte_occurs(b, min_byte(b), n as int);
    }
    let mut term_idx: usize = 0;
    while term_idx < 256 && counts[term_idx] == 0
        invariant
            term_idx <= 256,
            forall|d: int| 0 <= d < term_idx ==> #[trigger] count_byte_upto(b, d as u8, n as int) == 0,
        decreases 256 - term_idx,
    {
        proof {
            lemma_count_byte_occurs(b, term_idx as u8, n as int);
        }
        term_idx = term_idx + 1;
    }
    proof {
        let md = min_byte(b) as int;
        if term_idx == 256 {
            assert(0 <= md < 256);
            assert(count_byte_upto(b, md as u8, n as int) == 0);
            assert(md as u8 == min_byte(b));
            assert(false);
        }
        assert(count_byte(b, term_idx as u8) > 0);
        lemma_count_byte_occurs(b, term_idx as u8, n as int);
        let k = choose|k: int| 0 <= k < n && b[k] == term_idx as u8;
        assert(b[k] >= min_byte(b));
        if md < term_idx {
            assert(count_byte_upto(b, md as u8, n as int) == 0);
            assert(md as u8 == min_byte(b));
            lemma_count_byte_occurs(b, min_byte(b), n as int);
            assert(false);
        }
        assert(term_idx as u8 == min_byte(b));
    }
    if counts[term_idx] != 1 {
        return Err(BwtError::InvalidBwt);
    }
    let term = term_idx as u8;
    // Walk the LF map from row zero, collecting the text backwards.
    let mut decoded: Vec<u8> = Vec::new();
    decoded.push(term);
    let mut pos: usize = 0;
    proof {
        assert(seq![term] + lf_walk(b, 0, (n - 1) as nat) =~= decoded@ + lf_walk(
            b,
            0,
            (n - decoded@.len()) as nat,
        ));
    }
    while decoded.len() < n && bwt[pos] != term
        invariant
            pos < n,
            1 <= decoded@.len() <= n,
            counts@.len() == 256,
            ranks@.len() == n,
            occ@.len() == 256,
            forall|cc: int| 0 <= cc < 256 ==> counts@[cc] == count_byte_upto(b, cc as u8, n as int),
            forall|k: int| 0 <= k < n ==> ranks@[k] == count_byte_upto(b, b[k], k),
            forall|d: int| 0 <= d < 256 ==> occ@[d] == count_below_upto(b, d, n as int),
            seq![term] + lf_walk(b, 0, (n - 1) as nat) == decoded@ + lf_walk(
                b,
                pos as int,
                (n - decoded@.len()) as nat,
            ),
        decreases n - decoded@.len(),
    {
        let cb = bwt[pos];
        let ghost fuel = (n - decoded@.len()) as nat;
        let ghost pos0 = pos as int;
        proof {
            lemma_count_byte_bounds(b, cb, cb as int, pos0);
            lemma_count_byte_monotone(b, cb, pos0 + 1, n as int);
            lemma_count_below_step(b, cb, n as int);
            lemma_count_byte_bounds(b, cb, cb as int + 1, n as int);
            assert(count_byte_upto(b, cb, pos0 + 1) == count_byte_upto(b, cb, pos0) + 1);
            assert(count_byte_upto(b, cb, pos0) < count_byte(b, cb));
            assert(count_below(b, cb as int) + count_byte(b, cb) == count_below_upto(
                b,
                cb as int + 1,
                n as int,
            ));
            assert(count_below_upto(b, cb as int + 1, n as int) <= n);
        }
        let next = occ[cb as usize] + ranks[pos];
        decoded.push(cb);
        proof {
            assert(next as int == lf_map(b, pos0));
            assert(lf_walk(b, pos0, fuel) == seq![cb] + lf_walk(
                b,
                lf_map(b, pos0),
                (fuel - 1) as nat,
            ));
            assert(decoded@.drop_last() =~= decoded@.subrange(0, decoded@.len() - 1));
            assert(decoded@ + lf_walk(b, next as int, (n - decoded@.len()) as nat) =~= (seq![term]
                + lf_walk(b, 0, (n - 1) as nat)));
        }
        pos = next;
    }
    proof {
        assert(lf_walk(b, pos as int, (n - decoded@.len()) as nat) =~= Seq::<u8>::empty());
        assert(decoded@ =~= seq![term] + lf_walk(b, 0, (n - 1) as nat));
    }
    // The text was collected backwards; reverse it.
    let len = decoded.len();
    let mut out: Vec<u8> = Vec::new();
    let mut k: usize = 0;
    while k < len
        invariant
            k <= len,
            len == decoded@.len(),
            out@.len() == k,
            forall|ii: int| 0 <= ii < k ==> out@[ii] == decoded@[len - 1 - ii],
        decreases len - k,
    {
        out.push(decoded[len - 1 - k]);
        k = k + 1;
    }
    proof {
        assert(out@ =~= decoded@.reverse());
    }
    Ok(out)
}

} // verus!
