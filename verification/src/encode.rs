//! The chunk driver: streams out the transform one chunk at a time.
//!
//! For each pair of consecutive cuts the whole text is scanned once for the
//! suffixes lying strictly above the lower cut and at or below the upper
//! one; the chunk is sorted and each suffix's cyclic predecessor byte is
//! emitted. The strict/inclusive pairing at every boundary puts each suffix
//! in exactly one chunk, so the output is the transform itself, whatever
//! the cuts were — as long as they start empty and strictly increase.

use vstd::prelude::*;

use crate::cuts::cuts_increasing;
use crate::cuts::cuts_view;
use crate::model::bwt_of;
use crate::model::lemma_sorted_offsets_props;
use crate::model::lemma_strict_sorted_unique;
use crate::model::pred_byte;
use crate::model::pred_map;
use crate::model::sorted_offsets;
use crate::order::cut_lt_suffix;
use crate::order::lemma_lex_le_iff_not_gt;
use crate::order::lemma_lex_le_lt_transitive;
use crate::order::lemma_lex_lt_asymmetric;
use crate::order::lemma_lex_lt_irreflexive;
use crate::order::lex_le;
use crate::order::lex_lt;
use crate::order::suffix_at;
use crate::order::suffix_le_cut;
use crate::order::suffix_lt;
use crate::order::wf_text;
use crate::radixsort::lemma_multiset_membership;
use crate::radixsort::lemma_no_dup_transfer;
use crate::radixsort::MsdRadixSorter;

verus! {

/// The suffix starting at `j` belongs to chunk `q`: it lies strictly above
/// the lower cut, and at or below the upper cut when one exists (the last
/// chunk is unbounded above).
pub open spec fn in_chunk(t: Seq<u8>, cv: Seq<Seq<u8>>, q: int, j: int) -> bool {
    &&& lex_lt(cv[q - 1], suffix_at(t, j))
    &&& (q < cv.len() ==> lex_le(suffix_at(t, j), cv[q]))
}

/// Builds the transform of `text` from the given partition boundaries and
/// appends it to `wrt`. The cuts must start with the empty cut and be
/// strictly increasing; the output is then the transform of the text alone,
/// independent of where the cuts fall.
#[verifier::loop_isolation(false)]
pub fn bwt_from_cuts(text: &[u8], cuts: &[Vec<u8>], wrt: &mut Vec<u8>)
    requires
        wf_text(text@),
        cuts@.len() >= 1,
        cuts@[0]@.len() == 0,
        cuts_increasing(cuts_view(cuts@)),
    ensures
        final(wrt)@ == old(wrt)@ + bwt_of(text@),
{
    let ghost t = text@;
    let ghost cv = cuts_view(cuts@);
    let n = text.len();
    let m = cuts.len();
    let ghost mut emitted: Seq<usize> = Seq::empty();
    proof {
        assert(wrt@ =~= old(wrt)@ + pred_map(t, emitted));
    }
    let mut qm1: usize = 0;
    while qm1 < m
        invariant
            qm1 <= m,
            wrt@ == old(wrt)@ + pred_map(t, emitted),
            emitted.no_duplicates(),
            forall|k: int| 0 <= k < emitted.len() ==> (#[trigger] emitted[k]) < n,
            forall|p: int, r: int|
                0 <= p < r < emitted.len() ==> suffix_lt(
                    t,
                    #[trigger] emitted[p] as int,
                    #[trigger] emitted[r] as int,
                ),
            qm1 < m ==> forall|j: int|
                0 <= j < n ==> (emitted.contains(j as usize) <==> lex_le(
                    suffix_at(t, j),
                    cv[qm1 as int],
                )),
            qm1 == m ==> forall|j: usize| j < n ==> #[trigger] emitted.contains(j),
        decreases m - qm1,
    {
        let ghost gq: int = qm1 + 1;
        let ghost lower = cv[gq - 1];
        // Collect the offsets whose suffixes fall in this chunk.
        let mut chunk: Vec<usize> = Vec::new();
        let mut j: usize = 0;
        while j < n
            invariant
                j <= n,
                forall|k: int| 0 <= k < chunk@.len() ==> (#[trigger] chunk@[k]) < j,
                forall|k: int, l: int| 0 <= k < l < chunk@.len() ==> chunk@[k] < chunk@[l],
                forall|jj: int|
                    0 <= jj < j ==> (chunk@.contains(jj as usize) <==> in_chunk(t, cv, gq, jj)),
            decreases n - j,
        {
            let ghost chunk0 = chunk@;
            let sel = if cut_lt_suffix(cuts[qm1].as_slice(), text, j) {
                if qm1 + 1 < m {
                    suffix_le_cut(text, j, cuts[qm1 + 1].as_slice())
                } else {
                    true
                }
            } else {
                false
            };
            if sel {
                chunk.push(j);
            }
            proof {
                assert(sel == in_chunk(t, cv, gq, j as int));
                assert forall|jj: int| 0 <= jj < j + 1 implies (chunk@.contains(jj as usize)
                    <==> in_chunk(t, cv, gq, jj)) by {
                    if jj < j {
                        assert(chunk0.contains(jj as usize) <==> in_chunk(t, cv, gq, jj));
                        if chunk@.contains(jj as usize) && !chunk0.contains(jj as usize) {
                            let k = choose|k: int|
                                0 <= k < chunk@.len() && chunk@[k] == jj as usize;
                            assert(k == chunk@.len() - 1);
                        }
                        if chunk0.contains(jj as usize) {
                            let k = choose|k: int|
                                0 <= k < chunk0.len() && chunk0[k] == jj as usize;
                            assert(chunk@[k] == jj as usize);
                            assert(chunk@.contains(jj as usize));
                        }
                    } else {
                        if sel {
                            assert(chunk@[chunk@.len() - 1] == jj as usize);
                            assert(chunk@.contains(jj as usize));
                        } else if chunk@.contains(jj as usize) {
                            let k = choose|k: int|
                                0 <= k < chunk@.len() && chunk@[k] == jj as usize;
                        }
                    }
                }
            }
            j = j + 1;
        }
        let ghost chunk_pre = chunk@;
        proof {
            assert(chunk_pre.no_duplicates());
        }
        // Sort the chunk into ascending suffix order.
        let sorted_chunk = MsdRadixSorter::sort(text, chunk, 256);
        proof {
            lemma_multiset_membership(chunk_pre, sorted_chunk@);
        }
        let ghost chunkv = sorted_chunk@;
        proof {
            assert forall|k: int| 0 <= k < chunkv.len() implies (#[trigger] chunkv[k]) < n by {
                assert(chunkv.contains(chunkv[k]));
                assert(chunk_pre.contains(chunkv[k]));
                let l = choose|l: int| 0 <= l < chunk_pre.len() && chunk_pre[l] == chunkv[k];
            }
        }
        // Emit each suffix's cyclic predecessor byte.
        let len = sorted_chunk.len();
        let mut idx: usize = 0;
        while idx < len
            invariant
                idx <= len,
                len == chunkv.len(),
                sorted_chunk@ == chunkv,
                wrt@ == old(wrt)@ + pred_map(t, emitted) + pred_map(t, chunkv.subrange(0, idx as int)),
            decreases len - idx,
        {
            let jj = sorted_chunk[idx];
            let c = if jj == 0 {
                text[n - 1]
            } else {
                text[jj - 1]
            };
            wrt.push(c);
            proof {
                assert(c == pred_byte(t, chunkv[idx as int] as int));
                assert(pred_map(t, chunkv.subrange(0, idx + 1)) =~= pred_map(
                    t,
                    chunkv.subrange(0, idx as int),
                ).push(c));
            }
            idx = idx + 1;
        }
        // Fold the chunk into the emitted prefix of the suffix order.
        proof {
            let prev = emitted;
            emitted = emitted + chunkv;
            assert(chunkv.subrange(0, chunkv.len() as int) =~= chunkv);
            assert(pred_map(t, emitted) =~= pred_map(t, prev) + pred_map(t, chunkv));
            assert(wrt@ == old(wrt)@ + pred_map(t, emitted));
            // Everything in this chunk is a valid offset strictly above the
            // lower cut; everything previously emitted sits at or below it.
            assert forall|x: usize| #[trigger] chunkv.contains(x) implies x < n && in_chunk(
                t,
                cv,
                gq,
                x as int,
            ) by {
                assert(chunk_pre.contains(x));
                let k = choose|k: int| 0 <= k < chunk_pre.len() && chunk_pre[k] == x;
                assert(chunk_pre[k] < n);
            }
            crate::radixsort::lemma_no_dup_transfer(chunk_pre, chunkv);
            assert forall|x: usize| #[trigger] prev.contains(x) implies x < n && lex_le(
                suffix_at(t, x as int),
                lower,
            ) by {
                let k = choose|k: int| 0 <= k < prev.len() && prev[k] == x;
                assert(prev[k] < n);
            }
            assert forall|p: int, r: int| 0 <= p < r < emitted.len() implies suffix_lt(
                t,
                #[trigger] emitted[p] as int,
                #[trigger] emitted[r] as int,
            ) by {
                if r < prev.len() {
                    assert(emitted[p] == prev[p]);
                    assert(emitted[r] == prev[r]);
                } else if p >= prev.len() {
                    assert(emitted[p] == chunkv[p - prev.len()]);
                    assert(emitted[r] == chunkv[r - prev.len()]);
                } else {
                    let a = prev[p];
                    let b = chunkv[r - prev.len()];
                    assert(emitted[p] == a);
                    assert(emitted[r] == b);
                    assert(prev.contains(a));
                    assert(chunkv.contains(b));
                    assert(lex_le(suffix_at(t, a as int), lower));
                    assert(lex_lt(lower, suffix_at(t, b as int)));
                    lemma_lex_le_lt_transitive(
                        suffix_at(t, a as int),
                        lower,
                        suffix_at(t, b as int),
                    );
                }
            }
            assert forall|k: int| 0 <= k < emitted.len() implies (#[trigger] emitted[k]) < n by {
                if k >= prev.len() {
                    assert(emitted[k] == chunkv[k - prev.len()]);
                    assert(chunkv.contains(chunkv[k - prev.len()]));
                } else {
                    assert(emitted[k] == prev[k]);
                }
            }
            // No offset is both at-or-below and strictly above the cut.
            assert(emitted.no_duplicates()) by {
                assert forall|k: int, l: int|
                    0 <= k < emitted.len() && 0 <= l < emitted.len() && k != l implies emitted[k]
                    != emitted[l] by {
                    if k < prev.len() && l < prev.len() {
                        assert(emitted[k] == prev[k]);
                        assert(emitted[l] == prev[l]);
                    } else if k >= prev.len() && l >= prev.len() {
                        assert(emitted[k] == chunkv[k - prev.len()]);
                        assert(emitted[l] == chunkv[l - prev.len()]);
                    } else {
                        let kp = if k < prev.len() { k } else { l };
                        let lc = if k < prev.len() { l } else { k };
                        let a = prev[kp];
                        let b = chunkv[lc - prev.len()];
                        assert(emitted[kp] == a);
                        assert(emitted[lc] == b);
                        assert(prev.contains(a));
                        assert(chunkv.contains(b));
                        if a == b {
                            assert(lex_le(suffix_at(t, b as int), lower));
                            assert(lex_lt(lower, suffix_at(t, b as int)));
                            lemma_lex_lt_asymmetric(lower, suffix_at(t, b as int));
                            lemma_lex_lt_irreflexive(lower);
                        }
                    }
                }
            }
            // Membership for the next chunk boundary.
            if gq < m {
                assert(lex_lt(cv[gq - 1], cv[gq]));
                assert forall|j2: int| 0 <= j2 < n implies (emitted.contains(j2 as usize) <==> lex_le(
                    suffix_at(t, j2),
                    cv[gq],
                )) by {
                    lemma_membership_step(t, cv, gq, prev, chunk_pre, chunkv, emitted, j2);
                }
            } else {
                assert forall|j2: usize| j2 < n implies #[trigger] emitted.contains(j2) by {
                    lemma_membership_last(t, cv, gq, prev, chunk_pre, chunkv, emitted, j2 as int);
                    assert((j2 as int) as usize == j2);
                }
            }
        }
        qm1 = qm1 + 1;
    }
    // Exactly the whole suffix order has been emitted, in order: it is the
    // sorted offset sequence, and the output is the transform.
    proof {
        lemma_sorted_offsets_props(t);
        let s = sorted_offsets(t);
        assert forall|x: usize| emitted.contains(x) <==> s.contains(x) by {
            if emitted.contains(x) {
                let k = choose|k: int| 0 <= k < emitted.len() && emitted[k] == x;
                assert(emitted[k] < n);
                assert(s.contains(x));
            }
            if s.contains(x) {
                let k = choose|k: int| 0 <= k < s.len() && s[k] == x;
                assert(s[k] < t.len());
                assert(x < n);
                assert(emitted.contains(x));
            }
        }
        lemma_strict_sorted_unique(t, emitted, s);
    }
}

/// Joining the chunk onto the emitted prefix moves the boundary of what
/// has been emitted from one cut up to the next.
proof fn lemma_membership_step(
    t: Seq<u8>,
    cv: Seq<Seq<u8>>,
    q: int,
    prev: Seq<usize>,
    chunk: Seq<usize>,
    chunkv: Seq<usize>,
    emitted: Seq<usize>,
    j2: int,
)
    requires
        1 <= q < cv.len(),
        emitted == prev + chunkv,
        forall|x: usize| chunk.contains(x) <==> chunkv.contains(x),
        prev.contains(j2 as usize) <==> lex_le(suffix_at(t, j2), cv[q - 1]),
        chunk.contains(j2 as usize) <==> in_chunk(t, cv, q, j2),
        lex_lt(cv[q - 1], cv[q]),
    ensures
        emitted.contains(j2 as usize) <==> lex_le(suffix_at(t, j2), cv[q]),
{
    let s = suffix_at(t, j2);
    let x = j2 as usize;
    assert(emitted.contains(x) <==> (prev.contains(x) || chunkv.contains(x))) by {
        lemma_concat_membership(prev, chunkv, x);
    }
    if emitted.contains(x) {
        if prev.contains(x) {
            lemma_lex_le_lt_transitive(s, cv[q - 1], cv[q]);
        }
    } else {
        if lex_le(s, cv[q]) {
            lemma_lex_le_iff_not_gt(s, cv[q - 1]);
            assert(lex_lt(cv[q - 1], s));
            assert(in_chunk(t, cv, q, j2));
        }
    }
}

/// After the last, upward-unbounded chunk every suffix has been emitted.
proof fn lemma_membership_last(
    t: Seq<u8>,
    cv: Seq<Seq<u8>>,
    q: int,
    prev: Seq<usize>,
    chunk: Seq<usize>,
    chunkv: Seq<usize>,
    emitted: Seq<usize>,
    j2: int,
)
    requires
        1 <= q == cv.len(),
        emitted == prev + chunkv,
        forall|x: usize| chunk.contains(x) <==> chunkv.contains(x),
        prev.contains(j2 as usize) <==> lex_le(suffix_at(t, j2), cv[q - 1]),
        chunk.contains(j2 as usize) <==> in_chunk(t, cv, q, j2),
    ensures
        emitted.contains(j2 as usize),
{
    let s = suffix_at(t, j2);
    let x = j2 as usize;
    lemma_concat_membership(prev, chunkv, x);
    lemma_lex_le_iff_not_gt(s, cv[q - 1]);
    if !lex_le(s, cv[q - 1]) {
        assert(in_chunk(t, cv, q, j2));
    }
}

/// Membership in a concatenation is membership in either part.
proof fn lemma_concat_membership(a: Seq<usize>, b: Seq<usize>, x: usize)
    ensures
        (a + b).contains(x) <==> (a.contains(x) || b.contains(x)),
{
    if a.contains(x) {
        let k = choose|k: int| 0 <= k < a.len() && a[k] == x;
        assert((a + b)[k] == x);
    }
    if b.contains(x) {
        let k = choose|k: int| 0 <= k < b.len() && b[k] == x;
        assert((a + b)[a.len() + k] == x);
    }
    if (a + b).contains(x) {
        let k = choose|k: int| 0 <= k < (a + b).len() && (a + b)[k] == x;
        if k < a.len() {
            assert(a[k] == x);
        } else {
            assert(b[k - a.len()] == x);
        }
    }
}

} // verus!
