//! Cut generation: the partition boundaries of the suffix order.
//!
//! A depth-first walk over the trie of prefixes occurring in the text emits
//! boundaries ("cuts") in strictly increasing lexicographic order, so that
//! consecutive cuts delimit groups of roughly `chunk_size` suffixes each.
//! Only one node's 256 frequency counters and the walk's stack are ever
//! live: the full suffix order is never materialised.

use vstd::prelude::*;
use vstd::pervasive::VecAdditionalExecFns;

use crate::order::lemma_lex_lt_from_diff;
use crate::order::lemma_lex_lt_from_prefix;
use crate::order::lemma_lex_lt_transitive;
use crate::order::lex_le;
use crate::order::lex_lt;

verus! {

/// How many text positions carry prefix `p` immediately followed by byte
/// `s`, among the follower positions below `j`.
pub open spec fn freq_upto(t: Seq<u8>, p: Seq<u8>, s: u8, j: int) -> int
    decreases j,
{
    if j <= p.len() || j < 0 {
        0
    } else {
        freq_upto(t, p, s, j - 1) + if t.subrange(j - 1 - p.len(), j - 1) == p && t[j - 1] == s {
            1int
        } else {
            0int
        }
    }
}

/// How many text positions carry prefix `p` immediately followed by byte
/// `s`.
pub open spec fn freq_of(t: Seq<u8>, p: Seq<u8>, s: u8) -> int {
    freq_upto(t, p, s, t.len() as int)
}

/// Frequencies lie between zero and the number of follower positions.
proof fn lemma_freq_bounds(t: Seq<u8>, p: Seq<u8>, s: u8, j: int)
    ensures
        0 <= freq_upto(t, p, s, j),
        freq_upto(t, p, s, j) <= (if j - p.len() >= 0 {
            j - p.len()
        } else {
            0int
        }),
    decreases j,
{
    if !(j <= p.len() || j < 0) {
        lemma_freq_bounds(t, p, s, j - 1);
    }
}

/// The views of a list of cuts.
pub open spec fn cuts_view(cuts: Seq<Vec<u8>>) -> Seq<Seq<u8>> {
    cuts.map_values(|c: Vec<u8>| c@)
}

/// The cuts are strictly increasing lexicographically.
pub open spec fn cuts_increasing(cs: Seq<Seq<u8>>) -> bool {
    forall|p: int, q: int| 0 <= p < q < cs.len() ==> lex_lt(#[trigger] cs[p], #[trigger] cs[q])
}

/// A freshly allocated copy of a byte vector.
fn copy_bytes(v: &Vec<u8>) -> (r: Vec<u8>)
    ensures
        r@ == v@,
{
    let mut r: Vec<u8> = Vec::new();
    let mut i: usize = 0;
    while i < v.len()
        invariant
            i <= v@.len(),
            r@ == v@.subrange(0, i as int),
        decreases v@.len() - i,
    {
        r.push(v[i]);
        proof {
            assert(r@ =~= v@.subrange(0, i + 1));
        }
        i = i + 1;
    }
    proof {
        assert(v@.subrange(0, v@.len() as int) =~= v@);
    }
    r
}

/// Does `text[i .. i + cut.len())` spell out `cut`?
fn range_matches(text: &[u8], i: usize, cut: &[u8]) -> (r: bool)
    requires
        i + cut@.len() <= text@.len(),
    ensures
        r == (text@.subrange(i as int, i + cut@.len()) == cut@),
{
    let n = text.len();
    let m = cut.len();
    let mut k: usize = 0;
    while k < m
        invariant
            k <= m,
            m == cut@.len(),
            n == text@.len(),
            i + m <= n,
            forall|ii: int| 0 <= ii < k ==> text@[i + ii] == cut@[ii],
        decreases m - k,
    {
        if text[i + k] != cut[k] {
            proof {
                assert(text@.subrange(i as int, i + cut@.len())[k as int] == text@[i + k]);
            }
            return false;
        }
        k = k + 1;
    }
    proof {
        assert(text@.subrange(i as int, i + cut@.len()) =~= cut@);
    }
    true
}

/// Counts, for every byte value, how many text positions continue the
/// prefix `cut` with that byte.
pub fn symbol_freqs(text: &[u8], cut: &[u8]) -> (freqs: Vec<usize>)
    ensures
        freqs@.len() == 256,
        forall|s: int| 0 <= s < 256 ==> freqs@[s] == freq_of(text@, cut@, s as u8),
{
    let n = text.len();
    let m = cut.len();
    let mut freqs = crate::radixsort::make_zeros(256);
    if m >= n {
        proof {
            assert forall|s: int| 0 <= s < 256 implies freqs@[s] == freq_of(
                text@,
                cut@,
                s as u8,
            ) by {
                lemma_freq_bounds(text@, cut@, s as u8, n as int);
            }
        }
        return freqs;
    }
    let mut j = m;
    while j < n
        invariant
            m <= j <= n,
            n == text@.len(),
            m == cut@.len(),
            m < n,
            freqs@.len() == 256,
            forall|s: int| 0 <= s < 256 ==> freqs@[s] == freq_upto(text@, cut@, s as u8, j as int),
        decreases n - j,
    {
        let ghost j0 = j as int;
        if range_matches(text, j - m, cut) {
            let b = text[j] as usize;
            let cnt = freqs[b];
            proof {
                lemma_freq_bounds(text@, cut@, b as u8, j0);
            }
            freqs.set(b, cnt + 1);
        }
        j = j + 1;
        proof {
            assert forall|s: int| 0 <= s < 256 implies freqs@[s] == freq_upto(
                text@,
                cut@,
                s as u8,
                j as int,
            ) by {
                assert(freq_upto(text@, cut@, s as u8, j0 + 1) == freq_upto(
                    text@,
                    cut@,
                    s as u8,
                    j0,
                ) + if text@.subrange(j0 - m, j0) == cut@ && text@[j0] == s as u8 {
                    1int
                } else {
                    0int
                });
            }
        }
    }
    freqs
}

/// Walks the trie of occurring prefixes and collects the partition
/// boundaries of the suffix order.
pub struct CutGenerator<'a> {
    text: &'a [u8],
    chunk_size: usize,
    cuts: Vec<Vec<u8>>,
    lens: Vec<usize>,
}

impl<'a> CutGenerator<'a> {
    /// The walk's running state: at least the initial empty cut, strictly
    /// increasing boundaries, and one accumulator per open slot, each within
    /// the chunk bound.
    spec fn wf(&self) -> bool {
        &&& self.chunk_size >= 1
        &&& self.cuts@.len() >= 1
        &&& self.cuts@[0]@.len() == 0
        &&& cuts_increasing(cuts_view(self.cuts@))
        &&& self.lens@.len() + 1 == self.cuts@.len()
        &&& forall|k: int| 0 <= k < self.lens@.len() ==> (#[trigger] self.lens@[k]) <= self.chunk_size
    }

    /// The boundary written most recently.
    spec fn last_cut(&self) -> Seq<u8> {
        self.cuts@[self.cuts@.len() - 1]@
    }

    /// Generates the ordered partition boundaries for `text` under the
    /// given chunk bound: the first entry is always the empty cut and the
    /// entries are strictly increasing lexicographically.
    pub fn generate(text: &'a [u8], chunk_size: usize) -> (cuts: Vec<Vec<u8>>)
        requires
            chunk_size >= 1,
        ensures
            cuts@.len() >= 1,
            cuts@[0]@.len() == 0,
            cuts_increasing(cuts_view(cuts@)),
    {
        let mut initial: Vec<Vec<u8>> = Vec::new();
        initial.push(Vec::new());
        let mut builder = Self { text, chunk_size, cuts: initial, lens: Vec::new() };
        proof {
            assert(cuts_view(builder.cuts@).len() == 1);
            assert(builder.wf());
            assert(lex_le(builder.last_cut(), Seq::<u8>::empty()));
        }
        builder.expand(Vec::new());
        proof {
            assert(forall|q: int|
                0 <= q < builder.cuts@.len() ==> cuts_view(builder.cuts@)[q] == builder.cuts@[q]@);
        }
        builder.cuts
    }

    /// Visits the trie node identified by `cut`, in ascending byte order:
    /// prefixes few enough suffixes share become candidate boundaries, too
    /// popular ones are expanded one byte deeper.
    #[verifier::loop_isolation(false)]
    fn expand(&mut self, cut: Vec<u8>)
        requires
            old(self).wf(),
            old(self).text@.len() >= cut@.len(),
            lex_le(old(self).last_cut(), cut@),
        ensures
            final(self).wf(),
            final(self).text == old(self).text,
            final(self).chunk_size == old(self).chunk_size,
            final(self).last_cut() == old(self).last_cut() || (cut@.len() < final(
                self
            ).last_cut().len() && final(self).last_cut().subrange(0, cut@.len() as int) == cut@),
        decreases old(self).text@.len() - cut@.len(),
    {
        let ghost t = self.text@;
        let ghost entry_last = self.last_cut();
        let text = self.text;
        let freqs = symbol_freqs(text, cut.as_slice());
        let n = text.len();
        proof {
            assert forall|s2: int| 0 <= s2 < 256 implies lex_lt(
                self.last_cut(),
                #[trigger] cut@.push(s2 as u8),
            ) by {
                lemma_lex_lt_from_prefix(cut@, cut@.push(s2 as u8));
                if lex_lt(self.last_cut(), cut@) {
                    lemma_lex_lt_transitive(self.last_cut(), cut@, cut@.push(s2 as u8));
                }
            }
        }
        let mut sym: usize = 0;
        while sym < 256
            invariant
                sym <= 256,
                self.wf(),
                self.text == text,
                self.text@ == t,
                t.len() >= cut@.len(),
                self.chunk_size == old(self).chunk_size,
                freqs@.len() == 256,
                forall|s: int| 0 <= s < 256 ==> freqs@[s] == freq_of(t, cut@, s as u8),
                forall|s2: int|
                    sym <= s2 < 256 ==> lex_lt(self.last_cut(), #[trigger] cut@.push(s2 as u8)),
                self.last_cut() == entry_last || (cut@.len() < self.last_cut().len()
                    && self.last_cut().subrange(0, cut@.len() as int) == cut@),
            decreases 256 - sym,
        {
            let freq = freqs[sym];
            if freq > 0 {
                proof {
                    lemma_freq_bounds(t, cut@, sym as u8, t.len() as int);
                    assert(cut@.len() < t.len());
                }
                let mut candidate = copy_bytes(&cut);
                candidate.push(sym as u8);
                if freq <= self.chunk_size {
                    let ghost pre = *self;
                    let need_new = if self.lens.len() == 0 {
                        true
                    } else {
                        let last_len = self.lens[self.lens.len() - 1];
                        freq > self.chunk_size - last_len
                    };
                    if need_new {
                        self.cuts.push(Vec::new());
                        self.lens.push(0);
                    }
                    let li = self.cuts.len() - 1;
                    self.cuts.set(li, candidate);
                    let ll = self.lens.len() - 1;
                    let cur = self.lens[ll];
                    self.lens.set(ll, cur + freq);
                    proof {
                        let cv = cuts_view(self.cuts@);
                        let pv = cuts_view(pre.cuts@);
                        assert(self.last_cut() == cut@.push(sym as u8));
                        assert(cv[0] == pv[0]);
                        assert forall|p: int, q: int| 0 <= p < q < cv.len() implies lex_lt(
                            #[trigger] cv[p],
                            #[trigger] cv[q],
                        ) by {
                            if q < cv.len() - 1 {
                                assert(cv[p] == pv[p]);
                                assert(cv[q] == pv[q]);
                            } else {
                                assert(cv[q] == cut@.push(sym as u8));
                                if p < pre.cuts@.len() - 1 {
                                    assert(cv[p] == pv[p]);
                                    assert(pre.last_cut() == pv[pv.len() - 1]);
                                    assert(lex_lt(pv[p], pv[pv.len() - 1]));
                                    lemma_lex_lt_transitive(pv[p], pre.last_cut(), cv[q]);
                                } else if p == pre.cuts@.len() - 1 {
                                    assert(cv[p] == pre.last_cut());
                                }
                            }
                        }
                        assert(self.wf());
                    }
                } else {
                    proof {
                        assert(lex_le(self.last_cut(), candidate@));
                    }
                    let ghost mid_last = self.last_cut();
                    self.expand(candidate);
                    proof {
                        if self.last_cut() != mid_last {
                            assert(self.last_cut().subrange(0, cut@.len() as int + 1) == cut@.push(
                                sym as u8,
                            ));
                            assert forall|ii: int| 0 <= ii < cut@.len() implies self.last_cut()[ii]
                                == cut@[ii] by {
                                assert(self.last_cut().subrange(0, cut@.len() as int + 1)[ii]
                                    == self.last_cut()[ii]);
                            }
                            assert(self.last_cut().subrange(0, cut@.len() as int) =~= cut@);
                            assert(self.last_cut().subrange(0, cut@.len() as int + 1)[cut@.len() as int]
                                == self.last_cut()[cut@.len() as int]);
                            assert(self.last_cut()[cut@.len() as int] == sym as u8);
                        }
                    }
                }
            }
            sym = sym + 1;
            proof {
                assert forall|s2: int| sym <= s2 < 256 implies lex_lt(
                    self.last_cut(),
                    #[trigger] cut@.push(s2 as u8),
                ) by {
                    let last = self.last_cut();
                    let target = cut@.push(s2 as u8);
                    if last == entry_last || freqs@[sym - 1] == 0 {
                        assert(lex_lt(last, cut@.push((sym - 1) as u8)) || lex_lt(
                            last,
                            target,
                        ));
                    }
                    if lex_lt(last, cut@.push((sym - 1) as u8)) {
                        assert forall|ii: int| 0 <= ii < cut@.len() implies cut@.push(
                            (sym - 1) as u8,
                        )[ii] == target[ii] by {}
                        lemma_lex_lt_from_diff(cut@.push((sym - 1) as u8), target, cut@.len() as int);
                        lemma_lex_lt_transitive(last, cut@.push((sym - 1) as u8), target);
                    } else if last == cut@.push((sym - 1) as u8) {
                        lemma_lex_lt_from_diff(last, target, cut@.len() as int);
                    } else if cut@.len() < last.len() && last.subrange(0, cut@.len() as int)
                        == cut@ && last[cut@.len() as int] == (sym - 1) as u8 {
                        assert forall|ii: int| 0 <= ii < cut@.len() implies last[ii]
                            == target[ii] by {
                            assert(last.subrange(0, cut@.len() as int)[ii] == last[ii]);
                        }
                        lemma_lex_lt_from_diff(last, target, cut@.len() as int);
                    }
                }
            }
        }
    }
}

} // verus!
