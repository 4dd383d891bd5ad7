//! Burrows-Wheeler transform construction in small working memory.
//!
//! The transform of a byte text is built without materialising a full suffix
//! array: a cut generator partitions the suffix order into small chunks, each
//! chunk is collected by one scan of the text and sorted by a hybrid
//! radix/comparison suffix sorter, and the chunk's predecessor bytes are
//! emitted in order. A separate decoder inverts a transform by LF-mapping.
//!
//! The text must end with a terminator byte that is strictly smaller than
//! every other byte; [`verify_terminator`] checks this invariant.

pub mod cuts;
pub mod decode;
pub mod encode;
pub mod inverse;
pub mod model;
pub mod order;
pub mod radixsort;

pub use cuts::CutGenerator;
pub use cuts::symbol_freqs;
pub use decode::decode_bwt;
pub use encode::bwt_from_cuts;
pub use radixsort::MsdRadixSorter;

use vstd::prelude::*;

verus! {

/// The reasons an operation of this library can fail.
#[derive(Clone, Copy, Debug, PartialEq, Eq, Structural)]
pub enum BwtError {
    /// The text handed in was empty.
    EmptyText,
    /// Some byte before the last is not strictly greater than the last byte.
    TerminatorMisplaced,
    /// A chunk size of zero was requested.
    ZeroChunkSize,
    /// The byte sequence is not a valid transform: it is empty or its
    /// minimum byte does not occur exactly once.
    InvalidBwt,
}

/// Checks the terminator invariant: the text is non-empty and every byte
/// before the last is strictly greater than the last byte.
pub fn verify_terminator(text: &[u8]) -> (r: Result<(), BwtError>)
    ensures
        r is Ok <==> crate::order::wf_text(text@),
        text@.len() == 0 ==> r == Result::<(), BwtError>::Err(BwtError::EmptyText),
        text@.len() > 0 && r is Err ==> r == Result::<(), BwtError>::Err(
            BwtError::TerminatorMisplaced,
        ),
{
    let n = text.len();
    if n == 0 {
        return Err(BwtError::EmptyText);
    }
    let smallest = text[n - 1];
    for i in 0..n - 1
        invariant
            n == text@.len(),
            1 <= n,
            smallest == text@[n - 1],
            forall|k: int| 0 <= k < i ==> text@[k] > smallest,
    {
        if text[i] <= smallest {
            return Err(BwtError::TerminatorMisplaced);
        }
    }
    Ok(())
}

/// The default chunk size for a text of length `n`: the ceiling of `n`
/// divided by the floor of its base-two logarithm — about `n / log2(n)` —
/// and at least one.
fn default_chunk_size(n: usize) -> (r: usize)
    requires
        n >= 1,
    ensures
        r >= 1,
{
    let mut v = n;
    let mut lg: usize = 0;
    while v >= 2
        invariant
            v >= 1,
            lg + v <= n,
        decreases v,
    {
        v = v / 2;
        lg = lg + 1;
    }
    if lg == 0 {
        1
    } else {
        let d = n / lg;
        let r = if d < usize::MAX && n % lg != 0 {
            d + 1
        } else {
            d
        };
        if r == 0 {
            1
        } else {
            r
        }
    }
}

/// Builds the Burrows-Wheeler transform of a byte text in small working
/// memory.
///
/// The text must satisfy the terminator invariant checked by
/// [`verify_terminator`]: its last byte is strictly smaller than every
/// other byte. The builder itself only rejects an empty text; callers are
/// expected to validate the terminator before building.
pub struct BwtBuilder<'a> {
    text: &'a [u8],
    chunk_size: usize,
    verbose: bool,
}

impl<'a> BwtBuilder<'a> {
    /// The text this builder will transform.
    pub closed spec fn text_view(&self) -> Seq<u8> {
        self.text@
    }

    /// The chunk size the builder will partition the suffix order by.
    pub closed spec fn chunk_size_spec(&self) -> usize {
        self.chunk_size
    }

    /// The verbosity toggle.
    pub closed spec fn verbose_spec(&self) -> bool {
        self.verbose
    }

    /// A builder always holds a non-empty text and a positive chunk size.
    pub closed spec fn wf(&self) -> bool {
        &&& self.text@.len() >= 1
        &&& self.chunk_size >= 1
    }

    /// Creates a builder over `text` with the default chunk size and
    /// verbosity off. Fails exactly when the text is empty.
    pub fn new(text: &'a [u8]) -> (r: Result<Self, BwtError>)
        ensures
            r is Ok <==> text@.len() >= 1,
            r is Err ==> r == Result::<Self, BwtError>::Err(BwtError::EmptyText),
            r is Ok ==> (r->Ok_0).wf() && (r->Ok_0).text_view() == text@ && !(r->Ok_0).verbose_spec(),
    {
        if text.len() == 0 {
            return Err(BwtError::EmptyText);
        }
        let chunk_size = default_chunk_size(text.len());
        Ok(Self { text, chunk_size, verbose: false })
    }

    /// Replaces the chunk size. Fails exactly when zero is requested; the
    /// chunk size only steers how the work is partitioned, never what the
    /// transform is.
    pub fn chunk_size(self, chunk_size: usize) -> (r: Result<Self, BwtError>)
        ensures
            r is Ok <==> chunk_size >= 1,
            r is Err ==> r == Result::<Self, BwtError>::Err(BwtError::ZeroChunkSize),
            r is Ok ==> (r->Ok_0).text_view() == self.text_view() && (r->Ok_0).chunk_size_spec()
                == chunk_size && (r->Ok_0).verbose_spec() == self.verbose_spec() && ((r->Ok_0).wf()
                <==> self.text_view().len() >= 1),
    {
        if chunk_size == 0 {
            return Err(BwtError::ZeroChunkSize);
        }
        Ok(Self { chunk_size, ..self })
    }

    /// Sets the verbosity toggle. It is configuration for an outside
    /// observer; the build's output does not depend on it.
    pub fn verbose(self, verbose: bool) -> (r: Self)
        ensures
            r.text_view() == self.text_view(),
            r.chunk_size_spec() == self.chunk_size_spec(),
            r.verbose_spec() == verbose,
            r.wf() == self.wf(),
    {
        Self { verbose, ..self }
    }

    /// Builds the transform and appends it to `wrt`: exactly one byte per
    /// text byte, the cyclic predecessor of each suffix in ascending suffix
    /// order. The output depends on the text alone — any chunk size yields
    /// the same bytes.
    ///
    /// The terminator invariant is required, not rechecked: callers
    /// validate with [`verify_terminator`] before building.
    pub fn build(&self, wrt: &mut Vec<u8>)
        requires
            self.wf(),
            crate::order::wf_text(self.text_view()),
        ensures
            final(wrt)@ == old(wrt)@ + crate::model::bwt_of(self.text_view()),
            final(wrt)@.len() == old(wrt)@.len() + self.text_view().len(),
    {
        let n = self.text.len();
        let cuts = CutGenerator::generate(self.text, self.chunk_size);
        encode::bwt_from_cuts(self.text, cuts.as_slice(), wrt);
        proof {
            assert(self.text@.len() == n);
            crate::model::lemma_bwt_len(self.text@);
        }
    }
}

} // verus!
