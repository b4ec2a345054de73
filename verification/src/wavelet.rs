//! The wavelet tree holding the flat neighbour sequence.
//!
//! The tree itself is `qwt`'s `QWT256<usize>`.  Its concrete type names a
//! support structure that `qwt` keeps private, so the tree is held in a
//! private field of [`WaveletSeq`], which Verus treats as opaque; the
//! wrappers below are the only doors, and their contracts speak of the held
//! symbol sequence.

use crate::seqs::occ;
use vstd::prelude::*;

verus! {

pub const SYMBOL_LIMIT: usize = 0x4000_0000;

/// Cap on the flat symbol sequence, 2^30.  `qwt` documents its own cap at
/// 2^43 symbols; staying well under it also keeps every counter update free
/// of overflow on any machine word size.

/// An immutable sequence of symbols answering access and select queries.
#[verifier::external_body]
pub struct WaveletSeq {
    inner: qwt::QWT256<usize>,
}

/// The symbols a wavelet sequence holds, in positional order.
pub uninterp spec fn wavelet_symbols(w: WaveletSeq) -> Seq<usize>;

impl WaveletSeq {
    /// Relies on qwt::QWT256::from (qwt::QWaveletTree::new): indexes the given
    /// sequence without changing its contents; accepts up to 2^43 symbols.
    #[verifier::external_body]
    pub(crate) fn from_vec(v: Vec<usize>) -> (r: WaveletSeq)
        requires
            v@.len() <= SYMBOL_LIMIT,
        ensures
            wavelet_symbols(r) == v@,
    {
        WaveletSeq { inner: qwt::QWT256::from(v) }
    }

    /// Relies on qwt::QWaveletTree::len: the number of held symbols.
    #[verifier::external_body]
    pub(crate) fn len(&self) -> (r: usize)
        ensures
            r == wavelet_symbols(*self).len(),
    {
        self.inner.len()
    }

    /// Relies on qwt's AccessUnsigned::get for QWaveletTree: the symbol at
    /// position `i`, or `None` past the end.
    #[verifier::external_body]
    pub(crate) fn get(&self, i: usize) -> (r: Option<usize>)
        ensures
            r == if i < wavelet_symbols(*self).len() {
                Some(wavelet_symbols(*self)[i as int])
            } else {
                None::<usize>
            },
    {
        qwt::AccessUnsigned::get(&self.inner, i)
    }

    /// Relies on qwt's SelectUnsigned::select for QWaveletTree: the position
    /// of the occurrence of `sym` that has `k` occurrences before it, or
    /// `None` if `sym` occurs at most `k` times.  A tree built from an empty
    /// sequence answers degenerate values, and the search adds `k` to an
    /// inner rank before any bounds check, so `k` is kept below the length,
    /// where no intermediate sum can overflow.
    #[verifier::external_body]
    pub(crate) fn select(&self, sym: usize, k: usize) -> (r: Option<usize>)
        requires
            wavelet_symbols(*self).len() > 0,
            k < wavelet_symbols(*self).len(),
        ensures
            r is Some <==> k < occ(wavelet_symbols(*self), sym),
            r matches Some(p) ==> {
                &&& p < wavelet_symbols(*self).len()
                &&& wavelet_symbols(*self)[p as int] == sym
                &&& occ(wavelet_symbols(*self).take(p as int), sym) == k
            },
    {
        qwt::SelectUnsigned::select(&self.inner, sym, k)
    }
}

} // verus!
