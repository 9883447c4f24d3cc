use crate::bits::occ;
use crate::fid::fully_indexable_dictionary::{self as dict, select_at};
use crate::wv::fid_builder::FIDBuilder;
use crate::wv::fid_size::FIDSize;
use vstd::prelude::*;

verus! {

/// A bit-vector whose rank and select count ones only.
pub struct FullyIndexableDictionary<S: FIDSize> {
    inner: dict::FullyIndexableDictionary<S>,
}

impl<S: FIDSize> View for FullyIndexableDictionary<S> {
    type V = Seq<bool>;

    /// The `n` logical bits.
    closed spec fn view(&self) -> Seq<bool> {
        self.inner@
    }
}

impl<S: FIDSize> FullyIndexableDictionary<S> {
    pub closed spec fn wf(&self) -> bool {
        self.inner.wf()
    }

    /// The number of bits is addressable by `usize`.
    pub proof fn lemma_len_bound(&self)
        requires
            self.wf(),
        ensures
            self@.len() <= usize::MAX,
    {
        self.inner.lemma_len_bound();
    }

    /// Builds the rank summaries over the builder's bits.
    pub fn build(builder: FIDBuilder<S>) -> (r: Self)
        requires
            builder.wf(),
        ensures
            r.wf(),
            r@.len() == builder.logical_len(),
            r@ == builder@.take(builder.logical_len() as int),
    {
        FullyIndexableDictionary { inner: dict::FullyIndexableDictionary::build(builder) }
    }

    /// The bit at `pos`, as 0 or 1.
    pub fn access(&self, pos: usize) -> (r: usize)
        requires
            self.wf(),
            pos < self@.len(),
        ensures
            r == if self@[pos as int] {
                1usize
            } else {
                0usize
            },
    {
        self.inner.access(pos)
    }

    /// The number of ones in `[0, pos)`.
    pub fn rank(&self, pos: usize) -> (r: usize)
        requires
            self.wf(),
            pos <= self@.len(),
        ensures
            r == occ(self@, pos as int, true),
    {
        self.inner.rank(pos, 1)
    }

    /// The position of the `num`-th one (counting from one), or `None` when
    /// there are fewer; `Some(0)` when `num == 0`.
    pub fn select(&self, num: usize) -> (r: Option<usize>)
        requires
            self.wf(),
        ensures
            num == 0 ==> r == Some(0usize),
            num > 0 ==> (r is None <==> num > occ(self@, self@.len() as int, true)),
            num > 0 && r is Some ==> select_at(self@, num as nat, true, r->0 as int),
    {
        self.inner.select(num, 1)
    }
}

} // verus!
