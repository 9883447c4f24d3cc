use crate::bits::{bit_at, bits_of, chunks_for, unit_bit};
use crate::wv::fid_size::{valid_widths, FIDSize};
use vstd::prelude::*;

verus! {

/// A fixed-length, zero-initialised bit array, padded to whole chunks, that is
/// filled by `set` / `unset` and then consumed to build a bit-vector.
pub struct FIDBuilder<S: FIDSize> {
    bit: Vec<u8>,
    len: usize,
    _phantom: std::marker::PhantomData<S>,
}

impl<S: FIDSize> View for FIDBuilder<S> {
    type V = Seq<bool>;

    /// Every bit of the padded storage.
    closed spec fn view(&self) -> Seq<bool> {
        Seq::new((self.bit@.len() * 8) as nat, |i: int| bit_at(self.bit@, i))
    }
}

impl<S: FIDSize> FIDBuilder<S> {
    /// The logical number of bits, `n`.
    pub closed spec fn logical_len(&self) -> nat {
        self.len as nat
    }

    /// Storage of whole chunks covering the logical bits, addressable by `usize`.
    pub closed spec fn wf(&self) -> bool {
        &&& valid_widths(S::chunk_width(), S::block_width())
        &&& self.bit@.len() == chunks_for(self.len as nat, S::chunk_width()) * (
        S::chunk_width() / 8)
        &&& self.bit@.len() * 8 <= usize::MAX
    }

    /// A builder for `n` bits, all zero, padded up to whole chunks.
    pub fn new(n: usize) -> (r: Self)
        requires
            n + S::chunk_width() <= usize::MAX,
        ensures
            r.wf(),
            r.logical_len() == n,
            r@.len() == chunks_for(n as nat, S::chunk_width()) * S::chunk_width(),
            n <= r@.len(),
            forall|i: int| 0 <= i < r@.len() ==> !r@[i],
    {
        proof {
            S::lemma_valid_widths();
        }
        let cw = S::cw();
        let cnum: usize = if n % cw == 0 {
            n / cw
        } else {
            n / cw + 1
        };
        let bnum: usize = cw / S::bw();
        proof {
            assert(n <= cnum * cw <= n + cw) by (nonlinear_arith)
                requires
                    cnum as int == chunks_for(n as nat, cw as nat),
                    cw > 0,
            ;
            assert(cnum * bnum * 8 == cnum * cw) by (nonlinear_arith)
                requires
                    bnum == cw / 8,
                    cw % 8 == 0,
            ;
        }
        let total: usize = cnum * bnum;
        let mut bit: Vec<u8> = Vec::new();
        while bit.len() < total
            invariant
                bit@.len() <= total,
                forall|k: int| 0 <= k < bit@.len() ==> bit@[k] == 0u8,
            decreases total - bit@.len(),
        {
            bit.push(0u8);
        }
        let r = FIDBuilder { bit, len: n, _phantom: std::marker::PhantomData };
        proof {
            assert forall|i: int| 0 <= i < r@.len() implies !r@[i] by {
                assert(0 <= i / 8 < bit@.len());
                let k = (i % 8) as u8;
                assert((0u8 >> k) & 1u8 == 0u8) by (bit_vector);
            }
        }
        r
    }

    /// Sets bit `pos` to one.
    pub fn set(&mut self, pos: usize)
        requires
            old(self).wf(),
            pos < old(self)@.len(),
        ensures
            final(self).wf(),
            final(self).logical_len() == old(self).logical_len(),
            final(self)@ == old(self)@.update(pos as int, true),
    {
        self.put(pos, true);
    }

    /// Sets bit `pos` to zero.
    pub fn unset(&mut self, pos: usize)
        requires
            old(self).wf(),
            pos < old(self)@.len(),
        ensures
            final(self).wf(),
            final(self).logical_len() == old(self).logical_len(),
            final(self)@ == old(self)@.update(pos as int, false),
    {
        self.put(pos, false);
    }

    /// Hands over the storage bytes and the logical length.
    pub(crate) fn into_parts(self) -> (r: (Vec<u8>, usize))
        requires
            self.wf(),
        ensures
            r.1 == self.logical_len(),
            r.0@.len() == chunks_for(r.1 as nat, S::chunk_width()) * (S::chunk_width() / 8),
            r.0@.len() * 8 <= usize::MAX,
            r.0@.len() * 8 == self@.len(),
            bits_of(r.0@, self@.len()) == self@,
    {
        let FIDBuilder { bit, len, .. } = self;
        (bit, len)
    }

    fn put(&mut self, pos: usize, value: bool)
        requires
            old(self).wf(),
            pos < old(self)@.len(),
        ensures
            final(self).wf(),
            final(self).logical_len() == old(self).logical_len(),
            final(self)@ == old(self)@.update(pos as int, value),
    {
        proof {
            S::lemma_valid_widths();
        }
        let bw = S::bw();
        let bpos = pos / bw;
        let offset = (pos % bw) as u8;
        let old_unit = self.bit[bpos];
        let unit = if value {
            old_unit | (1u8 << offset)
        } else {
            old_unit & !(1u8 << offset)
        };
        let ghost before = self.bit@;
        self.bit.set(bpos, unit);
        proof {
            assert(forall|k: u8|
                k < 8 ==> (#[trigger] unit_bit(unit, k) <==> if k == offset {
                    value
                } else {
                    unit_bit(old_unit, k)
                })) by (bit_vector)
                requires
                    offset < 8,
                    unit == if value {
                        old_unit | (1u8 << offset)
                    } else {
                        old_unit & !(1u8 << offset)
                    },
            ;
            assert forall|i: int| 0 <= i < self@.len() implies self@[i] == old(self)@.update(
                pos as int,
                value,
            )[i] by {
                if i / 8 == bpos {
                    assert(unit_bit(unit, (i % 8) as u8) <==> if (i % 8) as u8 == offset {
                        value
                    } else {
                        unit_bit(old_unit, (i % 8) as u8)
                    });
                    assert((i % 8) as u8 == offset <==> i == pos);
                } else {
                    assert(i != pos);
                }
            }
            assert(self@ =~= old(self)@.update(pos as int, value));
        }
    }
}

} // verus!
