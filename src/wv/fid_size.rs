use vstd::prelude::*;

verus! {

/// The widths a bit-vector is laid out with: bits are stored eight to a byte
/// (one block), and a chunk holds a whole number of blocks, at most 256 bits,
/// so that a count inside one chunk fits a byte.
pub open spec fn valid_widths(cw: nat, bw: nat) -> bool {
    &&& bw == 8
    &&& 8 <= cw <= 256
    &&& cw % 8 == 0
}

/// Chunk width `CW` and block width `BW` of a bit-vector, in bits.
pub trait FIDSize {
    spec fn chunk_width() -> nat;

    spec fn block_width() -> nat;

    proof fn lemma_valid_widths()
        ensures
            valid_widths(Self::chunk_width(), Self::block_width()),
    ;

    fn cw() -> (r: usize)
        ensures
            r == Self::chunk_width(),
    ;

    fn bw() -> (r: usize)
        ensures
            r == Self::block_width(),
    ;
}

/// Chunks of 256 bits over blocks of 8 bits.
pub struct FID256_8;

impl FIDSize for FID256_8 {
    open spec fn chunk_width() -> nat {
        256
    }

    open spec fn block_width() -> nat {
        8
    }

    proof fn lemma_valid_widths() {
    }

    fn cw() -> (r: usize) {
        256
    }

    fn bw() -> (r: usize) {
        8
    }
}

} // verus!
