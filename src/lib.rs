//! Succinct bit-vectors with rank and select, and a wavelet matrix built on them.
pub mod bits;
pub mod fid;
pub mod wv;
