//! Size configuration, the bit builder, a ones-only bit-vector and the wavelet matrix.
pub mod fid;
pub mod fid_builder;
pub mod fid_size;
pub mod wavelet_matrix;
