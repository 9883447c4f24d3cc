//! The bit-vector with rank and select over either bit value.
pub mod fully_indexable_dictionary;

pub use crate::wv::fid_builder;
pub use crate::wv::fid_size;
