//! Definition and repetition levels for nested columns, and the hybrid
//! run-length / bit-packed encoding used to store them.
pub mod nested;
pub mod levels;
pub mod bitpacked;
pub mod hybrid_rle;
pub mod stream;
