//! Content-based delta between two binary files.
//!
//! A baseline file is cut into fixed-size chunks and each chunk is
//! fingerprinted. A target file is then scanned byte by byte: at every
//! offset the trailing window is fingerprinted and looked up against the
//! baseline, so that chunk alignment is recovered even when the target is
//! shifted relative to the baseline grid. The result is a total map from
//! baseline chunk index to its recovered state.

pub mod diffing;
pub mod hashing;
