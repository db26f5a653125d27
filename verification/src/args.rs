//! The run configuration.

use vstd::prelude::*;

verus! {

/// The two required run parameters: the path of the read file to ingest
/// and the overlap length.  The k-mer length of the frequency table is
/// configured separately and defaults to the overlap length.
pub struct OverlapArgs {
    /// Path to the input read file.
    pub overlap_file: String,
    /// The overlap length `L`, a positive integer.
    pub overlap_size: usize,
}

} // verus!
