//! Error and warning kinds of the overlap-graph core.
//!
//! Fatal conditions abort a run before any computation: a missing or
//! unreadable input (raised at the ingestion boundary, outside this
//! library) and invalid run parameters.  Per-read anomalies are recovered
//! locally: a read outside the alphabet is skipped and counted during
//! [`crate::reads::ReadSet::build`], and a read too short for the requested
//! window is excluded from the relevant role only, recorded as a
//! [`ShortReadWarning`].

use vstd::prelude::*;
use crate::reads::ReadSet;

verus! {

/// A fatal error: the run stops before any edge is computed.
#[derive(Clone, Copy, Debug, PartialEq, Eq, Structural)]
pub enum OverlapError {
    /// The input file is missing or unreadable, or it yielded no valid read.
    Ingestion,
    /// The overlap length or the k-mer length is zero, or exceeds the
    /// length of every read, so no overlap could ever succeed.
    Parameter,
}

/// A non-fatal warning: one read was too short for one indexing or
/// detection role and was excluded from that role only.
#[derive(Clone, Copy, Debug, PartialEq, Eq, Structural)]
pub struct ShortReadWarning {
    /// Identifier of the excluded read.
    pub read: usize,
    /// Length of that read's sequence.
    pub length: usize,
    /// The window length the read fell short of.
    pub required: usize,
}

/// Length of the longest sequence in `seqs` (zero when there are none).
pub open spec fn max_read_len(seqs: Seq<Seq<u8>>) -> int
    decreases seqs.len(),
{
    if seqs.len() == 0 {
        0
    } else if seqs.last().len() > max_read_len(seqs.drop_last()) {
        seqs.last().len() as int
    } else {
        max_read_len(seqs.drop_last())
    }
}

/// Checks the run parameters before any computation: the overlap length
/// `l` and the k-mer length `k` must both be at least 1 and no larger than
/// the longest read, otherwise no overlap could ever succeed and the run
/// fails with [`OverlapError::Parameter`].
pub fn validate_params(reads: &ReadSet, l: usize, k: usize) -> (r: Result<(), OverlapError>)
    ensures
        r == (if 1 <= l && l <= max_read_len(reads.sequences()) && 1 <= k && k <= max_read_len(
            reads.sequences(),
        ) {
            Ok::<(), OverlapError>(())
        } else {
            Err::<(), OverlapError>(OverlapError::Parameter)
        }),
{
    let ghost seqs = reads.sequences();
    let n = reads.reads.len();
    let mut m: usize = 0;
    let mut i: usize = 0;
    proof {
        assert(seqs.take(0) =~= Seq::<Seq<u8>>::empty());
    }
    while i < n
        invariant
            0 <= i <= n,
            n == reads.reads@.len(),
            seqs == reads.sequences(),
            m == max_read_len(seqs.take(i as int)),
        decreases n - i,
    {
        let len = reads.reads[i].sequence.len();
        proof {
            assert(seqs.take(i + 1).drop_last() =~= seqs.take(i as int));
            assert(seqs.take(i + 1).last() == seqs[i as int]);
            assert(seqs[i as int] == reads.reads@[i as int].sequence@);
        }
        if len > m {
            m = len;
        }
        i += 1;
    }
    proof {
        assert(seqs.take(n as int) =~= seqs);
    }
    if 1 <= l && l <= m && 1 <= k && k <= m {
        Ok(())
    } else {
        Err(OverlapError::Parameter)
    }
}

} // verus!
