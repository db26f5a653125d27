//! Reads and the read set.
//!
//! A [`Read`] is one sequenced fragment: a header line and a sequence over
//! the alphabet `{A, C, G, T}`, under a stable 0-based identifier.  A
//! [`ReadSet`] is built once from the ingested `(header, sequence)` records
//! and passed by reference to every later stage; records whose sequence
//! violates the alphabet invariant are rejected and counted, never silently
//! kept.

use vstd::prelude::*;
use crate::bytes::{clone_bytes, is_valid_sequence, valid_sequence};

verus! {

/// One sequenced fragment with its header and stable identifier.
pub struct Read {
    /// Stable identifier: the read's 0-based position in its [`ReadSet`].
    pub id: usize,
    /// The header line that accompanied the sequence.
    pub header: Vec<u8>,
    /// The sequence, non-empty and drawn from `{A, C, G, T}`.
    pub sequence: Vec<u8>,
}

impl Read {
    /// The read invariant: the sequence is non-empty and over the alphabet.
    pub open spec fn wf(self) -> bool {
        valid_sequence(self.sequence@)
    }
}

/// Whether an ingested record satisfies the read invariant.
pub open spec fn record_valid(rec: (Vec<u8>, Vec<u8>)) -> bool {
    valid_sequence(rec.1@)
}

/// The subsequence of records that satisfy the read invariant, in input
/// order: exactly the records that become reads.
pub open spec fn kept_records(records: Seq<(Vec<u8>, Vec<u8>)>) -> Seq<(Vec<u8>, Vec<u8>)> {
    records.filter(|rec: (Vec<u8>, Vec<u8>)| record_valid(rec))
}

/// The ordered set of reads of one run, identifiers equal to positions.
pub struct ReadSet {
    /// The reads, where `reads[i].id == i`.
    pub reads: Vec<Read>,
}

impl ReadSet {
    /// The read-set invariant: every read is well formed and carries its
    /// own position as identifier.
    pub open spec fn wf(self) -> bool {
        forall|i: int|
            0 <= i < self.reads@.len() ==> (#[trigger] self.reads@[i]).wf()
                && self.reads@[i].id == i
    }

    /// The sequences of the reads, in identifier order.
    pub open spec fn sequences(self) -> Seq<Seq<u8>> {
        self.reads@.map(|i: int, r: Read| r.sequence@)
    }

    /// Number of reads in the set.
    pub fn len(&self) -> (r: usize)
        ensures
            r == self.reads@.len(),
    {
        self.reads.len()
    }

    /// The sequence of the read with identifier `id`.
    pub fn sequence_of(&self, id: usize) -> (r: &Vec<u8>)
        requires
            id < self.reads@.len(),
        ensures
            r@ == self.sequences()[id as int],
    {
        &self.reads[id].sequence
    }

    /// The header of the read with identifier `id`.
    pub fn header_of(&self, id: usize) -> (r: &Vec<u8>)
        requires
            id < self.reads@.len(),
        ensures
            r@ == self.reads@[id as int].header@,
    {
        &self.reads[id].header
    }

    /// Builds the read set from ingested `(header, sequence)` records.
    ///
    /// Records whose sequence is empty or strays outside `{A, C, G, T}`
    /// are rejected and skipped; the second result is their count.  The
    /// kept records become reads in input order, identified by position,
    /// so one malformed record never discards the rest of the input.
    pub fn build(records: &Vec<(Vec<u8>, Vec<u8>)>) -> (r: (ReadSet, usize))
        ensures
            r.0.wf(),
            r.0.reads@.len() == kept_records(records@).len(),
            forall|i: int|
                0 <= i < r.0.reads@.len() ==> #[trigger] r.0.reads@[i].header@ == kept_records(
                    records@,
                )[i].0@ && r.0.reads@[i].sequence@ == kept_records(records@)[i].1@,
            r.0.reads@.len() + r.1 == records@.len(),
    {
        let mut reads: Vec<Read> = Vec::new();
        let mut skipped: usize = 0;
        let mut i: usize = 0;
        proof {
            assert(records@.take(0) =~= Seq::<(Vec<u8>, Vec<u8>)>::empty());
            lemma_filter_take_zero(records@);
        }
        while i < records.len()
            invariant
                0 <= i <= records@.len(),
                reads@.len() + skipped == i,
                reads@.len() == kept_records(records@.take(i as int)).len(),
                forall|j: int|
                    0 <= j < reads@.len() ==> #[trigger] reads@[j].header@ == kept_records(
                        records@.take(i as int),
                    )[j].0@ && reads@[j].sequence@ == kept_records(records@.take(i as int))[j].1@,
                forall|j: int|
                    0 <= j < reads@.len() ==> (#[trigger] reads@[j]).wf() && reads@[j].id == j,
            decreases records@.len() - i,
        {
            let ghost prefix = records@.take(i as int);
            let ghost rec = records@[i as int];
            proof {
                lemma_filter_take_step(records@, i as int);
            }
            if is_valid_sequence(&records[i].1) {
                let id = reads.len();
                let header = clone_bytes(&records[i].0);
                let sequence = clone_bytes(&records[i].1);
                reads.push(Read { id, header, sequence });
            } else {
                skipped += 1;
            }
            i += 1;
        }
        proof {
            assert(records@.take(records@.len() as int) =~= records@);
        }
        (ReadSet { reads }, skipped)
    }
}

/// Filtering the empty prefix of a record sequence keeps nothing.
proof fn lemma_filter_take_zero(records: Seq<(Vec<u8>, Vec<u8>)>)
    ensures
        kept_records(records.take(0)) == Seq::<(Vec<u8>, Vec<u8>)>::empty(),
{
    reveal(Seq::filter);
    assert(records.take(0) =~= Seq::<(Vec<u8>, Vec<u8>)>::empty());
    assert(kept_records(records.take(0)) =~= Seq::<(Vec<u8>, Vec<u8>)>::empty());
}

/// Extending the filtered prefix by one record appends that record when it
/// is valid and changes nothing when it is not.
proof fn lemma_filter_take_step(records: Seq<(Vec<u8>, Vec<u8>)>, i: int)
    requires
        0 <= i < records.len(),
    ensures
        kept_records(records.take(i + 1)) == if record_valid(records[i]) {
            kept_records(records.take(i)).push(records[i])
        } else {
            kept_records(records.take(i))
        },
{
    reveal(Seq::filter);
    let prefix = records.take(i);
    let next = records.take(i + 1);
    assert(next.drop_last() =~= prefix);
    assert(next.last() == records[i]);
    if record_valid(records[i]) {
        assert(kept_records(next) =~= kept_records(prefix).push(records[i]));
    } else {
        assert(kept_records(next) =~= kept_records(prefix));
    }
}

} // verus!
