//! The offset locator.
//!
//! For each distinct overlap string the assembled graph produced,
//! [`locate`] scans every read for *all* occurrences of that string —
//! overlapping ones included, with no deduplication beyond exact
//! `(read, start)` identity — and flags each as terminal (a true prefix
//! or suffix of the read) or internal.  An internal occurrence marks a
//! point where the read should later be split before suffix-array
//! construction.  [`unindexed_kmers`] computes the complement set: the
//! indexed k-mers that never appear as an overlap string and are
//! therefore safe to discard from downstream suffix-array seeding.

use vstd::prelude::*;
use crate::bytes::{bytes_eq, clone_bytes, matches_at, occurs_at};
use crate::kmer::{kmers_contain, KmerIndex};
use crate::reads::ReadSet;

verus! {

/// One occurrence of a k-mer or overlap string inside a read.
pub struct Occurrence {
    /// The string that occurs.
    pub kmer_or_overlap: Vec<u8>,
    /// The read it occurs in.
    pub read: usize,
    /// Offset of the first matched byte.
    pub start: usize,
    /// Offset one past the last matched byte.
    pub end: usize,
    /// True iff the occurrence begins at offset 0 (a prefix) or ends at
    /// the read's last byte (a suffix); false marks an internal
    /// occurrence, a candidate break point.
    pub terminal: bool,
}

/// Correctness of one occurrence of the string `s`: the string literally
/// appears in the named read at the reported range, and the terminal
/// flag is exactly the prefix-or-suffix test.
pub open spec fn occurrence_wf(o: Occurrence, seqs: Seq<Seq<u8>>, s: Seq<u8>) -> bool {
    &&& o.kmer_or_overlap@ == s
    &&& (o.read as int) < seqs.len()
    &&& occurs_at(seqs[o.read as int], s, o.start as int)
    &&& o.end == o.start + s.len()
    &&& o.terminal == (o.start == 0 || o.end == seqs[o.read as int].len())
}

/// All occurrences of the string `s` across all reads, in increasing
/// `(read, start)` order: every reported occurrence is real, and every
/// real occurrence is reported.
pub fn locate_one(reads: &ReadSet, s: &Vec<u8>) -> (r: Vec<Occurrence>)
    requires
        reads.wf(),
        s@.len() >= 1,
    ensures
        forall|t: int|
            0 <= t < r@.len() ==> occurrence_wf(#[trigger] r@[t], reads.sequences(), s@),
        forall|rid: int, st: int|
            0 <= rid < reads.sequences().len() && #[trigger] occurs_at(
                reads.sequences()[rid],
                s@,
                st,
            ) ==> exists|t: int|
                0 <= t < r@.len() && (#[trigger] r@[t]).read == rid && r@[t].start == st,
        forall|t1: int, t2: int|
            0 <= t1 < t2 < r@.len() ==> ((#[trigger] r@[t1]).read < (#[trigger] r@[t2]).read || (
            r@[t1].read == r@[t2].read && r@[t1].start < r@[t2].start)),
{
    let ghost seqs = reads.sequences();
    let n = reads.reads.len();
    let mut r: Vec<Occurrence> = Vec::new();
    let mut rid: usize = 0;
    while rid < n
        invariant
            reads.wf(),
            s@.len() >= 1,
            seqs == reads.sequences(),
            n == reads.reads@.len(),
            0 <= rid <= n,
            forall|t: int| 0 <= t < r@.len() ==> occurrence_wf(#[trigger] r@[t], seqs, s@),
            forall|t: int| 0 <= t < r@.len() ==> ((#[trigger] r@[t]).read as int) < rid,
            forall|rr: int, st: int|
                0 <= rr < rid && #[trigger] occurs_at(seqs[rr], s@, st) ==> exists|t: int|
                    0 <= t < r@.len() && (#[trigger] r@[t]).read == rr && r@[t].start == st,
            forall|t1: int, t2: int|
                0 <= t1 < t2 < r@.len() ==> ((#[trigger] r@[t1]).read < (#[trigger] r@[t2]).read
                    || (r@[t1].read == r@[t2].read && r@[t1].start < r@[t2].start)),
        decreases n - rid,
    {
        let sequence = &reads.reads[rid].sequence;
        let len = sequence.len();
        proof {
            assert(seqs[rid as int] == reads.reads@[rid as int].sequence@);
        }
        if s.len() <= len {
            let windows = len - s.len() + 1;
            let mut st: usize = 0;
            while st < windows
                invariant
                    windows == len - s@.len() + 1,
                    reads.wf(),
                    seqs == reads.sequences(),
                    n == reads.reads@.len(),
                    0 <= rid < n,
                    sequence@ == seqs[rid as int],
                    len == seqs[rid as int].len(),
                    1 <= s@.len() <= len,
                    0 <= st <= windows,
                    forall|t: int| 0 <= t < r@.len() ==> occurrence_wf(#[trigger] r@[t], seqs, s@),
                    forall|t: int|
                        0 <= t < r@.len() ==> ((#[trigger] r@[t]).read as int) < rid || (
                        r@[t].read as int == rid as int && (r@[t].start as int) < st),
                    forall|rr: int, stt: int|
                        0 <= rr < rid && #[trigger] occurs_at(seqs[rr], s@, stt) ==> exists|t: int|
                            0 <= t < r@.len() && (#[trigger] r@[t]).read == rr && r@[t].start
                                == stt,
                    forall|stt: int|
                        0 <= stt < st && #[trigger] occurs_at(seqs[rid as int], s@, stt) ==> exists|
                            t: int,
                        |
                            0 <= t < r@.len() && (#[trigger] r@[t]).read == rid && r@[t].start
                                == stt,
                    forall|t1: int, t2: int|
                        0 <= t1 < t2 < r@.len() ==> ((#[trigger] r@[t1]).read < (
                        #[trigger] r@[t2]).read || (r@[t1].read == r@[t2].read && r@[t1].start
                            < r@[t2].start)),
                decreases windows - st,
            {
                if matches_at(sequence, s, st) {
                    let ghost r0 = r@;
                    let o = Occurrence {
                        kmer_or_overlap: clone_bytes(s),
                        read: rid,
                        start: st,
                        end: st + s.len(),
                        terminal: st == 0 || st + s.len() == len,
                    };
                    r.push(o);
                    proof {
                        assert(r@[r@.len() - 1] == o);
                        assert forall|rr: int, stt: int|
                            0 <= rr < rid && #[trigger] occurs_at(seqs[rr], s@, stt) implies exists|
                            t: int,
                        |
                            0 <= t < r@.len() && (#[trigger] r@[t]).read == rr && r@[t].start
                                == stt by {
                            let t = choose|t: int|
                                0 <= t < r0.len() && (#[trigger] r0[t]).read == rr && r0[t].start
                                    == stt;
                            assert(r@[t].read == rr && r@[t].start == stt);
                        }
                        assert forall|stt: int|
                            0 <= stt < st + 1 && #[trigger] occurs_at(
                                seqs[rid as int],
                                s@,
                                stt,
                            ) implies exists|t: int|
                            0 <= t < r@.len() && (#[trigger] r@[t]).read == rid && r@[t].start
                                == stt by {
                            if stt == st as int {
                                assert(r@[r@.len() - 1].read == rid && r@[r@.len() - 1].start
                                    == st);
                            } else {
                                let t = choose|t: int|
                                    0 <= t < r0.len() && (#[trigger] r0[t]).read == rid
                                        && r0[t].start == stt;
                                assert(r@[t].read == rid && r@[t].start == stt);
                            }
                        }
                    }
                }
                st += 1;
            }
            proof {
                assert forall|stt: int| #[trigger] occurs_at(seqs[rid as int], s@, stt) implies 0
                    <= stt <= len - s@.len() by {}
            }
        } else {
            proof {
                assert forall|stt: int| !#[trigger] occurs_at(seqs[rid as int], s@, stt) by {}
            }
        }
        rid += 1;
    }
    r
}

/// For each overlap string, all its occurrences across all reads: the
/// mapping from string to occurrence table, in the order the strings
/// were given.
pub fn locate(reads: &ReadSet, overlap_strings: &Vec<Vec<u8>>) -> (r: Vec<(Vec<u8>, Vec<
    Occurrence,
>)>)
    requires
        reads.wf(),
        forall|e: int| 0 <= e < overlap_strings@.len() ==> (#[trigger] overlap_strings@[e])@.len() >= 1,
    ensures
        r@.len() == overlap_strings@.len(),
        forall|e: int|
            0 <= e < r@.len() ==> (#[trigger] r@[e]).0@ == overlap_strings@[e]@,
        forall|e: int, t: int|
            0 <= e < r@.len() && 0 <= t < r@[e].1@.len() ==> occurrence_wf(
                #[trigger] r@[e].1@[t],
                reads.sequences(),
                overlap_strings@[e]@,
            ),
        forall|e: int, rid: int, st: int|
            0 <= e < r@.len() && 0 <= rid < reads.sequences().len() && #[trigger] occurs_at(
                reads.sequences()[rid],
                r@[e].0@,
                st,
            ) ==> exists|t: int|
                0 <= t < r@[e].1@.len() && (#[trigger] r@[e].1@[t]).read == rid && r@[e].1@[t].start
                    == st,
        forall|e: int, t1: int, t2: int|
            0 <= e < r@.len() && 0 <= t1 < t2 < r@[e].1@.len() ==> ((#[trigger] r@[e].1@[t1]).read
                < (#[trigger] r@[e].1@[t2]).read || (r@[e].1@[t1].read == r@[e].1@[t2].read
                && r@[e].1@[t1].start < r@[e].1@[t2].start)),
    {
    let mut r: Vec<(Vec<u8>, Vec<Occurrence>)> = Vec::new();
    let mut e: usize = 0;
    while e < overlap_strings.len()
        invariant
            reads.wf(),
            forall|ee: int|
                0 <= ee < overlap_strings@.len() ==> (#[trigger] overlap_strings@[ee])@.len() >= 1,
            0 <= e <= overlap_strings@.len(),
            r@.len() == e,
            forall|ee: int|
                0 <= ee < e ==> (#[trigger] r@[ee]).0@ == overlap_strings@[ee]@,
            forall|ee: int, t: int|
                0 <= ee < e && 0 <= t < r@[ee].1@.len() ==> occurrence_wf(
                    #[trigger] r@[ee].1@[t],
                    reads.sequences(),
                    overlap_strings@[ee]@,
                ),
            forall|ee: int, rid: int, st: int|
                0 <= ee < e && 0 <= rid < reads.sequences().len() && #[trigger] occurs_at(
                    reads.sequences()[rid],
                    r@[ee].0@,
                    st,
                ) ==> exists|t: int|
                    0 <= t < r@[ee].1@.len() && (#[trigger] r@[ee].1@[t]).read == rid
                        && r@[ee].1@[t].start == st,
            forall|ee: int, t1: int, t2: int|
                0 <= ee < e && 0 <= t1 < t2 < r@[ee].1@.len() ==> ((
                #[trigger] r@[ee].1@[t1]).read < (#[trigger] r@[ee].1@[t2]).read || (
                r@[ee].1@[t1].read == r@[ee].1@[t2].read && r@[ee].1@[t1].start
                    < r@[ee].1@[t2].start)),
        decreases overlap_strings@.len() - e,
    {
        let s = &overlap_strings[e];
        proof {
            assert(overlap_strings@[e as int]@.len() >= 1);
        }
        let occs = locate_one(reads, s);
        let ghost occs_g = occs@;
        let ghost r0 = r@;
        let key = clone_bytes(s);
        r.push((key, occs));
        proof {
            assert(r@[r@.len() - 1].0@ == overlap_strings@[e as int]@);
            assert(r@[r@.len() - 1].1@ == occs_g);
            assert forall|ee: int, rid: int, st: int|
                0 <= ee < e + 1 && 0 <= rid < reads.sequences().len() && #[trigger] occurs_at(
                    reads.sequences()[rid],
                    r@[ee].0@,
                    st,
                ) implies exists|t: int|
                0 <= t < r@[ee].1@.len() && (#[trigger] r@[ee].1@[t]).read == rid
                    && r@[ee].1@[t].start == st by {
                if ee == e as int {
                    assert(r@[ee].0@ == s@);
                    assert(occurs_at(reads.sequences()[rid], s@, st));
                    let t = choose|t: int|
                        0 <= t < occs_g.len() && (#[trigger] occs_g[t]).read == rid
                            && occs_g[t].start == st;
                    assert(r@[ee].1@[t].read == rid && r@[ee].1@[t].start == st);
                } else {
                    assert(r@[ee] == r0[ee]);
                    let t = choose|t: int|
                        0 <= t < r0[ee].1@.len() && (#[trigger] r0[ee].1@[t]).read == rid
                            && r0[ee].1@[t].start == st;
                    assert(r@[ee].1@[t].read == rid && r@[ee].1@[t].start == st);
                }
            }
        }
        e += 1;
    }
    r
}

/// The indexed k-mers that never appear among the overlap strings, in
/// index order, each exactly once: these encode no connectivity and can
/// be discarded from downstream suffix-array seeding.
pub fn unindexed_kmers(index: &KmerIndex, overlap_strings: &Vec<Vec<u8>>) -> (r: Vec<Vec<u8>>)
    ensures
        forall|i: int|
            0 <= i < r@.len() ==> kmers_contain(index.kmers@, (#[trigger] r@[i])@) && !kmers_contain(
                overlap_strings@,
                r@[i]@,
            ),
        forall|j: int|
            0 <= j < index.kmers@.len() && !kmers_contain(
                overlap_strings@,
                (#[trigger] index.kmers@[j])@,
            ) ==> kmers_contain(r@, index.kmers@[j]@),
{
    let mut r: Vec<Vec<u8>> = Vec::new();
    let mut j: usize = 0;
    while j < index.kmers.len()
        invariant
            0 <= j <= index.kmers@.len(),
            forall|i: int|
                0 <= i < r@.len() ==> kmers_contain(index.kmers@, (#[trigger] r@[i])@)
                    && !kmers_contain(overlap_strings@, r@[i]@),
            forall|jj: int|
                0 <= jj < j && !kmers_contain(
                    overlap_strings@,
                    (#[trigger] index.kmers@[jj])@,
                ) ==> kmers_contain(r@, index.kmers@[jj]@),
        decreases index.kmers@.len() - j,
    {
        let km = &index.kmers[j];
        let ghost r0 = r@;
        if !contains_bytes(overlap_strings, km) {
            let c = clone_bytes(km);
            r.push(c);
            proof {
                assert(r@[r@.len() - 1]@ == index.kmers@[j as int]@);
                assert(kmers_contain(index.kmers@, r@[r@.len() - 1]@));
            }
        }
        proof {
            assert forall|jj: int|
                0 <= jj < j + 1 && !kmers_contain(
                    overlap_strings@,
                    (#[trigger] index.kmers@[jj])@,
                ) implies kmers_contain(r@, index.kmers@[jj]@) by {
                if jj == j as int {
                    assert(r@[r@.len() - 1]@ == index.kmers@[jj]@);
                } else {
                    let i = choose|i: int| 0 <= i < r0.len() && r0[i]@ == index.kmers@[jj]@;
                    assert(r@[i]@ == index.kmers@[jj]@);
                }
            }
        }
        j += 1;
    }
    r
}

/// Whether `s` equals one of the byte strings in `v`.
pub fn contains_bytes(v: &Vec<Vec<u8>>, s: &Vec<u8>) -> (r: bool)
    ensures
        r <==> kmers_contain(v@, s@),
{
    let mut i: usize = 0;
    while i < v.len()
        invariant
            0 <= i <= v@.len(),
            forall|j: int| 0 <= j < i ==> (#[trigger] v@[j])@ != s@,
        decreases v@.len() - i,
    {
        if bytes_eq(&v[i], s) {
            return true;
        }
        i += 1;
    }
    false
}

} // verus!
