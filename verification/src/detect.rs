//! The overlap detector.
//!
//! [`detect`] finds every ordered pair of reads `(u, v)` whose length-`L`
//! suffix of `u` equals the length-`L` prefix of `v` and emits one
//! [`OverlapEdge`] for it.  Overlap is a property of sequence content, not
//! of input position, so the search is exhaustive over content-derived
//! candidates: when `L` equals the index's window length the prefix
//! buckets of the k-mer index prune the candidate targets, otherwise every
//! read is a candidate; either way each candidate is confirmed by an exact
//! substring comparison before an edge is emitted.  A read shorter than
//! `L` cannot act as a source and is recorded as a warning.

use vstd::prelude::*;
use crate::bytes::{extract, matches_at};
use crate::errors::ShortReadWarning;
use crate::kmer::{boundary, KmerIndex};
use crate::reads::ReadSet;

verus! {

/// The last `l` bytes of `u` equal the first `l` bytes of `v`.
pub open spec fn overlap_at(u: Seq<u8>, v: Seq<u8>, l: int) -> bool {
    l <= u.len() && l <= v.len() && u.subrange(u.len() - l, u.len() as int) == v.subrange(0, l)
}

/// One confirmed overlap: the suffix of read `source` feeds the prefix of
/// read `target`.  Edges are immutable value objects; many edges may share
/// one overlap string, so the overlap string is never a unique key.
pub struct OverlapEdge {
    /// The read whose suffix matched.
    pub source: usize,
    /// The read whose prefix matched.
    pub target: usize,
    /// The matched string itself, of length `L`.
    pub overlap: Vec<u8>,
    /// The source sequence minus its trailing `L` bytes.
    pub source_prefix_remainder: Vec<u8>,
    /// The target sequence minus its leading `L` bytes.
    pub target_suffix_remainder: Vec<u8>,
}

/// Field-wise equality of two edges.
pub open spec fn edge_eqv(a: OverlapEdge, b: OverlapEdge) -> bool {
    &&& a.source == b.source
    &&& a.target == b.target
    &&& a.overlap@ == b.overlap@
    &&& a.source_prefix_remainder@ == b.source_prefix_remainder@
    &&& a.target_suffix_remainder@ == b.target_suffix_remainder@
}

/// Correctness of one edge against the read sequences and the overlap
/// length: the endpoints are distinct reads that truly overlap, and the
/// three strings are the exact substrings the data model prescribes.
pub open spec fn edge_wf(e: OverlapEdge, seqs: Seq<Seq<u8>>, l: int) -> bool {
    &&& (e.source as int) < seqs.len()
    &&& (e.target as int) < seqs.len()
    &&& e.source != e.target
    &&& overlap_at(seqs[e.source as int], seqs[e.target as int], l)
    &&& e.overlap@ == seqs[e.target as int].subrange(0, l)
    &&& e.source_prefix_remainder@ == seqs[e.source as int].subrange(
        0,
        seqs[e.source as int].len() - l,
    )
    &&& e.target_suffix_remainder@ == seqs[e.target as int].subrange(
        l,
        seqs[e.target as int].len() as int,
    )
}

/// Some edge in `edges` joins source `u` to target `v`.
pub open spec fn has_edge(edges: Seq<OverlapEdge>, u: int, v: int) -> bool {
    exists|i: int|
        0 <= i < edges.len() && (#[trigger] edges[i]).source == u && edges[i].target == v
}

/// An edge present in a sequence stays present after a push.
proof fn lemma_has_edge_push(edges: Seq<OverlapEdge>, e: OverlapEdge, u: int, v: int)
    requires
        has_edge(edges, u, v),
    ensures
        has_edge(edges.push(e), u, v),
{
    let i = choose|i: int|
        0 <= i < edges.len() && (#[trigger] edges[i]).source == u && edges[i].target == v;
    assert(edges.push(e)[i].source == u && edges.push(e)[i].target == v);
}

/// Builds the edge for the confirmed overlap `(u, v)`.
fn make_edge(reads: &ReadSet, u: usize, v: usize, l: usize) -> (e: OverlapEdge)
    requires
        reads.wf(),
        (u as int) < reads.sequences().len(),
        (v as int) < reads.sequences().len(),
        u != v,
        l >= 1,
        overlap_at(reads.sequences()[u as int], reads.sequences()[v as int], l as int),
    ensures
        edge_wf(e, reads.sequences(), l as int),
        e.source == u,
        e.target == v,
{
    proof {
        assert(reads.sequences()[u as int] == reads.reads@[u as int].sequence@);
        assert(reads.sequences()[v as int] == reads.reads@[v as int].sequence@);
    }
    let seq_u = &reads.reads[u].sequence;
    let seq_v = &reads.reads[v].sequence;
    let overlap = extract(seq_v, 0, l);
    let source_prefix_remainder = extract(seq_u, 0, seq_u.len() - l);
    let target_suffix_remainder = extract(seq_v, l, seq_v.len() - l);
    OverlapEdge { source: u, target: v, overlap, source_prefix_remainder, target_suffix_remainder }
}

/// The identifiers `0 .. n`, each candidate target when no index prunes.
fn all_ids(n: usize) -> (r: Vec<usize>)
    ensures
        r@.len() == n,
        forall|i: int| 0 <= i < n ==> #[trigger] r@[i] == i,
        forall|t1: int, t2: int| 0 <= t1 < t2 < r@.len() ==> r@[t1] < r@[t2],
{
    let mut r: Vec<usize> = Vec::new();
    let mut i: usize = 0;
    while i < n
        invariant
            0 <= i <= n,
            r@.len() == i,
            forall|j: int| 0 <= j < i ==> #[trigger] r@[j] == j,
        decreases n - i,
    {
        r.push(i);
        i += 1;
    }
    r
}

/// Detects every overlap of length `l` between distinct reads.
///
/// The first result holds one edge per ordered pair `(u, v)` of distinct
/// reads whose sequences overlap — every such pair, and no other, and no
/// pair twice; in particular no read ever overlaps itself here.  The
/// second result records each read shorter than `l`, which cannot act as
/// a source or target and is skipped, as a [`ShortReadWarning`].
pub fn detect(reads: &ReadSet, index: &KmerIndex, l: usize) -> (r: (
    Vec<OverlapEdge>,
    Vec<ShortReadWarning>,
))
    requires
        reads.wf(),
        index.wf(),
        index.seqs@ == reads.sequences(),
        l >= 1,
    ensures
        forall|i: int|
            0 <= i < r.0@.len() ==> edge_wf(#[trigger] r.0@[i], reads.sequences(), l as int),
        forall|u: int, v: int|
            0 <= u < reads.sequences().len() && 0 <= v < reads.sequences().len() && u != v
                && overlap_at(
                #[trigger] reads.sequences()[u],
                #[trigger] reads.sequences()[v],
                l as int,
            ) ==> has_edge(r.0@, u, v),
        forall|i: int, j: int|
            0 <= i < j < r.0@.len() ==> !((#[trigger] r.0@[i]).source == (
            #[trigger] r.0@[j]).source && r.0@[i].target == r.0@[j].target),
        forall|t: int|
            0 <= t < r.1@.len() ==> ((#[trigger] r.1@[t]).read as int) < reads.sequences().len()
                && reads.sequences()[r.1@[t].read as int].len() < l && r.1@[t].length
                == reads.sequences()[r.1@[t].read as int].len() && r.1@[t].required == l,
        forall|id: int|
            0 <= id < reads.sequences().len() && (#[trigger] reads.sequences()[id]).len() < l
                ==> exists|t: int| 0 <= t < r.1@.len() && (#[trigger] r.1@[t]).read == id,
        forall|t1: int, t2: int|
            0 <= t1 < t2 < r.1@.len() ==> (#[trigger] r.1@[t1]).read < (#[trigger] r.1@[t2]).read,
{
    let ghost seqs = reads.sequences();
    let n = reads.reads.len();
    let mut edges: Vec<OverlapEdge> = Vec::new();
    let mut warnings: Vec<ShortReadWarning> = Vec::new();
    let mut u: usize = 0;
    while u < n
        invariant
            reads.wf(),
            index.wf(),
            index.seqs@ == seqs,
            l >= 1,
            seqs == reads.sequences(),
            n == reads.reads@.len(),
            0 <= u <= n,
            forall|i: int| 0 <= i < edges@.len() ==> edge_wf(#[trigger] edges@[i], seqs, l as int),
            forall|i: int| 0 <= i < edges@.len() ==> ((#[trigger] edges@[i]).source as int) < u,
            forall|up: int, v: int|
                0 <= up < u && 0 <= v < n && up != v && overlap_at(
                    #[trigger] seqs[up],
                    #[trigger] seqs[v],
                    l as int,
                ) ==> has_edge(edges@, up, v),
            forall|i: int, j: int|
                0 <= i < j < edges@.len() ==> !((#[trigger] edges@[i]).source == (
                #[trigger] edges@[j]).source && edges@[i].target == edges@[j].target),
            forall|t: int|
                0 <= t < warnings@.len() ==> ((#[trigger] warnings@[t]).read as int) < u
                    && seqs[warnings@[t].read as int].len() < l && warnings@[t].length
                    == seqs[warnings@[t].read as int].len() && warnings@[t].required == l,
            forall|id: int|
                0 <= id < u && (#[trigger] seqs[id]).len() < l ==> exists|t: int|
                    0 <= t < warnings@.len() && (#[trigger] warnings@[t]).read == id,
            forall|t1: int, t2: int|
                0 <= t1 < t2 < warnings@.len() ==> (#[trigger] warnings@[t1]).read < (
                #[trigger] warnings@[t2]).read,
        decreases n - u,
    {
        let sequence = &reads.reads[u].sequence;
        let len = sequence.len();
        proof {
            assert(seqs[u as int] == reads.reads@[u as int].sequence@);
        }
        if len < l {
            let ghost warnings0 = warnings@;
            warnings.push(ShortReadWarning { read: u, length: len, required: l });
            proof {
                assert forall|id: int|
                    0 <= id < u + 1 && (#[trigger] seqs[id]).len() < l implies exists|t: int|
                    0 <= t < warnings@.len() && (#[trigger] warnings@[t]).read == id by {
                    if id == u as int {
                        assert(warnings@[warnings@.len() - 1].read == id);
                    } else {
                        let t = choose|t: int| 0 <= t < warnings0.len() && warnings0[t].read == id;
                        assert(warnings@[t].read == id);
                    }
                }
                assert forall|up: int, v: int|
                    0 <= up < u + 1 && 0 <= v < n && up != v && overlap_at(
                        #[trigger] seqs[up],
                        #[trigger] seqs[v],
                        l as int,
                    ) implies has_edge(edges@, up, v) by {
                    assert(up < u || seqs[up].len() < l);
                }
            }
        } else {
            let suffix_u = extract(sequence, len - l, l);
            proof {
                assert(suffix_u@ == seqs[u as int].subrange(len - l, len as int));
            }
            let cands: Vec<usize> = if l == index.k {
                let c = index.prefix_reads(&suffix_u);
                proof {
                    assert forall|v: int|
                        0 <= v < n && l <= (#[trigger] seqs[v]).len() && seqs[v].subrange(
                            0,
                            l as int,
                        ) == suffix_u@ implies c@.contains(v as usize) by {
                        assert(boundary(seqs[v], l as int, false) == suffix_u@);
                    }
                }
                c
            } else {
                let c = all_ids(n);
                proof {
                    assert forall|v: int|
                        0 <= v < n && l <= (#[trigger] seqs[v]).len() && seqs[v].subrange(
                            0,
                            l as int,
                        ) == suffix_u@ implies c@.contains(v as usize) by {
                        assert(c@[v] == v as usize);
                    }
                }
                c
            };
            // every candidate is a read identifier, candidates are strictly
            // increasing, and every true overlap target is among them
            proof {
                assert(forall|t1: int, t2: int|
                    0 <= t1 < t2 < cands@.len() ==> cands@[t1] < cands@[t2]);
            }
            let mut ci: usize = 0;
            while ci < cands.len()
                invariant
                    reads.wf(),
                    l >= 1,
                    seqs == reads.sequences(),
                    n == reads.reads@.len(),
                    0 <= u < n,
                    0 <= ci <= cands@.len(),
                    l <= seqs[u as int].len(),
                    suffix_u@ == seqs[u as int].subrange(
                        seqs[u as int].len() - l,
                        seqs[u as int].len() as int,
                    ),
                    forall|t1: int, t2: int|
                        0 <= t1 < t2 < cands@.len() ==> (#[trigger] cands@[t1]) < (
                        #[trigger] cands@[t2]),
                    forall|v: int|
                        0 <= v < n && l <= (#[trigger] seqs[v]).len() && seqs[v].subrange(
                            0,
                            l as int,
                        ) == suffix_u@ ==> cands@.contains(v as usize),
                    forall|i: int|
                        0 <= i < edges@.len() ==> edge_wf(#[trigger] edges@[i], seqs, l as int),
                    forall|i: int|
                        0 <= i < edges@.len() ==> ((#[trigger] edges@[i]).source as int) <= u as int,
                    forall|up: int, v: int|
                        0 <= up < u && 0 <= v < n && up != v && overlap_at(
                            #[trigger] seqs[up],
                            #[trigger] seqs[v],
                            l as int,
                        ) ==> has_edge(edges@, up, v),
                    forall|i: int|
                        0 <= i < edges@.len() && (#[trigger] edges@[i]).source == u ==> exists|
                            t: int,
                        | 0 <= t < ci && (#[trigger] cands@[t]) == edges@[i].target,
                    forall|t: int|
                        0 <= t < ci && ((#[trigger] cands@[t]) as int) < n && cands@[t] as int
                            != u as int && overlap_at(
                            seqs[u as int],
                            seqs[cands@[t] as int],
                            l as int,
                        ) ==> has_edge(edges@, u as int, cands@[t] as int),
                    forall|i: int, j: int|
                        0 <= i < j < edges@.len() ==> !((#[trigger] edges@[i]).source == (
                        #[trigger] edges@[j]).source && edges@[i].target == edges@[j].target),
                decreases cands@.len() - ci,
            {
                let v = cands[ci];
                if v != u && v < n {
                    proof {
                        assert(cands@.contains(cands@[ci as int]));
                    }
                    let seq_v = &reads.reads[v].sequence;
                    proof {
                        assert(seqs[v as int] == reads.reads@[v as int].sequence@);
                    }
                    if seq_v.len() >= l && matches_at(seq_v, &suffix_u, 0) {
                        proof {
                            assert(seqs[v as int].subrange(0, l as int) == suffix_u@);
                            assert(overlap_at(seqs[u as int], seqs[v as int], l as int));
                        }
                        let ghost edges0 = edges@;
                        let e = make_edge(reads, u, v, l);
                        edges.push(e);
                        proof {
                            assert(edges@[edges@.len() - 1].source == u && edges@[edges@.len()
                                - 1].target == v);
                            assert forall|up: int, vv: int|
                                0 <= up < u && 0 <= vv < n && up != vv && overlap_at(
                                    #[trigger] seqs[up],
                                    #[trigger] seqs[vv],
                                    l as int,
                                ) implies has_edge(edges@, up, vv) by {
                                lemma_has_edge_push(edges0, e, up, vv);
                            }
                            assert forall|t: int|
                                0 <= t < ci + 1 && ((#[trigger] cands@[t]) as int) < n
                                    && cands@[t] as int != u as int && overlap_at(
                                    seqs[u as int],
                                    seqs[cands@[t] as int],
                                    l as int,
                                ) implies has_edge(edges@, u as int, cands@[t] as int) by {
                                if t == ci as int {
                                    assert(has_edge(edges@, u as int, v as int));
                                } else {
                                    lemma_has_edge_push(edges0, e, u as int, cands@[t] as int);
                                }
                            }
                        }
                    }
                }
                ci += 1;
            }
            proof {
                assert forall|up: int, v: int|
                    0 <= up < u + 1 && 0 <= v < n && up != v && overlap_at(
                        #[trigger] seqs[up],
                        #[trigger] seqs[v],
                        l as int,
                    ) implies has_edge(edges@, up, v) by {
                    if up == u as int {
                        assert(seqs[v].subrange(0, l as int) == suffix_u@);
                        assert(cands@.contains(v as usize));
                        let t = choose|t: int| 0 <= t < cands@.len() && cands@[t] == v as usize;
                        assert(has_edge(edges@, u as int, cands@[t] as int));
                    }
                }
            }
        }
        u += 1;
    }
    (edges, warnings)
}

} // verus!
