//! The k-mer index.
//!
//! [`KmerIndex::build`] slides a window of length `k` over every read and
//! collects the set of distinct k-mers, and additionally buckets every
//! read under its first-`k` and last-`k` substrings, giving the two
//! boundary indexes `prefix_index` and `suffix_index` that the overlap
//! detector consults to prune candidate pairs.  Reads shorter than `k`
//! are skipped with a recorded warning, never fatally.
//!
//! The index is built once per run and never mutated afterwards; both the
//! distinct set and the buckets are deterministic in the input order.

use vstd::prelude::*;
use crate::bytes::{bytes_eq, extract};
use crate::errors::ShortReadWarning;
use crate::reads::ReadSet;

verus! {

/// The k-mer `km` occurs in read `r` of `seqs` at window offset `j`.
pub open spec fn window_at(seqs: Seq<Seq<u8>>, k: int, r: int, j: int, km: Seq<u8>) -> bool {
    0 <= r < seqs.len() && 0 <= j && j + k <= seqs[r].len() && seqs[r].subrange(j, j + k) == km
}

/// The k-mer `km` occurs somewhere in `seqs` as a window of length `k`.
pub open spec fn kmer_in_seqs(seqs: Seq<Seq<u8>>, k: int, km: Seq<u8>) -> bool {
    exists|r: int, j: int| window_at(seqs, k, r, j, km)
}

/// Membership of a byte string in a list of k-mers.
pub open spec fn kmers_contain(kmers: Seq<Vec<u8>>, km: Seq<u8>) -> bool {
    exists|i: int| 0 <= i < kmers.len() && kmers[i]@ == km
}

/// The boundary window of a sequence: its last `k` bytes when `suffix`
/// holds, its first `k` bytes otherwise.
pub open spec fn boundary(s: Seq<u8>, k: int, suffix: bool) -> Seq<u8> {
    if suffix {
        s.subrange(s.len() - k, s.len() as int)
    } else {
        s.subrange(0, k)
    }
}

/// Well-formedness of one boundary index: keys are distinct, every listed
/// read carries the entry's key as its boundary window (soundness), every
/// read long enough for a boundary window is listed under its key
/// (completeness), and each bucket lists its reads in strictly increasing
/// identifier order.
pub open spec fn index_wf(
    entries: Seq<(Vec<u8>, Vec<usize>)>,
    seqs: Seq<Seq<u8>>,
    k: int,
    suffix: bool,
) -> bool {
    &&& forall|e1: int, e2: int|
        0 <= e1 < e2 < entries.len() ==> (#[trigger] entries[e1].0@) != (
        #[trigger] entries[e2].0@)
    &&& forall|e: int, t: int|
        0 <= e < entries.len() && 0 <= t < entries[e].1@.len() ==> {
            let id = #[trigger] entries[e].1@[t];
            &&& (id as int) < seqs.len()
            &&& k <= seqs[id as int].len()
            &&& boundary(seqs[id as int], k, suffix) == entries[e].0@
        }
    &&& forall|id: int|
        0 <= id < seqs.len() && k <= (#[trigger] seqs[id]).len() ==> exists|e: int|
            0 <= e < entries.len() && (#[trigger] entries[e].0@) == boundary(seqs[id], k, suffix)
                && entries[e].1@.contains(id as usize)
    &&& forall|e: int, t1: int, t2: int|
        0 <= e < entries.len() && 0 <= t1 < t2 < entries[e].1@.len() ==> (
        #[trigger] entries[e].1@[t1]) < (#[trigger] entries[e].1@[t2])
}

/// The k-mer index of one read set: the distinct k-mers of length `k`
/// over all reads, and the two boundary indexes.
pub struct KmerIndex {
    /// The window length the index was built with.
    pub k: usize,
    /// The distinct k-mers, each exactly once, in first-seen order.
    pub kmers: Vec<Vec<u8>>,
    /// Buckets from a k-mer to the reads whose first `k` bytes equal it.
    pub prefix_index: Vec<(Vec<u8>, Vec<usize>)>,
    /// Buckets from a k-mer to the reads whose last `k` bytes equal it.
    pub suffix_index: Vec<(Vec<u8>, Vec<usize>)>,
    /// The sequences the index was built from.
    pub seqs: Ghost<Seq<Seq<u8>>>,
}

impl KmerIndex {
    /// The index invariant: the distinct-k-mer list holds exactly the
    /// windows of length `k` of the indexed sequences, without
    /// duplicates, and both boundary indexes are well formed.
    pub open spec fn wf(self) -> bool {
        let k = self.k as int;
        &&& self.k >= 1
        &&& forall|i: int, j: int|
            0 <= i < j < self.kmers@.len() ==> (#[trigger] self.kmers@[i]@) != (
            #[trigger] self.kmers@[j]@)
        &&& forall|i: int|
            0 <= i < self.kmers@.len() ==> (#[trigger] self.kmers@[i]@).len() == k
                && kmer_in_seqs(self.seqs@, k, self.kmers@[i]@)
        &&& forall|r: int, j: int|
            0 <= r < self.seqs@.len() && 0 <= j && j + k <= self.seqs@[r].len()
                ==> kmers_contain(self.kmers@, #[trigger] self.seqs@[r].subrange(j, j + k))
        &&& index_wf(self.prefix_index@, self.seqs@, k, false)
        &&& index_wf(self.suffix_index@, self.seqs@, k, true)
    }

    /// Builds the index over `reads` with window length `k`.
    ///
    /// Every read of length at least `k` contributes all its windows to
    /// the distinct set and its two boundary windows to the buckets; each
    /// shorter read is skipped and returned as a [`ShortReadWarning`].
    pub fn build(reads: &ReadSet, k: usize) -> (r: (KmerIndex, Vec<ShortReadWarning>))
        requires
            reads.wf(),
            k >= 1,
        ensures
            r.0.wf(),
            r.0.k == k,
            r.0.seqs@ == reads.sequences(),
            forall|t: int|
                0 <= t < r.1@.len() ==> ((#[trigger] r.1@[t]).read as int) < reads.sequences().len()
                    && reads.sequences()[r.1@[t].read as int].len() < k && r.1@[t].length
                    == reads.sequences()[r.1@[t].read as int].len() && r.1@[t].required == k,
            forall|id: int|
                0 <= id < reads.sequences().len() && (#[trigger] reads.sequences()[id]).len() < k
                    ==> exists|t: int| 0 <= t < r.1@.len() && (#[trigger] r.1@[t]).read == id,
            forall|t1: int, t2: int|
                0 <= t1 < t2 < r.1@.len() ==> (#[trigger] r.1@[t1]).read < (
                #[trigger] r.1@[t2]).read,
    {
        let ghost seqs = reads.sequences();
        let n = reads.reads.len();
        let mut kmers: Vec<Vec<u8>> = Vec::new();
        let mut warnings: Vec<ShortReadWarning> = Vec::new();
        let mut u: usize = 0;
        while u < n
            invariant
                reads.wf(),
                k >= 1,
                seqs == reads.sequences(),
                n == reads.reads@.len(),
                0 <= u <= n,
                forall|i: int, j: int|
                    0 <= i < j < kmers@.len() ==> (#[trigger] kmers@[i]@) != (
                    #[trigger] kmers@[j]@),
                forall|i: int|
                    0 <= i < kmers@.len() ==> (#[trigger] kmers@[i]@).len() == k && kmer_in_seqs(
                        seqs,
                        k as int,
                        kmers@[i]@,
                    ),
                forall|r: int, j: int|
                    0 <= r < u && 0 <= j && j + k <= seqs[r].len() ==> kmers_contain(
                        kmers@,
                        #[trigger] seqs[r].subrange(j, j + k),
                    ),
                forall|t: int|
                    0 <= t < warnings@.len() ==> ((#[trigger] warnings@[t]).read as int) < u
                        && seqs[warnings@[t].read as int].len() < k && warnings@[t].length
                        == seqs[warnings@[t].read as int].len() && warnings@[t].required == k,
                forall|id: int|
                    0 <= id < u && (#[trigger] seqs[id]).len() < k ==> exists|t: int|
                        0 <= t < warnings@.len() && (#[trigger] warnings@[t]).read == id,
                forall|t1: int, t2: int|
                    0 <= t1 < t2 < warnings@.len() ==> (#[trigger] warnings@[t1]).read < (
                    #[trigger] warnings@[t2]).read,
            decreases n - u,
        {
            let sequence = &reads.reads[u].sequence;
            let len = sequence.len();
            proof {
                assert(seqs[u as int] == reads.reads@[u as int].sequence@);
            }
            if len < k {
                let ghost warnings0 = warnings@;
                warnings.push(ShortReadWarning { read: u, length: len, required: k });
                proof {
                    assert forall|id: int|
                        0 <= id < u + 1 && (#[trigger] seqs[id]).len() < k implies exists|t: int|
                        0 <= t < warnings@.len() && (#[trigger] warnings@[t]).read == id by {
                        if id == u as int {
                            assert(warnings@[warnings@.len() - 1].read == id);
                        } else {
                            let t = choose|t: int|
                                0 <= t < warnings0.len() && warnings0[t].read == id;
                            assert(warnings@[t].read == id);
                        }
                    }
                }
            } else {
                let mut j: usize = 0;
                while j <= len - k
                    invariant
                        k >= 1,
                        k <= len,
                        len == seqs[u as int].len(),
                        0 <= u < n,
                        n == seqs.len(),
                        sequence@ == seqs[u as int],
                        0 <= j <= len - k + 1,
                        forall|i1: int, i2: int|
                            0 <= i1 < i2 < kmers@.len() ==> (#[trigger] kmers@[i1]@) != (
                            #[trigger] kmers@[i2]@),
                        forall|i: int|
                            0 <= i < kmers@.len() ==> (#[trigger] kmers@[i]@).len() == k
                                && kmer_in_seqs(seqs, k as int, kmers@[i]@),
                        forall|r: int, jj: int|
                            0 <= r < u && 0 <= jj && jj + k <= seqs[r].len() ==> kmers_contain(
                                kmers@,
                                #[trigger] seqs[r].subrange(jj, jj + k),
                            ),
                        forall|jj: int|
                            0 <= jj < j && jj + k <= seqs[u as int].len() ==> kmers_contain(
                                kmers@,
                                #[trigger] seqs[u as int].subrange(jj, jj + k),
                            ),
                    decreases len - j,
                {
                    let km = extract(sequence, j, k);
                    let ghost kmers0 = kmers@;
                    proof {
                        assert(km@ == seqs[u as int].subrange(j as int, j + k));
                        assert(window_at(seqs, k as int, u as int, j as int, km@));
                    }
                    insert_kmer(&mut kmers, km);
                    proof {
                        assert forall|r: int, jj: int|
                            (0 <= r < u || (r == u && 0 <= jj < j + 1)) && 0 <= jj && jj + k
                                <= seqs[r].len() implies kmers_contain(
                            kmers@,
                            #[trigger] seqs[r].subrange(jj, jj + k),
                        ) by {
                            let s = seqs[r].subrange(jj, jj + k);
                            if r == u && jj == j {
                                assert(kmers_contain(kmers@, s));
                            } else {
                                assert(kmers_contain(kmers0, s));
                                let i = choose|i: int| 0 <= i < kmers0.len() && kmers0[i]@ == s;
                                assert(kmers@[i]@ == s);
                            }
                        }
                    }
                    j += 1;
                }
            }
            u += 1;
        }
        proof {
            assert forall|id: int|
                0 <= id < reads.sequences().len() && (#[trigger] reads.sequences()[id]).len() < k
                    implies exists|t: int|
                0 <= t < warnings@.len() && (#[trigger] warnings@[t]).read == id by {
                assert(seqs[id].len() < k);
                let t = choose|t: int|
                    0 <= t < warnings@.len() && (#[trigger] warnings@[t]).read == id;
                assert(0 <= t < warnings@.len() && warnings@[t].read == id);
            }
        }
        let prefix_index = build_boundary(reads, k, false);
        let suffix_index = build_boundary(reads, k, true);
        let index = KmerIndex { k, kmers, prefix_index, suffix_index, seqs: Ghost(seqs) };
        (index, warnings)
    }

    /// Whether `km` occurs as a window of length `k` in any indexed read.
    pub fn contains_kmer(&self, km: &Vec<u8>) -> (r: bool)
        requires
            self.wf(),
        ensures
            r <==> kmer_in_seqs(self.seqs@, self.k as int, km@),
    {
        let mut i: usize = 0;
        while i < self.kmers.len()
            invariant
                self.wf(),
                0 <= i <= self.kmers@.len(),
                forall|j: int| 0 <= j < i ==> (#[trigger] self.kmers@[j]@) != km@,
            decreases self.kmers@.len() - i,
        {
            if bytes_eq(&self.kmers[i], km) {
                return true;
            }
            i += 1;
        }
        proof {
            if kmer_in_seqs(self.seqs@, self.k as int, km@) {
                let (r, j) = choose|r: int, j: int|
                    window_at(self.seqs@, self.k as int, r, j, km@);
                assert(kmers_contain(self.kmers@, self.seqs@[r].subrange(j, j + self.k as int)));
            }
        }
        false
    }

    /// The list of distinct k-mers, in first-seen order.
    pub fn kmer_list(&self) -> (r: &Vec<Vec<u8>>)
        ensures
            r == &self.kmers,
    {
        &self.kmers
    }

    /// The reads whose first `k` bytes equal `km`, in increasing
    /// identifier order, each exactly once.
    pub fn prefix_reads(&self, km: &Vec<u8>) -> (r: Vec<usize>)
        requires
            self.wf(),
        ensures
            forall|id: usize|
                r@.contains(id) <==> ((id as int) < self.seqs@.len() && self.k
                    <= self.seqs@[id as int].len() && boundary(
                    self.seqs@[id as int],
                    self.k as int,
                    false,
                ) == km@),
            forall|t1: int, t2: int| 0 <= t1 < t2 < r@.len() ==> r@[t1] < r@[t2],
    {
        lookup_ids(&self.prefix_index, km, Ghost(self.seqs@), Ghost(self.k as int), Ghost(false))
    }

    /// The reads whose last `k` bytes equal `km`, in increasing
    /// identifier order, each exactly once.
    pub fn suffix_reads(&self, km: &Vec<u8>) -> (r: Vec<usize>)
        requires
            self.wf(),
        ensures
            forall|id: usize|
                r@.contains(id) <==> ((id as int) < self.seqs@.len() && self.k
                    <= self.seqs@[id as int].len() && boundary(
                    self.seqs@[id as int],
                    self.k as int,
                    true,
                ) == km@),
            forall|t1: int, t2: int| 0 <= t1 < t2 < r@.len() ==> r@[t1] < r@[t2],
    {
        lookup_ids(&self.suffix_index, km, Ghost(self.seqs@), Ghost(self.k as int), Ghost(true))
    }
}

/// Appends `km` to the distinct-k-mer list unless it is already present.
fn insert_kmer(kmers: &mut Vec<Vec<u8>>, km: Vec<u8>) -> (added: bool)
    ensures
        final(kmers)@ == if kmers_contain(old(kmers)@, km@) {
            old(kmers)@
        } else {
            old(kmers)@.push(km)
        },
        added == !kmers_contain(old(kmers)@, km@),
        kmers_contain(final(kmers)@, km@),
{
    let mut i: usize = 0;
    while i < kmers.len()
        invariant
            kmers@ == old(kmers)@,
            0 <= i <= kmers@.len(),
            forall|j: int| 0 <= j < i ==> (#[trigger] kmers@[j]@) != km@,
        decreases kmers@.len() - i,
    {
        if bytes_eq(&kmers[i], &km) {
            return false;
        }
        i += 1;
    }
    assert(!kmers_contain(kmers@, km@));
    kmers.push(km);
    proof {
        assert(kmers@[kmers@.len() - 1]@ == km@);
    }
    true
}

/// Position of the entry keyed by `km`, if the key is present.
fn find_key(entries: &Vec<(Vec<u8>, Vec<usize>)>, km: &Vec<u8>) -> (r: Option<usize>)
    ensures
        match r {
            Some(e) => (e as int) < entries@.len() && entries@[e as int].0@ == km@,
            None => forall|e: int| 0 <= e < entries@.len() ==> (#[trigger] entries@[e].0@) != km@,
        },
{
    let mut e: usize = 0;
    while e < entries.len()
        invariant
            0 <= e <= entries@.len(),
            forall|j: int| 0 <= j < e ==> (#[trigger] entries@[j].0@) != km@,
        decreases entries@.len() - e,
    {
        if bytes_eq(&entries[e].0, km) {
            return Some(e);
        }
        e += 1;
    }
    None
}

/// Copy of a list of read identifiers.
fn clone_ids(v: &Vec<usize>) -> (r: Vec<usize>)
    ensures
        r@ == v@,
{
    let mut r: Vec<usize> = Vec::new();
    let mut i: usize = 0;
    while i < v.len()
        invariant
            0 <= i <= v@.len(),
            r@.len() == i,
            forall|j: int| 0 <= j < i ==> r@[j] == v@[j],
        decreases v@.len() - i,
    {
        r.push(v[i]);
        i += 1;
    }
    proof {
        assert(r@ =~= v@);
    }
    r
}

/// The bucket of reads keyed by `km` in a well-formed boundary index:
/// exactly the reads whose boundary window equals `km`, in increasing
/// identifier order.
fn lookup_ids(
    entries: &Vec<(Vec<u8>, Vec<usize>)>,
    km: &Vec<u8>,
    Ghost(seqs): Ghost<Seq<Seq<u8>>>,
    Ghost(k): Ghost<int>,
    Ghost(suffix): Ghost<bool>,
) -> (r: Vec<usize>)
    requires
        index_wf(entries@, seqs, k, suffix),
    ensures
        forall|id: usize|
            r@.contains(id) <==> ((id as int) < seqs.len() && k <= seqs[id as int].len()
                && boundary(seqs[id as int], k, suffix) == km@),
        forall|t1: int, t2: int| 0 <= t1 < t2 < r@.len() ==> r@[t1] < r@[t2],
{
    match find_key(entries, km) {
        Some(e) => {
            let r = clone_ids(&entries[e].1);
            proof {
                assert forall|id: usize|
                    r@.contains(id) <==> ((id as int) < seqs.len() && k <= seqs[id as int].len()
                        && boundary(seqs[id as int], k, suffix) == km@) by {
                    if r@.contains(id) {
                        let t = choose|t: int| 0 <= t < r@.len() && r@[t] == id;
                        assert(entries@[e as int].1@[t] == id);
                    }
                    if (id as int) < seqs.len() && k <= seqs[id as int].len() && boundary(
                        seqs[id as int],
                        k,
                        suffix,
                    ) == km@ {
                        let e2 = choose|e2: int|
                            0 <= e2 < entries@.len() && entries@[e2].0@ == boundary(
                                seqs[id as int],
                                k,
                                suffix,
                            ) && entries@[e2].1@.contains(id);
                        if e2 < e as int {
                            assert(entries@[e2].0@ != entries@[e as int].0@);
                        } else if e2 > e as int {
                            assert(entries@[e as int].0@ != entries@[e2].0@);
                        }
                        assert(e2 == e as int);
                    }
                }
            }
            r
        },
        None => {
            let r: Vec<usize> = Vec::new();
            proof {
                assert forall|id: usize|
                    !((id as int) < seqs.len() && k <= seqs[id as int].len() && boundary(
                        seqs[id as int],
                        k,
                        suffix,
                    ) == km@) by {
                    if (id as int) < seqs.len() && k <= seqs[id as int].len() && boundary(
                        seqs[id as int],
                        k,
                        suffix,
                    ) == km@ {
                        let e2 = choose|e2: int|
                            0 <= e2 < entries@.len() && entries@[e2].0@ == boundary(
                                seqs[id as int],
                                k,
                                suffix,
                            ) && entries@[e2].1@.contains(id);
                        assert(entries@[e2].0@ != km@);
                    }
                }
            }
            r
        },
    }
}

/// Builds one boundary index over the reads of length at least `k`.
fn build_boundary(reads: &ReadSet, k: usize, suffix: bool) -> (entries: Vec<(Vec<u8>, Vec<usize>)>)
    requires
        reads.wf(),
        k >= 1,
    ensures
        index_wf(entries@, reads.sequences(), k as int, suffix),
{
    let ghost seqs = reads.sequences();
    let n = reads.reads.len();
    let mut entries: Vec<(Vec<u8>, Vec<usize>)> = Vec::new();
    let mut u: usize = 0;
    while u < n
        invariant
            reads.wf(),
            k >= 1,
            seqs == reads.sequences(),
            n == reads.reads@.len(),
            0 <= u <= n,
            forall|e1: int, e2: int|
                0 <= e1 < e2 < entries@.len() ==> (#[trigger] entries@[e1].0@) != (
                #[trigger] entries@[e2].0@),
            forall|e: int, t: int|
                0 <= e < entries@.len() && 0 <= t < entries@[e].1@.len() ==> {
                    let id = #[trigger] entries@[e].1@[t];
                    &&& (id as int) < u as int
                    &&& k <= seqs[id as int].len()
                    &&& boundary(seqs[id as int], k as int, suffix) == entries@[e].0@
                },
            forall|id: int|
                0 <= id < u && k <= (#[trigger] seqs[id]).len() ==> exists|e: int|
                    0 <= e < entries@.len() && (#[trigger] entries@[e].0@) == boundary(
                        seqs[id],
                        k as int,
                        suffix,
                    ) && entries@[e].1@.contains(id as usize),
            forall|e: int, t1: int, t2: int|
                0 <= e < entries@.len() && 0 <= t1 < t2 < entries@[e].1@.len() ==> (
                #[trigger] entries@[e].1@[t1]) < (#[trigger] entries@[e].1@[t2]),
        decreases n - u,
    {
        let sequence = &reads.reads[u].sequence;
        let len = sequence.len();
        proof {
            assert(seqs[u as int] == reads.reads@[u as int].sequence@);
        }
        if len >= k {
            let start = if suffix {
                len - k
            } else {
                0
            };
            let km = extract(sequence, start, k);
            proof {
                assert(km@ == boundary(seqs[u as int], k as int, suffix));
            }
            let ghost entries0 = entries@;
            match find_key(&entries, &km) {
                Some(e) => {
                    let (key, mut ids) = entries.remove(e);
                    ids.push(u);
                    let ghost newids = ids@;
                    entries.insert(e, (key, ids));
                    proof {
                        assert(entries@ =~= entries0.update(
                            e as int,
                            (entries0[e as int].0, entries@[e as int].1),
                        ));
                        assert(entries@[e as int].1@ == newids);
                        assert(newids == entries0[e as int].1@.push(u));
                        assert forall|id: int|
                            0 <= id < u + 1 && k <= (#[trigger] seqs[id]).len() implies exists|
                            eo: int,
                        |
                            0 <= eo < entries@.len() && (#[trigger] entries@[eo].0@) == boundary(
                                seqs[id],
                                k as int,
                                suffix,
                            ) && entries@[eo].1@.contains(id as usize) by {
                            if id == u as int {
                                assert(entries@[e as int].0@ == boundary(
                                    seqs[id],
                                    k as int,
                                    suffix,
                                ));
                                assert(entries@[e as int].1@[entries@[e as int].1@.len() - 1]
                                    == u);
                                assert(entries@[e as int].1@.contains(u));
                            } else {
                                let eo = choose|eo: int|
                                    0 <= eo < entries0.len() && entries0[eo].0@ == boundary(
                                        seqs[id],
                                        k as int,
                                        suffix,
                                    ) && entries0[eo].1@.contains(id as usize);
                                assert(entries@[eo].0@ == entries0[eo].0@);
                                if eo == e as int {
                                    let t = choose|t: int|
                                        0 <= t < entries0[eo].1@.len() && entries0[eo].1@[t]
                                            == id as usize;
                                    assert(entries@[eo].1@[t] == id as usize);
                                    assert(entries@[eo].1@.contains(id as usize));
                                } else {
                                    assert(entries@[eo].1@ == entries0[eo].1@);
                                }
                            }
                        }
                    }
                },
                None => {
                    let mut ids: Vec<usize> = Vec::new();
                    ids.push(u);
                    entries.push((km, ids));
                    proof {
                        let last = entries@.len() - 1;
                        assert(entries@[last].0@ == boundary(seqs[u as int], k as int, suffix));
                        assert(entries@[last].1@[0] == u);
                        assert(entries@[last].1@.contains(u));
                        assert forall|id: int|
                            0 <= id < u + 1 && k <= (#[trigger] seqs[id]).len() implies exists|
                            eo: int,
                        |
                            0 <= eo < entries@.len() && (#[trigger] entries@[eo].0@) == boundary(
                                seqs[id],
                                k as int,
                                suffix,
                            ) && entries@[eo].1@.contains(id as usize) by {
                            if id < u as int {
                                let eo = choose|eo: int|
                                    0 <= eo < entries0.len() && entries0[eo].0@ == boundary(
                                        seqs[id],
                                        k as int,
                                        suffix,
                                    ) && entries0[eo].1@.contains(id as usize);
                                assert(entries@[eo].0@ == entries0[eo].0@);
                                assert(entries@[eo].1@ == entries0[eo].1@);
                            }
                        }
                    }
                },
            }
        }
        u += 1;
    }
    entries
}

} // verus!
