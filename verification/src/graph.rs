//! The assembled overlap graph.
//!
//! [`OverlapGraph::assemble`] deduplicates the detected edges by their
//! `(source, target, overlap)` key — the insert is idempotent — and keeps
//! them sorted by overlap string, then source, then target, so
//! [`OverlapGraph::all_edges`] exposes a stable, deterministic order that
//! is reproducible across runs regardless of detection order.  The graph
//! is directed and may contain cycles; cycle handling belongs to a later
//! layout stage, not here.

use vstd::prelude::*;
use crate::bytes::{bytes_eq, clone_bytes, lemma_lex_transitive, lemma_lex_trichotomy, lex_less, lex_lt};
use crate::detect::{edge_eqv, OverlapEdge};

verus! {

/// Two edges share the deduplication key `(source, target, overlap)`.
pub open spec fn same_key(a: OverlapEdge, b: OverlapEdge) -> bool {
    a.source == b.source && a.target == b.target && a.overlap@ == b.overlap@
}

/// Strict output order on edge keys: by overlap string, then source read,
/// then target read.
pub open spec fn edge_key_lt(a: OverlapEdge, b: OverlapEdge) -> bool {
    ||| lex_lt(a.overlap@, b.overlap@)
    ||| (a.overlap@ == b.overlap@ && (a.source < b.source || (a.source == b.source && a.target
        < b.target)))
}

/// The key order is total: two edges share a key, or exactly one of them
/// comes first.
pub proof fn lemma_key_trichotomy(a: OverlapEdge, b: OverlapEdge)
    ensures
        same_key(a, b) || edge_key_lt(a, b) || edge_key_lt(b, a),
        !(same_key(a, b) && edge_key_lt(a, b)),
        !(edge_key_lt(a, b) && edge_key_lt(b, a)),
{
    lemma_lex_trichotomy(a.overlap@, b.overlap@);
}

/// The key order is transitive.
pub proof fn lemma_key_transitive(a: OverlapEdge, b: OverlapEdge, c: OverlapEdge)
    requires
        edge_key_lt(a, b),
        edge_key_lt(b, c),
    ensures
        edge_key_lt(a, c),
{
    lemma_lex_trichotomy(a.overlap@, b.overlap@);
    lemma_lex_trichotomy(b.overlap@, c.overlap@);
    if lex_lt(a.overlap@, b.overlap@) && lex_lt(b.overlap@, c.overlap@) {
        lemma_lex_transitive(a.overlap@, b.overlap@, c.overlap@);
    }
}

/// Some entry of `s` shares its key with `x`.
pub open spec fn key_in(s: Seq<OverlapEdge>, x: OverlapEdge) -> bool {
    exists|i: int| 0 <= i < s.len() && same_key(#[trigger] s[i], x)
}

/// Position `k` holds the first occurrence of its key in `input`.
pub open spec fn first_occurrence(input: Seq<OverlapEdge>, k: int) -> bool {
    0 <= k < input.len() && forall|k2: int|
        0 <= k2 < k ==> !same_key(#[trigger] input[k2], input[k])
}

/// A sequence of edges is strictly sorted by the key order (so no key
/// appears twice).
pub open spec fn edges_sorted(out: Seq<OverlapEdge>) -> bool {
    forall|i: int, j: int|
        0 <= i < j < out.len() ==> edge_key_lt(#[trigger] out[i], #[trigger] out[j])
}

/// The key of each of the first `k` input edges appears in `out`.
#[verifier::opaque]
pub open spec fn keys_covered(input: Seq<OverlapEdge>, k: int, out: Seq<OverlapEdge>) -> bool {
    forall|kk: int| 0 <= kk < k ==> key_in(out, #[trigger] input[kk])
}

/// `x` equals the first occurrence of its key among the first `k` input
/// edges.
pub open spec fn value_ok(input: Seq<OverlapEdge>, k: int, x: OverlapEdge) -> bool {
    exists|kk: int| 0 <= kk < k && first_occurrence(input, kk) && edge_eqv(x, #[trigger] input[kk])
}

/// Every entry of `out` equals the first occurrence of its key among the
/// first `k` input edges.
#[verifier::opaque]
pub open spec fn values_first(input: Seq<OverlapEdge>, k: int, out: Seq<OverlapEdge>) -> bool {
    forall|i: int| 0 <= i < out.len() ==> value_ok(input, k, #[trigger] out[i])
}

/// What assembling `input` yields: a strictly sorted table that covers
/// the key of every input edge and whose every entry is the first input
/// occurrence of its key.
pub open spec fn assemble_post(input: Seq<OverlapEdge>, out: Seq<OverlapEdge>) -> bool {
    &&& edges_sorted(out)
    &&& keys_covered(input, input.len() as int, out)
    &&& values_first(input, input.len() as int, out)
}

/// The directed overlap graph: the deduplicated edge table in its stable
/// order.  Nodes are the reads that participate in at least one edge.
pub struct OverlapGraph {
    /// The deduplicated edges, strictly sorted by the key order.
    pub edges: Vec<OverlapEdge>,
}

/// Field-wise copy of one edge.
fn clone_edge(e: &OverlapEdge) -> (r: OverlapEdge)
    ensures
        edge_eqv(r, *e),
{
    OverlapEdge {
        source: e.source,
        target: e.target,
        overlap: clone_bytes(&e.overlap),
        source_prefix_remainder: clone_bytes(&e.source_prefix_remainder),
        target_suffix_remainder: clone_bytes(&e.target_suffix_remainder),
    }
}

/// Executable decision of the key order.
fn edge_key_less(a: &OverlapEdge, b: &OverlapEdge) -> (r: bool)
    ensures
        r == edge_key_lt(*a, *b),
{
    proof {
        lemma_lex_trichotomy(a.overlap@, b.overlap@);
    }
    if bytes_eq(&a.overlap, &b.overlap) {
        a.source < b.source || (a.source == b.source && a.target < b.target)
    } else {
        lex_less(&a.overlap, &b.overlap)
    }
}

/// Executable decision of key equality.
fn edge_same_key(a: &OverlapEdge, b: &OverlapEdge) -> (r: bool)
    ensures
        r == same_key(*a, *b),
{
    a.source == b.source && a.target == b.target && bytes_eq(&a.overlap, &b.overlap)
}

/// Both assembly invariants hold of the empty table.
proof fn lemma_assemble_empty(input: Seq<OverlapEdge>)
    ensures
        keys_covered(input, 0, Seq::<OverlapEdge>::empty()),
        values_first(input, 0, Seq::<OverlapEdge>::empty()),
{
    reveal(keys_covered);
    reveal(values_first);
}

/// One covered key, read back out of the opaque predicate.
proof fn lemma_covered_at(input: Seq<OverlapEdge>, k: int, out: Seq<OverlapEdge>, kk: int)
    requires
        keys_covered(input, k, out),
        0 <= kk < k,
    ensures
        key_in(out, input[kk]),
{
    reveal(keys_covered);
}

/// One table entry's first-occurrence witness, read back out of the
/// opaque predicate.
proof fn lemma_value_at(input: Seq<OverlapEdge>, k: int, out: Seq<OverlapEdge>, i: int)
    requires
        values_first(input, k, out),
        0 <= i < out.len(),
    ensures
        value_ok(input, k, out[i]),
{
    reveal(values_first);
}

/// Covering one more input edge whose key the table already holds.
proof fn lemma_keys_extend(input: Seq<OverlapEdge>, k: int, out: Seq<OverlapEdge>)
    requires
        0 <= k < input.len(),
        keys_covered(input, k, out),
        key_in(out, input[k]),
    ensures
        keys_covered(input, k + 1, out),
{
    reveal(keys_covered);
}

/// A table valued from the first `k` input edges is also valued from the
/// first `k + 1`.
proof fn lemma_values_weaken(input: Seq<OverlapEdge>, k: int, out: Seq<OverlapEdge>)
    requires
        0 <= k,
        values_first(input, k, out),
    ensures
        values_first(input, k + 1, out),
{
    reveal(values_first);
    assert forall|i: int| 0 <= i < out.len() implies value_ok(input, k + 1, #[trigger] out[i]) by {
        let kk = choose|kk: int|
            0 <= kk < k && first_occurrence(input, kk) && edge_eqv(out[i], #[trigger] input[kk]);
        assert(0 <= kk < k + 1 && first_occurrence(input, kk) && edge_eqv(out[i], input[kk]));
    }
}

/// When no table entry shares the key of input edge `k`, that edge is
/// the first occurrence of its key.
proof fn lemma_insert_first_occurrence(input: Seq<OverlapEdge>, k: int, out: Seq<OverlapEdge>)
    requires
        0 <= k < input.len(),
        keys_covered(input, k, out),
        forall|i: int| 0 <= i < out.len() ==> !same_key(#[trigger] out[i], input[k]),
    ensures
        first_occurrence(input, k),
{
    reveal(keys_covered);
    assert forall|k2: int| 0 <= k2 < k implies !same_key(#[trigger] input[k2], input[k]) by {
        if same_key(input[k2], input[k]) {
            assert(key_in(out, input[k2]));
            let i = choose|i: int| 0 <= i < out.len() && same_key(#[trigger] out[i], input[k2]);
            assert(same_key(out[i], input[k]));
        }
    }
}

/// Inserting a copy of input edge `k` covers its key as well.
proof fn lemma_insert_keys(
    input: Seq<OverlapEdge>,
    k: int,
    out0: Seq<OverlapEdge>,
    j: int,
    c: OverlapEdge,
    out1: Seq<OverlapEdge>,
)
    requires
        0 <= k < input.len(),
        0 <= j <= out0.len(),
        keys_covered(input, k, out0),
        same_key(c, input[k]),
        out1 == out0.insert(j, c),
    ensures
        keys_covered(input, k + 1, out1),
{
    reveal(keys_covered);
    assert forall|kk: int| 0 <= kk < k + 1 implies key_in(out1, #[trigger] input[kk]) by {
        if kk == k {
            assert(out1[j] == c);
            assert(same_key(out1[j], input[kk]));
        } else {
            let i = choose|i: int| 0 <= i < out0.len() && same_key(#[trigger] out0[i], input[kk]);
            if i < j {
                assert(out1[i] == out0[i]);
                assert(same_key(out1[i], input[kk]));
            } else {
                assert(out1[i + 1] == out0[i]);
                assert(same_key(out1[i + 1], input[kk]));
            }
        }
    }
}

/// Inserting the first occurrence of a fresh key keeps every table entry
/// a first occurrence.
proof fn lemma_insert_values(
    input: Seq<OverlapEdge>,
    k: int,
    out0: Seq<OverlapEdge>,
    j: int,
    c: OverlapEdge,
    out1: Seq<OverlapEdge>,
)
    requires
        0 <= k < input.len(),
        0 <= j <= out0.len(),
        values_first(input, k, out0),
        first_occurrence(input, k),
        edge_eqv(c, input[k]),
        out1 == out0.insert(j, c),
    ensures
        values_first(input, k + 1, out1),
{
    reveal(values_first);
    assert forall|i: int| 0 <= i < out1.len() implies value_ok(input, k + 1, #[trigger] out1[i]) by {
        if i == j {
            assert(out1[i] == c);
            assert(edge_eqv(out1[i], input[k]));
            assert(0 <= k < k + 1 && first_occurrence(input, k) && edge_eqv(out1[i], input[k]));
        } else {
            let io = if i < j {
                i
            } else {
                i - 1
            };
            assert(out1[i] == out0[io]);
            let kk = choose|kk: int|
                0 <= kk < k && first_occurrence(input, kk) && edge_eqv(out0[io], #[trigger] input[kk]);
            assert(0 <= kk < k + 1 && first_occurrence(input, kk) && edge_eqv(out1[i], input[kk]));
        }
    }
}

/// A step of the assembly that inserted a copy of edge `k` at position
/// `j` keeps the table sorted, covered and first-occurrence valued.
#[verifier::rlimit(100)]
proof fn lemma_assemble_insert(
    input: Seq<OverlapEdge>,
    k: int,
    out0: Seq<OverlapEdge>,
    j: int,
    c: OverlapEdge,
    out1: Seq<OverlapEdge>,
)
    requires
        0 <= k < input.len(),
        0 <= j <= out0.len(),
        edges_sorted(out0),
        keys_covered(input, k, out0),
        values_first(input, k, out0),
        forall|jj: int| 0 <= jj < j ==> edge_key_lt(#[trigger] out0[jj], input[k]),
        j < out0.len() ==> !edge_key_lt(out0[j], input[k]) && !same_key(out0[j], input[k]),
        edge_eqv(c, input[k]),
        out1 == out0.insert(j, c),
    ensures
        edges_sorted(out1),
        keys_covered(input, k + 1, out1),
        values_first(input, k + 1, out1),
{
    // the key of edge `k` is below every entry from position `j` on
    assert forall|i: int| j <= i < out0.len() implies edge_key_lt(c, #[trigger] out0[i]) by {
        lemma_key_trichotomy(out0[j], input[k]);
        assert(edge_key_lt(input[k], out0[j]));
        if i > j {
            lemma_key_transitive(input[k], out0[j], out0[i]);
        }
    }
    // and above every entry before `j`, so nothing in the table shares it
    assert forall|i: int| 0 <= i < out0.len() implies !same_key(#[trigger] out0[i], input[k]) by {
        lemma_key_trichotomy(out0[i], input[k]);
        if i >= j {
            lemma_key_trichotomy(input[k], out0[i]);
        }
    }
    lemma_insert_first_occurrence(input, k, out0);
    assert forall|i1: int, i2: int| 0 <= i1 < i2 < out1.len() implies edge_key_lt(
        #[trigger] out1[i1],
        #[trigger] out1[i2],
    ) by {
        if i1 == j {
            assert(out1[i2] == out0[i2 - 1]);
        } else if i2 == j {
            assert(out1[i1] == out0[i1]);
        } else {
            assert(out1[i1] == out0[if i1 < j { i1 } else { i1 - 1 }]);
            assert(out1[i2] == out0[if i2 < j { i2 } else { i2 - 1 }]);
        }
    }
    lemma_insert_keys(input, k, out0, j, c, out1);
    lemma_insert_values(input, k, out0, j, c, out1);
}

impl OverlapGraph {
    /// The graph invariant: the edge table is strictly sorted by key.
    pub open spec fn wf(self) -> bool {
        edges_sorted(self.edges@)
    }

    /// Assembles the graph from detected edges, deduplicating identical
    /// `(source, target, overlap)` triples: inserting an edge whose key
    /// is already present changes nothing, so the same edge appearing
    /// twice in the input leaves exactly the deduplicated edge set.
    pub fn assemble(input: &Vec<OverlapEdge>) -> (g: OverlapGraph)
        ensures
            g.wf(),
            assemble_post(input@, g.edges@),
    {
        let mut out: Vec<OverlapEdge> = Vec::new();
        let mut k: usize = 0;
        proof {
            lemma_assemble_empty(input@);
            assert(out@ =~= Seq::<OverlapEdge>::empty());
        }
        while k < input.len()
            invariant
                0 <= k <= input@.len(),
                edges_sorted(out@),
                keys_covered(input@, k as int, out@),
                values_first(input@, k as int, out@),
            decreases input@.len() - k,
        {
            let e = &input[k];
            let mut j: usize = 0;
            while j < out.len() && edge_key_less(&out[j], e)
                invariant
                    0 <= j <= out@.len(),
                    forall|jj: int| 0 <= jj < j ==> edge_key_lt(#[trigger] out@[jj], *e),
                decreases out@.len() - j,
            {
                j += 1;
            }
            let ghost out0 = out@;
            if j < out.len() && edge_same_key(&out[j], e) {
                proof {
                    assert(same_key(out@[j as int], input@[k as int]));
                    assert(key_in(out@, input@[k as int]));
                    lemma_keys_extend(input@, k as int, out@);
                    lemma_values_weaken(input@, k as int, out@);
                }
            } else {
                let c = clone_edge(e);
                let ghost cg = c;
                out.insert(j, c);
                proof {
                    lemma_assemble_insert(input@, k as int, out0, j as int, cg, out@);
                }
            }
            k += 1;
        }
        OverlapGraph { edges: out }
    }

    /// The deduplicated edge table in its stable sorted order.
    pub fn all_edges(&self) -> (r: &Vec<OverlapEdge>)
        ensures
            r == &self.edges,
    {
        &self.edges
    }

    /// The edges leaving `read`, in the table's stable order; empty when
    /// the read has none.
    pub fn edges_from(&self, read: usize) -> (r: Vec<OverlapEdge>)
        requires
            self.wf(),
        ensures
            forall|i: int|
                0 <= i < r@.len() ==> (#[trigger] r@[i]).source == read && exists|j: int|
                    0 <= j < self.edges@.len() && edge_eqv(r@[i], #[trigger] self.edges@[j]),
            forall|j: int|
                0 <= j < self.edges@.len() && (#[trigger] self.edges@[j]).source == read ==> exists|
                    i: int,
                | 0 <= i < r@.len() && edge_eqv(#[trigger] r@[i], self.edges@[j]),
            edges_sorted(r@),
    {
        let mut r: Vec<OverlapEdge> = Vec::new();
        let ghost mut idxs: Seq<int> = Seq::empty();
        let mut j: usize = 0;
        while j < self.edges.len()
            invariant
                self.wf(),
                0 <= j <= self.edges@.len(),
                idxs.len() == r@.len(),
                forall|i: int|
                    0 <= i < r@.len() ==> 0 <= #[trigger] idxs[i] < j && edge_eqv(
                        r@[i],
                        self.edges@[idxs[i]],
                    ) && r@[i].source == read,
                forall|i1: int, i2: int| 0 <= i1 < i2 < idxs.len() ==> idxs[i1] < idxs[i2],
                forall|jj: int|
                    0 <= jj < j && (#[trigger] self.edges@[jj]).source == read ==> exists|i: int|
                        0 <= i < r@.len() && edge_eqv(#[trigger] r@[i], self.edges@[jj]),
            decreases self.edges@.len() - j,
        {
            let ghost r0 = r@;
            let ghost idxs0 = idxs;
            if self.edges[j].source == read {
                let c = clone_edge(&self.edges[j]);
                r.push(c);
                proof {
                    idxs = idxs.push(j as int);
                    assert(r@[r@.len() - 1] == c);
                    assert forall|i: int| 0 <= i < r@.len() implies 0 <= #[trigger] idxs[i] < j + 1
                        && edge_eqv(r@[i], self.edges@[idxs[i]]) && r@[i].source == read by {
                        if i < r@.len() - 1 {
                            assert(idxs[i] == idxs0[i]);
                            assert(r@[i] == r0[i]);
                        } else {
                            assert(idxs[i] == j as int);
                        }
                    }
                }
            }
            proof {
                assert forall|jj: int|
                    0 <= jj < j + 1 && (#[trigger] self.edges@[jj]).source == read implies exists|
                    i: int,
                |
                    0 <= i < r@.len() && edge_eqv(#[trigger] r@[i], self.edges@[jj]) by {
                    if jj == j as int {
                        assert(edge_eqv(r@[r@.len() - 1], self.edges@[jj]));
                    } else {
                        let i = choose|i: int|
                            0 <= i < r0.len() && edge_eqv(#[trigger] r0[i], self.edges@[jj]);
                        assert(edge_eqv(r@[i], self.edges@[jj]));
                    }
                }
            }
            j += 1;
        }
        proof {
            assert forall|i1: int, i2: int| 0 <= i1 < i2 < r@.len() implies edge_key_lt(
                #[trigger] r@[i1],
                #[trigger] r@[i2],
            ) by {
                assert(edge_key_lt(self.edges@[idxs[i1]], self.edges@[idxs[i2]]));
            }
            assert forall|i: int| 0 <= i < r@.len() implies (#[trigger] r@[i]).source == read
                && exists|jj: int|
                0 <= jj < self.edges@.len() && edge_eqv(r@[i], #[trigger] self.edges@[jj]) by {
                assert(0 <= idxs[i] < self.edges@.len());
                assert(edge_eqv(r@[i], self.edges@[idxs[i]]));
            }
        }
        r
    }

    /// Whether `id` participates in at least one edge.
    pub open spec fn is_node(edges: Seq<OverlapEdge>, id: usize) -> bool {
        exists|i: int|
            0 <= i < edges.len() && ((#[trigger] edges[i]).source == id || edges[i].target == id)
    }

    /// The reads that participate in at least one edge, in increasing
    /// identifier order, each exactly once.  Isolated reads are omitted.
    pub fn all_nodes(&self) -> (r: Vec<usize>)
        ensures
            forall|id: usize| r@.contains(id) <==> Self::is_node(self.edges@, id),
            forall|t1: int, t2: int| 0 <= t1 < t2 < r@.len() ==> r@[t1] < r@[t2],
    {
        let mut nodes: Vec<usize> = Vec::new();
        let mut j: usize = 0;
        while j < self.edges.len()
            invariant
                0 <= j <= self.edges@.len(),
                forall|id: usize|
                    nodes@.contains(id) <==> Self::is_node(self.edges@.take(j as int), id),
                forall|t1: int, t2: int| 0 <= t1 < t2 < nodes@.len() ==> nodes@[t1] < nodes@[t2],
            decreases self.edges@.len() - j,
        {
            let ghost nodes0 = nodes@;
            let s = self.edges[j].source;
            let t = self.edges[j].target;
            insert_sorted(&mut nodes, s);
            let ghost nodes1 = nodes@;
            insert_sorted(&mut nodes, t);
            proof {
                assert forall|id: usize|
                    nodes@.contains(id) <==> Self::is_node(self.edges@.take(j + 1), id) by {
                    assert(self.edges@.take(j + 1)[j as int] == self.edges@[j as int]);
                    if nodes@.contains(id) {
                        if id == t || id == s {
                            assert(Self::is_node(self.edges@.take(j + 1), id));
                        } else {
                            assert(nodes0.contains(id));
                            let i = choose|i: int|
                                0 <= i < self.edges@.take(j as int).len() && ((
                                #[trigger] self.edges@.take(j as int)[i]).source == id
                                    || self.edges@.take(j as int)[i].target == id);
                            assert(self.edges@.take(j + 1)[i] == self.edges@.take(j as int)[i]);
                            assert(Self::is_node(self.edges@.take(j + 1), id));
                        }
                    }
                    if Self::is_node(self.edges@.take(j + 1), id) {
                        let i = choose|i: int|
                            0 <= i < self.edges@.take(j + 1).len() && ((
                            #[trigger] self.edges@.take(j + 1)[i]).source == id || self.edges@.take(
                                j + 1,
                            )[i].target == id);
                        if i < j as int {
                            assert(self.edges@.take(j as int)[i] == self.edges@.take(j + 1)[i]);
                            assert(Self::is_node(self.edges@.take(j as int), id));
                            assert(nodes0.contains(id));
                            assert(nodes1.contains(id));
                        } else {
                            assert(id == s || id == t);
                        }
                        assert(nodes@.contains(id));
                    }
                }
            }
            j += 1;
        }
        proof {
            assert(self.edges@.take(self.edges@.len() as int) =~= self.edges@);
        }
        nodes
    }
}

/// Inserts `x` into a strictly sorted list of identifiers, keeping it
/// strictly sorted; inserting a present identifier changes nothing.
#[verifier::rlimit(100)]
fn insert_sorted(v: &mut Vec<usize>, x: usize)
    requires
        forall|t1: int, t2: int| 0 <= t1 < t2 < old(v)@.len() ==> old(v)@[t1] < old(v)@[t2],
    ensures
        forall|t1: int, t2: int| 0 <= t1 < t2 < final(v)@.len() ==> final(v)@[t1] < final(v)@[t2],
        forall|y: usize| final(v)@.contains(y) ==> (old(v)@.contains(y) || y == x),
        forall|y: usize| old(v)@.contains(y) ==> final(v)@.contains(y),
        final(v)@.contains(x),
{
    let ghost v0 = v@;
    let mut j: usize = 0;
    while j < v.len() && v[j] < x
        invariant
            v@ == v0,
            forall|t1: int, t2: int| 0 <= t1 < t2 < v@.len() ==> v@[t1] < v@[t2],
            0 <= j <= v@.len(),
            forall|t: int| 0 <= t < j ==> v@[t] < x,
        decreases v@.len() - j,
    {
        j += 1;
    }
    proof {
        assert(j < v@.len() && v@[j as int] != x ==> v@[j as int] > x);
    }
    if j < v.len() && v[j] == x {
        proof {
            assert(v@ == v0);
            assert(v@[j as int] == x);
            assert(v@.contains(x));
        }
        return;
    }
    v.insert(j, x);
    proof {
        assert(v@ == v0.insert(j as int, x));
        assert(v@[j as int] == x);
        assert(v@.contains(x));
        assert forall|t1: int, t2: int| 0 <= t1 < t2 < v@.len() implies v@[t1] < v@[t2] by {
            if t1 == j as int {
                assert(v@[t2] == v0[t2 - 1]);
                if t2 - 1 > j {
                    assert(v0[j as int] < v0[t2 - 1]);
                }
            } else if t2 == j as int {
                assert(v@[t1] == v0[t1]);
            } else {
                assert(v@[t1] == v0[if t1 < j { t1 } else { t1 - 1 }]);
                assert(v@[t2] == v0[if t2 < j { t2 } else { t2 - 1 }]);
            }
        }
        assert forall|y: usize| v@.contains(y) <==> (v0.contains(y) || y == x) by {
            if y == x {
                assert(v@[j as int] == x);
                assert(v@.contains(y));
            }
            if v@.contains(y) && y != x {
                let t = choose|t: int| 0 <= t < v@.len() && v@[t] == y;
                if t < j as int {
                    assert(v0[t] == y);
                } else {
                    assert(v0[t - 1] == y);
                }
                assert(v0.contains(y));
            }
            if v0.contains(y) {
                let t = choose|t: int| 0 <= t < v0.len() && v0[t] == y;
                if t < j as int {
                    assert(v@[t] == y);
                } else {
                    assert(v@[t + 1] == y);
                }
                assert(v@.contains(y));
            }
        }
    }
}

/// Assembling is deterministic: two tables assembled from the same input
/// agree edge for edge, so repeated runs on identical input print the
/// same table.
#[verifier::rlimit(100)]
pub proof fn lemma_assemble_deterministic(
    input: Seq<OverlapEdge>,
    a: Seq<OverlapEdge>,
    b: Seq<OverlapEdge>,
)
    requires
        assemble_post(input, a),
        assemble_post(input, b),
    ensures
        a.len() == b.len(),
        forall|i: int| 0 <= i < a.len() ==> edge_eqv(#[trigger] a[i], b[i]),
{
    assert forall|x: OverlapEdge| key_in(a, x) <==> key_in(b, x) by {
        if key_in(a, x) {
            lemma_key_set_from_post(input, a, b, x);
        }
        if key_in(b, x) {
            lemma_key_set_from_post(input, b, a, x);
        }
    }
    lemma_sorted_key_alignment(a, b);
    assert forall|i: int| 0 <= i < a.len() implies edge_eqv(#[trigger] a[i], b[i]) by {
        lemma_value_at(input, input.len() as int, a, i);
        lemma_value_at(input, input.len() as int, b, i);
        let k1 = choose|k1: int|
            0 <= k1 < input.len() && first_occurrence(input, k1) && edge_eqv(a[i], input[k1]);
        let k2 = choose|k2: int|
            0 <= k2 < input.len() && first_occurrence(input, k2) && edge_eqv(b[i], input[k2]);
        assert(same_key(a[i], b[i]));
        assert(same_key(input[k1], input[k2]));
        if k1 < k2 {
            assert(!same_key(input[k1], input[k2]));
        } else if k2 < k1 {
            assert(!same_key(input[k2], input[k1]));
        }
        assert(k1 == k2);
    }
}

/// Assembling is idempotent: assembling an assembled table again yields
/// the same table.
#[verifier::rlimit(100)]
pub proof fn lemma_assemble_idempotent(
    input: Seq<OverlapEdge>,
    a: Seq<OverlapEdge>,
    b: Seq<OverlapEdge>,
)
    requires
        assemble_post(input, a),
        assemble_post(a, b),
    ensures
        a.len() == b.len(),
        forall|i: int| 0 <= i < b.len() ==> edge_eqv(#[trigger] b[i], a[i]),
{
    assert forall|x: OverlapEdge| key_in(a, x) <==> key_in(b, x) by {
        if key_in(a, x) {
            let i = choose|i: int| 0 <= i < a.len() && same_key(#[trigger] a[i], x);
            lemma_covered_at(a, a.len() as int, b, i);
            let jb = choose|jb: int| 0 <= jb < b.len() && same_key(#[trigger] b[jb], a[i]);
            assert(same_key(b[jb], x));
        }
        if key_in(b, x) {
            let i = choose|i: int| 0 <= i < b.len() && same_key(#[trigger] b[i], x);
            lemma_value_at(a, a.len() as int, b, i);
            let ka = choose|ka: int|
                0 <= ka < a.len() && first_occurrence(a, ka) && edge_eqv(b[i], a[ka]);
            assert(same_key(a[ka], x));
            assert(key_in(a, x));
        }
    }
    lemma_sorted_key_alignment(a, b);
    assert forall|i: int| 0 <= i < b.len() implies edge_eqv(#[trigger] b[i], a[i]) by {
        lemma_value_at(a, a.len() as int, b, i);
        let ka = choose|ka: int|
            0 <= ka < a.len() && first_occurrence(a, ka) && edge_eqv(b[i], a[ka]);
        assert(same_key(a[i], b[i]));
        assert(same_key(a[ka], a[i]));
        if ka < i {
            lemma_key_trichotomy(a[ka], a[i]);
            assert(edge_key_lt(a[ka], a[i]));
        } else if i < ka {
            lemma_key_trichotomy(a[i], a[ka]);
            assert(edge_key_lt(a[i], a[ka]));
        }
        assert(ka == i);
    }
}

/// A key present in one assembled table is present in any other table
/// assembled from the same input.
#[verifier::rlimit(100)]
proof fn lemma_key_set_from_post(
    input: Seq<OverlapEdge>,
    a: Seq<OverlapEdge>,
    b: Seq<OverlapEdge>,
    x: OverlapEdge,
)
    requires
        assemble_post(input, a),
        assemble_post(input, b),
        key_in(a, x),
    ensures
        key_in(b, x),
{
    let i = choose|i: int| 0 <= i < a.len() && same_key(#[trigger] a[i], x);
    lemma_value_at(input, input.len() as int, a, i);
    let k = choose|k: int|
        0 <= k < input.len() && first_occurrence(input, k) && edge_eqv(a[i], input[k]);
    lemma_covered_at(input, input.len() as int, b, k);
    let jb = choose|jb: int| 0 <= jb < b.len() && same_key(#[trigger] b[jb], input[k]);
    assert(same_key(b[jb], x));
}

/// Two strictly sorted tables with the same key set agree position by
/// position on keys.
#[verifier::rlimit(100)]
proof fn lemma_sorted_key_alignment(a: Seq<OverlapEdge>, b: Seq<OverlapEdge>)
    requires
        edges_sorted(a),
        edges_sorted(b),
        forall|x: OverlapEdge| key_in(a, x) <==> key_in(b, x),
    ensures
        a.len() == b.len(),
        forall|i: int| 0 <= i < a.len() ==> same_key(#[trigger] a[i], b[i]),
    decreases a.len(),
{
    if a.len() == 0 {
        if b.len() > 0 {
            assert(same_key(b[0], b[0]));
            assert(key_in(b, b[0]));
            assert(key_in(a, b[0]));
            let i = choose|i: int| 0 <= i < a.len() && same_key(#[trigger] a[i], b[0]);
            assert(false);
        }
    } else {
        assert(same_key(a[0], a[0]));
        assert(key_in(a, a[0]));
        assert(key_in(b, a[0]));
        if b.len() == 0 {
            let i = choose|i: int| 0 <= i < b.len() && same_key(#[trigger] b[i], a[0]);
            assert(false);
        }
        // the two heads share a key
        let jb = choose|jb: int| 0 <= jb < b.len() && same_key(#[trigger] b[jb], a[0]);
        assert(same_key(b[0], b[0]));
        assert(key_in(b, b[0]));
        assert(key_in(a, b[0]));
        let ia = choose|ia: int| 0 <= ia < a.len() && same_key(#[trigger] a[ia], b[0]);
        lemma_key_trichotomy(a[0], b[0]);
        if edge_key_lt(a[0], b[0]) {
            // a[0]'s key sits at b[jb] with jb > 0, below b[0] in the order
            if jb == 0 {
                assert(false);
            } else {
                assert(edge_key_lt(b[0], b[jb]));
                lemma_key_trichotomy(b[jb], a[0]);
                lemma_key_transitive(a[0], b[0], b[jb]);
                assert(false);
            }
        }
        if edge_key_lt(b[0], a[0]) {
            if ia == 0 {
                assert(false);
            } else {
                assert(edge_key_lt(a[0], a[ia]));
                lemma_key_trichotomy(a[ia], b[0]);
                lemma_key_transitive(b[0], a[0], a[ia]);
                assert(false);
            }
        }
        assert(same_key(a[0], b[0]));
        let at = a.skip(1);
        let bt = b.skip(1);
        assert forall|i1: int, i2: int| 0 <= i1 < i2 < at.len() implies edge_key_lt(
            #[trigger] at[i1],
            #[trigger] at[i2],
        ) by {
            assert(at[i1] == a[i1 + 1] && at[i2] == a[i2 + 1]);
        }
        assert forall|i1: int, i2: int| 0 <= i1 < i2 < bt.len() implies edge_key_lt(
            #[trigger] bt[i1],
            #[trigger] bt[i2],
        ) by {
            assert(bt[i1] == b[i1 + 1] && bt[i2] == b[i2 + 1]);
        }
        assert forall|x: OverlapEdge| key_in(at, x) <==> key_in(bt, x) by {
            if key_in(at, x) {
                let i = choose|i: int| 0 <= i < at.len() && same_key(#[trigger] at[i], x);
                assert(at[i] == a[i + 1]);
                assert(key_in(a, x));
                assert(key_in(b, x));
                let j = choose|j: int| 0 <= j < b.len() && same_key(#[trigger] b[j], x);
                if j == 0 {
                    // x's key would equal both heads, yet a's tail holds it too
                    assert(same_key(a[i + 1], b[0]));
                    assert(same_key(a[i + 1], a[0]));
                    assert(edge_key_lt(a[0], a[i + 1]));
                    lemma_key_trichotomy(a[0], a[i + 1]);
                    assert(false);
                }
                assert(bt[j - 1] == b[j]);
                assert(key_in(bt, x));
            }
            if key_in(bt, x) {
                let i = choose|i: int| 0 <= i < bt.len() && same_key(#[trigger] bt[i], x);
                assert(bt[i] == b[i + 1]);
                assert(key_in(b, x));
                assert(key_in(a, x));
                let j = choose|j: int| 0 <= j < a.len() && same_key(#[trigger] a[j], x);
                if j == 0 {
                    assert(same_key(b[i + 1], a[0]));
                    assert(same_key(b[i + 1], b[0]));
                    assert(edge_key_lt(b[0], b[i + 1]));
                    lemma_key_trichotomy(b[0], b[i + 1]);
                    assert(false);
                }
                assert(at[j - 1] == a[j]);
                assert(key_in(at, x));
            }
        }
        lemma_sorted_key_alignment(at, bt);
        assert forall|i: int| 0 <= i < a.len() implies same_key(#[trigger] a[i], b[i]) by {
            if i > 0 {
                assert(at[i - 1] == a[i] && bt[i - 1] == b[i]);
                assert(same_key(at[i - 1], bt[i - 1]));
            }
        }
    }
}

} // verus!
