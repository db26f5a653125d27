use overlap_graphs::detect::{detect, OverlapEdge};
use overlap_graphs::errors::{validate_params, OverlapError};
use overlap_graphs::graph::OverlapGraph;
use overlap_graphs::kmer::KmerIndex;
use overlap_graphs::reads::ReadSet;

fn records(seqs: &[&str]) -> Vec<(Vec<u8>, Vec<u8>)> {
    seqs.iter()
        .enumerate()
        .map(|(i, s)| (format!("@read{}", i).into_bytes(), s.as_bytes().to_vec()))
        .collect()
}

fn build_reads(seqs: &[&str]) -> ReadSet {
    let (rs, skipped) = ReadSet::build(&records(seqs));
    assert_eq!(skipped, 0);
    rs
}

fn edge(source: usize, target: usize, overlap: &str, spr: &str, tsr: &str) -> OverlapEdge {
    OverlapEdge {
        source,
        target,
        overlap: overlap.as_bytes().to_vec(),
        source_prefix_remainder: spr.as_bytes().to_vec(),
        target_suffix_remainder: tsr.as_bytes().to_vec(),
    }
}

#[test]
fn scenario_two_reads_one_overlap() {
    let rs = build_reads(&["AAATTT", "TTTGGG"]);
    let (index, warnings) = KmerIndex::build(&rs, 3);
    assert!(warnings.is_empty());
    let (edges, short) = detect(&rs, &index, 3);
    assert!(short.is_empty());
    assert_eq!(edges.len(), 1);
    assert_eq!(edges[0].source, 0);
    assert_eq!(edges[0].target, 1);
    assert_eq!(edges[0].overlap, b"TTT".to_vec());
    assert_eq!(edges[0].source_prefix_remainder, b"AAA".to_vec());
    assert_eq!(edges[0].target_suffix_remainder, b"GGG".to_vec());
}

#[test]
fn scenario_identical_reads_give_both_directions() {
    let rs = build_reads(&["AAAAA", "AAAAA"]);
    let (index, _) = KmerIndex::build(&rs, 3);
    let (edges, short) = detect(&rs, &index, 3);
    assert!(short.is_empty());
    let g = OverlapGraph::assemble(&edges);
    let all = g.all_edges();
    assert_eq!(all.len(), 2);
    // sorted by (overlap, source, target); both overlaps are "AAA"
    assert_eq!(all[0].source, 0);
    assert_eq!(all[0].target, 1);
    assert_eq!(all[0].overlap, b"AAA".to_vec());
    assert_eq!(all[1].source, 1);
    assert_eq!(all[1].target, 0);
    assert_eq!(all[1].overlap, b"AAA".to_vec());
    // no self-overlap edge was produced
    for e in all.iter() {
        assert_ne!(e.source, e.target);
    }
}

#[test]
fn scenario_single_read_has_no_edges() {
    let rs = build_reads(&["ACGT"]);
    let (index, _) = KmerIndex::build(&rs, 2);
    let (edges, short) = detect(&rs, &index, 2);
    assert!(edges.is_empty());
    assert!(short.is_empty());
    let g = OverlapGraph::assemble(&edges);
    assert!(g.all_edges().is_empty());
    assert!(g.all_nodes().is_empty());
}

#[test]
fn scenario_overlap_longer_than_every_read() {
    let rs = build_reads(&["AAA", "TTT"]);
    let (index, _) = KmerIndex::build(&rs, 3);
    let (edges, short) = detect(&rs, &index, 7);
    assert!(edges.is_empty());
    assert_eq!(short.len(), 2);
    assert_eq!(short[0].read, 0);
    assert_eq!(short[0].length, 3);
    assert_eq!(short[0].required, 7);
    assert_eq!(short[1].read, 1);
    assert_eq!(short[1].length, 3);
    assert_eq!(short[1].required, 7);
}

#[test]
fn detector_is_exhaustive_not_adjacent_only() {
    // the overlapping pair is not adjacent in input order
    let rs = build_reads(&["AAATTT", "CCCCCC", "TTTGGG"]);
    let (index, _) = KmerIndex::build(&rs, 3);
    let (edges, _) = detect(&rs, &index, 3);
    assert_eq!(edges.len(), 1);
    assert_eq!(edges[0].source, 0);
    assert_eq!(edges[0].target, 2);
    assert_eq!(edges[0].overlap, b"TTT".to_vec());
}

#[test]
fn detector_brute_path_when_l_differs_from_k() {
    let rs = build_reads(&["AAATTT", "TTTGGG"]);
    let (index, _) = KmerIndex::build(&rs, 2);
    let (edges, _) = detect(&rs, &index, 3);
    assert_eq!(edges.len(), 1);
    assert_eq!(edges[0].source, 0);
    assert_eq!(edges[0].target, 1);
    assert_eq!(edges[0].overlap, b"TTT".to_vec());
}

#[test]
fn short_read_excluded_not_fatal() {
    let rs = build_reads(&["AAATTT", "TT"]);
    let (index, kmer_warnings) = KmerIndex::build(&rs, 3);
    assert_eq!(kmer_warnings.len(), 1);
    assert_eq!(kmer_warnings[0].read, 1);
    assert_eq!(kmer_warnings[0].length, 2);
    assert_eq!(kmer_warnings[0].required, 3);
    let (edges, short) = detect(&rs, &index, 3);
    assert!(edges.is_empty());
    assert_eq!(short.len(), 1);
    assert_eq!(short[0].read, 1);
}

#[test]
fn readset_rejects_alphabet_violations() {
    let recs = vec![
        (b"@a".to_vec(), b"AAATTT".to_vec()),
        (b"@b".to_vec(), b"AXGT".to_vec()),
        (b"@c".to_vec(), b"".to_vec()),
        (b"@d".to_vec(), b"TTTGGG".to_vec()),
    ];
    let (rs, skipped) = ReadSet::build(&recs);
    assert_eq!(skipped, 2);
    assert_eq!(rs.len(), 2);
    assert_eq!(rs.sequence_of(0), &b"AAATTT".to_vec());
    assert_eq!(rs.header_of(0), &b"@a".to_vec());
    assert_eq!(rs.sequence_of(1), &b"TTTGGG".to_vec());
    assert_eq!(rs.header_of(1), &b"@d".to_vec());
}

#[test]
fn assemble_deduplicates_repeated_edges() {
    let input = vec![
        edge(0, 1, "TTT", "AAA", "GGG"),
        edge(0, 1, "TTT", "AAA", "GGG"),
        edge(1, 0, "AAA", "GG", "CC"),
    ];
    let g = OverlapGraph::assemble(&input);
    let all = g.all_edges();
    assert_eq!(all.len(), 2);
    // "AAA" sorts before "TTT"
    assert_eq!(all[0].overlap, b"AAA".to_vec());
    assert_eq!(all[0].source, 1);
    assert_eq!(all[1].overlap, b"TTT".to_vec());
    assert_eq!(all[1].source, 0);
}

#[test]
fn assemble_is_idempotent_on_concrete_edges() {
    let input = vec![
        edge(2, 0, "ACG", "T", "T"),
        edge(0, 1, "TTT", "AAA", "GGG"),
        edge(2, 0, "ACG", "T", "T"),
    ];
    let g1 = OverlapGraph::assemble(&input);
    let g2 = OverlapGraph::assemble(g1.all_edges());
    assert_eq!(g1.all_edges().len(), g2.all_edges().len());
    for (a, b) in g1.all_edges().iter().zip(g2.all_edges().iter()) {
        assert_eq!(a.source, b.source);
        assert_eq!(a.target, b.target);
        assert_eq!(a.overlap, b.overlap);
        assert_eq!(a.source_prefix_remainder, b.source_prefix_remainder);
        assert_eq!(a.target_suffix_remainder, b.target_suffix_remainder);
    }
}

#[test]
fn multiple_edges_may_share_one_overlap_string() {
    // repeats: two distinct pairs share the overlap string "TTT"
    let rs = build_reads(&["AATTT", "TTTGG", "CCTTT", "TTTCC"]);
    let (index, _) = KmerIndex::build(&rs, 3);
    let (edges, _) = detect(&rs, &index, 3);
    let g = OverlapGraph::assemble(&edges);
    let with_ttt = g
        .all_edges()
        .iter()
        .filter(|e| e.overlap == b"TTT".to_vec())
        .count();
    assert_eq!(with_ttt, 4);
}

#[test]
fn edges_from_and_all_nodes() {
    let rs = build_reads(&["AAAAA", "AAAAA", "CCCCC"]);
    let (index, _) = KmerIndex::build(&rs, 3);
    let (edges, _) = detect(&rs, &index, 3);
    let g = OverlapGraph::assemble(&edges);
    let from0 = g.edges_from(0);
    assert_eq!(from0.len(), 1);
    assert_eq!(from0[0].source, 0);
    assert_eq!(from0[0].target, 1);
    assert!(g.edges_from(2).is_empty());
    // the isolated read 2 is omitted from the node set
    assert_eq!(g.all_nodes(), vec![0, 1]);
}

#[test]
fn validate_params_accepts_and_rejects() {
    let rs = build_reads(&["AAATTT", "TTTGGG"]);
    assert_eq!(validate_params(&rs, 3, 3), Ok(()));
    assert_eq!(validate_params(&rs, 6, 2), Ok(()));
    assert_eq!(validate_params(&rs, 0, 3), Err(OverlapError::Parameter));
    assert_eq!(validate_params(&rs, 3, 0), Err(OverlapError::Parameter));
    assert_eq!(validate_params(&rs, 7, 3), Err(OverlapError::Parameter));
    assert_eq!(validate_params(&rs, 3, 7), Err(OverlapError::Parameter));
    let (empty, _) = ReadSet::build(&Vec::new());
    assert_eq!(validate_params(&empty, 1, 1), Err(OverlapError::Parameter));
}
