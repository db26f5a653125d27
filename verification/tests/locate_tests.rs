use overlap_graphs::detect::detect;
use overlap_graphs::graph::OverlapGraph;
use overlap_graphs::kmer::KmerIndex;
use overlap_graphs::locate::{contains_bytes, locate, locate_one, unindexed_kmers};
use overlap_graphs::reads::ReadSet;

fn build_reads(seqs: &[&str]) -> ReadSet {
    let recs: Vec<(Vec<u8>, Vec<u8>)> = seqs
        .iter()
        .enumerate()
        .map(|(i, s)| (format!("@read{}", i).into_bytes(), s.as_bytes().to_vec()))
        .collect();
    let (rs, skipped) = ReadSet::build(&recs);
    assert_eq!(skipped, 0);
    rs
}

#[test]
fn kmer_index_distinct_set_and_boundaries() {
    let rs = build_reads(&["ACGT"]);
    let (index, warnings) = KmerIndex::build(&rs, 2);
    assert!(warnings.is_empty());
    let kmers = index.kmer_list();
    assert_eq!(kmers.len(), 3);
    assert_eq!(kmers[0], b"AC".to_vec());
    assert_eq!(kmers[1], b"CG".to_vec());
    assert_eq!(kmers[2], b"GT".to_vec());
    assert!(index.contains_kmer(&b"CG".to_vec()));
    assert!(!index.contains_kmer(&b"AA".to_vec()));
    assert_eq!(index.prefix_reads(&b"AC".to_vec()), vec![0]);
    assert_eq!(index.prefix_reads(&b"GT".to_vec()), Vec::<usize>::new());
    assert_eq!(index.suffix_reads(&b"GT".to_vec()), vec![0]);
}

#[test]
fn kmer_index_buckets_group_reads() {
    let rs = build_reads(&["TTTAA", "TTTCC", "AATTT"]);
    let (index, _) = KmerIndex::build(&rs, 3);
    assert_eq!(index.prefix_reads(&b"TTT".to_vec()), vec![0, 1]);
    assert_eq!(index.suffix_reads(&b"TTT".to_vec()), vec![2]);
}

#[test]
fn homopolymer_occurrences_are_all_reported() {
    let rs = build_reads(&["AAAA"]);
    let occs = locate_one(&rs, &b"AA".to_vec());
    assert_eq!(occs.len(), 3);
    assert_eq!((occs[0].read, occs[0].start, occs[0].end), (0, 0, 2));
    assert!(occs[0].terminal);
    assert_eq!((occs[1].read, occs[1].start, occs[1].end), (0, 1, 3));
    assert!(!occs[1].terminal);
    assert_eq!((occs[2].read, occs[2].start, occs[2].end), (0, 2, 4));
    assert!(occs[2].terminal);
    for o in occs.iter() {
        assert_eq!(o.kmer_or_overlap, b"AA".to_vec());
    }
}

#[test]
fn internal_occurrence_marks_break_point() {
    // "TTT" appears inside read 2 away from both boundaries
    let rs = build_reads(&["AAATTT", "TTTGGG", "CCTTTCC"]);
    let occs = locate_one(&rs, &b"TTT".to_vec());
    assert_eq!(occs.len(), 3);
    assert_eq!((occs[0].read, occs[0].start), (0, 3));
    assert!(occs[0].terminal);
    assert_eq!((occs[1].read, occs[1].start), (1, 0));
    assert!(occs[1].terminal);
    assert_eq!((occs[2].read, occs[2].start, occs[2].end), (2, 2, 5));
    assert!(!occs[2].terminal);
}

#[test]
fn locate_maps_each_overlap_string() {
    let rs = build_reads(&["AAATTT", "TTTGGG"]);
    let strings = vec![b"TTT".to_vec(), b"GGG".to_vec()];
    let table = locate(&rs, &strings);
    assert_eq!(table.len(), 2);
    assert_eq!(table[0].0, b"TTT".to_vec());
    assert_eq!(table[0].1.len(), 2);
    assert_eq!(table[1].0, b"GGG".to_vec());
    assert_eq!(table[1].1.len(), 1);
    assert_eq!((table[1].1[0].read, table[1].1[0].start), (1, 3));
    assert!(table[1].1[0].terminal);
}

#[test]
fn unindexed_kmers_are_the_complement() {
    let rs = build_reads(&["AAATTT", "TTTGGG"]);
    let (index, _) = KmerIndex::build(&rs, 3);
    let (edges, _) = detect(&rs, &index, 3);
    let g = OverlapGraph::assemble(&edges);
    let mut overlaps: Vec<Vec<u8>> = Vec::new();
    for e in g.all_edges().iter() {
        if !contains_bytes(&overlaps, &e.overlap) {
            overlaps.push(e.overlap.clone());
        }
    }
    assert_eq!(overlaps, vec![b"TTT".to_vec()]);
    let rest = unindexed_kmers(&index, &overlaps);
    // every distinct k-mer except the one overlap string, in index order
    assert_eq!(
        rest,
        vec![
            b"AAA".to_vec(),
            b"AAT".to_vec(),
            b"ATT".to_vec(),
            b"TTG".to_vec(),
            b"TGG".to_vec(),
            b"GGG".to_vec(),
        ]
    );
}
