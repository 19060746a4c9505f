use rna_sieve::classify::{classify_reads, count_hits, is_contaminant, seed_hits};
use rna_sieve::fm_index::FmIndex;
use rna_sieve::seeds::{get_seeds_both_strands, seeds_from_strands};

fn small_index() -> FmIndex {
    FmIndex::build(b"ACGTACGT$", 4)
}

#[test]
fn seed_counts_follow_formula() {
    let read = b"ACGTTGCAAC";
    let seeds = get_seeds_both_strands(read, 4, 3);
    // (10 - 4) / 3 + 1 = 3 on each strand
    assert_eq!(seeds.len(), 6);
    assert_eq!(seeds[0], b"ACGT".to_vec());
    assert_eq!(seeds[1], b"TTGC".to_vec());
    assert_eq!(seeds[2], b"CAAC".to_vec());
    // reverse complement is GTTGCAACGT
    assert_eq!(seeds[3], b"GTTG".to_vec());
    assert_eq!(seeds[4], b"GCAA".to_vec());
    assert_eq!(seeds[5], b"ACGT".to_vec());
}

#[test]
fn short_read_has_no_seeds() {
    assert!(get_seeds_both_strands(b"ACG", 4, 1).is_empty());
    assert_eq!(get_seeds_both_strands(b"ACGT", 4, 7).len(), 2);
}

#[test]
fn reverse_strand_seeds_are_complemented() {
    let seeds = get_seeds_both_strands(b"AACG", 4, 1);
    assert_eq!(seeds, vec![b"AACG".to_vec(), b"CGTT".to_vec()]);
}

#[test]
fn seeds_from_given_strands() {
    let seeds = seeds_from_strands(b"ABCDE", b"VWXYZ", 2, 2);
    assert_eq!(
        seeds,
        vec![b"AB".to_vec(), b"CD".to_vec(), b"VW".to_vec(), b"XY".to_vec()]
    );
}

#[test]
fn scenario_contaminant_and_clean_reads() {
    let idx = small_index();
    assert!(seed_hits(b"ACGTACGTACGT", 4, 4, &idx) > 0);
    assert!(classify_reads(b"ACGTACGTACGT", None, 4, 4, 1, &idx));
    assert_eq!(seed_hits(b"TTTTTTTT", 4, 4, &idx), 0);
    assert!(!classify_reads(b"TTTTTTTT", None, 4, 4, 1, &idx));
}

#[test]
fn exact_hit_count() {
    let idx = small_index();
    // forward seeds ACGT, ACGT, ACGT; reverse complement ACGTACGTACGT gives the same three
    assert_eq!(seed_hits(b"ACGTACGTACGT", 4, 4, &idx), 6);
    let seeds = vec![b"ACGT".to_vec(), b"GA".to_vec(), b"TTT".to_vec(), b"CG".to_vec()];
    assert_eq!(count_hits(&seeds, &idx), 2);
}

#[test]
fn pair_with_second_mate_hitting_is_contaminant() {
    let idx = small_index();
    assert_eq!(seed_hits(b"TTTTTTTT", 4, 4, &idx), 0);
    assert!(classify_reads(b"TTTTTTTT", Some(&b"ACGTACGT"[..]), 4, 4, 1, &idx));
    assert!(!classify_reads(b"TTTTTTTT", Some(&b"GGGGGGGG"[..]), 4, 4, 1, &idx));
}

#[test]
fn contaminant_decision() {
    assert!(is_contaminant(0, 3, 3));
    assert!(is_contaminant(3, 0, 3));
    assert!(!is_contaminant(2, 2, 3));
    assert!(is_contaminant(0, 0, 0));
}

#[test]
fn raising_cutoff_never_adds_contaminants() {
    let hits = [(0usize, 0usize), (1, 0), (2, 5), (3, 1), (0, 4)];
    let mut last = usize::MAX;
    for cutoff in 0..7 {
        let n = hits.iter().filter(|&&(a, b)| is_contaminant(a, b, cutoff)).count();
        assert!(n <= last);
        last = n;
    }
}

#[test]
fn reverse_strand_uses_iupac_complements() {
    let seeds = get_seeds_both_strands(b"ACGTNRYKMBVDHSWacgtx", 20, 1);
    assert_eq!(seeds.len(), 2);
    assert_eq!(seeds[1], b"xacgtWSDHBVKMRYNACGT".to_vec());
    let back = get_seeds_both_strands(&seeds[1], 20, 1);
    assert_eq!(back[1], b"ACGTNRYKMBVDHSWacgtx".to_vec());
}
