use rna_sieve::fm_index::{bwt_transform, FmIndex, IndexError, Interval, SearchOutcome};
use rna_sieve::store::LoadError;
use rna_sieve::suffix_array::build_suffix_array;
use rna_sieve::text::{check_reference_text, encode_reference, InvalidSymbol};

const REF: &[u8] = b"ACGTACGT$";

fn small_index() -> FmIndex {
    FmIndex::build(REF, 4)
}

#[test]
fn suffix_array_of_small_reference() {
    let sa = build_suffix_array(REF);
    assert_eq!(sa, vec![8, 4, 0, 5, 1, 6, 2, 7, 3]);
}

#[test]
fn suffix_array_is_sorted_permutation() {
    let text: &[u8] = b"GCCTTAACATTATTACGCCTA$";
    let sa = build_suffix_array(text);
    let mut seen = sa.clone();
    seen.sort();
    assert_eq!(seen, (0..text.len()).collect::<Vec<usize>>());
    for w in sa.windows(2) {
        assert!(text[w[0]..] < text[w[1]..]);
    }
}

#[test]
fn bwt_of_small_reference() {
    let sa = build_suffix_array(REF);
    let bwt = bwt_transform(REF, &sa);
    assert_eq!(bwt, b"TT$AACCGG".to_vec());
}

#[test]
fn reference_text_check() {
    assert!(check_reference_text(REF));
    assert!(!check_reference_text(b""));
    assert!(!check_reference_text(b"ACGT"));
    assert!(!check_reference_text(b"AC$GT$"));
    assert!(check_reference_text(b"$"));
}

#[test]
fn rank_counts_prefixes() {
    let idx = small_index();
    // BWT is TT$AACCGG
    assert_eq!(idx.rank(b'T', 0), 0);
    assert_eq!(idx.rank(b'T', 2), 2);
    assert_eq!(idx.rank(b'A', 5), 2);
    assert_eq!(idx.rank(b'G', 9), 2);
    assert_eq!(idx.rank(b'C', 6), 1);
    assert_eq!(idx.rank(b'$', 9), 1);
}

#[test]
fn search_finds_two_occurrences() {
    let idx = small_index();
    match idx.backward_search(b"ACGT") {
        SearchOutcome::Complete(iv) => {
            assert_eq!(iv, Interval { lower: 1, upper: 3 });
            assert_eq!(iv.upper - iv.lower, 2);
        }
        other => panic!("unexpected {:?}", other),
    }
}

#[test]
fn search_every_substring_is_complete() {
    for rate in [1usize, 2, 3, 4, 64] {
        let idx = FmIndex::build(REF, rate);
        let body = &REF[..REF.len() - 1];
        for i in 0..body.len() {
            for j in i + 1..=body.len() {
                let s = &body[i..j];
                let occurrences = (0..=body.len() - s.len())
                    .filter(|&k| &body[k..k + s.len()] == s)
                    .count();
                match idx.backward_search(s) {
                    SearchOutcome::Complete(iv) => assert_eq!(iv.upper - iv.lower, occurrences),
                    other => panic!("{:?} for {:?}", other, s),
                }
            }
        }
    }
}

#[test]
fn search_absent_and_partial() {
    let idx = small_index();
    assert_eq!(idx.backward_search(b"N"), SearchOutcome::Absent);
    assert_eq!(idx.backward_search(b"GTN"), SearchOutcome::Absent);
    assert_eq!(idx.backward_search(b""), SearchOutcome::Absent);
    // "GA" does not occur; "A" alone matches twice
    match idx.backward_search(b"GA") {
        SearchOutcome::Partial(iv, matched) => {
            assert_eq!(matched, 1);
            assert_eq!(iv.upper - iv.lower, 2);
        }
        other => panic!("unexpected {:?}", other),
    }
    match idx.backward_search(b"TTACG") {
        SearchOutcome::Partial(_, matched) => assert_eq!(matched, 4),
        other => panic!("unexpected {:?}", other),
    }
}

fn invert_bwt(idx: &FmIndex) -> Vec<u8> {
    let (bwt, less, _, _) = idx.to_parts();
    let n = bwt.len();
    let mut out = vec![0u8; n];
    // row 0 is the sentinel's suffix; walk backwards with LF
    let mut row = 0usize;
    out[n - 1] = bwt[0..].iter().copied().min().unwrap();
    for k in (0..n - 1).rev() {
        let c = bwt[row];
        out[k] = c;
        row = less[c as usize] + idx.rank(c, row);
    }
    out
}

#[test]
fn bwt_round_trip_by_lf() {
    let texts: [&[u8]; 3] = [REF, b"GCCTTAACATTATTACGCCTA$", b"NNACGTNNTTGCA$"];
    for t in texts {
        let idx = FmIndex::build(t, 3);
        assert_eq!(invert_bwt(&idx), t.to_vec());
    }
}

#[test]
fn persistence_round_trip() {
    let idx = small_index();
    let (bwt, less, occ, rate) = idx.to_parts();
    assert_eq!(rate, 4);
    let restored = FmIndex::from_parts(bwt, less, occ, rate).unwrap();
    for probe in [&b"ACGT"[..], b"GT", b"TA", b"GA", b"N", b"", b"CGTACG"] {
        assert_eq!(idx.backward_search(probe), restored.backward_search(probe));
    }
}

#[test]
fn persistence_rejects_bad_parts() {
    let idx = small_index();
    let (bwt, less, occ, rate) = idx.to_parts();
    assert_eq!(
        FmIndex::from_parts(Vec::new(), less.clone(), occ.clone(), rate).err(),
        Some(IndexError::EmptyText)
    );
    assert_eq!(
        FmIndex::from_parts(bwt.clone(), less.clone(), occ.clone(), 0).err(),
        Some(IndexError::BadSampleRate)
    );
    let mut bad_less = less.clone();
    bad_less[b'C' as usize] += 1;
    assert_eq!(
        FmIndex::from_parts(bwt.clone(), bad_less, occ.clone(), rate).err(),
        Some(IndexError::CorruptTables)
    );
    let mut bad_occ = occ.clone();
    bad_occ.pop();
    assert_eq!(
        FmIndex::from_parts(bwt.clone(), less.clone(), bad_occ, rate).err(),
        Some(IndexError::CorruptTables)
    );
    assert_eq!(
        FmIndex::from_parts(bwt.clone(), less.clone(), occ.clone(), 2).err(),
        Some(IndexError::CorruptTables)
    );
}

#[test]
fn encode_reference_joins_with_spacers() {
    let recs = vec![b"ACGT".to_vec(), b"GG".to_vec(), b"T".to_vec()];
    assert_eq!(encode_reference(&recs, 2).unwrap(), b"ACGTNNGGNNT$".to_vec());
    assert_eq!(encode_reference(&recs, 0).unwrap(), b"ACGTGGT$".to_vec());
    assert_eq!(encode_reference(&Vec::new(), 5).unwrap(), b"$".to_vec());
    let bad = vec![b"ACGT".to_vec(), b"A#C".to_vec()];
    assert_eq!(encode_reference(&bad, 1), Err(InvalidSymbol { record: 1, position: 1 }));
    let text = encode_reference(&vec![b"ACGTACGT".to_vec()], 0).unwrap();
    assert!(check_reference_text(&text));
    let idx = FmIndex::build(&text, 4);
    assert_eq!(idx.backward_search(b"ACGT"), SearchOutcome::Complete(Interval { lower: 1, upper: 3 }));
}

#[test]
fn sentinel_only_text() {
    assert_eq!(build_suffix_array(b"$"), vec![0]);
    let idx = FmIndex::build(b"$", 1);
    assert_eq!(idx.backward_search(b"A"), SearchOutcome::Absent);
    assert_eq!(idx.backward_search(b"$"), SearchOutcome::Complete(Interval { lower: 0, upper: 1 }));
}

#[test]
fn longer_reference_matches_naive_count() {
    let mut body = Vec::new();
    let mut x: u32 = 7;
    for _ in 0..300 {
        x = x.wrapping_mul(1103515245).wrapping_add(12345);
        body.push(b"ACGTN"[((x >> 16) % 5) as usize]);
    }
    let mut text = body.clone();
    text.push(b'$');
    let idx = FmIndex::build(&text, 7);
    for i in (0..body.len() - 6).step_by(13) {
        for len in 1..7 {
            let s = &body[i..i + len];
            let occurrences = (0..=body.len() - len).filter(|&k| &body[k..k + len] == s).count();
            match idx.backward_search(s) {
                SearchOutcome::Complete(iv) => assert_eq!(iv.upper - iv.lower, occurrences),
                other => panic!("{:?}", other),
            }
        }
    }
}

#[test]
fn store_and_load_round_trip() {
    let idx = FmIndex::build(b"GCCTTAACATTATTACGCCTA$", 3);
    let bytes = idx.store();
    let loaded = FmIndex::load(&bytes).unwrap();
    assert_eq!(loaded.to_parts(), idx.to_parts());
    for probe in [&b"CCT"[..], b"TTA", b"GA", b"A", b"", b"TACGCC", b"GGG"] {
        assert_eq!(idx.backward_search(probe), loaded.backward_search(probe));
    }
}

#[test]
fn load_rejects_bad_bytes() {
    assert_eq!(FmIndex::load(&[1, 2, 3]).err(), Some(LoadError::Malformed));
    let idx = FmIndex::build(REF, 4);
    let bytes = idx.store();
    assert_eq!(FmIndex::load(&bytes[..bytes.len() - 1]).err(), Some(LoadError::Malformed));
    assert_eq!(FmIndex::load(&[]).err(), Some(LoadError::Malformed));
    let mut longer = bytes.clone();
    longer.push(0);
    assert_eq!(FmIndex::load(&longer).err(), Some(LoadError::Malformed));
    assert!(FmIndex::load(&bytes).is_ok());
    let (bwt, mut less, occ, rate) = idx.to_parts();
    less[b'G' as usize] += 1;
    let corrupt = bincode::serialize(&(bwt, less, occ, rate)).unwrap();
    assert_eq!(
        FmIndex::load(&corrupt).err(),
        Some(LoadError::Invalid(IndexError::CorruptTables))
    );
}
