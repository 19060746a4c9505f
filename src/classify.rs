//! Counting seed hits and classifying reads and read pairs.
use crate::fm_index::{is_hit, FmIndex, SearchOutcome};
use crate::seeds::{get_seeds_both_strands, reverse_complement_of, seeds_of, views};
use vstd::prelude::*;

verus! {

/// How many of `seeds` hit the index over `bwt` (repeats each count).
pub open spec fn hit_count(bwt: Seq<u8>, seeds: Seq<Seq<u8>>) -> nat
    decreases seeds.len(),
{
    if seeds.len() == 0 {
        0
    } else {
        hit_count(bwt, seeds.drop_last()) + if is_hit(bwt, seeds.last()) {
            1nat
        } else {
            0nat
        }
    }
}

/// The hit count of a read: over its seeds on both strands.
pub open spec fn read_hits(bwt: Seq<u8>, read: Seq<u8>, seed_size: int, seed_interval: int) -> nat {
    hit_count(
        bwt,
        seeds_of(read, seed_size, seed_interval) + seeds_of(
            reverse_complement_of(read),
            seed_size,
            seed_interval,
        ),
    )
}

/// A pair (or a single read, whose mate counts 0 hits) is a contaminant when
/// either mate reaches the cutoff.
pub open spec fn is_contaminant_spec(r1_hits: int, r2_hits: int, cutoff: int) -> bool {
    r1_hits >= cutoff || r2_hits >= cutoff
}

/// Counts the seeds whose backward search is complete.
pub fn count_hits(seeds: &Vec<Vec<u8>>, index: &FmIndex) -> (r: usize)
    requires
        index.wf(),
    ensures
        r == hit_count(index.bwt_view(), views(seeds@)),
{
    let mut count: usize = 0;
    let mut i: usize = 0;
    while i < seeds.len()
        invariant
            index.wf(),
            i <= seeds@.len(),
            count <= i,
            count == hit_count(index.bwt_view(), views(seeds@).take(i as int)),
        decreases seeds@.len() - i,
    {
        let outcome = index.backward_search(seeds[i].as_slice());
        proof {
            let v = views(seeds@);
            assert(v.take(i + 1).drop_last() =~= v.take(i as int));
            assert(v.take(i + 1).last() == seeds@[i as int]@);
        }
        if let SearchOutcome::Complete(_) = outcome {
            count += 1;
        }
        i += 1;
    }
    proof {
        assert(views(seeds@).take(seeds@.len() as int) =~= views(seeds@));
    }
    count
}

/// The hit count of a read: seeds of length `seed_size`, every
/// `seed_interval` positions, on the read and on its reverse complement.
pub fn seed_hits(seq: &[u8], seed_size: usize, seed_interval: usize, index: &FmIndex) -> (r: usize)
    requires
        index.wf(),
        seed_size >= 1,
        seed_interval >= 1,
    ensures
        r == read_hits(index.bwt_view(), seq@, seed_size as int, seed_interval as int),
{
    let seeds = get_seeds_both_strands(seq, seed_size, seed_interval);
    count_hits(&seeds, index)
}

/// Whether a pair with these hit counts is a contaminant.
pub fn is_contaminant(r1_hits: usize, r2_hits: usize, cutoff: usize) -> (r: bool)
    ensures
        r == is_contaminant_spec(r1_hits as int, r2_hits as int, cutoff as int),
{
    !(r1_hits < cutoff && r2_hits < cutoff)
}

/// Classifies a read, or a read pair when `read2` is given: a contaminant
/// when either mate's hit count reaches `cutoff`.
pub fn classify_reads(
    read1: &[u8],
    read2: Option<&[u8]>,
    seed_size: usize,
    seed_interval: usize,
    cutoff: usize,
    index: &FmIndex,
) -> (r: bool)
    requires
        index.wf(),
        seed_size >= 1,
        seed_interval >= 1,
    ensures
        r == is_contaminant_spec(
            read_hits(index.bwt_view(), read1@, seed_size as int, seed_interval as int) as int,
            match read2 {
                Some(m) => read_hits(
                    index.bwt_view(),
                    m@,
                    seed_size as int,
                    seed_interval as int,
                ) as int,
                None => 0,
            },
            cutoff as int,
        ),
{
    let h1 = seed_hits(read1, seed_size, seed_interval, index);
    let h2 = match read2 {
        Some(m) => seed_hits(m, seed_size, seed_interval, index),
        None => 0,
    };
    is_contaminant(h1, h2, cutoff)
}

/// How many of the given pairs of hit counts are contaminants.
pub open spec fn contaminant_count(hits: Seq<(int, int)>, cutoff: int) -> nat
    decreases hits.len(),
{
    if hits.len() == 0 {
        0
    } else {
        contaminant_count(hits.drop_last(), cutoff) + if is_contaminant_spec(
            hits.last().0,
            hits.last().1,
            cutoff,
        ) {
            1nat
        } else {
            0nat
        }
    }
}

/// Raising the cutoff never makes more reads contaminants.
pub proof fn lemma_cutoff_monotone(hits: Seq<(int, int)>, lower: int, higher: int)
    requires
        lower <= higher,
    ensures
        contaminant_count(hits, higher) <= contaminant_count(hits, lower),
    decreases hits.len(),
{
    if hits.len() > 0 {
        lemma_cutoff_monotone(hits.drop_last(), lower, higher);
    }
}

/// A pair is a contaminant as soon as one mate alone reaches the cutoff,
/// whatever the other mate's count.
pub proof fn lemma_either_mate_suffices(r1_hits: int, r2_hits: int, cutoff: int)
    requires
        r1_hits >= cutoff || r2_hits >= cutoff,
    ensures
        is_contaminant_spec(r1_hits, r2_hits, cutoff),
        is_contaminant_spec(r2_hits, r1_hits, cutoff),
{
}

} // verus!
