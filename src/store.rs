//! The stored form of an index: its parts, encoded with bincode.
use crate::fm_index::{outcome_spec, tables_valid, FmIndex, IndexError, SearchOutcome};
use vstd::prelude::*;

verus! {

/// The views of a list of checkpoints.
pub open spec fn checkpoint_views(occ: Seq<Vec<usize>>) -> Seq<Seq<usize>> {
    occ.map_values(|v: Vec<usize>| v@)
}

/// The bincode encoding (default options) of an index's parts: transformed
/// text, cumulative table, checkpoints and checkpoint interval.
pub uninterp spec fn encoded_parts(
    bwt: Seq<u8>,
    less: Seq<usize>,
    occ: Seq<Seq<usize>>,
    rate: usize,
) -> Seq<u8>;

/// Relies on `bincode::serialize`: the bytes that encode the tuple of parts.
/// With the default options there is no size limit, and every part reports
/// its length, so encoding these types does not fail.
#[verifier::external_body]
fn encode_parts(parts: &(Vec<u8>, Vec<usize>, Vec<Vec<usize>>, usize)) -> (r: Option<Vec<u8>>)
    ensures
        r is Some,
        r matches Some(b) ==> b@ == encoded_parts(
            parts.0@,
            parts.1@,
            checkpoint_views(parts.2@),
            parts.3,
        ),
{
    bincode::serialize(parts).ok()
}

/// Relies on `bincode::deserialize` with the same default options: the exact
/// encoding of a tuple of parts decodes to that tuple.
#[verifier::external_body]
fn decode_parts(bytes: &[u8]) -> (r: Option<(Vec<u8>, Vec<usize>, Vec<Vec<usize>>, usize)>)
    ensures
        forall|bwt: Seq<u8>, less: Seq<usize>, occ: Seq<Seq<usize>>, rate: usize|
            #[trigger] encoded_parts(bwt, less, occ, rate) == bytes@ ==> (r is Some
                && r.unwrap().0@ == bwt && r.unwrap().1@ == less && checkpoint_views(r.unwrap().2@)
                == occ && r.unwrap().3 == rate),
{
    bincode::deserialize(bytes).ok()
}

/// Why stored bytes did not give an index.
#[derive(Clone, Copy, Debug, PartialEq, Eq, Structural)]
pub enum LoadError {
    /// The bytes do not decode to the parts of an index.
    Malformed,
    /// The parts decode but do not form a valid index.
    Invalid(IndexError),
}

impl FmIndex {
    /// Encodes the index for storage.
    pub fn store(&self) -> (r: Vec<u8>)
        requires
            self.wf(),
        ensures
            stores_as(self.bwt_view(), self.rate_view(), r@),
    {
        let parts = self.to_parts();
        let r = encode_parts(&parts).unwrap();
        proof {
            assert(tables_valid(self.bwt_view(), parts.1@, parts.2@, self.rate_view()));
            assert(encoded_parts(self.bwt_view(), parts.1@, checkpoint_views(parts.2@),
                self.rate_view() as usize) == r@);
        }
        r
    }

    /// Decodes a stored index. The bytes must be exactly the encoding of
    /// some parts (nothing missing, nothing after it), and the parts' tables
    /// must be exactly those of their transformed text and interval.
    pub fn load(bytes: &[u8]) -> (r: Result<FmIndex, LoadError>)
        ensures
            r matches Ok(idx) ==> idx.wf() && stores_as(idx.bwt_view(), idx.rate_view(), bytes@),
            loads_as(bytes@, r),
    {
        let d = decode_parts(bytes);
        let ghost dv = d;
        let r = match d {
            None => Err(LoadError::Malformed),
            Some(parts) => {
                let again = encode_parts(&parts).unwrap();
                if !same_bytes(&again, bytes) {
                    Err(LoadError::Malformed)
                } else {
                    let ghost pv = parts;
                    let (bwt, less, occ, rate) = parts;
                    let res = FmIndex::from_parts(bwt, less, occ, rate);
                    proof {
                        if res is Ok {
                            let idx = res.unwrap();
                            assert(tables_valid(pv.0@, pv.1@, pv.2@, pv.3 as int));
                            assert(bytes@ == encoded_parts(pv.0@, pv.1@, checkpoint_views(pv.2@), pv.3));
                            assert(idx.rate_view() as usize == pv.3);
                            assert(stores_as(idx.bwt_view(), idx.rate_view(), bytes@));
                        }
                    }
                    match res {
                        Ok(idx) => Ok(idx),
                        Err(e) => Err(LoadError::Invalid(e)),
                    }
                }
            },
        };
        proof {
            assert forall|bwt: Seq<u8>, less: Seq<usize>, occ: Seq<Vec<usize>>, rate: usize|
                #[trigger] encoded_parts(bwt, less, checkpoint_views(occ), rate) == bytes@ && bwt.len()
                    > 0 && tables_valid(bwt, less, occ, rate as int) implies (r matches Ok(idx)
                && idx.bwt_view() == bwt && idx.rate_view() == rate) by {
                let q = dv.unwrap();
                lemma_tables_valid_views(bwt, less, occ, q.2@, rate as int);
            }
        }
        r
    }
}

fn same_bytes(a: &Vec<u8>, b: &[u8]) -> (r: bool)
    ensures
        r == (a@ == b@),
{
    if a.len() != b.len() {
        return false;
    }
    let mut i: usize = 0;
    while i < a.len()
        invariant
            a@.len() == b@.len(),
            i <= a@.len(),
            forall|j: int| 0 <= j < i ==> #[trigger] a@[j] == b@[j],
        decreases a@.len() - i,
    {
        if a[i] != b[i] {
            return false;
        }
        i += 1;
    }
    assert(a@ =~= b@);
    true
}

/// Two lists of checkpoints with the same views.
proof fn lemma_checkpoint_views_equal(a: Seq<Vec<usize>>, b: Seq<Vec<usize>>)
    requires
        checkpoint_views(a) == checkpoint_views(b),
    ensures
        a.len() == b.len(),
        forall|k: int| 0 <= k < a.len() ==> (#[trigger] a[k])@ == b[k]@,
{
    assert(checkpoint_views(a).len() == a.len());
    assert(checkpoint_views(b).len() == b.len());
    assert forall|k: int| 0 <= k < a.len() implies (#[trigger] a[k])@ == b[k]@ by {
        assert(checkpoint_views(a)[k] == checkpoint_views(b)[k]);
    }
}

/// Validity of the tables looks at the checkpoints' views only.
proof fn lemma_tables_valid_views(bwt: Seq<u8>, less: Seq<usize>, a: Seq<Vec<usize>>, b: Seq<Vec<usize>>, rate: int)
    requires
        tables_valid(bwt, less, a, rate),
        checkpoint_views(a) == checkpoint_views(b),
    ensures
        tables_valid(bwt, less, b, rate),
{
    lemma_checkpoint_views_equal(a, b);
    assert forall|k: int, x: int| 0 <= k < b.len() && 0 <= x < 256 implies #[trigger] b[k]@[x]
        == crate::counts::count(bwt.take(k * rate), x as u8) by {
        assert(a[k]@[x] == crate::counts::count(bwt.take(k * rate), x as u8));
    }
    assert forall|k: int| 0 <= k < b.len() implies (#[trigger] b[k])@.len() == 256 by {
        assert(a[k]@.len() == 256);
    }
}

/// `bytes` encode valid parts of an index over `bwt` with interval `rate`.
pub open spec fn stores_as(bwt: Seq<u8>, rate: int, bytes: Seq<u8>) -> bool {
    exists|less: Seq<usize>, occ: Seq<Vec<usize>>|
        tables_valid(bwt, less, occ, rate) && bytes == #[trigger] encoded_parts(
            bwt,
            less,
            checkpoint_views(occ),
            rate as usize,
        )
}

/// Loading `bytes` gave `r`: whenever the bytes encode valid parts over a
/// non-empty text, `r` is an index over that text and interval.
pub open spec fn loads_as(bytes: Seq<u8>, r: Result<FmIndex, LoadError>) -> bool {
    forall|bwt: Seq<u8>, less: Seq<usize>, occ: Seq<Vec<usize>>, rate: usize|
        #[trigger] encoded_parts(bwt, less, checkpoint_views(occ), rate) == bytes && bwt.len() > 0
            && tables_valid(bwt, less, occ, rate as int) ==> (r matches Ok(idx) && idx.bwt_view()
            == bwt && idx.rate_view() == rate)
}

/// Storing an index and loading the bytes back gives an index over the same
/// text and interval, which answers every query as the stored one.
pub proof fn lemma_store_load_round_trip(
    source: FmIndex,
    bytes: Seq<u8>,
    loaded: Result<FmIndex, LoadError>,
    p: Seq<u8>,
    r1: SearchOutcome,
    r2: SearchOutcome,
)
    requires
        source.wf(),
        stores_as(source.bwt_view(), source.rate_view(), bytes),
        loads_as(bytes, loaded),
        loaded is Ok ==> loaded.unwrap().wf(),
        outcome_spec(source.bwt_view(), p, r1),
        loaded is Ok ==> outcome_spec(loaded.unwrap().bwt_view(), p, r2),
    ensures
        loaded matches Ok(idx) && idx.bwt_view() == source.bwt_view() && idx.rate_view()
            == source.rate_view(),
        r1 == r2,
{
    source.lemma_wf_facts();
    let (less, occ) = choose|less: Seq<usize>, occ: Seq<Vec<usize>>|
        tables_valid(source.bwt_view(), less, occ, source.rate_view()) && bytes
            == #[trigger] encoded_parts(
            source.bwt_view(),
            less,
            checkpoint_views(occ),
            source.rate_view() as usize,
        );
    assert(encoded_parts(source.bwt_view(), less, checkpoint_views(occ), source.rate_view() as usize)
        == bytes);
    let rate = source.rate_view() as usize;
    assert(rate as int == source.rate_view());
    assert(tables_valid(source.bwt_view(), less, occ, rate as int));
    assert(loaded matches Ok(idx) && idx.bwt_view() == source.bwt_view() && idx.rate_view() == rate);
    crate::fm_index::lemma_outcome_determined(source.bwt_view(), p, r1, r2);
}

} // verus!
