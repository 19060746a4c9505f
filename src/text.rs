//! The reference text and the order of its suffixes.
use vstd::prelude::*;

verus! {

/// A reference text: non-empty, and its last byte (the sentinel) is strictly
/// smaller than every other byte of the text, so it occurs exactly once.
pub open spec fn is_reference_text(t: Seq<u8>) -> bool {
    &&& t.len() > 0
    &&& forall|i: int| 0 <= i < t.len() - 1 ==> #[trigger] t[i] > t[t.len() - 1]
}

/// Strict lexicographic order on byte strings; a proper prefix comes first.
pub open spec fn lex_lt(a: Seq<u8>, b: Seq<u8>) -> bool
    decreases a.len(),
{
    if a.len() == 0 {
        b.len() > 0
    } else if b.len() == 0 {
        false
    } else if a[0] != b[0] {
        a[0] < b[0]
    } else {
        lex_lt(a.drop_first(), b.drop_first())
    }
}

/// The suffix of `t` that starts at position `i`.
pub open spec fn suffix(t: Seq<u8>, i: int) -> Seq<u8> {
    t.subrange(i, t.len() as int)
}

/// `sa` lists every position of `t` once, in increasing order of the suffixes
/// that start there.
pub open spec fn is_suffix_array(t: Seq<u8>, sa: Seq<usize>) -> bool {
    &&& sa.len() == t.len()
    &&& forall|i: int| 0 <= i < sa.len() ==> #[trigger] sa[i] < t.len()
    &&& forall|i: int, j: int| 0 <= i < j < sa.len() ==> #[trigger] sa[i] != #[trigger] sa[j]
    &&& forall|i: int|
        0 <= i < sa.len() - 1 ==> lex_lt(
            suffix(t, #[trigger] sa[i] as int),
            suffix(t, sa[i + 1] as int),
        )
}

/// Tells whether `t` is a reference text.
pub fn check_reference_text(t: &[u8]) -> (r: bool)
    ensures
        r == is_reference_text(t@),
{
    let n = t.len();
    if n == 0 {
        return false;
    }
    let s = t[n - 1];
    let mut i: usize = 0;
    while i < n - 1
        invariant
            n == t@.len(),
            n > 0,
            s == t@[n - 1],
            i <= n - 1,
            forall|k: int| 0 <= k < i ==> #[trigger] t@[k] > s,
        decreases n - 1 - i,
    {
        if t[i] <= s {
            return false;
        }
        i += 1;
    }
    true
}

/// The terminal sentinel, `$`.
pub const SENTINEL: u8 = 36;

/// The filler put between consecutive records, `N`.
pub const SPACER: u8 = 78;

/// Every byte of every record sorts after the sentinel.
pub open spec fn records_valid(recs: Seq<Seq<u8>>) -> bool {
    forall|i: int, j: int|
        0 <= i < recs.len() && 0 <= j < recs[i].len() ==> #[trigger] recs[i][j] > SENTINEL
}

/// The records in order, `spacer_len` fillers between each two.
pub open spec fn joined(recs: Seq<Seq<u8>>, spacer_len: nat) -> Seq<u8>
    decreases recs.len(),
{
    if recs.len() == 0 {
        Seq::empty()
    } else if recs.len() == 1 {
        recs[0]
    } else {
        joined(recs.drop_last(), spacer_len) + Seq::new(spacer_len, |k: int| SPACER)
            + recs.last()
    }
}

/// A record holds a byte that does not sort after the sentinel.
#[derive(Clone, Copy, Debug, PartialEq, Eq, Structural)]
pub struct InvalidSymbol {
    pub record: usize,
    pub position: usize,
}

proof fn lemma_joined_valid(recs: Seq<Seq<u8>>, spacer_len: nat)
    requires
        records_valid(recs),
    ensures
        forall|k: int| 0 <= k < joined(recs, spacer_len).len() ==> #[trigger] joined(recs, spacer_len)[k] > SENTINEL,
    decreases recs.len(),
{
    if recs.len() > 1 {
        let pre = recs.drop_last();
        assert(records_valid(pre)) by {
            assert forall|i: int, j: int| 0 <= i < pre.len() && 0 <= j < pre[i].len() implies
                #[trigger] pre[i][j] > SENTINEL by {
                assert(recs[i][j] > SENTINEL);
            }
        }
        lemma_joined_valid(pre, spacer_len);
        let last = recs.last();
        assert forall|j: int| 0 <= j < last.len() implies #[trigger] last[j] > SENTINEL by {
            assert(recs[recs.len() - 1][j] > SENTINEL);
        }
        let jp = joined(pre, spacer_len);
        let sp = Seq::new(spacer_len, |k: int| SPACER);
        let whole = jp + sp + last;
        assert(joined(recs, spacer_len) == whole);
        assert forall|k: int| 0 <= k < whole.len() implies #[trigger] whole[k] > SENTINEL by {
            if k < jp.len() {
                assert(whole[k] == jp[k]);
            } else if k < jp.len() + sp.len() {
                assert(whole[k] == sp[k - jp.len()]);
            } else {
                assert(whole[k] == last[k - jp.len() - sp.len()]);
            }
        }
    } else if recs.len() == 1 {
        assert forall|j: int| 0 <= j < recs[0].len() implies #[trigger] recs[0][j] > SENTINEL by {
            assert(recs[0][j] > SENTINEL);
        }
    }
}

/// Concatenates reference records, `spacer_len` fillers between each two,
/// and ends the text with the sentinel. Fails on the first byte (by record,
/// then position) that does not sort after the sentinel.
pub fn encode_reference(records: &Vec<Vec<u8>>, spacer_len: usize) -> (r: Result<Vec<u8>, InvalidSymbol>)
    ensures
        r is Ok <==> records_valid(records@.map_values(|v: Vec<u8>| v@)),
        r matches Ok(t) ==> t@ == joined(records@.map_values(|v: Vec<u8>| v@), spacer_len as nat).push(
            SENTINEL,
        ) && is_reference_text(t@),
        r matches Err(e) ==> e.record < records@.len() && e.position < records@[e.record as int]@.len()
            && records@[e.record as int]@[e.position as int] <= SENTINEL,
{
    let ghost recs = records@.map_values(|v: Vec<u8>| v@);
    let mut out: Vec<u8> = Vec::new();
    let mut i: usize = 0;
    while i < records.len()
        invariant
            recs == records@.map_values(|v: Vec<u8>| v@),
            i <= records@.len(),
            out@ == joined(recs.take(i as int), spacer_len as nat),
            records_valid(recs.take(i as int)),
        decreases records@.len() - i,
    {
        let ghost before = out@;
        if i > 0 {
            let mut k: usize = 0;
            while k < spacer_len
                invariant
                    k <= spacer_len,
                    out@ =~= before + Seq::new(k as nat, |m: int| SPACER),
                decreases spacer_len - k,
            {
                out.push(SPACER);
                k += 1;
            }
        }
        let ghost mid = out@;
        let rec = &records[i];
        let mut j: usize = 0;
        while j < rec.len()
            invariant
                recs == records@.map_values(|v: Vec<u8>| v@),
                i < records@.len(),
                rec == records@[i as int],
                j <= rec@.len(),
                out@ =~= mid + rec@.take(j as int),
                forall|m: int| 0 <= m < j ==> #[trigger] rec@[m] > SENTINEL,
            decreases rec@.len() - j,
        {
            if rec[j] <= SENTINEL {
                proof {
                    assert(recs[i as int][j as int] <= SENTINEL);
                }
                return Err(InvalidSymbol { record: i, position: j });
            }
            out.push(rec[j]);
            j += 1;
        }
        proof {
            assert(rec@.take(rec@.len() as int) =~= rec@);
            let t = recs.take(i + 1);
            assert(t.drop_last() =~= recs.take(i as int));
            assert(t.last() == rec@);
            if i == 0 {
                assert(out@ =~= joined(t, spacer_len as nat));
            }
            assert(records_valid(t)) by {
                assert forall|a: int, b: int| 0 <= a < t.len() && 0 <= b < t[a].len() implies
                    #[trigger] t[a][b] > SENTINEL by {
                    if a < i {
                        assert(recs.take(i as int)[a][b] > SENTINEL);
                    } else {
                        assert(t[a] == rec@);
                    }
                }
            }
        }
        i += 1;
    }
    proof {
        assert(recs.take(records@.len() as int) =~= recs);
        lemma_joined_valid(recs, spacer_len as nat);
    }
    out.push(SENTINEL);
    Ok(out)
}

} // verus!
