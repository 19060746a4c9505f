//! The full-text index: Burrows-Wheeler transform, cumulative symbol table,
//! checkpointed rank structure, and backward search.
use crate::counts::{
    count, count_lt, lemma_count_full, lemma_count_lt_bound, lemma_count_lt_next,
    lemma_count_lt_zero, lemma_count_prefix_mono, lemma_count_step, lemma_lf_bound,
};
use crate::suffix_array::build_suffix_array;
use crate::text::{is_reference_text, is_suffix_array};
use vstd::prelude::*;

verus! {

/// Number of distinct byte symbols.
pub const ALPHABET: usize = 256;

/// The transform of `t` under suffix array `sa`: for each rank, the symbol
/// that cyclically precedes the suffix of that rank.
pub open spec fn bwt_of(t: Seq<u8>, sa: Seq<usize>) -> Seq<u8> {
    Seq::new(
        sa.len(),
        |i: int|
            if sa[i] > 0 {
                t[sa[i] - 1]
            } else {
                t[t.len() - 1]
            },
    )
}

/// The cumulative table, the checkpoints and the sample rate agree with `bwt`:
/// `less[a]` counts the symbols below `a`, and checkpoint `k` holds the count
/// of every symbol in the first `k * rate` positions, for every multiple of
/// `rate` up to the length.
pub open spec fn tables_valid(bwt: Seq<u8>, less: Seq<usize>, occ: Seq<Vec<usize>>, rate: int) -> bool {
    &&& rate >= 1
    &&& less.len() == ALPHABET
    &&& forall|a: int| 0 <= a < ALPHABET ==> #[trigger] less[a] == count_lt(bwt, a)
    &&& occ.len() >= 1
    &&& bwt.len() < occ.len() * rate
    &&& (occ.len() - 1) * rate <= bwt.len()
    &&& forall|k: int| 0 <= k < occ.len() ==> (#[trigger] occ[k])@.len() == ALPHABET
    &&& forall|k: int, a: int|
        0 <= k < occ.len() && 0 <= a < ALPHABET ==> #[trigger] occ[k]@[a] == count(
            bwt.take(k * rate),
            a as u8,
        )
}

/// One step of backward search: the number of symbols below `c`, plus the
/// number of `c` among the first `i` symbols.
pub open spec fn lf(bwt: Seq<u8>, c: u8, i: int) -> int {
    (count_lt(bwt, c as int) + count(bwt.take(i), c)) as int
}

/// The half-open interval `(lower, upper)` that backward search reaches for
/// pattern `p`, processing it from its last symbol to its first.
pub open spec fn search_interval(bwt: Seq<u8>, p: Seq<u8>) -> (int, int)
    decreases p.len(),
{
    if p.len() == 0 {
        (0, bwt.len() as int)
    } else {
        let iv = search_interval(bwt, p.drop_first());
        (lf(bwt, p[0], iv.0), lf(bwt, p[0], iv.1))
    }
}

/// The interval holds at least one rank.
pub open spec fn is_nonempty(iv: (int, int)) -> bool {
    iv.0 < iv.1
}

/// The trailing `k` symbols of `p`.
pub open spec fn tail(p: Seq<u8>, k: int) -> Seq<u8> {
    p.subrange(p.len() - k, p.len() as int)
}

/// A half-open range of suffix-array ranks.
#[derive(Clone, Copy, Debug, PartialEq, Eq, Structural)]
pub struct Interval {
    pub lower: usize,
    pub upper: usize,
}

/// What backward search found.
#[derive(Clone, Copy, Debug, PartialEq, Eq, Structural)]
pub enum SearchOutcome {
    /// The whole pattern occurs; the interval is not empty.
    Complete(Interval),
    /// Only the trailing `matched` symbols occur; the interval is theirs.
    Partial(Interval, usize),
    /// Not even the last symbol occurs, or the pattern is empty.
    Absent,
}

/// `iv` has the bounds of `s`.
pub open spec fn same_interval(iv: Interval, s: (int, int)) -> bool {
    iv.lower as int == s.0 && iv.upper as int == s.1
}

/// The outcome that backward search owes for pattern `p` over `bwt`.
pub open spec fn outcome_spec(bwt: Seq<u8>, p: Seq<u8>, r: SearchOutcome) -> bool {
    match r {
        SearchOutcome::Complete(iv) => p.len() > 0 && is_nonempty(search_interval(bwt, p))
            && same_interval(iv, search_interval(bwt, p)),
        SearchOutcome::Partial(iv, k) => 0 < k < p.len() && is_nonempty(
            search_interval(bwt, tail(p, k as int)),
        ) && same_interval(iv, search_interval(bwt, tail(p, k as int))) && !is_nonempty(
            search_interval(bwt, tail(p, k + 1)),
        ),
        SearchOutcome::Absent => p.len() == 0 || !is_nonempty(search_interval(bwt, tail(p, 1))),
    }
}

/// A seed hits the index when backward search matches all of it.
pub open spec fn is_hit(bwt: Seq<u8>, seed: Seq<u8>) -> bool {
    seed.len() > 0 && is_nonempty(search_interval(bwt, seed))
}

/// Both ends of every search interval stay within `0..=n`.
pub proof fn lemma_search_interval_bounds(bwt: Seq<u8>, p: Seq<u8>)
    ensures
        0 <= search_interval(bwt, p).0 <= bwt.len(),
        0 <= search_interval(bwt, p).1 <= bwt.len(),
    decreases p.len(),
{
    if p.len() > 0 {
        lemma_search_interval_bounds(bwt, p.drop_first());
        let iv = search_interval(bwt, p.drop_first());
        lemma_lf_bound(bwt, iv.0, p[0]);
        lemma_lf_bound(bwt, iv.1, p[0]);
    }
}

/// Once a suffix of the pattern has an empty interval, every longer suffix
/// has one too.
pub proof fn lemma_empty_extends(bwt: Seq<u8>, p: Seq<u8>, k: int)
    requires
        0 <= k <= p.len(),
        !is_nonempty(search_interval(bwt, p.subrange(k, p.len() as int))),
    ensures
        !is_nonempty(search_interval(bwt, p)),
    decreases k,
{
    if k > 0 {
        let s = p.subrange(k - 1, p.len() as int);
        assert(s.drop_first() =~= p.subrange(k, p.len() as int));
        let iv = search_interval(bwt, s.drop_first());
        lemma_search_interval_bounds(bwt, s.drop_first());
        lemma_count_prefix_mono(bwt, iv.1, iv.0, s[0]);
        lemma_empty_extends(bwt, p, k - 1);
    } else {
        assert(p.subrange(0, p.len() as int) =~= p);
    }
}

/// The index over one transformed text. Built once, then only read.
pub struct FmIndex {
    bwt: Vec<u8>,
    less: Vec<usize>,
    occ: Vec<Vec<usize>>,
    sample_rate: usize,
}

impl FmIndex {
    /// The transformed text that the index answers for.
    pub closed spec fn bwt_view(&self) -> Seq<u8> {
        self.bwt@
    }

    /// The checkpoint interval chosen at build time.
    pub closed spec fn rate_view(&self) -> int {
        self.sample_rate as int
    }

    /// The tables agree with the transformed text, which is not empty.
    pub closed spec fn wf(&self) -> bool {
        &&& self.bwt@.len() > 0
        &&& tables_valid(self.bwt@, self.less@, self.occ@, self.sample_rate as int)
    }

    /// A well-formed index has a non-empty text and an interval of at least one.
    pub proof fn lemma_wf_facts(&self)
        requires
            self.wf(),
        ensures
            self.bwt_view().len() > 0,
            1 <= self.rate_view() <= usize::MAX,
    {
    }

    /// Builds the cumulative table and the checkpoints over `bwt`.
    pub fn from_bwt(bwt: Vec<u8>, sample_rate: usize) -> (r: FmIndex)
        requires
            bwt@.len() > 0,
            sample_rate >= 1,
        ensures
            r.wf(),
            r.bwt_view() == bwt@,
            r.rate_view() == sample_rate,
    {
        let (less, occ) = build_tables(&bwt, sample_rate);
        FmIndex { bwt, less, occ, sample_rate }
    }

    /// Count of `c` in the first `i` symbols of the transformed text: from
    /// the nearest checkpoint at or before `i`, then a scan of the rest.
    pub fn rank(&self, c: u8, i: usize) -> (r: usize)
        requires
            self.wf(),
            i <= self.bwt_view().len(),
        ensures
            r == count(self.bwt_view().take(i as int), c),
    {
        let rate = self.sample_rate;
        let k = i / rate;
        proof {
            let n = self.bwt@.len() as int;
            let l = self.occ@.len() as int;
            vstd::arithmetic::div_mod::lemma_fundamental_div_mod(i as int, rate as int);
            assert(k * rate <= i) by (nonlinear_arith)
                requires
                    i == rate * k + i % rate,
                    0 <= i % rate,
            ;
            assert(k < l) by (nonlinear_arith)
                requires
                    k * rate <= i,
                    i <= n,
                    n < l * rate,
                    rate >= 1,
            ;
        }
        let mut j: usize = k * rate;
        let mut cnt: usize = self.occ[k][c as usize];
        while j < i
            invariant
                self.wf(),
                i <= self.bwt@.len(),
                j <= i,
                cnt == count(self.bwt@.take(j as int), c),
            decreases i - j,
        {
            proof {
                lemma_count_step(self.bwt@, j as int, c);
                lemma_count_lt_bound(self.bwt@.take(j as int), c);
            }
            if self.bwt[j] == c {
                cnt += 1;
            }
            j += 1;
        }
        cnt
    }

    fn lf_step(&self, c: u8, i: usize) -> (r: usize)
        requires
            self.wf(),
            i <= self.bwt_view().len(),
        ensures
            r == lf(self.bwt_view(), c, i as int),
    {
        proof {
            lemma_lf_bound(self.bwt@, i as int, c);
            assert(self.less@[c as int] == count_lt(self.bwt@, c as int));
        }
        let n = self.bwt.len();
        let x = self.rank(c, i);
        assert(self.less@[c as int] + x <= self.bwt@.len());
        self.less[c as usize] + x
    }

    /// Backward search of `pattern`, from its last symbol to its first,
    /// stopping as soon as the interval becomes empty.
    pub fn backward_search(&self, pattern: &[u8]) -> (r: SearchOutcome)
        requires
            self.wf(),
        ensures
            outcome_spec(self.bwt_view(), pattern@, r),
            r is Complete <==> (pattern@.len() > 0 && is_nonempty(
                search_interval(self.bwt_view(), pattern@),
            )),
    {
        let ghost bwt = self.bwt@;
        let ghost p = pattern@;
        let m = pattern.len();
        let mut l: usize = 0;
        let mut u: usize = self.bwt.len();
        let mut k: usize = m;
        proof {
            assert(p.subrange(m as int, m as int) =~= Seq::<u8>::empty());
        }
        while k > 0
            invariant
                self.wf(),
                bwt == self.bwt@,
                p == pattern@,
                m == p.len(),
                k <= m,
                l < u,
                search_interval(bwt, p.subrange(k as int, m as int)) == (l as int, u as int),
            decreases k,
        {
            let c = pattern[k - 1];
            let ghost s = p.subrange(k - 1, m as int);
            proof {
                assert(s.drop_first() =~= p.subrange(k as int, m as int));
                lemma_search_interval_bounds(bwt, s.drop_first());
            }
            let nl = self.lf_step(c, l);
            let nu = self.lf_step(c, u);
            if nl >= nu {
                proof {
                    lemma_empty_extends(bwt, p, k - 1);
                    assert(tail(p, (m - k) as int) =~= p.subrange(k as int, m as int));
                    assert(tail(p, (m - k + 1) as int) =~= s);
                }
                if k == m {
                    return SearchOutcome::Absent;
                } else {
                    return SearchOutcome::Partial(Interval { lower: l, upper: u }, m - k);
                }
            }
            l = nl;
            u = nu;
            k -= 1;
        }
        proof {
            assert(p.subrange(0, m as int) =~= p);
        }
        if m == 0 {
            SearchOutcome::Absent
        } else {
            SearchOutcome::Complete(Interval { lower: l, upper: u })
        }
    }

    /// Builds the index of a reference text with the given checkpoint interval.
    pub fn build(text: &[u8], sample_rate: usize) -> (r: FmIndex)
        requires
            is_reference_text(text@),
            sample_rate >= 1,
        ensures
            r.wf(),
            r.rate_view() == sample_rate,
            exists|sa: Seq<usize>| #[trigger]
                is_suffix_array(text@, sa) && r.bwt_view() == bwt_of(text@, sa),
    {
        let sa = build_suffix_array(text);
        let bwt = bwt_transform(text, sa.as_slice());
        let r = FmIndex::from_bwt(bwt, sample_rate);
        assert(is_suffix_array(text@, sa@) && r.bwt_view() == bwt_of(text@, sa@));
        r
    }

    /// The stored parts: transformed text, cumulative table, checkpoints and
    /// checkpoint interval, as [`FmIndex::from_parts`] takes them back.
    pub fn to_parts(&self) -> (r: (Vec<u8>, Vec<usize>, Vec<Vec<usize>>, usize))
        requires
            self.wf(),
        ensures
            r.0@ == self.bwt_view(),
            r.0@.len() > 0,
            r.3 == self.rate_view(),
            tables_valid(r.0@, r.1@, r.2@, r.3 as int),
    {
        let mut occ: Vec<Vec<usize>> = Vec::new();
        let mut k: usize = 0;
        while k < self.occ.len()
            invariant
                k <= self.occ@.len(),
                occ@.len() == k,
                forall|i: int| 0 <= i < k ==> (#[trigger] occ@[i])@ == self.occ@[i]@,
            decreases self.occ@.len() - k,
        {
            occ.push(copy_counts(&self.occ[k]));
            k += 1;
        }
        let bwt = copy_bytes(&self.bwt);
        let less = copy_counts(&self.less);
        proof {
            assert forall|i: int, a: int| 0 <= i < occ@.len() && 0 <= a < ALPHABET implies
                #[trigger] occ@[i]@[a] == count(bwt@.take(i * self.sample_rate), a as u8) by {
                assert(self.occ@[i]@[a] == count(self.bwt@.take(i * self.sample_rate), a as u8));
            }
        }
        (bwt, less, occ, self.sample_rate)
    }

    /// Takes back stored parts, accepting them only when the tables are
    /// exactly those of the transformed text and interval they come with.
    pub fn from_parts(bwt: Vec<u8>, less: Vec<usize>, occ: Vec<Vec<usize>>, sample_rate: usize) -> (r:
        Result<FmIndex, IndexError>)
        ensures
            bwt@.len() == 0 <==> r == Err::<FmIndex, IndexError>(IndexError::EmptyText),
            (bwt@.len() > 0 && sample_rate == 0) <==> r == Err::<FmIndex, IndexError>(
                IndexError::BadSampleRate,
            ),
            r is Ok <==> (bwt@.len() > 0 && tables_valid(bwt@, less@, occ@, sample_rate as int)),
            r matches Ok(idx) ==> idx.wf() && idx.bwt_view() == bwt@ && idx.rate_view()
                == sample_rate,
    {
        if bwt.len() == 0 {
            return Err(IndexError::EmptyText);
        }
        if sample_rate == 0 {
            return Err(IndexError::BadSampleRate);
        }
        let (l2, o2) = build_tables(&bwt, sample_rate);
        proof {
            lemma_tables_unique(bwt@, less@, occ@, l2@, o2@, sample_rate as int);
        }
        if !same_counts(&less, &l2) || !same_checkpoints(&occ, &o2) {
            return Err(IndexError::CorruptTables);
        }
        proof {
            assert(less@ =~= l2@);
        }
        Ok(FmIndex { bwt, less, occ, sample_rate })
    }
}

/// Why stored parts were refused.
#[derive(Clone, Copy, Debug, PartialEq, Eq, Structural)]
pub enum IndexError {
    /// The transformed text is empty.
    EmptyText,
    /// The checkpoint interval is zero.
    BadSampleRate,
    /// The cumulative table or the checkpoints disagree with the text.
    CorruptTables,
}

/// Valid tables are determined by the text and the interval alone.
pub proof fn lemma_tables_unique(
    bwt: Seq<u8>,
    less1: Seq<usize>,
    occ1: Seq<Vec<usize>>,
    less2: Seq<usize>,
    occ2: Seq<Vec<usize>>,
    rate: int,
)
    requires
        tables_valid(bwt, less2, occ2, rate),
    ensures
        tables_valid(bwt, less1, occ1, rate) <==> (less1 == less2 && occ1.len() == occ2.len()
            && forall|k: int| 0 <= k < occ1.len() ==> (#[trigger] occ1[k])@ == occ2[k]@),
{
    if tables_valid(bwt, less1, occ1, rate) {
        assert(less1 =~= less2);
        let l1 = occ1.len() as int;
        let l2 = occ2.len() as int;
        let n = bwt.len() as int;
        assert(l1 == l2) by (nonlinear_arith)
            requires
                n < l1 * rate,
                (l1 - 1) * rate <= n,
                n < l2 * rate,
                (l2 - 1) * rate <= n,
                rate >= 1,
        ;
        assert forall|k: int| 0 <= k < occ1.len() implies (#[trigger] occ1[k])@ == occ2[k]@ by {
            assert forall|a: int| 0 <= a < ALPHABET implies occ1[k]@[a] == occ2[k]@[a] by {
                assert(occ1[k]@[a] == count(bwt.take(k * rate), a as u8));
                assert(occ2[k]@[a] == count(bwt.take(k * rate), a as u8));
            }
            assert(occ1[k]@ =~= occ2[k]@);
        }
    }
    if less1 == less2 && occ1.len() == occ2.len() && forall|k: int|
        0 <= k < occ1.len() ==> (#[trigger] occ1[k])@ == occ2[k]@ {
        assert forall|k: int, a: int| 0 <= k < occ1.len() && 0 <= a < ALPHABET implies
            #[trigger] occ1[k]@[a] == count(bwt.take(k * rate), a as u8) by {
            assert(occ2[k]@[a] == count(bwt.take(k * rate), a as u8));
        }
    }
}

/// What backward search returns is fixed by the transformed text and the
/// pattern: two indexes over the same text answer every query alike.
pub proof fn lemma_outcome_determined(bwt: Seq<u8>, p: Seq<u8>, r1: SearchOutcome, r2: SearchOutcome)
    requires
        outcome_spec(bwt, p, r1),
        outcome_spec(bwt, p, r2),
    ensures
        r1 == r2,
{
    let m = p.len() as int;
    assert forall|k: int, j: int| 1 <= j <= k <= m && !is_nonempty(#[trigger] search_interval(bwt, tail(p, j)))
        implies !is_nonempty(#[trigger] search_interval(bwt, tail(p, k))) by {
        let q = tail(p, k);
        assert(q.subrange(k - j, q.len() as int) =~= tail(p, j));
        lemma_empty_extends(bwt, q, k - j);
    }
    assert(tail(p, m) =~= p);
    match (r1, r2) {
        (SearchOutcome::Partial(_, k1), SearchOutcome::Partial(_, k2)) => {
            assert(k1 == k2) by {
                if k1 < k2 {
                    assert(!is_nonempty(search_interval(bwt, tail(p, k2 as int))));
                } else if k2 < k1 {
                    assert(!is_nonempty(search_interval(bwt, tail(p, k1 as int))));
                }
            }
        },
        (SearchOutcome::Complete(_), SearchOutcome::Partial(_, k2)) => {
            assert(!is_nonempty(search_interval(bwt, tail(p, m))));
        },
        (SearchOutcome::Partial(_, k1), SearchOutcome::Complete(_)) => {
            assert(!is_nonempty(search_interval(bwt, tail(p, m))));
        },
        (SearchOutcome::Absent, SearchOutcome::Complete(_)) => {
            assert(!is_nonempty(search_interval(bwt, tail(p, m))));
        },
        (SearchOutcome::Complete(_), SearchOutcome::Absent) => {
            assert(!is_nonempty(search_interval(bwt, tail(p, m))));
        },
        (SearchOutcome::Absent, SearchOutcome::Partial(_, k2)) => {
            assert(!is_nonempty(search_interval(bwt, tail(p, k2 as int))));
        },
        (SearchOutcome::Partial(_, k1), SearchOutcome::Absent) => {
            assert(!is_nonempty(search_interval(bwt, tail(p, k1 as int))));
        },
        _ => {},
    }
}

/// An index taken back from its stored parts answers every query as the
/// index they were taken from.
pub proof fn lemma_restored_index_answers_alike(
    source: FmIndex,
    restored: FmIndex,
    p: Seq<u8>,
    r1: SearchOutcome,
    r2: SearchOutcome,
)
    requires
        source.wf(),
        restored.wf(),
        restored.bwt_view() == source.bwt_view(),
        outcome_spec(source.bwt_view(), p, r1),
        outcome_spec(restored.bwt_view(), p, r2),
    ensures
        r1 == r2,
{
    lemma_outcome_determined(source.bwt_view(), p, r1, r2);
}

fn same_counts(a: &Vec<usize>, b: &Vec<usize>) -> (r: bool)
    ensures
        r == (a@ == b@),
{
    if a.len() != b.len() {
        return false;
    }
    let mut i: usize = 0;
    while i < a.len()
        invariant
            a@.len() == b@.len(),
            i <= a@.len(),
            forall|j: int| 0 <= j < i ==> #[trigger] a@[j] == b@[j],
        decreases a@.len() - i,
    {
        if a[i] != b[i] {
            return false;
        }
        i += 1;
    }
    assert(a@ =~= b@);
    true
}

fn same_checkpoints(a: &Vec<Vec<usize>>, b: &Vec<Vec<usize>>) -> (r: bool)
    ensures
        r == (a@.len() == b@.len() && forall|k: int| 0 <= k < a@.len() ==> (#[trigger] a@[k])@ == b@[k]@),
{
    if a.len() != b.len() {
        return false;
    }
    let mut i: usize = 0;
    while i < a.len()
        invariant
            a@.len() == b@.len(),
            i <= a@.len(),
            forall|j: int| 0 <= j < i ==> (#[trigger] a@[j])@ == b@[j]@,
        decreases a@.len() - i,
    {
        if !same_counts(&a[i], &b[i]) {
            return false;
        }
        i += 1;
    }
    true
}

fn copy_bytes(v: &Vec<u8>) -> (r: Vec<u8>)
    ensures
        r@ == v@,
{
    let mut r: Vec<u8> = Vec::new();
    let mut i: usize = 0;
    while i < v.len()
        invariant
            i <= v@.len(),
            r@ =~= v@.take(i as int),
        decreases v@.len() - i,
    {
        r.push(v[i]);
        i += 1;
    }
    assert(r@ =~= v@);
    r
}

/// Builds the cumulative table and the checkpoints of `bwt` in one pass.
fn build_tables(bwt: &Vec<u8>, rate: usize) -> (r: (Vec<usize>, Vec<Vec<usize>>))
    requires
        bwt@.len() > 0,
        rate >= 1,
    ensures
        tables_valid(bwt@, r.0@, r.1@, rate as int),
{
    let n = bwt.len();
    let mut counts: Vec<usize> = Vec::new();
    let mut a: usize = 0;
    while a < ALPHABET
        invariant
            a <= ALPHABET,
            counts@.len() == a,
            forall|b: int| 0 <= b < a ==> #[trigger] counts@[b] == 0,
        decreases ALPHABET - a,
    {
        counts.push(0);
        a += 1;
    }
    let mut occ: Vec<Vec<usize>> = Vec::new();
    occ.push(copy_counts(&counts));
    proof {
        assert forall|k: int, b: int| 0 <= k < occ@.len() && 0 <= b < ALPHABET implies
            #[trigger] occ@[k]@[b] == count(bwt@.take(k * rate), b as u8) by {
            assert(k == 0);
            assert(bwt@.take(0) =~= Seq::<u8>::empty());
        }
    }
    let mut j: usize = 0;
    let mut since: usize = 0;
    proof {
        assert((occ@.len() - 1) * rate + since == j) by (nonlinear_arith)
            requires
                occ@.len() == 1,
                since == 0,
                j == 0,
        ;
    }
    while j < n
        invariant
            n == bwt@.len(),
            rate >= 1,
            j <= n,
            counts@.len() == ALPHABET,
            forall|b: int| 0 <= b < ALPHABET ==> #[trigger] counts@[b] == count(bwt@.take(j as int), b as u8),
            occ@.len() >= 1,
            since < rate,
            (occ@.len() - 1) * rate + since == j,
            forall|k: int| 0 <= k < occ@.len() ==> (#[trigger] occ@[k])@.len() == ALPHABET,
            forall|k: int, b: int|
                0 <= k < occ@.len() && 0 <= b < ALPHABET ==> #[trigger] occ@[k]@[b] == count(
                    bwt@.take(k * rate),
                    b as u8,
                ),
        decreases n - j,
    {
        let c = bwt[j];
        proof {
            lemma_count_lt_bound(bwt@.take(j as int), c);
            assert forall|b: int| 0 <= b < ALPHABET implies #[trigger] count(bwt@.take(j + 1), b as u8)
                == count(bwt@.take(j as int), b as u8) + if c == b as u8 { 1nat } else { 0nat } by {
                lemma_count_step(bwt@, j as int, b as u8);
            }
        }
        let cur = counts[c as usize];
        counts.set(c as usize, cur + 1);
        j += 1;
        since += 1;
        if since == rate {
            let ghost l = occ@.len() as int;
            occ.push(copy_counts(&counts));
            since = 0;
            proof {
                assert(l * rate == (l - 1) * rate + rate) by (nonlinear_arith);
                assert(occ@[l]@ == counts@);
                assert(l * rate == j);
            }
        }
    }
    proof {
        let l = occ@.len() as int;
        assert(n < l * rate) by (nonlinear_arith)
            requires
                (l - 1) * rate + since == n,
                since < rate,
        ;
        assert((l - 1) * rate <= n);
    }
    let mut less: Vec<usize> = Vec::new();
    let mut acc: usize = 0;
    let mut a: usize = 0;
    proof {
        lemma_count_lt_zero(bwt@);
    }
    while a < ALPHABET
        invariant
            n == bwt@.len(),
            j == n,
            a <= ALPHABET,
            counts@.len() == ALPHABET,
            forall|b: int| 0 <= b < ALPHABET ==> #[trigger] counts@[b] == count(bwt@.take(j as int), b as u8),
            less@.len() == a,
            acc == count_lt(bwt@, a as int),
            forall|b: int| 0 <= b < a ==> #[trigger] less@[b] == count_lt(bwt@, b),
        decreases ALPHABET - a,
    {
        less.push(acc);
        proof {
            lemma_count_full(bwt@, a as u8);
            lemma_count_lt_next(bwt@, a as u8);
            lemma_count_lt_bound(bwt@, a as u8);
        }
        acc = acc + counts[a];
        a += 1;
    }
    assert(less@.len() == ALPHABET);
    assert(forall|a: int| 0 <= a < ALPHABET ==> #[trigger] less@[a] == count_lt(bwt@, a));
    (less, occ)
}

/// Builds the transform of `text` from its suffix array.
pub fn bwt_transform(text: &[u8], sa: &[usize]) -> (r: Vec<u8>)
    requires
        text@.len() > 0,
        forall|i: int| 0 <= i < sa@.len() ==> #[trigger] sa@[i] < text@.len(),
    ensures
        r@ == bwt_of(text@, sa@),
{
    let n = text.len();
    let mut r: Vec<u8> = Vec::new();
    let mut i: usize = 0;
    while i < sa.len()
        invariant
            n == text@.len(),
            n > 0,
            i <= sa@.len(),
            forall|j: int| 0 <= j < sa@.len() ==> #[trigger] sa@[j] < n,
            r@ =~= bwt_of(text@, sa@).take(i as int),
        decreases sa@.len() - i,
    {
        let p = sa[i];
        let b = if p > 0 {
            text[p - 1]
        } else {
            text[n - 1]
        };
        r.push(b);
        i += 1;
    }
    r
}

fn copy_counts(v: &Vec<usize>) -> (r: Vec<usize>)
    ensures
        r@ == v@,
{
    let mut r: Vec<usize> = Vec::new();
    let mut i: usize = 0;
    while i < v.len()
        invariant
            i <= v@.len(),
            r@ =~= v@.take(i as int),
        decreases v@.len() - i,
    {
        r.push(v[i]);
        i += 1;
    }
    assert(r@ =~= v@);
    r
}

} // verus!
