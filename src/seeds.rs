//! Seed extraction from a read and its reverse complement.
use vstd::prelude::*;

verus! {

/// The complementary base of an IUPAC code, in either case; any other byte
/// is its own complement.
pub open spec fn complement_base(b: u8) -> u8 {
    match b {
        97u8 => 116u8,  // a -> t
        65u8 => 84u8,  // A -> T
        99u8 => 103u8,  // c -> g
        67u8 => 71u8,  // C -> G
        103u8 => 99u8,  // g -> c
        71u8 => 67u8,  // G -> C
        116u8 => 97u8,  // t -> a
        84u8 => 65u8,  // T -> A
        114u8 => 121u8,  // r -> y
        121u8 => 114u8,  // y -> r
        107u8 => 109u8,  // k -> m
        109u8 => 107u8,  // m -> k
        98u8 => 118u8,  // b -> v
        118u8 => 98u8,  // v -> b
        100u8 => 104u8,  // d -> h
        104u8 => 100u8,  // h -> d
        82u8 => 89u8,  // R -> Y
        89u8 => 82u8,  // Y -> R
        75u8 => 77u8,  // K -> M
        77u8 => 75u8,  // M -> K
        66u8 => 86u8,  // B -> V
        86u8 => 66u8,  // V -> B
        68u8 => 72u8,  // D -> H
        72u8 => 68u8,  // H -> D
        x => x,
    }
}

/// The reverse complement: the bytes in reverse order, each complemented.
pub open spec fn reverse_complement_of(s: Seq<u8>) -> Seq<u8> {
    Seq::new(s.len(), |i: int| complement_base(s[s.len() - 1 - i]))
}

/// Relies on needletail's `Sequence::reverse_complement`: the bytes in
/// reverse order, each mapped through needletail's `complement` table.
#[verifier::external_body]
fn reverse_complement(seq: &[u8]) -> (r: Vec<u8>)
    ensures
        r@ == reverse_complement_of(seq@),
{
    needletail::Sequence::reverse_complement(&seq)
}

/// How many windows of length `len`, started every `step` positions from 0,
/// fit in a sequence of length `n`.
pub open spec fn seed_count(n: int, len: int, step: int) -> int {
    if n >= len {
        (n - len) / step + 1
    } else {
        0
    }
}

/// The seeds of `s`: the windows of length `len` at `0, step, 2 * step, ...`
/// that lie wholly within `s`, left to right.
pub open spec fn seeds_of(s: Seq<u8>, len: int, step: int) -> Seq<Seq<u8>> {
    Seq::new(
        seed_count(s.len() as int, len, step) as nat,
        |k: int| s.subrange(k * step, k * step + len),
    )
}

/// The byte strings that a list of vectors holds.
pub open spec fn views(v: Seq<Vec<u8>>) -> Seq<Seq<u8>> {
    v.map_values(|x: Vec<u8>| x@)
}

/// Complementing a base twice gives it back.
pub proof fn lemma_complement_involutive(b: u8)
    ensures
        complement_base(complement_base(b)) == b,
{
}

/// The reverse complement of the reverse complement is the read itself.
pub proof fn lemma_reverse_complement_involutive(s: Seq<u8>)
    ensures
        reverse_complement_of(reverse_complement_of(s)) == s,
{
    let r = reverse_complement_of(s);
    assert forall|i: int| 0 <= i < s.len() implies #[trigger] reverse_complement_of(r)[i] == s[i] by {
        lemma_complement_involutive(s[i]);
    }
    assert(reverse_complement_of(r) =~= s);
}

/// The `k`-th seed of the reverse strand is the reverse complement of the
/// forward window that ends `k * step` bytes before the end of the read.
pub proof fn lemma_reverse_seeds_mirror(s: Seq<u8>, len: int, step: int, k: int)
    requires
        len >= 1,
        step >= 1,
        0 <= k < seed_count(s.len() as int, len, step),
    ensures
        seeds_of(reverse_complement_of(s), len, step)[k] == reverse_complement_of(
            s.subrange(s.len() - len - k * step, s.len() - k * step),
        ),
{
    let n = s.len() as int;
    let x = n - len;
    vstd::arithmetic::div_mod::lemma_fundamental_div_mod(x, step);
    let q = x / step;
    assert(k * step <= x) by (nonlinear_arith)
        requires
            k <= q,
            x == step * q + x % step,
            x % step >= 0,
            step >= 1,
    ;
    assert(0 <= k * step) by (nonlinear_arith)
        requires
            k >= 0,
            step >= 1,
    ;
    let a = seeds_of(reverse_complement_of(s), len, step)[k];
    let b = reverse_complement_of(s.subrange(n - len - k * step, n - k * step));
    assert(a =~= b);
}

fn copy_range(s: &[u8], start: usize, len: usize) -> (r: Vec<u8>)
    requires
        start + len <= s@.len(),
    ensures
        r@ == s@.subrange(start as int, start + len),
{
    let mut r: Vec<u8> = Vec::new();
    let mut i: usize = 0;
    let n = s.len();
    while i < len
        invariant
            n == s@.len(),
            start + len <= s@.len(),
            i <= len,
            r@ =~= s@.subrange(start as int, start + i),
        decreases len - i,
    {
        r.push(s[start + i]);
        i += 1;
    }
    r
}

/// Appends the seeds of `s` to `out`.
fn push_seeds(s: &[u8], len: usize, step: usize, out: &mut Vec<Vec<u8>>)
    requires
        len >= 1,
        step >= 1,
    ensures
        views(final(out)@) == views(old(out)@) + seeds_of(s@, len as int, step as int),
{
    let ghost start = views(out@);
    let n = s.len();
    if len > n {
        assert(seeds_of(s@, len as int, step as int) =~= Seq::<Seq<u8>>::empty());
        assert(views(out@) =~= start + seeds_of(s@, len as int, step as int));
        return;
    }
    let count = (n - len) / step + 1;
    let ghost all = seeds_of(s@, len as int, step as int);
    let ghost x: int = (n - len) as int;
    let ghost d: int = step as int;
    let mut i: usize = 0;
    proof {
        vstd::arithmetic::div_mod::lemma_fundamental_div_mod(x, d);
        assert(views(out@) =~= start + all.take(0));
    }
    while i < count
        invariant
            n == s@.len(),
            len <= n,
            step >= 1,
            x == (n - len) as int,
            d == step as int,
            count == x / d + 1,
            x == d * (x / d) + x % d,
            0 <= x % d,
            all == seeds_of(s@, len as int, step as int),
            all.len() == count,
            i <= count,
            views(out@) =~= start + all.take(i as int),
        decreases count - i,
    {
        proof {
            let q = x / d;
            assert(i * d <= x) by (nonlinear_arith)
                requires
                    i <= q,
                    x == d * q + x % d,
                    x % d >= 0,
                    d >= 1,
            ;
        }
        let pos = i * step;
        let seed = copy_range(s, pos, len);
        let ghost before = out@;
        out.push(seed);
        proof {
            assert(all[i as int] == seed@);
            assert(views(out@) =~= views(before).push(seed@));
            assert(all.take(i + 1) =~= all.take(i as int).push(seed@));
            assert(views(out@) =~= start + all.take(i + 1));
        }
        i += 1;
    }
    proof {
        assert(all.take(count as int) =~= all);
    }
}

/// The seeds of a read given with its reverse complement: those of `fwd`,
/// then those of `rc`.
pub fn seeds_from_strands(fwd: &[u8], rc: &[u8], seed_len: usize, interval: usize) -> (r: Vec<
    Vec<u8>,
>)
    requires
        seed_len >= 1,
        interval >= 1,
    ensures
        views(r@) == seeds_of(fwd@, seed_len as int, interval as int) + seeds_of(
            rc@,
            seed_len as int,
            interval as int,
        ),
{
    let mut out: Vec<Vec<u8>> = Vec::new();
    proof {
        assert(views(out@) =~= Seq::<Seq<u8>>::empty());
    }
    push_seeds(fwd, seed_len, interval, &mut out);
    push_seeds(rc, seed_len, interval, &mut out);
    proof {
        assert(views(out@) =~= seeds_of(fwd@, seed_len as int, interval as int) + seeds_of(
            rc@,
            seed_len as int,
            interval as int,
        ));
    }
    out
}

/// The seeds of a read on both strands: forward seeds left to right, then
/// those of the reverse complement left to right.
pub fn get_seeds_both_strands(seq: &[u8], seed_len: usize, interval: usize) -> (r: Vec<Vec<u8>>)
    requires
        seed_len >= 1,
        interval >= 1,
    ensures
        views(r@) == seeds_of(seq@, seed_len as int, interval as int) + seeds_of(
            reverse_complement_of(seq@),
            seed_len as int,
            interval as int,
        ),
        r@.len() == 2 * seed_count(seq@.len() as int, seed_len as int, interval as int),
{
    let rc = reverse_complement(seq);
    assert(rc@.len() == seq@.len());
    let r = seeds_from_strands(seq, rc.as_slice(), seed_len, interval);
    assert(views(r@).len() == r@.len());
    r
}

} // verus!
