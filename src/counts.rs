//! Symbol counts over byte strings, and the facts about them that the index
//! relies on.
use vstd::prelude::*;

verus! {

/// How many times `c` occurs in `s`.
pub open spec fn count(s: Seq<u8>, c: u8) -> nat
    decreases s.len(),
{
    if s.len() == 0 {
        0
    } else {
        count(s.drop_last(), c) + if s.last() == c {
            1nat
        } else {
            0nat
        }
    }
}

/// How many bytes of `s` are strictly smaller than `c` (`c` may be 256).
pub open spec fn count_lt(s: Seq<u8>, c: int) -> nat
    decreases s.len(),
{
    if s.len() == 0 {
        0
    } else {
        count_lt(s.drop_last(), c) + if (s.last() as int) < c {
            1nat
        } else {
            0nat
        }
    }
}

/// Extending a prefix by one symbol adds one to that symbol's counts.
pub proof fn lemma_count_step(s: Seq<u8>, i: int, c: u8)
    requires
        0 <= i < s.len(),
    ensures
        count(s.take(i + 1), c) == count(s.take(i), c) + if s[i] == c {
            1nat
        } else {
            0nat
        },
        count_lt(s.take(i + 1), c as int) == count_lt(s.take(i), c as int) + if s[i] < c {
            1nat
        } else {
            0nat
        },
{
    assert(s.take(i + 1).drop_last() =~= s.take(i));
}

/// No byte is below 0.
pub proof fn lemma_count_lt_zero(s: Seq<u8>)
    ensures
        count_lt(s, 0) == 0,
    decreases s.len(),
{
    if s.len() > 0 {
        lemma_count_lt_zero(s.drop_last());
    }
}

/// The symbols below `c + 1` are those below `c` and the `c`s.
pub proof fn lemma_count_lt_next(s: Seq<u8>, c: u8)
    ensures
        count_lt(s, c as int + 1) == count_lt(s, c as int) + count(s, c),
    decreases s.len(),
{
    if s.len() > 0 {
        lemma_count_lt_next(s.drop_last(), c);
    }
}

/// The symbols below `c` and the `c`s together are at most all symbols.
pub proof fn lemma_count_lt_bound(s: Seq<u8>, c: u8)
    ensures
        count_lt(s, c as int) + count(s, c) <= s.len(),
    decreases s.len(),
{
    if s.len() > 0 {
        lemma_count_lt_bound(s.drop_last(), c);
    }
}

/// Counting over a longer prefix never gives less.
pub proof fn lemma_count_prefix_mono(s: Seq<u8>, i: int, j: int, c: u8)
    requires
        0 <= i <= j <= s.len(),
    ensures
        count(s.take(i), c) <= count(s.take(j), c),
    decreases j - i,
{
    if i < j {
        lemma_count_step(s, j - 1, c);
        lemma_count_prefix_mono(s, i, j - 1, c);
    }
}

/// The whole string as a prefix of itself.
pub proof fn lemma_count_full(s: Seq<u8>, c: u8)
    ensures
        count(s.take(s.len() as int), c) == count(s, c),
        count_lt(s.take(s.len() as int), c as int) == count_lt(s, c as int),
{
    assert(s.take(s.len() as int) =~= s);
}

/// The count of `c` in any prefix, added to the number of smaller symbols in
/// the whole string, stays within the string's length.
pub proof fn lemma_lf_bound(s: Seq<u8>, i: int, c: u8)
    requires
        0 <= i <= s.len(),
    ensures
        count_lt(s, c as int) + count(s.take(i), c) <= s.len(),
{
    lemma_count_prefix_mono(s, i, s.len() as int, c);
    lemma_count_full(s, c);
    lemma_count_lt_bound(s, c);
}

} // verus!
