//! Cutting a text into the pieces that a separator byte parts.
use vstd::prelude::*;

verus! {

/// The place of the first `b` in `s`, or the length of `s` if there is none.
pub open spec fn first_index(s: Seq<u8>, b: u8) -> nat
    decreases s.len(),
{
    if s.len() == 0 || s[0] == b {
        0
    } else {
        1 + first_index(s.skip(1), b)
    }
}

/// The pieces of `s` between its separators, in order. A text without a
/// separator is one piece; two separators in a row part an empty piece.
pub open spec fn split(s: Seq<u8>, sep: u8) -> Seq<Seq<u8>>
    decreases s.len(),
{
    let i = first_index(s, sep);
    if i >= s.len() {
        seq![s]
    } else {
        seq![s.subrange(0, i as int)] + split(s.subrange(i as int + 1, s.len() as int), sep)
    }
}

/// The pieces of `s` that the ranges of `ranges` mark, each from its first
/// place up to its second.
pub open spec fn cut(s: Seq<u8>, ranges: Seq<(usize, usize)>) -> Seq<Seq<u8>> {
    Seq::new(ranges.len(), |k: int| s.subrange(ranges[k].0 as int, ranges[k].1 as int))
}

/// The first `b` of `s` stands at `p` if none stands before `p` and either
/// one stands at `p` or `s` ends there.
pub proof fn lemma_first_index(s: Seq<u8>, b: u8, p: int)
    requires
        0 <= p <= s.len(),
        forall|j: int| 0 <= j < p ==> #[trigger] s[j] != b,
        p == s.len() || s[p] == b,
    ensures
        first_index(s, b) == p,
    decreases p,
{
    if p > 0 {
        let rest = s.skip(1);
        assert forall|j: int| 0 <= j < p - 1 implies #[trigger] rest[j] != b by {
            assert(rest[j] == s[j + 1]);
        }
        lemma_first_index(rest, b, p - 1);
    }
}

/// No `b` stands before the first `b` of `s`, which lies within `s` or at
/// its end.
pub proof fn lemma_first_index_is_first(s: Seq<u8>, b: u8)
    ensures
        first_index(s, b) <= s.len(),
        forall|j: int| 0 <= j < first_index(s, b) ==> #[trigger] s[j] != b,
        first_index(s, b) < s.len() ==> s[first_index(s, b) as int] == b,
    decreases s.len(),
{
    if s.len() > 0 && s[0] != b {
        let rest = s.skip(1);
        lemma_first_index_is_first(rest, b);
        assert forall|j: int| 0 <= j < first_index(s, b) implies #[trigger] s[j] != b by {
            if j > 0 {
                assert(s[j] == rest[j - 1]);
            }
        }
    }
}

/// Where the pieces of `text` between its separators lie: for each piece,
/// in order, its first place and the place behind its last.
pub fn split_ranges(text: &[u8], sep: u8) -> (ranges: Vec<(usize, usize)>)
    ensures
        forall|k: int|
            0 <= k < ranges@.len() ==> (#[trigger] ranges@[k]).0 <= ranges@[k].1 <= text@.len(),
        cut(text@, ranges@) == split(text@, sep),
{
    let n: usize = text.len();
    let mut ranges: Vec<(usize, usize)> = Vec::new();
    let mut from: usize = 0;
    let mut i: usize = 0;
    assert(text@.subrange(0, n as int) =~= text@);
    assert(cut(text@, ranges@) + split(text@, sep) =~= split(text@, sep));
    while i < n
        invariant
            from <= i <= n == text@.len(),
            forall|j: int| from <= j < i ==> #[trigger] text@[j] != sep,
            forall|k: int|
                0 <= k < ranges@.len() ==> (#[trigger] ranges@[k]).0 <= ranges@[k].1 <= n,
            split(text@, sep) == cut(text@, ranges@) + split(
                text@.subrange(from as int, n as int),
                sep,
            ),
        decreases n - i,
    {
        if text[i] == sep {
            let ghost rest = text@.subrange(from as int, n as int);
            let ghost before = ranges@;
            proof {
                assert forall|j: int| 0 <= j < i - from implies #[trigger] rest[j] != sep by {
                    assert(rest[j] == text@[from + j]);
                }
                lemma_first_index(rest, sep, i - from);
                assert(rest.subrange(0, i - from) =~= text@.subrange(from as int, i as int));
                assert(rest.subrange(i - from + 1, rest.len() as int) =~= text@.subrange(
                    i + 1,
                    n as int,
                ));
            }
            ranges.push((from, i));
            proof {
                assert(cut(text@, ranges@) =~= cut(text@, before) + seq![
                    text@.subrange(from as int, i as int),
                ]);
                assert(cut(text@, ranges@) + split(text@.subrange(i + 1, n as int), sep) =~= cut(
                    text@,
                    before,
                ) + split(rest, sep));
            }
            from = i + 1;
        }
        i = i + 1;
    }
    let ghost rest = text@.subrange(from as int, n as int);
    let ghost before = ranges@;
    proof {
        assert forall|j: int| 0 <= j < n - from implies #[trigger] rest[j] != sep by {
            assert(rest[j] == text@[from + j]);
        }
        lemma_first_index(rest, sep, n - from);
    }
    ranges.push((from, n));
    assert(cut(text@, ranges@) =~= cut(text@, before) + seq![rest]);
    ranges
}

} // verus!
