//! Bracket pairing over token sequences: counts of loop brackets,
//! balance, and the stack of unmatched loop-start positions that both
//! the validator and the code generator's loop-id assignment follow.

use vstd::prelude::*;

use crate::lexer::BFToken;

verus! {

/// Number of loop-start tokens in `s`.
pub open spec fn start_count(s: Seq<BFToken>) -> int
    decreases s.len(),
{
    if s.len() == 0 {
        0
    } else {
        start_count(s.drop_last()) + (if s.last() is LoopStart {
            1int
        } else {
            0int
        })
    }
}

/// Number of loop-end tokens in `s`.
pub open spec fn end_count(s: Seq<BFToken>) -> int
    decreases s.len(),
{
    if s.len() == 0 {
        0
    } else {
        end_count(s.drop_last()) + (if s.last() is LoopEnd {
            1int
        } else {
            0int
        })
    }
}

/// Net bracket depth: loop-starts minus loop-ends.
pub open spec fn sdepth(s: Seq<BFToken>) -> int {
    start_count(s) - end_count(s)
}

/// The bracket-matching property: every prefix closes no more loops
/// than it opens, and the whole sequence opens and closes equally many.
pub open spec fn balanced(s: Seq<BFToken>) -> bool {
    &&& sdepth(s) == 0
    &&& forall|m: int| 0 <= m <= s.len() ==> sdepth(#[trigger] s.take(m)) >= 0
}

/// Positions of the loop-start tokens of `s` not yet matched by a
/// later loop-end, in order of appearance: the validator's stack, and
/// the stack the code generator pops loop ids from.  A loop-end with
/// no open loop to match is skipped.
pub open spec fn opens(s: Seq<BFToken>) -> Seq<int>
    decreases s.len(),
{
    if s.len() == 0 {
        Seq::empty()
    } else {
        let pre = opens(s.drop_last());
        if s.last() is LoopStart {
            pre.push(s.len() - 1)
        } else if s.last() is LoopEnd {
            if pre.len() > 0 {
                pre.drop_last()
            } else {
                pre
            }
        } else {
            pre
        }
    }
}

/// `q` with every element moved up by `off`.
pub open spec fn shift(q: Seq<int>, off: int) -> Seq<int>
    decreases q.len(),
{
    if q.len() == 0 {
        Seq::empty()
    } else {
        shift(q.drop_last(), off).push(q.last() + off)
    }
}

pub proof fn lemma_shift_len(q: Seq<int>, off: int)
    ensures
        shift(q, off).len() == q.len(),
    decreases q.len(),
{
    if q.len() > 0 {
        lemma_shift_len(q.drop_last(), off);
    }
}

/// Unfolds the counts and the open-loop stack at one more token.
pub proof fn lemma_prefix_step(s: Seq<BFToken>, i: int)
    requires
        0 <= i < s.len(),
    ensures
        start_count(s.take(i + 1)) == start_count(s.take(i)) + (if s[i] is LoopStart {
            1int
        } else {
            0int
        }),
        end_count(s.take(i + 1)) == end_count(s.take(i)) + (if s[i] is LoopEnd {
            1int
        } else {
            0int
        }),
        opens(s.take(i + 1)) == (if s[i] is LoopStart {
            opens(s.take(i)).push(i)
        } else if s[i] is LoopEnd {
            if opens(s.take(i)).len() > 0 {
                opens(s.take(i)).drop_last()
            } else {
                opens(s.take(i))
            }
        } else {
            opens(s.take(i))
        }),
{
    assert(s.take(i + 1).drop_last() =~= s.take(i));
    assert(s.take(i + 1).last() == s[i]);
}

/// Both bracket counts lie between zero and the length.
pub proof fn lemma_counts_bounds(s: Seq<BFToken>)
    ensures
        0 <= start_count(s) <= s.len(),
        0 <= end_count(s) <= s.len(),
    decreases s.len(),
{
    if s.len() > 0 {
        lemma_counts_bounds(s.drop_last());
    }
}

/// A later prefix has at least as many loop-starts.
pub proof fn lemma_start_count_mono(s: Seq<BFToken>, a: int, b: int)
    requires
        0 <= a <= b <= s.len(),
    ensures
        start_count(s.take(a)) <= start_count(s.take(b)),
    decreases b - a,
{
    if a < b {
        lemma_prefix_step(s, b - 1);
        lemma_start_count_mono(s, a, b - 1);
    }
}

/// Loop ids are assigned by loop-start order, so ids of distinct
/// loop-starts are distinct (the earlier one is strictly smaller).
pub proof fn lemma_start_ids_distinct(s: Seq<BFToken>, i1: int, i2: int)
    requires
        0 <= i1 < i2 <= s.len(),
        s[i1] is LoopStart,
    ensures
        start_count(s.take(i1)) < start_count(s.take(i2)),
{
    lemma_prefix_step(s, i1);
    lemma_start_count_mono(s, i1 + 1, i2);
}

/// Running the open-loop stack over a segment whose prefixes never
/// close more than they open leaves the stack below the segment's own
/// unmatched opens; in particular the segment pops nothing below it,
/// and its own unmatched opens are as many as its net depth.
pub proof fn lemma_opens_seg(b: Seq<BFToken>, q: Seq<BFToken>)
    requires
        forall|m: int| 0 <= m <= q.len() ==> sdepth(#[trigger] q.take(m)) >= 0,
    ensures
        opens(b + q) == opens(b) + shift(opens(q), b.len() as int),
        opens(q).len() == sdepth(q),
    decreases q.len(),
{
    assert(q.take(q.len() as int) =~= q);
    if q.len() == 0 {
        assert(b + q =~= b);
        assert(opens(b) + shift(opens(q), b.len() as int) =~= opens(b));
    } else {
        let q2 = q.drop_last();
        let t = q.last();
        assert forall|m: int| 0 <= m <= q2.len() implies sdepth(#[trigger] q2.take(m)) >= 0 by {
            assert(q2.take(m) =~= q.take(m));
        }
        lemma_opens_seg(b, q2);
        lemma_shift_len(opens(q2), b.len() as int);
        assert((b + q).drop_last() =~= b + q2);
        assert((b + q).last() == t);
        assert(q.take(q.len() - 1) =~= q2);
        assert(sdepth(q2) >= 0);
        if t is LoopStart {
            assert(opens(q) == opens(q2).push(q.len() - 1));
            assert(opens(b + q) == (opens(b) + shift(opens(q2), b.len() as int)).push(
                b.len() + q.len() - 1,
            ));
            assert(opens(q).drop_last() =~= opens(q2));
            assert(opens(q).last() == q.len() - 1);
            assert(shift(opens(q), b.len() as int) == shift(opens(q2), b.len() as int).push(
                b.len() + q.len() - 1,
            ));
            assert(opens(b + q) =~= opens(b) + shift(opens(q), b.len() as int));
            assert(start_count(q) == start_count(q2) + 1 && end_count(q) == end_count(q2));
        } else if t is LoopEnd {
            assert(start_count(q) == start_count(q2) && end_count(q) == end_count(q2) + 1);
            assert(sdepth(q) >= 0);
            assert(opens(q2).len() == sdepth(q2) >= 1);
            let sh2 = shift(opens(q2), b.len() as int);
            assert(opens(b + q) == (opens(b) + sh2).drop_last());
            assert((opens(b) + sh2).drop_last() =~= opens(b) + sh2.drop_last());
            assert(opens(q) == opens(q2).drop_last());
            assert(sh2 == shift(opens(q2).drop_last(), b.len() as int).push(
                opens(q2).last() + b.len(),
            ));
            assert(sh2.drop_last() =~= shift(opens(q), b.len() as int));
        } else {
            assert(opens(q) == opens(q2));
            assert(opens(b + q) == opens(b) + shift(opens(q2), b.len() as int));
            assert(start_count(q) == start_count(q2) && end_count(q) == end_count(q2));
        }
    }
}

/// Two tokens match when the first opens a loop, the second closes
/// one, and the tokens strictly between them are balanced.
pub open spec fn matched_pair(s: Seq<BFToken>, i: int, j: int) -> bool {
    &&& 0 <= i < j < s.len()
    &&& s[i] is LoopStart
    &&& s[j] is LoopEnd
    &&& forall|m: int| i + 1 <= m <= j ==> sdepth(#[trigger] s.subrange(i + 1, m)) >= 0
    &&& sdepth(s.subrange(i + 1, j)) == 0
}

/// At a loop-end that closes a matched pair, the top of the open-loop
/// stack is exactly the position of the matching loop-start.
pub proof fn lemma_matched_opens(s: Seq<BFToken>, i: int, j: int)
    requires
        matched_pair(s, i, j),
    ensures
        opens(s.take(j)) == opens(s.take(i)).push(i),
{
    let b = s.take(i + 1);
    let q = s.subrange(i + 1, j);
    assert(b.drop_last() =~= s.take(i));
    assert(b.last() == s[i]);
    assert(opens(b) == opens(s.take(i)).push(i));
    assert forall|m: int| 0 <= m <= q.len() implies sdepth(#[trigger] q.take(m)) >= 0 by {
        assert(q.take(m) =~= s.subrange(i + 1, i + 1 + m));
    }
    lemma_opens_seg(b, q);
    lemma_shift_len(opens(q), b.len() as int);
    assert(opens(q).len() == 0);
    assert(shift(opens(q), b.len() as int) =~= Seq::<int>::empty());
    assert(s.take(j) =~= b + q);
    assert(opens(s.take(j)) =~= opens(s.take(i)).push(i));
}

/// LAW: an accepted token sequence has as many loop-starts as
/// loop-ends, and in every prefix the loop-starts are at least as many
/// as the loop-ends.
pub proof fn lemma_accepted_bracket_counts(ts: Seq<BFToken>)
    requires
        balanced(ts),
    ensures
        start_count(ts) == end_count(ts),
        forall|m: int|
            0 <= m <= ts.len() ==> start_count(#[trigger] ts.take(m)) >= end_count(ts.take(m)),
{
    assert(ts.take(ts.len() as int) =~= ts);
}

} // verus!
