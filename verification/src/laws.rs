//! Laws of the pruning engine, stated over the same spec-level model that
//! the picker's contracts use, and proved once and for all.

use vstd::prelude::*;

use crate::game::word_has_letter;
use crate::game::GameCell;
use crate::word_picker::apply_turn;
use crate::word_picker::bucket;
use crate::word_picker::cell_keeps;
use crate::word_picker::distinct_count;
use crate::word_picker::matched_elsewhere;
use crate::word_picker::ranked;
use crate::word_picker::top_words;
use crate::word_picker::turn_keeps_upto;
use crate::word_picker::with_letter_at;

verus! {

/// Law: the candidate set shrinks monotonically.  Applying any turn to any
/// candidate set never makes it larger, so `remaining()` after turn `n + 1`
/// is at most `remaining()` after turn `n`.
pub proof fn lemma_turn_monotonic_shrink(t: Seq<GameCell>, s: Seq<Seq<char>>)
    ensures
        apply_turn(t, s).len() <= s.len(),
{
    broadcast use vstd::seq_lib::group_filter_ensures;

}

/// Law: pruning on an exact match is idempotent.  Applying the same
/// exact-position cell in a second turn leaves the candidate set exactly
/// as the first application did: the filter is a no-op the second time.
pub proof fn lemma_exact_idempotent(s: Seq<Seq<char>>, l: char, p: int)
    ensures
        with_letter_at(with_letter_at(s, l, p), l, p) == with_letter_at(s, l, p),
    decreases s.len(),
{
    reveal(Seq::filter);
    if s.len() > 0 {
        let d = s.drop_last();
        let x = s.last();
        lemma_exact_idempotent(d, l, p);
        assert(s =~= d.push(x));
        crate::word_picker::lemma_with_letter_at_push(d, l, p, x);
        if 0 <= p < x.len() && x[p] == l {
            crate::word_picker::lemma_with_letter_at_push(with_letter_at(d, l, p), l, p, x);
        }
    }
}

/// Law: a global miss removes the letter everywhere.  When cell `i` of a
/// turn reports a miss and no other cell reports the same letter as exact
/// or present, no word surviving the turn contains that letter at any
/// position.
pub proof fn lemma_global_miss(t: Seq<GameCell>, i: int, s: Seq<Seq<char>>)
    requires
        0 <= i < t.len(),
        t[i].reply is Miss,
        !matched_elsewhere(t, i),
    ensures
        forall|k: int|
            0 <= k < apply_turn(t, s).len() ==> !word_has_letter(
                #[trigger] apply_turn(t, s)[k],
                t[i].letter,
            ),
{
    broadcast use vstd::seq_lib::group_filter_ensures;

    assert forall|k: int| 0 <= k < apply_turn(t, s).len() implies !word_has_letter(
        #[trigger] apply_turn(t, s)[k],
        t[i].letter,
    ) by {
        let w = apply_turn(t, s)[k];
        assert(turn_keeps_upto(t, t.len() as int, w));
        assert(cell_keeps(t, i, w));
    }
}

/// Law: a miss on a letter that is matched elsewhere in the same turn only
/// rules out the missed position; a word is never eliminated by that cell
/// for merely containing the letter somewhere else.
pub proof fn lemma_repeat_disambiguation(t: Seq<GameCell>, i: int, w: Seq<char>)
    requires
        0 <= i < t.len(),
        t[i].reply is Miss,
        matched_elsewhere(t, i),
    ensures
        cell_keeps(t, i, w) <==> !(0 <= i < w.len() && w[i] == t[i].letter),
{
}

/// Which distinct-letter count the ranked order places at index `k`:
/// the five buckets stand back to back, in ascending order.
pub open spec fn ranked_level(s: Seq<Seq<char>>, k: int) -> int {
    if k < bucket(s, 1).len() {
        1
    } else if k < bucket(s, 1).len() + bucket(s, 2).len() {
        2
    } else if k < bucket(s, 1).len() + bucket(s, 2).len() + bucket(s, 3).len() {
        3
    } else if k < bucket(s, 1).len() + bucket(s, 2).len() + bucket(s, 3).len() + bucket(
        s,
        4,
    ).len() {
        4
    } else {
        5
    }
}

/// The word at index `k` of the ranked order has exactly the
/// distinct-letter count of the bucket that index falls in.
proof fn lemma_ranked_at(s: Seq<Seq<char>>, k: int)
    requires
        0 <= k < ranked(s).len(),
    ensures
        distinct_count(ranked(s)[k]) == ranked_level(s, k),
{
    broadcast use vstd::seq_lib::group_filter_ensures;

    let b1 = bucket(s, 1);
    let b2 = bucket(s, 2);
    let b3 = bucket(s, 3);
    let b4 = bucket(s, 4);
    let b5 = bucket(s, 5);
    if k < b1.len() {
        assert(ranked(s)[k] == b1[k]);
        assert(distinct_count(b1[k]) == 1);
    } else if k < b1.len() + b2.len() {
        assert(ranked(s)[k] == b2[k - b1.len()]);
        assert(distinct_count(b2[k - b1.len()]) == 2);
    } else if k < b1.len() + b2.len() + b3.len() {
        assert(ranked(s)[k] == b3[k - b1.len() - b2.len()]);
        assert(distinct_count(b3[k - b1.len() - b2.len()]) == 3);
    } else if k < b1.len() + b2.len() + b3.len() + b4.len() {
        assert(ranked(s)[k] == b4[k - b1.len() - b2.len() - b3.len()]);
        assert(distinct_count(b4[k - b1.len() - b2.len() - b3.len()]) == 4);
    } else {
        assert(ranked(s)[k] == b5[k - b1.len() - b2.len() - b3.len() - b4.len()]);
        assert(distinct_count(b5[k - b1.len() - b2.len() - b3.len() - b4.len()]) == 5);
    }
}

/// Law: construction orders by ascending distinct-letter count.  Any two
/// positions of the ranked order carry nondecreasing counts, so words
/// probing more of the alphabet always sit closer to the end, where the
/// suggestion ranking reads first.
pub proof fn lemma_ranked_sorted(s: Seq<Seq<char>>, i: int, j: int)
    requires
        0 <= i <= j < ranked(s).len(),
    ensures
        distinct_count(ranked(s)[i]) <= distinct_count(ranked(s)[j]),
{
    lemma_ranked_at(s, i);
    lemma_ranked_at(s, j);
}

/// Law: the suggestion ranking is deterministic.  `top_10_words` returns a
/// pure function of the candidate set, so two calls without an intervening
/// `take_turn` yield identical sequences in identical order.
pub proof fn lemma_ranking_deterministic(s: Seq<Seq<char>>, r1: Seq<Seq<char>>, r2: Seq<
    Seq<char>,
>)
    requires
        r1 == top_words(s, 10),
        r2 == top_words(s, 10),
    ensures
        r1 == r2,
{
}

} // verus!
