//! The candidate picker: owns the set of dictionary words still consistent
//! with every turn seen so far, prunes it cell by cell, and ranks the
//! survivors so that words probing many distinct letters come first.

use vstd::prelude::*;

use crate::game::is_lower_letter;
use crate::game::word_has_letter;
use crate::game::word_ok;
use crate::game::GameCell;
use crate::game::Reply;
use crate::game::Turn;
use crate::game::NUM_LETTERS;
use crate::letters::is_ascii_letter;
use crate::letters::lower_word;
use crate::letters::to_lowercase;

verus! {

/// The words of `s` that do not contain the letter `l` anywhere,
/// in their original order.
pub open spec fn without_letter(s: Seq<Seq<char>>, l: char) -> Seq<Seq<char>> {
    s.filter(|w: Seq<char>| !word_has_letter(w, l))
}

/// The words of `s` that contain the letter `l` somewhere,
/// in their original order.
pub open spec fn with_letter(s: Seq<Seq<char>>, l: char) -> Seq<Seq<char>> {
    s.filter(|w: Seq<char>| word_has_letter(w, l))
}

/// The words of `s` whose character at position `p` is `l`,
/// in their original order.
pub open spec fn with_letter_at(s: Seq<Seq<char>>, l: char, p: int) -> Seq<Seq<char>> {
    s.filter(|w: Seq<char>| 0 <= p < w.len() && w[p] == l)
}

/// The words of `s` whose character at position `p` is not `l`,
/// in their original order.
pub open spec fn without_letter_at(s: Seq<Seq<char>>, l: char, p: int) -> Seq<Seq<char>> {
    s.filter(|w: Seq<char>| !(0 <= p < w.len() && w[p] == l))
}

/// Whether some other cell of the turn reports the same letter as cell `i`
/// with `Success` or `Partial` feedback.  When it does, a `Miss` for that
/// letter only rules out one position; otherwise it is a global miss.
pub open spec fn matched_elsewhere(t: Seq<GameCell>, i: int) -> bool {
    exists|j: int|
        0 <= j < t.len() && j != i && (#[trigger] t[j]).letter == t[i].letter && (t[j].reply
            is Success || t[j].reply is Partial)
}

/// Whether a candidate word survives cell `i` of the turn.
///
/// - `Success`: the word has the cell's letter at position `i`.
/// - `Partial`: the word contains the letter, but not at position `i`.
///   A weaker reading would assert containment alone; this crate adopts
///   the stricter rule, since a present letter is also confirmed wrong
///   at the guessed position.
/// - `Miss` with the letter matched elsewhere in the turn: only position
///   `i` is ruled out for the letter.
/// - `Miss` otherwise: the word must not contain the letter at all.
pub open spec fn cell_keeps(t: Seq<GameCell>, i: int, w: Seq<char>) -> bool {
    match t[i].reply {
        Reply::Success => 0 <= i < w.len() && w[i] == t[i].letter,
        Reply::Partial => word_has_letter(w, t[i].letter) && !(0 <= i < w.len() && w[i]
            == t[i].letter),
        Reply::Miss => if matched_elsewhere(t, i) {
            !(0 <= i < w.len() && w[i] == t[i].letter)
        } else {
            !word_has_letter(w, t[i].letter)
        },
    }
}

/// Whether a candidate word survives the first `n` cells of the turn.
pub open spec fn turn_keeps_upto(t: Seq<GameCell>, n: int, w: Seq<char>) -> bool {
    forall|i: int| 0 <= i < n ==> cell_keeps(t, i, w)
}

/// Whether a candidate word survives every cell of the turn.
pub open spec fn turn_keeps(t: Seq<GameCell>, w: Seq<char>) -> bool {
    turn_keeps_upto(t, t.len() as int, w)
}

/// The words of `s` surviving the first `n` cells of the turn, in order.
pub open spec fn apply_upto(t: Seq<GameCell>, n: int, s: Seq<Seq<char>>) -> Seq<Seq<char>> {
    s.filter(|w: Seq<char>| turn_keeps_upto(t, n, w))
}

/// The words of `s` surviving every cell of the turn, in order: the
/// candidate set after one full turn is applied.
pub open spec fn apply_turn(t: Seq<GameCell>, s: Seq<Seq<char>>) -> Seq<Seq<char>> {
    apply_upto(t, t.len() as int, s)
}

/// How many distinct characters the word holds: each position counts
/// exactly when its character does not occur earlier in the word.
pub open spec fn distinct_count(w: Seq<char>) -> nat
    decreases w.len(),
{
    if w.len() == 0 {
        0
    } else {
        distinct_count(w.drop_last()) + (if w.drop_last().contains(w.last()) {
            0nat
        } else {
            1nat
        })
    }
}

/// A usable dictionary entry: exactly five ASCII alphabetic characters,
/// in either case.
pub open spec fn entry_ok(w: Seq<char>) -> bool {
    &&& w.len() == NUM_LETTERS
    &&& forall|i: int| 0 <= i < w.len() ==> is_ascii_letter(#[trigger] w[i])
}

/// The usable entries of the dictionary, lowercased, in their original
/// order.
pub open spec fn normalize(dict: Seq<Seq<char>>) -> Seq<Seq<char>> {
    dict.filter(|w: Seq<char>| entry_ok(w)).map_values(|w: Seq<char>| lower_word(w))
}

/// The words of `s` with exactly `k` distinct letters, in their original
/// order.
pub open spec fn bucket(s: Seq<Seq<char>>, k: int) -> Seq<Seq<char>> {
    s.filter(|w: Seq<char>| distinct_count(w) == k)
}

/// The words of `s` ordered by ascending count of distinct letters, ties
/// keeping their original order: a stable sort on the distinct-letter key,
/// which for five-letter words is always between one and five.  Words with
/// many distinct letters sit at the end, where the suggestion ranking
/// starts.
pub open spec fn ranked(s: Seq<Seq<char>>) -> Seq<Seq<char>> {
    bucket(s, 1) + bucket(s, 2) + bucket(s, 3) + bucket(s, 4) + bucket(s, 5)
}

/// The suggestion ranking: up to `k` words read from the end of the
/// stored order backwards, so the words probing the most distinct letters
/// come first.
pub open spec fn top_words(s: Seq<Seq<char>>, k: int) -> Seq<Seq<char>> {
    Seq::new(if s.len() < k {
        s.len()
    } else {
        k as nat
    }, |i: int| s[s.len() - 1 - i])
}

/// Maintains the candidate set of one puzzle round.
///
/// The stored words are always well formed (five lowercase ASCII letters)
/// and the set only ever shrinks between construction and reset.
pub struct HardModeWordPicker {
    remaining_words: Vec<String>,
}

impl View for HardModeWordPicker {
    type V = Seq<Seq<char>>;

    closed spec fn view(&self) -> Seq<Seq<char>> {
        self.remaining_words.deep_view()
    }
}

impl HardModeWordPicker {
    /// Every candidate still held is a well-formed five-letter word.
    pub open spec fn wf(&self) -> bool {
        forall|i: int| 0 <= i < self@.len() ==> word_ok(#[trigger] self@[i])
    }

    /// Build a fresh candidate set from a dictionary: entries that are not
    /// exactly five ASCII alphabetic characters are silently dropped, the
    /// survivors are lowercased, and the result is ordered by ascending
    /// count of distinct letters with ties keeping their filter order.
    pub fn new(dictionary: Vec<String>) -> (picker: Self)
        ensures
            picker@ == ranked(normalize(dictionary.deep_view())),
            picker.wf(),
    {
        let ghost dictv = dictionary.deep_view();
        let mut normalized: Vec<String> = Vec::new();
        let n = dictionary.len();
        proof {
            assert(dictv.subrange(0, 0) =~= Seq::<Seq<char>>::empty());
            assert(normalize(dictv.subrange(0, 0)) =~= Seq::<Seq<char>>::empty()) by {
                reveal(Seq::filter);
            }
        }
        for i in 0..n
            invariant
                n == dictionary.len(),
                dictv == dictionary.deep_view(),
                normalized.deep_view() == normalize(dictv.subrange(0, i as int)),
                forall|k: int|
                    0 <= k < normalized.deep_view().len() ==> word_ok(
                        #[trigger] normalized.deep_view()[k],
                    ),
        {
            let w = &dictionary[i];
            let ghost prev = normalized.deep_view();
            if entry_valid(w.as_str()) {
                let lw = to_lowercase(w.as_str());
                normalized.push(lw);
                proof {
                    assert(normalized.deep_view() =~= prev.push(lower_word(dictv[i as int])));
                    lemma_lower_word_ok(dictv[i as int]);
                }
            }
            proof {
                assert(dictv.subrange(0, i + 1) =~= dictv.subrange(0, i as int).push(
                    dictv[i as int],
                ));
                lemma_normalize_push(dictv.subrange(0, i as int), dictv[i as int]);
            }
        }
        proof {
            assert(dictv.subrange(0, n as int) =~= dictv);
        }
        let mut words: Vec<String> = Vec::new();
        append_bucket(&mut words, &normalized, 1);
        append_bucket(&mut words, &normalized, 2);
        append_bucket(&mut words, &normalized, 3);
        append_bucket(&mut words, &normalized, 4);
        append_bucket(&mut words, &normalized, 5);
        proof {
            assert(words.deep_view() =~= ranked(normalize(dictv)));
        }
        HardModeWordPicker { remaining_words: words }
    }

    /// How many candidate words are still consistent with all feedback;
    /// zero signals an exhausted round that the caller should restart.
    pub fn remaining(&self) -> (n: usize)
        ensures
            n == self@.len(),
    {
        self.remaining_words.len()
    }

    /// The strongest remaining suggestion: the word probing the most
    /// distinct letters, removed from the candidate set; `None` once the
    /// set is exhausted.
    pub fn pick_best_word(&mut self) -> (r: Option<String>)
        ensures
            old(self)@.len() == 0 ==> r.is_none() && final(self)@ == old(self)@,
            old(self)@.len() > 0 ==> r.is_some() && r.unwrap()@ == old(self)@.last()
                && final(self)@ == old(self)@.drop_last(),
            old(self).wf() ==> final(self).wf(),
    {
        let ghost prev = self@;
        let r = self.remaining_words.pop();
        proof {
            if prev.len() > 0 {
                assert(self@ =~= prev.drop_last());
            } else {
                assert(self@ =~= prev);
            }
        }
        r
    }

    /// The suggestion ranking: up to ten candidates read from the end of
    /// the stored order backwards, so words probing the most distinct
    /// letters come first; ties surface in reverse storage order.
    pub fn top_10_words(&self) -> (r: Vec<String>)
        ensures
            r.deep_view() == top_words(self@, 10),
    {
        let n = self.remaining_words.len();
        let count: usize = if n < 10 {
            n
        } else {
            10
        };
        let mut r: Vec<String> = Vec::new();
        for i in 0..count
            invariant
                count == (if self@.len() < 10 {
                    self@.len()
                } else {
                    10
                }),
                n == self.remaining_words.len(),
                n == self@.len(),
                count <= n,
                r.deep_view().len() == i,
                forall|j: int| 0 <= j < i ==> r.deep_view()[j] == self@[n - 1 - j],
        {
            let ghost prev = r.deep_view();
            let w = &self.remaining_words[n - 1 - i];
            r.push(w.clone());
            proof {
                assert(r.deep_view() =~= prev.push(self@[n - 1 - i]));
            }
        }
        proof {
            assert(r.deep_view() =~= top_words(self@, 10));
        }
        r
    }

    /// For each letter of the alphabet, in order from `a` to `z`, how many
    /// remaining candidates contain it at least once; a display aid, not
    /// part of pruning.
    pub fn letter_frequencies(&self) -> (freqs: Vec<usize>)
        ensures
            freqs@.len() == 26,
            forall|k: int|
                0 <= k < 26 ==> freqs@[k] == with_letter(self@, ((97 + k) as char)).len(),
    {
        let mut freqs: Vec<usize> = Vec::new();
        let mut letter_index: u8 = 0;
        while letter_index < 26
            invariant
                letter_index <= 26,
                freqs@.len() == letter_index,
                forall|k: int|
                    0 <= k < letter_index ==> freqs@[k] == with_letter(
                        self@,
                        ((97 + k) as char),
                    ).len(),
            decreases 26 - letter_index,
        {
            let letter = (97 + letter_index) as char;
            let count = self.count_words_containing(letter);
            freqs.push(count);
            letter_index += 1;
        }
        freqs
    }

    /// How many candidates contain the letter at least once.
    fn count_words_containing(&self, letter: char) -> (count: usize)
        ensures
            count == with_letter(self@, letter).len(),
    {
        let n = self.remaining_words.len();
        let mut count: usize = 0;
        proof {
            assert(self@.subrange(0, 0) =~= Seq::<Seq<char>>::empty());
            assert(with_letter(self@.subrange(0, 0), letter) =~= Seq::<Seq<char>>::empty()) by {
                reveal(Seq::filter);
            }
        }
        for i in 0..n
            invariant
                n == self.remaining_words.len(),
                n == self@.len(),
                count <= i,
                count == with_letter(self@.subrange(0, i as int), letter).len(),
        {
            proof {
                assert(self@.subrange(0, i + 1) =~= self@.subrange(0, i as int).push(
                    self@[i as int],
                ));
                lemma_with_letter_push(self@.subrange(0, i as int), letter, self@[i as int]);
            }
            let w = &self.remaining_words[i];
            if word_contains(w.as_str(), letter) {
                count += 1;
            }
        }
        proof {
            assert(self@.subrange(0, n as int) =~= self@);
        }
        count
    }

    /// Drop every candidate that contains `illegal_letter` anywhere:
    /// the letter was a miss with no matching cell elsewhere in its turn.
    pub fn remove_words_containing(&mut self, illegal_letter: char)
        requires
            old(self).wf(),
            is_lower_letter(illegal_letter),
        ensures
            final(self)@ == without_letter(old(self)@, illegal_letter),
            final(self).wf(),
    {
        let n = self.remaining_words.len();
        let mut kept: Vec<String> = Vec::new();
        for i in 0..n
            invariant
                n == self.remaining_words.len(),
                self == old(self),
                self.wf(),
                kept.deep_view() == without_letter(self@.subrange(0, i as int), illegal_letter),
                forall|k: int|
                    0 <= k < kept.deep_view().len() ==> word_ok(#[trigger] kept.deep_view()[k]),
        {
            let w = &self.remaining_words[i];
            let ghost prev = kept.deep_view();
            if !word_contains(w.as_str(), illegal_letter) {
                kept.push(w.clone());
                proof {
                    assert(kept.deep_view() =~= prev.push(self@[i as int]));
                }
            }
            proof {
                assert(self@.subrange(0, i + 1) =~= self@.subrange(0, i as int).push(
                    self@[i as int],
                ));
                lemma_without_letter_push(
                    self@.subrange(0, i as int),
                    illegal_letter,
                    self@[i as int],
                );
            }
        }
        proof {
            assert(self@.subrange(0, n as int) =~= self@);
        }
        self.remaining_words = kept;
    }
    /// Keep only candidates whose character at `required_position` is
    /// `required_letter`: the letter was an exact match there.
    pub fn remove_words_without_letter_in_position(
        &mut self,
        required_letter: char,
        required_position: usize,
    )
        requires
            old(self).wf(),
            is_lower_letter(required_letter),
            required_position < NUM_LETTERS,
        ensures
            final(self)@ == with_letter_at(
                old(self)@,
                required_letter,
                required_position as int,
            ),
            final(self).wf(),
    {
        let n = self.remaining_words.len();
        let mut kept: Vec<String> = Vec::new();
        for i in 0..n
            invariant
                n == self.remaining_words.len(),
                self == old(self),
                self.wf(),
                required_position < NUM_LETTERS,
                kept.deep_view() == with_letter_at(
                    self@.subrange(0, i as int),
                    required_letter,
                    required_position as int,
                ),
                forall|k: int|
                    0 <= k < kept.deep_view().len() ==> word_ok(#[trigger] kept.deep_view()[k]),
        {
            let w = &self.remaining_words[i];
            let ghost prev = kept.deep_view();
            if word_at_position_is(w.as_str(), required_position, required_letter) {
                kept.push(w.clone());
                proof {
                    assert(kept.deep_view() =~= prev.push(self@[i as int]));
                }
            }
            proof {
                assert(self@.subrange(0, i + 1) =~= self@.subrange(0, i as int).push(
                    self@[i as int],
                ));
                lemma_with_letter_at_push(
                    self@.subrange(0, i as int),
                    required_letter,
                    required_position as int,
                    self@[i as int],
                );
            }
        }
        proof {
            assert(self@.subrange(0, n as int) =~= self@);
        }
        self.remaining_words = kept;
    }

    /// Drop every candidate whose character at `required_position` is
    /// `illegal_letter`: the letter is known to be wrong at that position.
    pub fn remove_words_with_letter_in_position(
        &mut self,
        illegal_letter: char,
        required_position: usize,
    )
        requires
            old(self).wf(),
            is_lower_letter(illegal_letter),
            required_position < NUM_LETTERS,
        ensures
            final(self)@ == without_letter_at(
                old(self)@,
                illegal_letter,
                required_position as int,
            ),
            final(self).wf(),
    {
        let n = self.remaining_words.len();
        let mut kept: Vec<String> = Vec::new();
        for i in 0..n
            invariant
                n == self.remaining_words.len(),
                self == old(self),
                self.wf(),
                required_position < NUM_LETTERS,
                kept.deep_view() == without_letter_at(
                    self@.subrange(0, i as int),
                    illegal_letter,
                    required_position as int,
                ),
                forall|k: int|
                    0 <= k < kept.deep_view().len() ==> word_ok(#[trigger] kept.deep_view()[k]),
        {
            let w = &self.remaining_words[i];
            let ghost prev = kept.deep_view();
            if !word_at_position_is(w.as_str(), required_position, illegal_letter) {
                kept.push(w.clone());
                proof {
                    assert(kept.deep_view() =~= prev.push(self@[i as int]));
                }
            }
            proof {
                assert(self@.subrange(0, i + 1) =~= self@.subrange(0, i as int).push(
                    self@[i as int],
                ));
                lemma_without_letter_at_push(
                    self@.subrange(0, i as int),
                    illegal_letter,
                    required_position as int,
                    self@[i as int],
                );
            }
        }
        proof {
            assert(self@.subrange(0, n as int) =~= self@);
        }
        self.remaining_words = kept;
    }

    /// Apply every cell of the turn, in position order, to the candidate
    /// set, leaving exactly the words consistent with the whole turn.
    ///
    /// A `Partial` cell both requires containment and rules out the guessed
    /// position; a `Miss` cell whose letter also appears elsewhere in the
    /// turn as `Success` or `Partial` only rules out its own position,
    /// while an unmatched `Miss` removes every word containing the letter.
    pub fn take_turn(&mut self, turn: Turn)
        requires
            old(self).wf(),
            turn.wf(),
        ensures
            final(self)@ == apply_turn(turn@, old(self)@),
            final(self).wf(),
    {
        let Turn(guess_cells) = turn;
        let ghost t = turn@;
        proof {
            lemma_apply_upto_zero(t, self@);
        }
        for index in 0..5
            invariant
                self.wf(),
                t == guess_cells@,
                t.len() == 5,
                forall|k: int| 0 <= k < t.len() ==> is_lower_letter((#[trigger] t[k]).letter),
                self@ == apply_upto(t, index as int, old(self)@),
        {
            let cell = guess_cells[index];
            let ghost before = self@;
            match cell.reply {
                Reply::Success => {
                    self.remove_words_without_letter_in_position(cell.letter, index);
                    proof {
                        lemma_apply_success(t, index as int, old(self)@);
                    }
                },
                Reply::Partial => {
                    self.remove_words_not_containing(cell.letter);
                    self.remove_words_with_letter_in_position(cell.letter, index);
                    proof {
                        lemma_apply_partial(t, index as int, old(self)@);
                    }
                },
                Reply::Miss => {
                    if cell_matched_elsewhere(&guess_cells, index) {
                        self.remove_words_with_letter_in_position(cell.letter, index);
                        proof {
                            lemma_apply_miss_matched(t, index as int, old(self)@);
                        }
                    } else {
                        self.remove_words_containing(cell.letter);
                        proof {
                            lemma_apply_miss_global(t, index as int, old(self)@);
                        }
                    }
                },
            }
        }
    }

    /// Keep only candidates that contain `required_letter` somewhere:
    /// the letter is known to be in the solution.
    pub fn remove_words_not_containing(&mut self, required_letter: char)
        requires
            old(self).wf(),
            is_lower_letter(required_letter),
        ensures
            final(self)@ == with_letter(old(self)@, required_letter),
            final(self).wf(),
    {
        let n = self.remaining_words.len();
        let mut kept: Vec<String> = Vec::new();
        for i in 0..n
            invariant
                n == self.remaining_words.len(),
                self == old(self),
                self.wf(),
                kept.deep_view() == with_letter(self@.subrange(0, i as int), required_letter),
                forall|k: int|
                    0 <= k < kept.deep_view().len() ==> word_ok(#[trigger] kept.deep_view()[k]),
        {
            let w = &self.remaining_words[i];
            let ghost prev = kept.deep_view();
            if word_contains(w.as_str(), required_letter) {
                kept.push(w.clone());
                proof {
                    assert(kept.deep_view() =~= prev.push(self@[i as int]));
                }
            }
            proof {
                assert(self@.subrange(0, i + 1) =~= self@.subrange(0, i as int).push(
                    self@[i as int],
                ));
                lemma_with_letter_push(
                    self@.subrange(0, i as int),
                    required_letter,
                    self@[i as int],
                );
            }
        }
        proof {
            assert(self@.subrange(0, n as int) =~= self@);
        }
        self.remaining_words = kept;
    }
}

/// A word survives the first `i + 1` cells exactly when it survives the
/// first `i` cells and cell `i` itself.
pub(crate) proof fn lemma_upto_split(t: Seq<GameCell>, i: int, w: Seq<char>)
    requires
        0 <= i,
    ensures
        turn_keeps_upto(t, i + 1, w) <==> (turn_keeps_upto(t, i, w) && cell_keeps(t, i, w)),
{
    if turn_keeps_upto(t, i, w) && cell_keeps(t, i, w) {
        assert forall|k: int| 0 <= k < i + 1 implies cell_keeps(t, k, w) by {
            if k < i {
                assert(cell_keeps(t, k, w));
            }
        }
    }
    if turn_keeps_upto(t, i + 1, w) {
        assert(cell_keeps(t, i, w));
        assert forall|k: int| 0 <= k < i implies cell_keeps(t, k, w) by {
            assert(cell_keeps(t, k, w));
        }
    }
}

/// Appending a word to the candidate list keeps it in the partially pruned
/// list exactly when it survives the first `n` cells.
pub(crate) proof fn lemma_apply_upto_push(t: Seq<GameCell>, n: int, s: Seq<Seq<char>>, w: Seq<char>)
    ensures
        apply_upto(t, n, s.push(w)) == (if turn_keeps_upto(t, n, w) {
            apply_upto(t, n, s).push(w)
        } else {
            apply_upto(t, n, s)
        }),
{
    let u = s.push(w);
    assert(u.drop_last() =~= s);
    assert(u.last() == w);
    reveal(Seq::filter);
}

/// Applying no cell of a turn leaves the candidate set unchanged.
pub(crate) proof fn lemma_apply_upto_zero(t: Seq<GameCell>, s: Seq<Seq<char>>)
    ensures
        apply_upto(t, 0, s) == s,
    decreases s.len(),
{
    reveal(Seq::filter);
    if s.len() > 0 {
        lemma_apply_upto_zero(t, s.drop_last());
        assert(apply_upto(t, 0, s) =~= s);
    }
}

/// Pruning on an exact match at cell `i` advances the partial application
/// of the turn from `i` to `i + 1` cells.
proof fn lemma_apply_success(t: Seq<GameCell>, i: int, s: Seq<Seq<char>>)
    requires
        0 <= i < t.len(),
        t[i].reply is Success,
    ensures
        with_letter_at(apply_upto(t, i, s), t[i].letter, i) == apply_upto(t, i + 1, s),
    decreases s.len(),
{
    let l = t[i].letter;
    reveal(Seq::filter);
    if s.len() > 0 {
        let d = s.drop_last();
        let x = s.last();
        lemma_apply_success(t, i, d);
        lemma_upto_split(t, i, x);
        assert(s =~= d.push(x));
        lemma_apply_upto_push(t, i, d, x);
        lemma_apply_upto_push(t, i + 1, d, x);
        if turn_keeps_upto(t, i, x) {
            lemma_with_letter_at_push(apply_upto(t, i, d), l, i, x);
        }
    }
}

/// Pruning on a partial match at cell `i` (containment plus exclusion of
/// the guessed position) advances the partial application of the turn
/// from `i` to `i + 1` cells.
proof fn lemma_apply_partial(t: Seq<GameCell>, i: int, s: Seq<Seq<char>>)
    requires
        0 <= i < t.len(),
        t[i].reply is Partial,
    ensures
        without_letter_at(with_letter(apply_upto(t, i, s), t[i].letter), t[i].letter, i)
            == apply_upto(t, i + 1, s),
    decreases s.len(),
{
    let l = t[i].letter;
    reveal(Seq::filter);
    if s.len() > 0 {
        let d = s.drop_last();
        let x = s.last();
        lemma_apply_partial(t, i, d);
        lemma_upto_split(t, i, x);
        assert(s =~= d.push(x));
        lemma_apply_upto_push(t, i, d, x);
        lemma_apply_upto_push(t, i + 1, d, x);
        if turn_keeps_upto(t, i, x) {
            lemma_with_letter_push(apply_upto(t, i, d), l, x);
            if word_has_letter(x, l) {
                lemma_without_letter_at_push(with_letter(apply_upto(t, i, d), l), l, i, x);
            }
        }
    }
}

/// Pruning a missed letter that is matched elsewhere in the turn (only the
/// guessed position is ruled out) advances the partial application of the
/// turn from `i` to `i + 1` cells.
proof fn lemma_apply_miss_matched(t: Seq<GameCell>, i: int, s: Seq<Seq<char>>)
    requires
        0 <= i < t.len(),
        t[i].reply is Miss,
        matched_elsewhere(t, i),
    ensures
        without_letter_at(apply_upto(t, i, s), t[i].letter, i) == apply_upto(t, i + 1, s),
    decreases s.len(),
{
    let l = t[i].letter;
    reveal(Seq::filter);
    if s.len() > 0 {
        let d = s.drop_last();
        let x = s.last();
        lemma_apply_miss_matched(t, i, d);
        lemma_upto_split(t, i, x);
        assert(s =~= d.push(x));
        lemma_apply_upto_push(t, i, d, x);
        lemma_apply_upto_push(t, i + 1, d, x);
        if turn_keeps_upto(t, i, x) {
            lemma_without_letter_at_push(apply_upto(t, i, d), l, i, x);
        }
    }
}

/// Pruning a globally missed letter (no matching cell elsewhere in the
/// turn, so no candidate may contain it) advances the partial application
/// of the turn from `i` to `i + 1` cells.
proof fn lemma_apply_miss_global(t: Seq<GameCell>, i: int, s: Seq<Seq<char>>)
    requires
        0 <= i < t.len(),
        t[i].reply is Miss,
        !matched_elsewhere(t, i),
    ensures
        without_letter(apply_upto(t, i, s), t[i].letter) == apply_upto(t, i + 1, s),
    decreases s.len(),
{
    let l = t[i].letter;
    reveal(Seq::filter);
    if s.len() > 0 {
        let d = s.drop_last();
        let x = s.last();
        lemma_apply_miss_global(t, i, d);
        lemma_upto_split(t, i, x);
        assert(s =~= d.push(x));
        lemma_apply_upto_push(t, i, d, x);
        lemma_apply_upto_push(t, i + 1, d, x);
        if turn_keeps_upto(t, i, x) {
            lemma_without_letter_push(apply_upto(t, i, d), l, x);
        }
    }
}

/// Whether some other cell of the array reports the same letter as cell
/// `index` with `Success` or `Partial` feedback.
fn cell_matched_elsewhere(cells: &[GameCell; 5], index: usize) -> (b: bool)
    requires
        index < 5,
    ensures
        b == matched_elsewhere(cells@, index as int),
{
    let letter = cells[index].letter;
    let mut j: usize = 0;
    while j < 5
        invariant
            j <= 5,
            index < 5,
            letter == cells@[index as int].letter,
            forall|k: int|
                0 <= k < j ==> !(k != index && (#[trigger] cells@[k]).letter == letter && (
                cells@[k].reply is Success || cells@[k].reply is Partial)),
        decreases 5 - j,
    {
        if j != index && cells[j].letter == letter && (cells[j].reply == Reply::Success
            || cells[j].reply == Reply::Partial) {
            assert(matched_elsewhere(cells@, index as int));
            return true;
        }
        j += 1;
    }
    false
}

/// Appending a word to the candidate list keeps it in the pruned list
/// exactly when it avoids the letter.
pub(crate) proof fn lemma_without_letter_push(s: Seq<Seq<char>>, l: char, w: Seq<char>)
    ensures
        without_letter(s.push(w), l) == (if !word_has_letter(w, l) {
            without_letter(s, l).push(w)
        } else {
            without_letter(s, l)
        }),
{
    let t = s.push(w);
    assert(t.drop_last() =~= s);
    assert(t.last() == w);
    reveal(Seq::filter);
}

/// Appending a word to the candidate list keeps it in the pruned list
/// exactly when it contains the letter.
pub(crate) proof fn lemma_with_letter_push(s: Seq<Seq<char>>, l: char, w: Seq<char>)
    ensures
        with_letter(s.push(w), l) == (if word_has_letter(w, l) {
            with_letter(s, l).push(w)
        } else {
            with_letter(s, l)
        }),
{
    let t = s.push(w);
    assert(t.drop_last() =~= s);
    assert(t.last() == w);
    reveal(Seq::filter);
}

/// Appending a word to the candidate list keeps it in the pruned list
/// exactly when it has the letter at the position.
pub(crate) proof fn lemma_with_letter_at_push(s: Seq<Seq<char>>, l: char, p: int, w: Seq<char>)
    ensures
        with_letter_at(s.push(w), l, p) == (if 0 <= p < w.len() && w[p] == l {
            with_letter_at(s, l, p).push(w)
        } else {
            with_letter_at(s, l, p)
        }),
{
    let t = s.push(w);
    assert(t.drop_last() =~= s);
    assert(t.last() == w);
    reveal(Seq::filter);
}

/// Appending a word to the candidate list keeps it in the pruned list
/// exactly when it lacks the letter at the position.
pub(crate) proof fn lemma_without_letter_at_push(s: Seq<Seq<char>>, l: char, p: int, w: Seq<char>)
    ensures
        without_letter_at(s.push(w), l, p) == (if !(0 <= p < w.len() && w[p] == l) {
            without_letter_at(s, l, p).push(w)
        } else {
            without_letter_at(s, l, p)
        }),
{
    let t = s.push(w);
    assert(t.drop_last() =~= s);
    assert(t.last() == w);
    reveal(Seq::filter);
}

/// How many distinct letters the word holds, counting each position whose
/// character does not occur earlier in the word.
pub fn unique_letters_per_word(word: &str) -> (n: usize)
    ensures
        n as nat == distinct_count(word@),
{
    let len = word.unicode_len();
    let mut count: usize = 0;
    let mut i: usize = 0;
    while i < len
        invariant
            len == word@.len(),
            i <= len,
            count <= i,
            count as nat == distinct_count(word@.take(i as int)),
        decreases len - i,
    {
        let c = word.get_char(i);
        let mut seen_before = false;
        let mut k: usize = 0;
        while k < i
            invariant
                i < len,
                len == word@.len(),
                k <= i,
                c == word@[i as int],
                seen_before == exists|m: int| 0 <= m < k && word@[m] == c,
            decreases i - k,
        {
            if word.get_char(k) == c {
                seen_before = true;
            }
            k += 1;
        }
        proof {
            assert(word@.take(i + 1).drop_last() =~= word@.take(i as int));
            assert(word@.take(i + 1).last() == word@[i as int]);
            if seen_before {
                let m = choose|m: int| 0 <= m < i && word@[m] == c;
                assert(word@.take(i as int)[m] == c);
            }
            if word@.take(i as int).contains(c) {
                let m = choose|m: int| 0 <= m < i && word@.take(i as int)[m] == c;
                assert(word@[m] == c);
            }
            assert(seen_before == word@.take(i as int).contains(c));
        }
        if !seen_before {
            count += 1;
        }
        i += 1;
    }
    proof {
        assert(word@.take(len as int) =~= word@);
    }
    count
}

/// Whether the entry can join the dictionary: exactly five ASCII
/// alphabetic characters.
fn entry_valid(word: &str) -> (b: bool)
    ensures
        b == entry_ok(word@),
{
    let len = word.unicode_len();
    if len != NUM_LETTERS {
        return false;
    }
    let mut i: usize = 0;
    while i < len
        invariant
            len == word@.len(),
            i <= len,
            forall|k: int| 0 <= k < i ==> is_ascii_letter(#[trigger] word@[k]),
        decreases len - i,
    {
        let c = word.get_char(i);
        if !((c >= 'a' && c <= 'z') || (c >= 'A' && c <= 'Z')) {
            return false;
        }
        i += 1;
    }
    true
}

/// Lowercasing a usable dictionary entry yields a well-formed word.
proof fn lemma_lower_word_ok(w: Seq<char>)
    requires
        entry_ok(w),
    ensures
        word_ok(lower_word(w)),
{
    assert forall|i: int| 0 <= i < lower_word(w).len() implies is_lower_letter(
        #[trigger] lower_word(w)[i],
    ) by {
        assert(is_ascii_letter(w[i]));
        crate::letters::lemma_lower_char_letter(w[i]);
    }
}

/// Append to `dst` every word of `src` that has exactly `k` distinct
/// letters, keeping the order of `src`.
fn append_bucket(dst: &mut Vec<String>, src: &Vec<String>, k: usize)
    requires
        forall|i: int|
            0 <= i < src.deep_view().len() ==> word_ok(#[trigger] src.deep_view()[i]),
        forall|i: int|
            0 <= i < old(dst).deep_view().len() ==> word_ok(#[trigger] old(dst).deep_view()[i]),
    ensures
        final(dst).deep_view() == old(dst).deep_view() + bucket(src.deep_view(), k as int),
        forall|i: int|
            0 <= i < final(dst).deep_view().len() ==> word_ok(#[trigger] final(dst).deep_view()[i]),
{
    let ghost srcv = src.deep_view();
    let n = src.len();
    proof {
        assert(srcv.subrange(0, 0) =~= Seq::<Seq<char>>::empty());
        assert(bucket(srcv.subrange(0, 0), k as int) =~= Seq::<Seq<char>>::empty()) by {
            reveal(Seq::filter);
        }
        assert(dst.deep_view() =~= dst.deep_view() + bucket(srcv.subrange(0, 0), k as int));
    }
    for i in 0..n
        invariant
            n == src.len(),
            srcv == src.deep_view(),
            forall|j: int| 0 <= j < srcv.len() ==> word_ok(#[trigger] srcv[j]),
            dst.deep_view() == old(dst).deep_view() + bucket(srcv.subrange(0, i as int), k as int),
            forall|j: int|
                0 <= j < dst.deep_view().len() ==> word_ok(#[trigger] dst.deep_view()[j]),
    {
        let w = &src[i];
        let ghost prev = dst.deep_view();
        if unique_letters_per_word(w.as_str()) == k {
            dst.push(w.clone());
            proof {
                assert(dst.deep_view() =~= prev.push(srcv[i as int]));
            }
        }
        proof {
            assert(srcv.subrange(0, i + 1) =~= srcv.subrange(0, i as int).push(srcv[i as int]));
            lemma_bucket_push(srcv.subrange(0, i as int), k as int, srcv[i as int]);
            assert(old(dst).deep_view() + bucket(srcv.subrange(0, i as int), k as int).push(
                srcv[i as int],
            ) =~= (old(dst).deep_view() + bucket(srcv.subrange(0, i as int), k as int)).push(
                srcv[i as int],
            ));
        }
    }
    proof {
        assert(srcv.subrange(0, n as int) =~= srcv);
    }
}

/// Adding an entry to the dictionary extends the normalized list by its
/// lowercased form exactly when the entry is usable.
proof fn lemma_normalize_push(d: Seq<Seq<char>>, w: Seq<char>)
    ensures
        normalize(d.push(w)) == (if entry_ok(w) {
            normalize(d).push(lower_word(w))
        } else {
            normalize(d)
        }),
{
    let t = d.push(w);
    assert(t.drop_last() =~= d);
    assert(t.last() == w);
    reveal(Seq::filter);
    if entry_ok(w) {
        assert(t.filter(|v: Seq<char>| entry_ok(v)) == d.filter(|v: Seq<char>| entry_ok(v)).push(
            w,
        ));
        assert(normalize(t) =~= normalize(d).push(lower_word(w)));
    }
}

/// Appending a word to a list extends its `k`-distinct-letters bucket by
/// that word exactly when the word has `k` distinct letters.
proof fn lemma_bucket_push(s: Seq<Seq<char>>, k: int, w: Seq<char>)
    ensures
        bucket(s.push(w), k) == (if distinct_count(w) == k {
            bucket(s, k).push(w)
        } else {
            bucket(s, k)
        }),
{
    let t = s.push(w);
    assert(t.drop_last() =~= s);
    assert(t.last() == w);
    reveal(Seq::filter);
}

/// Whether the word's character at position `p` is `letter`; false when the
/// word is too short to have such a position.
fn word_at_position_is(word: &str, p: usize, letter: char) -> (b: bool)
    ensures
        b == (p < word@.len() && word@[p as int] == letter),
{
    let n = word.unicode_len();
    if p < n {
        word.get_char(p) == letter
    } else {
        false
    }
}

/// Whether the word contains the letter at any position.
fn word_contains(word: &str, letter: char) -> (b: bool)
    ensures
        b == word_has_letter(word@, letter),
{
    let n = word.unicode_len();
    let mut j: usize = 0;
    while j < n
        invariant
            n == word@.len(),
            j <= n,
            forall|k: int| 0 <= k < j ==> word@[k] != letter,
        decreases n - j,
    {
        if word.get_char(j) == letter {
            assert(word@[j as int] == letter);
            return true;
        }
        j += 1;
    }
    false
}

} // verus!
