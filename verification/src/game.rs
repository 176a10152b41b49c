//! Value types shared by the whole solver: per-letter feedback, cells and
//! turns, together with the spec-level vocabulary for words and letters.

use vstd::prelude::*;

verus! {

/// Word length for guessing and dictionary: how many letter slots a guess has.
pub const NUM_LETTERS: usize = 5;

/// Maximum number of guesses in a game; after this many the dictionary resets.
pub const MAX_GUESSES: usize = 6;

/// The answer given for one letter immediately after submitting a guess.
#[derive(Debug, Copy, Clone, Eq, PartialEq, Structural)]
pub enum Reply {
    /// Letter matches this exact position in the solution (green).
    Success,
    /// Letter, as submitted at this position, matches no unaccounted
    /// occurrence in the solution (gray).
    Miss,
    /// Letter exists somewhere in the solution but not here (yellow).
    Partial,
}

/// A single cell of a turn: one guessed letter paired with its feedback.
#[derive(Debug, Copy, Clone, Eq, PartialEq, Structural)]
pub struct GameCell {
    /// The guessed letter, lowercase ASCII alphabetic.
    pub letter: char,
    /// The feedback for that letter at this position.
    pub reply: Reply,
}

/// One guess and its feedback, zipped by slot: cell `i` pairs the guessed
/// word's letter at position `i` with the reply for that position.
#[derive(Debug, Copy, Clone)]
pub struct Turn(pub [GameCell; 5]);

impl View for Turn {
    type V = Seq<GameCell>;

    open spec fn view(&self) -> Seq<GameCell> {
        self.0@
    }
}

/// A lowercase ASCII alphabetic letter, the only kind a well-formed word
/// or turn ever holds.
pub open spec fn is_lower_letter(c: char) -> bool {
    'a' <= c && c <= 'z'
}

/// A well-formed candidate word: exactly five lowercase ASCII letters.
pub open spec fn word_ok(w: Seq<char>) -> bool {
    &&& w.len() == NUM_LETTERS
    &&& forall|i: int| 0 <= i < w.len() ==> is_lower_letter(#[trigger] w[i])
}

/// The word contains the letter at some position.
pub open spec fn word_has_letter(w: Seq<char>, c: char) -> bool {
    exists|i: int| 0 <= i < w.len() && w[i] == c
}

/// A well-formed turn: five cells, each holding a lowercase ASCII letter.
pub open spec fn turn_ok(t: Seq<GameCell>) -> bool {
    &&& t.len() == NUM_LETTERS
    &&& forall|i: int| 0 <= i < t.len() ==> is_lower_letter((#[trigger] t[i]).letter)
}

impl Turn {
    /// Whether every cell of this turn holds a lowercase ASCII letter.
    pub open spec fn wf(&self) -> bool {
        turn_ok(self@)
    }
}

} // verus!
