//! Interactive solver core for a five-letter word-guessing puzzle.
//!
//! The crate keeps the set of dictionary words that are still consistent
//! with every piece of per-letter feedback seen so far, prunes that set
//! turn by turn, and ranks the survivors so the most informative guesses
//! come first.

pub mod game;
pub mod laws;
pub mod parser;
pub mod letters;
pub mod word_picker;

pub use game::GameCell;
pub use game::Reply;
pub use game::Turn;
pub use game::MAX_GUESSES;
pub use game::NUM_LETTERS;
