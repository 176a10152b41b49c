//! Behavior of the candidate picker: construction filtering, ranking and
//! the pruning rules for each kind of feedback.

use wordle_picker::game::GameCell;
use wordle_picker::game::Reply;
use wordle_picker::game::Turn;
use wordle_picker::word_picker::unique_letters_per_word;
use wordle_picker::word_picker::HardModeWordPicker;

fn dict(words: &[&str]) -> Vec<String> {
    words.iter().map(|w| w.to_string()).collect()
}

fn turn(guess: &str, replies: [Reply; 5]) -> Turn {
    let letters: Vec<char> = guess.chars().collect();
    assert_eq!(letters.len(), 5);
    Turn([
        GameCell { letter: letters[0], reply: replies[0] },
        GameCell { letter: letters[1], reply: replies[1] },
        GameCell { letter: letters[2], reply: replies[2] },
        GameCell { letter: letters[3], reply: replies[3] },
        GameCell { letter: letters[4], reply: replies[4] },
    ])
}

#[test]
fn construction_filters_and_normalizes() {
    let picker = HardModeWordPicker::new(dict(&["apple", "ab", "ROBOT", "crane!"]));
    // "ab" is too short and "crane!" holds a non-letter; "ROBOT" is kept
    // lowercased.  Both survivors have four distinct letters, so they keep
    // their filter order and surface in reverse of it.
    assert_eq!(picker.remaining(), 2);
    assert_eq!(picker.top_10_words(), vec!["robot".to_string(), "apple".to_string()]);
}

#[test]
fn construction_ranks_by_distinct_letters() {
    let picker = HardModeWordPicker::new(dict(&["aabba", "abcde", "aabbc"]));
    // Storage order is ascending distinct-letter count: aabba (2),
    // aabbc (3), abcde (5); suggestions read it backwards.
    assert_eq!(
        picker.top_10_words(),
        vec!["abcde".to_string(), "aabbc".to_string(), "aabba".to_string()]
    );
}

#[test]
fn unique_letter_counts() {
    assert_eq!(unique_letters_per_word("sassy"), 3);
    assert_eq!(unique_letters_per_word("crane"), 5);
    assert_eq!(unique_letters_per_word("aaaaa"), 1);
    assert_eq!(unique_letters_per_word(""), 0);
}

#[test]
fn exact_match_keeps_only_position() {
    let mut picker = HardModeWordPicker::new(dict(&["crane", "brine", "canes"]));
    picker.remove_words_without_letter_in_position('c', 0);
    assert_eq!(picker.remaining(), 2);
    let words = picker.top_10_words();
    assert!(words.contains(&"crane".to_string()));
    assert!(words.contains(&"canes".to_string()));
}

#[test]
fn global_miss_removes_everywhere() {
    // No cell reports `c` as exact or present, so every word containing
    // `c` anywhere is removed; `built` shares no letter with the guess.
    let mut picker = HardModeWordPicker::new(dict(&["crane", "slate", "built"]));
    picker.take_turn(turn(
        "crane",
        [Reply::Miss, Reply::Miss, Reply::Miss, Reply::Miss, Reply::Miss],
    ));
    assert_eq!(picker.remaining(), 1);
    assert_eq!(picker.top_10_words(), vec!["built".to_string()]);
}

#[test]
fn repeat_miss_only_rules_out_position() {
    // Solution "sassy", guess "spass": the first and fourth `s` are exact,
    // the last `s` is a miss that is already accounted for.  A naive
    // global removal of `s` would wrongly eliminate "sassy".
    let mut picker = HardModeWordPicker::new(dict(&["sassy"]));
    picker.take_turn(turn(
        "spass",
        [Reply::Success, Reply::Miss, Reply::Partial, Reply::Success, Reply::Miss],
    ));
    assert_eq!(picker.remaining(), 1);
    assert_eq!(picker.top_10_words(), vec!["sassy".to_string()]);
}

#[test]
fn partial_requires_letter_elsewhere() {
    // `a` is present but not at position 0: "alate"-style words with `a`
    // first must go, words without `a` must go, words with `a` later stay.
    let mut picker = HardModeWordPicker::new(dict(&["abbey", "slate", "fjord"]));
    picker.take_turn(turn(
        "azzzz",
        [Reply::Partial, Reply::Miss, Reply::Miss, Reply::Miss, Reply::Miss],
    ));
    assert_eq!(picker.remaining(), 1);
    assert_eq!(picker.top_10_words(), vec!["slate".to_string()]);
}

#[test]
fn end_to_end_single_turn() {
    // Only `c` is exact; r, a, n, e are global misses.  "crane" itself
    // contains them, so the feedback is inconsistent with every entry and
    // the set empties, which signals a restart.
    let mut picker =
        HardModeWordPicker::new(dict(&["crane", "trace", "slate", "place", "grade"]));
    picker.take_turn(turn(
        "crane",
        [Reply::Success, Reply::Miss, Reply::Miss, Reply::Miss, Reply::Miss],
    ));
    assert_eq!(picker.remaining(), 0);
    assert_eq!(picker.top_10_words(), Vec::<String>::new());
}

#[test]
fn remaining_shrinks_monotonically() {
    let mut picker = HardModeWordPicker::new(dict(&[
        "crane", "trace", "slate", "place", "grade", "built", "fjord",
    ]));
    let mut last = picker.remaining();
    let turns = [
        turn("slate", [Reply::Miss, Reply::Miss, Reply::Partial, Reply::Miss, Reply::Miss]),
        turn("adorn", [Reply::Partial, Reply::Miss, Reply::Miss, Reply::Partial, Reply::Miss]),
        turn("crane", [Reply::Success, Reply::Success, Reply::Success, Reply::Success, Reply::Success]),
    ];
    for t in turns {
        picker.take_turn(t);
        let now = picker.remaining();
        assert!(now <= last);
        last = now;
    }
}

#[test]
fn exact_cell_twice_is_idempotent() {
    let mut once = HardModeWordPicker::new(dict(&["crane", "canes", "brine", "cargo"]));
    let exact_c = turn(
        "czzzz",
        [Reply::Success, Reply::Miss, Reply::Miss, Reply::Miss, Reply::Miss],
    );
    once.take_turn(exact_c);
    let after_once = once.top_10_words();
    once.take_turn(exact_c);
    assert_eq!(once.top_10_words(), after_once);
    assert_eq!(once.remaining(), after_once.len());
}

#[test]
fn ranking_is_deterministic() {
    let picker = HardModeWordPicker::new(dict(&["crane", "trace", "slate", "aabba"]));
    let first = picker.top_10_words();
    let second = picker.top_10_words();
    assert_eq!(first, second);
}

#[test]
fn top_10_caps_at_ten() {
    let words = [
        "aback", "abase", "abate", "abbey", "abbot", "abhor", "abide", "abled", "abode",
        "abort", "about", "above",
    ];
    let picker = HardModeWordPicker::new(dict(&words));
    assert_eq!(picker.remaining(), 12);
    assert_eq!(picker.top_10_words().len(), 10);
}

#[test]
fn pick_best_word_pops_strongest() {
    let mut picker = HardModeWordPicker::new(dict(&["aabba", "abcde"]));
    assert_eq!(picker.pick_best_word(), Some("abcde".to_string()));
    assert_eq!(picker.pick_best_word(), Some("aabba".to_string()));
    assert_eq!(picker.pick_best_word(), None);
    assert_eq!(picker.remaining(), 0);
}

#[test]
fn letter_frequencies_count_containing_words() {
    let picker = HardModeWordPicker::new(dict(&["crane", "canes", "built"]));
    let freqs = picker.letter_frequencies();
    assert_eq!(freqs.len(), 26);
    assert_eq!(freqs[(b'c' - b'a') as usize], 2);
    assert_eq!(freqs[(b'a' - b'a') as usize], 2);
    assert_eq!(freqs[(b'b' - b'a') as usize], 1);
    assert_eq!(freqs[(b'z' - b'a') as usize], 0);
    // A repeated letter still counts each word once.
    let doubled = HardModeWordPicker::new(dict(&["sassy"]));
    assert_eq!(doubled.letter_frequencies()[(b's' - b'a') as usize], 1);
}

#[test]
fn separate_remove_calls_compose() {
    let mut picker = HardModeWordPicker::new(dict(&["crane", "brine", "shine", "chess"]));
    picker.remove_words_not_containing('e');
    assert_eq!(picker.remaining(), 4);
    picker.remove_words_containing('c');
    assert_eq!(picker.remaining(), 2);
    picker.remove_words_with_letter_in_position('b', 0);
    assert_eq!(picker.top_10_words(), vec!["shine".to_string()]);
}
