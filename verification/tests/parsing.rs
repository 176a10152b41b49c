//! Behavior of the line parser: trimming, normalization, command and
//! reply recognition, and turn assembly.

use wordle_picker::game::Reply;
use wordle_picker::letters::str_eq;
use wordle_picker::letters::to_lowercase;
use wordle_picker::parser::trim_ascii;
use wordle_picker::parser::is_valid_guess;
use wordle_picker::parser::parse_reply;
use wordle_picker::parser::Parser;
use wordle_picker::parser::ReadTurnFlags;

#[test]
fn trims_ascii_whitespace() {
    assert_eq!(trim_ascii("  crane \t\r\n"), "crane");
    assert_eq!(trim_ascii("crane"), "crane");
    assert_eq!(trim_ascii("   \t  "), "");
    assert_eq!(trim_ascii(""), "");
    assert_eq!(trim_ascii(" a b "), "a b");
}

#[test]
fn lowercases_ascii_only() {
    assert_eq!(to_lowercase("CrAnE"), "crane");
    assert_eq!(to_lowercase("robot"), "robot");
    assert_eq!(to_lowercase("A1-Z"), "a1-z");
}

#[test]
fn string_equality_by_characters() {
    assert!(str_eq("crane", "crane"));
    assert!(!str_eq("crane", "crank"));
    assert!(!str_eq("crane", "cran"));
    assert!(str_eq("", ""));
}

#[test]
fn recognizes_exit_commands() {
    let parser = Parser::new();
    for line in ["exit", "quit", "q", "  EXIT  ", "Quit"] {
        assert!(matches!(parser.parse_input(line), Err(ReadTurnFlags::Exit(_))), "{line}");
    }
}

#[test]
fn recognizes_winning_reply() {
    let parser = Parser::new();
    assert!(matches!(parser.parse_input("+++++"), Err(ReadTurnFlags::Win)));
    assert!(matches!(parser.parse_input(" +++++ "), Err(ReadTurnFlags::Win)));
}

#[test]
fn hands_back_five_character_words() {
    let parser = Parser::new();
    match parser.parse_input("  CRANE  ") {
        Ok(Some(word)) => assert_eq!(word, "crane"),
        _ => panic!("expected a word"),
    }
    assert!(matches!(parser.parse_input("abcdef"), Ok(None)));
    assert!(matches!(parser.parse_input("abcd"), Ok(None)));
    assert!(matches!(parser.parse_input(""), Ok(None)));
    // Five characters are handed back even when they are not all letters;
    // guess validation is a separate step, as it is at the prompt.
    assert!(matches!(parser.parse_input("++++."), Ok(Some(_))));
}

#[test]
fn validates_guesses() {
    assert!(is_valid_guess("crane"));
    assert!(!is_valid_guess("cran3"));
    assert!(!is_valid_guess("cran"));
    assert!(!is_valid_guess("cranes"));
    assert!(!is_valid_guess("CRANE"));
}

#[test]
fn parses_reply_symbols() {
    let replies = parse_reply("+.-.+").expect("valid reply");
    assert_eq!(
        replies,
        vec![Reply::Success, Reply::Miss, Reply::Partial, Reply::Miss, Reply::Success]
    );
    assert!(parse_reply("+++x+").is_none());
    assert!(parse_reply("++++").is_none());
    assert!(parse_reply("++++++").is_none());
}

#[test]
fn assembles_turns_in_order() {
    let replies = parse_reply("+.-.+").expect("valid reply");
    let turn = Parser::read_turn("crane", &replies);
    let letters: Vec<char> = turn.0.iter().map(|c| c.letter).collect();
    assert_eq!(letters, vec!['c', 'r', 'a', 'n', 'e']);
    assert_eq!(turn.0[0].reply, Reply::Success);
    assert_eq!(turn.0[1].reply, Reply::Miss);
    assert_eq!(turn.0[2].reply, Reply::Partial);
    assert_eq!(turn.0[3].reply, Reply::Miss);
    assert_eq!(turn.0[4].reply, Reply::Success);
}
