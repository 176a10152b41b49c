//! Pure parsing of the two textual mini-formats the shell owns: a
//! five-letter guess and a five-symbol reply line.  The surrounding shell
//! reads raw lines and prompts again on invalid input; every decision
//! about a line's meaning is made here.

use vstd::prelude::*;

use crate::game::word_ok;
use crate::game::GameCell;
use crate::game::Reply;
use crate::game::Turn;
use crate::game::NUM_LETTERS;
use crate::letters::lower_word;
use crate::letters::str_eq;
use crate::letters::to_lowercase;

verus! {

/// The reply symbol for an exact match (green).
pub const REPLY_SUCCESS: char = '+';

/// The reply symbol for a miss (gray).
pub const REPLY_MISS: char = '.';

/// The reply symbol for a present-elsewhere letter (yellow).
pub const REPLY_PARTIAL: char = '-';

/// Flag for special exit input.
pub struct Exit;

/// The non-guess outcomes of reading a turn: the player asked to leave,
/// or reported a winning reply.
pub enum ReadTurnFlags {
    /// The player asked to quit.
    Exit(Exit),
    /// The reply line was all exact matches: the round is won.
    Win,
}

/// An ASCII whitespace character, the kind trimmed from input lines.
pub open spec fn is_ascii_space(c: char) -> bool {
    c == ' ' || c == '\t' || c == '\n' || c == '\r' || c == '\x0c'
}

/// The line without its leading ASCII whitespace.
pub open spec fn trim_front(w: Seq<char>) -> Seq<char>
    decreases w.len(),
{
    if w.len() > 0 && is_ascii_space(w[0]) {
        trim_front(w.drop_first())
    } else {
        w
    }
}

/// The line without its trailing ASCII whitespace.
pub open spec fn trim_back(w: Seq<char>) -> Seq<char>
    decreases w.len(),
{
    if w.len() > 0 && is_ascii_space(w.last()) {
        trim_back(w.drop_last())
    } else {
        w
    }
}

/// The line without leading or trailing ASCII whitespace.
pub open spec fn trim_spec(w: Seq<char>) -> Seq<char> {
    trim_back(trim_front(w))
}

/// A command asking to leave the program.
pub open spec fn is_exit_word(w: Seq<char>) -> bool {
    ||| w == seq!['e', 'x', 'i', 't']
    ||| w == seq!['q', 'u', 'i', 't']
    ||| w == seq!['q']
}

/// The reply line that reports a solved puzzle: five exact matches.
pub open spec fn winning_word() -> Seq<char> {
    seq!['+', '+', '+', '+', '+']
}

/// A valid reply symbol.
pub open spec fn reply_char_ok(c: char) -> bool {
    c == REPLY_SUCCESS || c == REPLY_MISS || c == REPLY_PARTIAL
}

/// The feedback a reply symbol stands for.
pub open spec fn reply_of(c: char) -> Reply {
    if c == REPLY_SUCCESS {
        Reply::Success
    } else if c == REPLY_MISS {
        Reply::Miss
    } else {
        Reply::Partial
    }
}

/// Strip leading and trailing ASCII whitespace from a line.
pub fn trim_ascii(line: &str) -> (r: &str)
    ensures
        r@ == trim_spec(line@),
{
    let n = line.unicode_len();
    proof {
        assert(line@.subrange(0, n as int) =~= line@);
    }
    let mut lo: usize = 0;
    loop
        invariant
            n == line@.len(),
            lo <= n,
            trim_front(line@) == trim_front(line@.subrange(lo as int, n as int)),
        ensures
            lo <= n,
            trim_front(line@) == line@.subrange(lo as int, n as int),
        decreases n - lo,
    {
        if lo == n {
            proof {
                assert(line@.subrange(lo as int, n as int).len() == 0);
            }
            break ;
        }
        let c = line.get_char(lo);
        proof {
            assert(line@.subrange(lo as int, n as int)[0] == line@[lo as int]);
        }
        if !(c == ' ' || c == '\t' || c == '\n' || c == '\r' || c == '\x0c') {
            break ;
        }
        proof {
            assert(line@.subrange(lo as int, n as int).drop_first() =~= line@.subrange(
                lo + 1,
                n as int,
            ));
        }
        lo += 1;
    }
    let mut hi: usize = n;
    loop
        invariant
            n == line@.len(),
            lo <= hi <= n,
            trim_front(line@) == line@.subrange(lo as int, n as int),
            trim_back(line@.subrange(lo as int, n as int)) == trim_back(
                line@.subrange(lo as int, hi as int),
            ),
        ensures
            lo <= hi <= n,
            trim_spec(line@) == line@.subrange(lo as int, hi as int),
        decreases hi,
    {
        if hi == lo {
            proof {
                assert(line@.subrange(lo as int, hi as int).len() == 0);
            }
            break ;
        }
        let c = line.get_char(hi - 1);
        proof {
            assert(line@.subrange(lo as int, hi as int).last() == line@[hi - 1]);
        }
        if !(c == ' ' || c == '\t' || c == '\n' || c == '\r' || c == '\x0c') {
            break ;
        }
        proof {
            assert(line@.subrange(lo as int, hi as int).drop_last() =~= line@.subrange(
                lo as int,
                hi - 1,
            ));
        }
        hi -= 1;
    }
    line.substring_char(lo, hi)
}

/// Whether a normalized line is a well-formed guess: five lowercase
/// ASCII letters.
pub fn is_valid_guess(word: &str) -> (b: bool)
    ensures
        b == word_ok(word@),
{
    let n = word.unicode_len();
    if n != NUM_LETTERS {
        return false;
    }
    let mut i: usize = 0;
    while i < n
        invariant
            n == word@.len(),
            i <= n,
            forall|k: int| 0 <= k < i ==> 'a' <= #[trigger] word@[k] && word@[k] <= 'z',
        decreases n - i,
    {
        let c = word.get_char(i);
        if !(c >= 'a' && c <= 'z') {
            return false;
        }
        i += 1;
    }
    true
}

/// Turn a reply line into feedback symbols: `Some` exactly when the line
/// has five characters, each a valid reply symbol, mapped in order.
pub fn parse_reply(word: &str) -> (r: Option<Vec<Reply>>)
    ensures
        r.is_some() <==> (word@.len() == NUM_LETTERS && forall|i: int|
            0 <= i < word@.len() ==> reply_char_ok(#[trigger] word@[i])),
        r matches Some(v) ==> {
            &&& v@.len() == NUM_LETTERS
            &&& forall|i: int| 0 <= i < v@.len() ==> v@[i] == reply_of(word@[i])
        },
{
    let n = word.unicode_len();
    if n != NUM_LETTERS {
        return None;
    }
    let mut replies: Vec<Reply> = Vec::new();
    let mut i: usize = 0;
    while i < n
        invariant
            n == word@.len(),
            n == NUM_LETTERS,
            i <= n,
            replies@.len() == i,
            forall|k: int| 0 <= k < i ==> reply_char_ok(#[trigger] word@[k]),
            forall|k: int| 0 <= k < i ==> replies@[k] == reply_of(word@[k]),
        decreases n - i,
    {
        let c = word.get_char(i);
        let reply = if c == REPLY_SUCCESS {
            Reply::Success
        } else if c == REPLY_MISS {
            Reply::Miss
        } else if c == REPLY_PARTIAL {
            Reply::Partial
        } else {
            return None;
        };
        replies.push(reply);
        i += 1;
    }
    Some(replies)
}

/// Reads raw input lines on the shell's behalf and decides what each one
/// means; holds the reply line that reports a win.
pub struct Parser {
    winning_reply: String,
}

impl Parser {
    /// The stored winning reply is five exact-match symbols.
    pub closed spec fn wf(&self) -> bool {
        self.winning_reply@ == winning_word()
    }

    /// A parser that recognizes five exact-match symbols as a win.
    pub fn new() -> (p: Parser)
        ensures
            p.wf(),
    {
        let winning_reply = String::from_str("+++++");
        proof {
            reveal_strlit("+++++");
            assert(winning_reply@ =~= winning_word());
        }
        Parser { winning_reply }
    }

    /// Classify one raw input line, after trimming ASCII whitespace and
    /// lowercasing: an exit command, the winning reply, a five-character
    /// word handed back for further validation, or `Ok(None)` when the
    /// caller should prompt again.
    pub fn parse_input(&self, line: &str) -> (r: Result<Option<String>, ReadTurnFlags>)
        requires
            self.wf(),
        ensures
            ({
                let n = lower_word(trim_spec(line@));
                &&& (is_exit_word(n) ==> r matches Err(ReadTurnFlags::Exit(Exit)))
                &&& (!is_exit_word(n) && n == winning_word() ==> r matches Err(
                    ReadTurnFlags::Win,
                ))
                &&& (!is_exit_word(n) && n != winning_word() && n.len() == NUM_LETTERS ==> (
                r matches Ok(Some(w)) && w@ == n))
                &&& (!is_exit_word(n) && n != winning_word() && n.len() != NUM_LETTERS
                    ==> r matches Ok(None::<String>))
            }),
    {
        let trimmed = trim_ascii(line);
        let normalized = to_lowercase(trimmed);
        proof {
            reveal_strlit("exit");
            reveal_strlit("quit");
            reveal_strlit("q");
            assert("exit"@ =~= seq!['e', 'x', 'i', 't']);
            assert("quit"@ =~= seq!['q', 'u', 'i', 't']);
            assert("q"@ =~= seq!['q']);
        }
        if str_eq(normalized.as_str(), "exit") || str_eq(normalized.as_str(), "quit") || str_eq(
            normalized.as_str(),
            "q",
        ) {
            return Err(ReadTurnFlags::Exit(Exit));
        }
        if str_eq(normalized.as_str(), self.winning_reply.as_str()) {
            return Err(ReadTurnFlags::Win);
        }
        if normalized.as_str().unicode_len() == NUM_LETTERS {
            Ok(Some(normalized))
        } else {
            Ok(None)
        }
    }

    /// Zip a validated guess with its parsed feedback into a turn.
    pub fn read_turn(guess: &str, replies: &Vec<Reply>) -> (t: Turn)
        requires
            word_ok(guess@),
            replies@.len() == NUM_LETTERS,
        ensures
            t.wf(),
            forall|i: int|
                0 <= i < NUM_LETTERS ==> (#[trigger] t@[i]).letter == guess@[i] && t@[i].reply
                    == replies@[i],
    {
        let cells: [GameCell; 5] = [
            GameCell { letter: guess.get_char(0), reply: replies[0] },
            GameCell { letter: guess.get_char(1), reply: replies[1] },
            GameCell { letter: guess.get_char(2), reply: replies[2] },
            GameCell { letter: guess.get_char(3), reply: replies[3] },
            GameCell { letter: guess.get_char(4), reply: replies[4] },
        ];
        Turn(cells)
    }
}

} // verus!
