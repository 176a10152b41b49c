//! Letter-level utilities: ASCII classification, case normalization and
//! the small string-building steps the solver needs.

use vstd::prelude::*;

verus! {

/// An ASCII alphabetic character, either case.
pub open spec fn is_ascii_letter(c: char) -> bool {
    ('a' <= c && c <= 'z') || ('A' <= c && c <= 'Z')
}

/// ASCII case folding of one character: uppercase ASCII letters map to
/// their lowercase form, every other character is unchanged.
pub open spec fn lower_char(c: char) -> char {
    if 'A' <= c && c <= 'Z' {
        (c as u8 + 32) as char
    } else {
        c
    }
}

/// ASCII case folding of a whole word, character by character.
pub open spec fn lower_word(w: Seq<char>) -> Seq<char> {
    w.map_values(|c: char| lower_char(c))
}

/// Folding an ASCII letter always yields a lowercase ASCII letter.
pub proof fn lemma_lower_char_letter(c: char)
    requires
        is_ascii_letter(c),
    ensures
        'a' <= lower_char(c) && lower_char(c) <= 'z',
{
}

/// ASCII case folding of one character, executable form.
pub fn lower_char_exec(c: char) -> (r: char)
    ensures
        r == lower_char(c),
{
    if c >= 'A' && c <= 'Z' {
        ((c as u8) + 32) as char
    } else {
        c
    }
}

/// Relies on `String::push`: appends the given character to the end of
/// the string.
#[verifier::external_body]
pub(crate) fn push_char(s: &mut String, c: char)
    ensures
        final(s)@ == old(s)@.push(c),
{
    s.push(c);
}

/// ASCII case folding of a whole word, executable form.
pub fn to_lowercase(word: &str) -> (r: String)
    ensures
        r@ == lower_word(word@),
{
    let n = word.unicode_len();
    let mut out = String::new();
    let mut i: usize = 0;
    while i < n
        invariant
            n == word@.len(),
            i <= n,
            out@ == lower_word(word@.take(i as int)),
        decreases n - i,
    {
        let c = word.get_char(i);
        push_char(&mut out, lower_char_exec(c));
        proof {
            assert(out@ =~= lower_word(word@.take(i + 1)));
        }
        i += 1;
    }
    proof {
        assert(word@.take(n as int) =~= word@);
    }
    out
}

/// Whether two string slices hold the same characters.
pub fn str_eq(a: &str, b: &str) -> (r: bool)
    ensures
        r == (a@ == b@),
{
    let na = a.unicode_len();
    let nb = b.unicode_len();
    if na != nb {
        return false;
    }
    let mut i: usize = 0;
    while i < na
        invariant
            na == a@.len(),
            na == b@.len(),
            i <= na,
            forall|k: int| 0 <= k < i ==> a@[k] == b@[k],
        decreases na - i,
    {
        if a.get_char(i) != b.get_char(i) {
            return false;
        }
        i += 1;
    }
    proof {
        assert(a@ =~= b@);
    }
    true
}

} // verus!
