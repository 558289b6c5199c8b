//! What the grammars are made of: the outcome of a parse, the classes of
//! characters, runs of one class, decimal numbers and keywords.

use vstd::prelude::*;
use crate::error::ErrorKind;

verus! {

/// What a grammar prescribes for a text and a start index: either the
/// literal ends before the character with index `end` and denotes `value`,
/// or there is no literal, for the reason `kind`, found at the character
/// with index `at`.
pub enum Outcome<V> {
    Accept { end: int, value: V },
    Reject { kind: ErrorKind, at: int },
}

/// A decimal digit.
pub open spec fn digit(c: char) -> bool {
    '0' <= c <= '9'
}

/// A hexadecimal digit, of either case.
pub open spec fn hex_digit(c: char) -> bool {
    ('0' <= c <= '9') || ('a' <= c <= 'f') || ('A' <= c <= 'F')
}

/// A character of base64 text in the URL-safe alphabet, `=` included.
pub open spec fn base64url_char(c: char) -> bool {
    ('0' <= c <= '9') || ('a' <= c <= 'z') || ('A' <= c <= 'Z') || c == '-' || c == '_' || c
        == '='
}

/// The classes of characters of which the grammars take runs.
#[derive(Clone, Copy, Debug, PartialEq, Eq, Structural)]
pub enum CharClass {
    Digit,
    HexDigit,
    Base64Url,
}

/// True when `c` belongs to `class`.
pub open spec fn in_class(class: CharClass, c: char) -> bool {
    match class {
        CharClass::Digit => digit(c),
        CharClass::HexDigit => hex_digit(c),
        CharClass::Base64Url => base64url_char(c),
    }
}

/// True when the text has the character `c` at index `i`.
pub open spec fn stands_at(s: Seq<char>, i: int, c: char) -> bool {
    0 <= i < s.len() && s[i] == c
}

/// The index at which the longest run of characters of `class` that starts
/// at `i` ends.
pub open spec fn run_end(s: Seq<char>, i: int, class: CharClass) -> int
    decreases s.len() - i,
{
    if 0 <= i < s.len() && in_class(class, s[i]) {
        run_end(s, i + 1, class)
    } else {
        i
    }
}

/// The value of a decimal digit.
pub open spec fn digit_value(c: char) -> int {
    c as int - 48
}

/// The number that the digits from `from` up to `to` write in decimal.
pub open spec fn decimal(s: Seq<char>, from: int, to: int) -> int
    decreases to - from,
{
    if from >= to {
        0
    } else {
        decimal(s, from, to - 1) * 10 + digit_value(s[to - 1])
    }
}

/// The length of a sign, 1 or 0: whether `+` or `-` stands at `i`.
pub open spec fn sign_len(s: Seq<char>, i: int) -> int {
    if stands_at(s, i, '+') || stands_at(s, i, '-') {
        1
    } else {
        0
    }
}

/// True when `c` is the character `w` of a keyword written in lower case:
/// the same character or, where case is folded, its capital.
pub open spec fn agrees(c: char, w: char, fold: bool) -> bool {
    c == w || (fold && 'A' <= c <= 'Z' && c as int + 32 == w as int)
}

/// The first offset from `k` on at which the text from `i` departs from the
/// keyword, or the length of the keyword if it does not.
pub open spec fn departs_at(s: Seq<char>, i: int, word: Seq<char>, fold: bool, k: int) -> int
    decreases word.len() - k,
{
    if 0 <= k < word.len() && 0 <= i + k < s.len() && agrees(s[i + k], word[k], fold) {
        departs_at(s, i, word, fold, k + 1)
    } else {
        k
    }
}

/// What a keyword prescribes: the text goes on with the keyword, or the
/// first character that departs from it is a mismatch.
pub open spec fn keyword_outcome(s: Seq<char>, i: int, word: Seq<char>, fold: bool) -> Outcome<()> {
    let k = departs_at(s, i, word, fold, 0);
    if k == word.len() {
        Outcome::Accept { end: i + k, value: () }
    } else {
        Outcome::Reject { kind: ErrorKind::LexicalMismatch, at: i + k }
    }
}

} // verus!
