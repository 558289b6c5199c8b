//! The steps that the parsers share: telling the classes of characters
//! apart, taking a run of one class, taking one character or a keyword.

use vstd::prelude::*;
use vstd::utf8::{is_ascii_chars, is_ascii_chars_encode_utf8};
use crate::error::{ErrorKind, ParseError};
use crate::parser::cursor::Cursor;
use crate::parser::grammar::{
    agrees, base64url_char, departs_at, digit, stands_at, hex_digit, in_class, keyword_outcome,
    run_end, CharClass, Outcome,
};
use crate::text::{byte_offset, is_ascii_char, lemma_ascii_byte};

verus! {

/// True when the error `e` tells the reason `kind`, found at the character
/// with index `at` of the text `s`.
pub open spec fn reports(e: ParseError, s: Seq<char>, kind: ErrorKind, at: int) -> bool {
    e.kind == kind && e.position == byte_offset(s, at)
}

/// Tells a decimal digit.
pub fn is_digit(c: char) -> (b: bool)
    ensures
        b == digit(c),
{
    '0' <= c && c <= '9'
}

/// Tells a hexadecimal digit.
pub fn is_hex_digit(c: char) -> (b: bool)
    ensures
        b == hex_digit(c),
{
    ('0' <= c && c <= '9') || ('a' <= c && c <= 'f') || ('A' <= c && c <= 'F')
}

/// Tells a character of base64 text in the URL-safe alphabet.
pub fn is_base64url_char(c: char) -> (b: bool)
    ensures
        b == base64url_char(c),
{
    ('0' <= c && c <= '9') || ('a' <= c && c <= 'z') || ('A' <= c && c <= 'Z') || c == '-' || c
        == '_' || c == '='
}

/// Tells a character of the given class.
pub fn is_in_class(class: CharClass, c: char) -> (b: bool)
    ensures
        b == in_class(class, c),
{
    match class {
        CharClass::Digit => is_digit(c),
        CharClass::HexDigit => is_hex_digit(c),
        CharClass::Base64Url => is_base64url_char(c),
    }
}

/// The characters of the three classes are ASCII.
pub proof fn lemma_class_is_ascii(class: CharClass, c: char)
    requires
        in_class(class, c),
    ensures
        is_ascii_char(c),
{
}

/// A run ends at or after its start and within the text.
pub proof fn lemma_run_end_bounds(s: Seq<char>, i: int, class: CharClass)
    requires
        0 <= i <= s.len(),
    ensures
        i <= run_end(s, i, class) <= s.len(),
        forall|j: int| i <= j < run_end(s, i, class) ==> in_class(class, #[trigger] s[j]),
        run_end(s, i, class) < s.len() ==> !in_class(class, s[run_end(s, i, class)]),
    decreases s.len() - i,
{
    if i < s.len() && in_class(class, s[i]) {
        lemma_run_end_bounds(s, i + 1, class);
    }
}

/// The error of the given kind at the cursor.
pub fn error_at<'a>(cur: &Cursor<'a>, kind: ErrorKind) -> (e: ParseError)
    requires
        cur.wf(),
    ensures
        reports(e, cur.source(), kind, cur.index()),
{
    ParseError { kind, position: cur.offset() }
}

/// The cursor after the character `c`, if it stands at the cursor.
pub fn take_char<'a>(cur: Cursor<'a>, c: char) -> (r: Option<Cursor<'a>>)
    requires
        cur.wf(),
        is_ascii_char(c),
    ensures
        r is Some <==> stands_at(cur.source(), cur.index(), c),
        r matches Some(next) ==> next.at(cur.source(), cur.index() + 1),
{
    match cur.peek() {
        Some(d) => {
            if d == c {
                Some(cur.step())
            } else {
                None
            }
        },
        None => None,
    }
}

/// The cursor after the longest run of characters of `class`.
pub fn take_run<'a>(cur: Cursor<'a>, class: CharClass) -> (end: Cursor<'a>)
    requires
        cur.wf(),
    ensures
        end.at(cur.source(), run_end(cur.source(), cur.index(), class)),
        cur.index() <= end.index(),
{
    let ghost s = cur.source();
    let ghost i = cur.index();
    let mut end = cur;
    let mut going = true;
    while going
        invariant
            end.at(s, end.index()),
            i <= end.index(),
            run_end(s, end.index(), class) == run_end(s, i, class),
            !going ==> run_end(s, end.index(), class) == end.index(),
        decreases s.len() - end.index() + (if going { 1int } else { 0int }),
    {
        match end.peek() {
            Some(c) => {
                if is_in_class(class, c) {
                    end = end.step();
                } else {
                    going = false;
                }
            },
            None => {
                proof {
                    if end.index() < s.len() {
                        let c = s[end.index()];
                        if in_class(class, c) {
                            lemma_class_is_ascii(class, c);
                        }
                    }
                }
                going = false;
            },
        }
    }
    end
}

/// Takes a keyword written in lower case ASCII, with or without regard to
/// the case of the text.
pub fn take_keyword<'a>(cur: Cursor<'a>, word: &str, fold: bool) -> (r: Result<
    Cursor<'a>,
    ParseError,
>)
    requires
        cur.wf(),
        is_ascii_chars(word@),
    ensures
        match keyword_outcome(cur.source(), cur.index(), word@, fold) {
            Outcome::Accept { end, value } => r matches Ok(next) && next.at(cur.source(), end),
            Outcome::Reject { kind, at } => r matches Err(e) && reports(e, cur.source(), kind, at),
        },
{
    let ghost s = cur.source();
    let ghost i = cur.index();
    let letters = word.as_bytes();
    proof {
        is_ascii_chars_encode_utf8(word@);
    }
    let n = letters.len();
    let mut at = cur;
    let mut k: usize = 0;
    while k < n
        invariant
            s == cur.source(),
            i == cur.index(),
            0 <= k <= n,
            n == word@.len(),
            n == letters@.len(),
            letters@ == vstd::utf8::encode_utf8(word@),
            is_ascii_chars(word@),
            forall|j: int| 0 <= j < n ==> word@[j] as u8 == #[trigger] letters@[j],
            at.at(s, i + k),
            departs_at(s, i, word@, fold, 0) == departs_at(s, i, word@, fold, k as int),
        decreases n - k,
    {
        let w = letters[k];
        proof {
            lemma_ascii_byte(word@[k as int], w);
        }
        let same = match at.peek() {
            Some(c) => c == (w as char) || (fold && 'A' <= c && c <= 'Z' && (c as u8) + 32 == w),
            None => false,
        };
        proof {
            if i + k < s.len() && !is_ascii_char(s[i + k]) {
                assert(!agrees(s[i + k], word@[k as int], fold));
            }
        }
        if !same {
            return Err(error_at(&at, ErrorKind::LexicalMismatch));
        }
        at = at.step();
        k = k + 1;
    }
    Ok(at)
}

} // verus!
