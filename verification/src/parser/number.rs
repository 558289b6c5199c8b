//! Integers and floating point numbers.

use vstd::prelude::*;
use vstd::string::StringExecFns;
use crate::error::{ErrorKind, ParseError};
use crate::parser::cursor::Cursor;
use crate::parser::grammar::{
    decimal, digit, digit_value, stands_at, in_class, run_end, sign_len, CharClass, Outcome,
};
use crate::parser::scan::{
    error_at, is_digit, lemma_class_is_ascii, lemma_run_end_bounds, reports, take_char, take_run,
};
use crate::text::lemma_offset_grows;

verus! {

/// The grammar of integers: an optional sign and the longest run of digits
/// that follows, which must not be empty. The digits are read in decimal,
/// and the number must be one of the signed 64-bit integers.
pub open spec fn integer_outcome(s: Seq<char>, i: int) -> Outcome<int> {
    let first = i + sign_len(s, i);
    let end = run_end(s, first, CharClass::Digit);
    let magnitude = decimal(s, first, end);
    let value = if stands_at(s, i, '-') {
        -magnitude
    } else {
        magnitude
    };
    if end == first {
        Outcome::Reject { kind: ErrorKind::LexicalMismatch, at: first }
    } else if value < i64::MIN || value > i64::MAX {
        Outcome::Reject { kind: ErrorKind::ConversionFailure, at: i }
    } else {
        Outcome::Accept { end, value }
    }
}

/// The grammar of floating point numbers: an optional sign, digits, then a
/// fraction (a period and perhaps digits), an exponent (`e` or `E`, an
/// optional sign, digits), or both. The number is the longest text of this
/// form: an `e` or `E` that no digits follow is no exponent and is left
/// behind the number. Digits alone are no floating point number. The value
/// is the text of the number.
pub open spec fn float_outcome(s: Seq<char>, i: int) -> Outcome<Seq<char>> {
    let first = i + sign_len(s, i);
    let int_end = run_end(s, first, CharClass::Digit);
    let has_fraction = stands_at(s, int_end, '.');
    let fraction_end = if has_fraction {
        run_end(s, int_end + 1, CharClass::Digit)
    } else {
        int_end
    };
    let has_marker = stands_at(s, fraction_end, 'e') || stands_at(s, fraction_end, 'E');
    let exponent_first = fraction_end + 1 + sign_len(s, fraction_end + 1);
    let exponent_end = run_end(s, exponent_first, CharClass::Digit);
    let has_exponent = has_marker && exponent_end > exponent_first;
    if int_end == first {
        Outcome::Reject { kind: ErrorKind::LexicalMismatch, at: first }
    } else if has_exponent {
        Outcome::Accept { end: exponent_end, value: s.subrange(i, exponent_end) }
    } else if has_fraction {
        Outcome::Accept { end: fraction_end, value: s.subrange(i, fraction_end) }
    } else if has_marker {
        Outcome::Reject { kind: ErrorKind::LexicalMismatch, at: exponent_first }
    } else {
        Outcome::Reject { kind: ErrorKind::LexicalMismatch, at: int_end }
    }
}

/// A run of digits writes a number that is not negative and that grows with
/// every further digit.
pub proof fn lemma_decimal_grows(s: Seq<char>, from: int, mid: int, to: int)
    requires
        0 <= from <= mid <= to <= s.len(),
        forall|j: int| from <= j < to ==> digit(#[trigger] s[j]),
    ensures
        0 <= decimal(s, from, mid) <= decimal(s, from, to),
    decreases to - mid,
{
    if mid == from {
        lemma_decimal_nonnegative(s, from, to);
    } else if mid < to {
        lemma_decimal_grows(s, from, mid, to - 1);
        assert(digit(s[to - 1]));
    } else {
        lemma_decimal_nonnegative(s, from, to);
    }
}

/// A run of digits writes a number that is not negative.
pub proof fn lemma_decimal_nonnegative(s: Seq<char>, from: int, to: int)
    requires
        0 <= from <= to <= s.len(),
        forall|j: int| from <= j < to ==> digit(#[trigger] s[j]),
    ensures
        0 <= decimal(s, from, to),
    decreases to - from,
{
    if from < to {
        lemma_decimal_nonnegative(s, from, to - 1);
        assert(digit(s[to - 1]));
    }
}

/// The cursor after a sign, if one stands at the cursor, and whether it is
/// a minus sign.
pub fn take_sign<'a>(cur: Cursor<'a>) -> (r: (Cursor<'a>, bool))
    requires
        cur.wf(),
    ensures
        r.0.at(cur.source(), cur.index() + sign_len(cur.source(), cur.index())),
        r.1 == stands_at(cur.source(), cur.index(), '-'),
{
    match cur.peek() {
        Some(c) => {
            if c == '-' {
                (cur.step(), true)
            } else if c == '+' {
                (cur.step(), false)
            } else {
                (cur, false)
            }
        },
        None => (cur, false),
    }
}

/// Reads an integer at the cursor.
pub fn integer_at<'a>(cur: Cursor<'a>) -> (r: Result<(Cursor<'a>, i64), ParseError>)
    requires
        cur.wf(),
    ensures
        match integer_outcome(cur.source(), cur.index()) {
            Outcome::Accept { end, value } => r matches Ok((next, n)) && next.at(cur.source(), end)
                && n == value,
            Outcome::Reject { kind, at } => r matches Err(e) && reports(e, cur.source(), kind, at),
        },
{
    let ghost s = cur.source();
    let ghost i = cur.index();
    let (first, negative) = take_sign(cur);
    let ghost f = first.index();
    let ghost e = run_end(s, f, CharClass::Digit);
    let limit: u64 = if negative {
        9223372036854775808
    } else {
        9223372036854775807
    };
    let mut at = first;
    let mut magnitude: u64 = 0;
    let mut going = true;
    proof {
        lemma_run_end_bounds(s, f, CharClass::Digit);
    }
    while going
        invariant
            s == cur.source(),
            i == cur.index(),
            cur.wf(),
            f == i + sign_len(s, i),
            e == run_end(s, f, CharClass::Digit),
            negative == stands_at(s, i, '-'),
            limit == if negative {
                9223372036854775808u64
            } else {
                9223372036854775807u64
            },
            at.at(s, at.index()),
            f <= at.index() <= e <= s.len(),
            forall|j: int| f <= j < e ==> digit(#[trigger] s[j]),
            !going ==> at.index() == e,
            magnitude == decimal(s, f, at.index()),
            magnitude <= limit,
        decreases s.len() - at.index() + (if going { 1int } else { 0int }),
    {
        let ghost a = at.index();
        proof {
            lemma_run_end_bounds(s, f, CharClass::Digit);
            if a < e {
                assert(digit(s[a]));
            } else if a < s.len() {
                assert(!in_class(CharClass::Digit, s[a]));
            }
        }
        match at.peek() {
            Some(c) => {
                if is_digit(c) {
                    let d = ((c as u8) - 48) as u64;
                    assert(d == digit_value(s[a]));
                    assert(decimal(s, f, a + 1) == decimal(s, f, a) * 10 + d);
                    if magnitude > (limit - d) / 10 {
                        proof {
                            lemma_decimal_grows(s, f, a + 1, e);
                        }
                        return Err(error_at(&cur, ErrorKind::ConversionFailure));
                    }
                    magnitude = magnitude * 10 + d;
                    at = at.step();
                } else {
                    going = false;
                }
            },
            None => {
                proof {
                    if a < s.len() && digit(s[a]) {
                        lemma_class_is_ascii(CharClass::Digit, s[a]);
                    }
                }
                going = false;
            },
        }
    }
    if at.offset() == first.offset() {
        proof {
            lemma_offset_grows(s, f, at.index());
        }
        return Err(error_at(&first, ErrorKind::LexicalMismatch));
    }
    proof {
        lemma_offset_grows(s, f, at.index());
    }
    let value: i64 = if negative {
        if magnitude == 9223372036854775808 {
            i64::MIN
        } else {
            -(magnitude as i64)
        }
    } else {
        magnitude as i64
    };
    Ok((at, value))
}

/// Finds the end of a floating point number at the cursor.
pub fn float_at<'a>(cur: Cursor<'a>) -> (r: Result<Cursor<'a>, ParseError>)
    requires
        cur.wf(),
    ensures
        match float_outcome(cur.source(), cur.index()) {
            Outcome::Accept { end, value } => r matches Ok(next) && next.at(cur.source(), end)
                && cur.index() <= end,
            Outcome::Reject { kind, at } => r matches Err(e) && reports(e, cur.source(), kind, at),
        },
{
    let ghost s = cur.source();
    let (first, _) = take_sign(cur);
    let int_end = take_run(first, CharClass::Digit);
    if int_end.offset() == first.offset() {
        proof {
            lemma_offset_grows(s, first.index(), int_end.index());
        }
        return Err(error_at(&first, ErrorKind::LexicalMismatch));
    }
    proof {
        lemma_offset_grows(s, first.index(), int_end.index());
    }
    let (has_fraction, fraction_end) = match take_char(int_end, '.') {
        Some(after) => (true, take_run(after, CharClass::Digit)),
        None => (false, int_end),
    };
    let marker = match take_char(fraction_end, 'e') {
        Some(after) => Some(after),
        None => take_char(fraction_end, 'E'),
    };
    match marker {
        Some(after) => {
            let (exponent_first, _) = take_sign(after);
            let exponent_end = take_run(exponent_first, CharClass::Digit);
            proof {
                lemma_offset_grows(s, exponent_first.index(), exponent_end.index());
            }
            if exponent_end.offset() != exponent_first.offset() {
                Ok(exponent_end)
            } else if has_fraction {
                Ok(fraction_end)
            } else {
                Err(error_at(&exponent_first, ErrorKind::LexicalMismatch))
            }
        },
        None => {
            if has_fraction {
                Ok(fraction_end)
            } else {
                Err(error_at(&int_end, ErrorKind::LexicalMismatch))
            }
        },
    }
}

/// Parses an integer at the start of `inp`: the value, and the text that
/// follows it.
pub fn parse_integer<'a>(inp: &'a str) -> (r: Result<(&'a str, i64), ParseError>)
    ensures
        match integer_outcome(inp@, 0) {
            Outcome::Accept { end, value } => r matches Ok((rest, n)) && rest@ == inp@.subrange(
                end,
                inp@.len() as int,
            ) && n == value,
            Outcome::Reject { kind, at } => r matches Err(e) && reports(e, inp@, kind, at),
        },
{
    match integer_at(Cursor::new(inp)) {
        Ok((next, n)) => Ok((next.rest(), n)),
        Err(e) => Err(e),
    }
}

/// Parses a floating point number at the start of `inp`: its text, and the
/// text that follows it.
pub fn parse_float<'a>(inp: &'a str) -> (r: Result<(&'a str, String), ParseError>)
    ensures
        match float_outcome(inp@, 0) {
            Outcome::Accept { end, value } => r matches Ok((rest, number)) && rest@
                == inp@.subrange(end, inp@.len() as int) && number@ == value,
            Outcome::Reject { kind, at } => r matches Err(e) && reports(e, inp@, kind, at),
        },
{
    let start = Cursor::new(inp);
    match float_at(start) {
        Ok(next) => Ok((next.rest(), String::from_str(next.since(&start)))),
        Err(e) => Err(e),
    }
}

} // verus!
