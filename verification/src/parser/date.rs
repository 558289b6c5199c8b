//! Dates: a year of four digits, which may be negative, a month and a day.

use vstd::prelude::*;
use crate::calendar::{is_calendar_date, Date, DateView};
use crate::error::{ErrorKind, ParseError};
use crate::parser::cursor::Cursor;
use crate::parser::grammar::{
    decimal, digit, digit_value, run_end, stands_at, CharClass, Outcome,
};
use crate::parser::scan::{
    error_at, is_digit, lemma_class_is_ascii, lemma_run_end_bounds, reports, take_char,
};

verus! {

/// The grammar of a number of `n` digits: the run of digits at `i` must
/// have at least `n` of them, and the first `n` are read in decimal. Where
/// the run is shorter, the mismatch is found at its end.
pub open spec fn digits_outcome(s: Seq<char>, i: int, n: int) -> Outcome<int> {
    let run = run_end(s, i, CharClass::Digit);
    if run - i < n {
        Outcome::Reject { kind: ErrorKind::LexicalMismatch, at: run }
    } else {
        Outcome::Accept { end: i + n, value: decimal(s, i, i + n) }
    }
}

/// The grammar of years: an optional minus sign and four digits.
pub open spec fn year_outcome(s: Seq<char>, i: int) -> Outcome<int> {
    let negative = stands_at(s, i, '-');
    let first = if negative {
        i + 1
    } else {
        i
    };
    match digits_outcome(s, first, 4) {
        Outcome::Accept { end, value } => Outcome::Accept {
            end,
            value: if negative {
                -value
            } else {
                value
            },
        },
        Outcome::Reject { kind, at } => Outcome::Reject { kind, at },
    }
}

/// The grammar of months: two digits of which the first is 0 or 1. They
/// must write a number from 1 to 12.
pub open spec fn month_outcome(s: Seq<char>, i: int) -> Outcome<int> {
    if !(stands_at(s, i, '0') || stands_at(s, i, '1')) {
        Outcome::Reject { kind: ErrorKind::LexicalMismatch, at: i }
    } else {
        match digits_outcome(s, i + 1, 1) {
            Outcome::Accept { end, value } => {
                let month = decimal(s, i, i + 2);
                if 1 <= month <= 12 {
                    Outcome::Accept { end, value: month }
                } else {
                    Outcome::Reject { kind: ErrorKind::ConversionFailure, at: i }
                }
            },
            Outcome::Reject { kind, at } => Outcome::Reject { kind, at },
        }
    }
}

/// The grammar of days: two digits of which the first is 0, 1, 2 or 3.
pub open spec fn day_outcome(s: Seq<char>, i: int) -> Outcome<int> {
    if !(0 <= i < s.len() && '0' <= s[i] <= '3') {
        Outcome::Reject { kind: ErrorKind::LexicalMismatch, at: i }
    } else {
        match digits_outcome(s, i + 1, 1) {
            Outcome::Accept { end, value } => Outcome::Accept { end, value: decimal(s, i, i + 2) },
            Outcome::Reject { kind, at } => Outcome::Reject { kind, at },
        }
    }
}

/// The grammar of dates: a year, a month and a day with a hyphen between
/// them. The three numbers must name a day of the calendar, or the whole
/// text fails to convert.
pub open spec fn date_outcome(s: Seq<char>, i: int) -> Outcome<DateView> {
    match year_outcome(s, i) {
        Outcome::Reject { kind, at } => Outcome::Reject { kind, at },
        Outcome::Accept { end: year_end, value: year } => {
            if !stands_at(s, year_end, '-') {
                Outcome::Reject { kind: ErrorKind::LexicalMismatch, at: year_end }
            } else {
                match month_outcome(s, year_end + 1) {
                    Outcome::Reject { kind, at } => Outcome::Reject { kind, at },
                    Outcome::Accept { end: month_end, value: month } => {
                        if !stands_at(s, month_end, '-') {
                            Outcome::Reject { kind: ErrorKind::LexicalMismatch, at: month_end }
                        } else {
                            match day_outcome(s, month_end + 1) {
                                Outcome::Reject { kind, at } => Outcome::Reject { kind, at },
                                Outcome::Accept { end, value: day } => {
                                    if is_calendar_date(year, month, day) {
                                        Outcome::Accept {
                                            end,
                                            value: DateView { year, month, day },
                                        }
                                    } else {
                                        Outcome::Reject {
                                            kind: ErrorKind::ConversionFailure,
                                            at: i,
                                        }
                                    }
                                },
                            }
                        }
                    },
                }
            }
        },
    }
}

/// The power of ten with the exponent `k`, for `k` up to nine.
pub open spec fn ten_to(k: int) -> int {
    if k <= 0 {
        1
    } else if k == 1 {
        10
    } else if k == 2 {
        100
    } else if k == 3 {
        1000
    } else if k == 4 {
        10000
    } else if k == 5 {
        100000
    } else if k == 6 {
        1000000
    } else if k == 7 {
        10000000
    } else if k == 8 {
        100000000
    } else {
        1000000000
    }
}

/// The number that `k` digits write is less than the `k`-th power of ten.
pub proof fn lemma_decimal_digits(s: Seq<char>, i: int, k: int)
    requires
        0 <= i,
        0 <= k <= 9,
        i + k <= s.len(),
        forall|j: int| i <= j < i + k ==> digit(#[trigger] s[j]),
    ensures
        0 <= decimal(s, i, i + k) < ten_to(k),
    decreases k,
{
    if k > 0 {
        lemma_decimal_digits(s, i, k - 1);
        assert(digit(s[i + k - 1]));
    }
}

/// Reads a number of `n` digits at the cursor, for `n` up to nine, which
/// is as many as fit the result whatever the digits are.
pub fn digits_at<'a>(cur: Cursor<'a>, n: usize) -> (r: Result<(Cursor<'a>, u32), ParseError>)
    requires
        cur.wf(),
        n <= 9,
    ensures
        match digits_outcome(cur.source(), cur.index(), n as int) {
            Outcome::Accept { end, value } => r matches Ok((next, number)) && next.at(
                cur.source(),
                end,
            ) && number == value && number < ten_to(n as int),
            Outcome::Reject { kind, at } => r matches Err(e) && reports(e, cur.source(), kind, at),
        },
{
    let ghost s = cur.source();
    let ghost i = cur.index();
    let mut at = cur;
    let mut number: u32 = 0;
    let mut k: usize = 0;
    while k < n
        invariant
            s == cur.source(),
            i == cur.index(),
            0 <= i,
            0 <= k <= n <= 9,
            at.at(s, i + k),
            forall|j: int| i <= j < i + k ==> digit(#[trigger] s[j]),
            run_end(s, i, CharClass::Digit) == run_end(s, i + k, CharClass::Digit),
            number == decimal(s, i, i + k),
        decreases n - k,
    {
        proof {
            lemma_decimal_digits(s, i, k as int);
        }
        let d = match at.peek() {
            Some(c) => if is_digit(c) {
                Some(((c as u8) - 48) as u32)
            } else {
                None
            },
            None => {
                proof {
                    if i + k < s.len() && digit(s[i + k]) {
                        lemma_class_is_ascii(CharClass::Digit, s[i + k]);
                    }
                }
                None
            },
        };
        match d {
            Some(d) => {
                assert(decimal(s, i, i + k + 1) == decimal(s, i, i + k) * 10 + d);
                number = number * 10 + d;
                at = at.step();
                k = k + 1;
            },
            None => {
                return Err(error_at(&at, ErrorKind::LexicalMismatch));
            },
        }
    }
    proof {
        lemma_run_end_bounds(s, i + n, CharClass::Digit);
        lemma_decimal_digits(s, i, n as int);
    }
    Ok((at, number))
}

/// Reads a year at the cursor.
pub fn year_at<'a>(cur: Cursor<'a>) -> (r: Result<(Cursor<'a>, i32), ParseError>)
    requires
        cur.wf(),
    ensures
        match year_outcome(cur.source(), cur.index()) {
            Outcome::Accept { end, value } => r matches Ok((next, year)) && next.at(
                cur.source(),
                end,
            ) && year == value && -9999 <= year <= 9999,
            Outcome::Reject { kind, at } => r matches Err(e) && reports(e, cur.source(), kind, at),
        },
{
    let (first, negative) = match take_char(cur, '-') {
        Some(next) => (next, true),
        None => (cur, false),
    };
    match digits_at(first, 4) {
        Ok((next, number)) => {
            let year = number as i32;
            Ok(
                (
                    next,
                    if negative {
                        -year
                    } else {
                        year
                    },
                ),
            )
        },
        Err(e) => Err(e),
    }
}

/// Reads two digits at the cursor, of which the first is at most `top`.
fn two_digits_at<'a>(cur: Cursor<'a>, top: char) -> (r: Result<(Cursor<'a>, u8), ParseError>)
    requires
        cur.wf(),
        '0' <= top <= '9',
    ensures
        ({
            let s = cur.source();
            let i = cur.index();
            if !(0 <= i < s.len() && '0' <= s[i] <= top) {
                r matches Err(e) && reports(e, s, ErrorKind::LexicalMismatch, i)
            } else {
                match digits_outcome(s, i + 1, 1) {
                    Outcome::Accept { end, value } => r matches Ok((next, number)) && next.at(
                        s,
                        end,
                    ) && number == decimal(s, i, i + 2) && number < 100,
                    Outcome::Reject { kind, at } => r matches Err(e) && reports(e, s, kind, at),
                }
            }
        }),
{
    let ghost s = cur.source();
    let ghost i = cur.index();
    let tens = match cur.peek() {
        Some(c) => if '0' <= c && c <= top {
            Some((c as u8) - 48)
        } else {
            None
        },
        None => None,
    };
    match tens {
        Some(tens) => {
            match digits_at(cur.step(), 1) {
                Ok((next, units)) => {
                    proof {
                        assert(decimal(s, i + 1, i + 2) == decimal(s, i + 1, i + 1) * 10
                            + digit_value(s[i + 1]));
                        assert(decimal(s, i, i + 2) == decimal(s, i, i + 1) * 10
                            + digit_value(s[i + 1]));
                        assert(decimal(s, i, i + 1) == decimal(s, i, i) * 10
                            + digit_value(s[i]));
                    }
                    Ok((next, tens * 10 + (units as u8)))
                },
                Err(e) => Err(e),
            }
        },
        None => Err(error_at(&cur, ErrorKind::LexicalMismatch)),
    }
}

/// Reads a month at the cursor.
pub fn month_at<'a>(cur: Cursor<'a>) -> (r: Result<(Cursor<'a>, u8), ParseError>)
    requires
        cur.wf(),
    ensures
        match month_outcome(cur.source(), cur.index()) {
            Outcome::Accept { end, value } => r matches Ok((next, month)) && next.at(
                cur.source(),
                end,
            ) && month == value,
            Outcome::Reject { kind, at } => r matches Err(e) && reports(e, cur.source(), kind, at),
        },
{
    match two_digits_at(cur, '1') {
        Ok((next, month)) => {
            if 1 <= month && month <= 12 {
                Ok((next, month))
            } else {
                Err(error_at(&cur, ErrorKind::ConversionFailure))
            }
        },
        Err(e) => Err(e),
    }
}

/// Reads a day at the cursor.
pub fn day_at<'a>(cur: Cursor<'a>) -> (r: Result<(Cursor<'a>, u8), ParseError>)
    requires
        cur.wf(),
    ensures
        match day_outcome(cur.source(), cur.index()) {
            Outcome::Accept { end, value } => r matches Ok((next, day)) && next.at(
                cur.source(),
                end,
            ) && day == value,
            Outcome::Reject { kind, at } => r matches Err(e) && reports(e, cur.source(), kind, at),
        },
{
    two_digits_at(cur, '3')
}

/// Reads a date at the cursor.
pub fn date_at<'a>(cur: Cursor<'a>) -> (r: Result<(Cursor<'a>, Date), ParseError>)
    requires
        cur.wf(),
    ensures
        match date_outcome(cur.source(), cur.index()) {
            Outcome::Accept { end, value } => r matches Ok((next, date)) && next.at(
                cur.source(),
                end,
            ) && date@ == value && date.wf(),
            Outcome::Reject { kind, at } => r matches Err(e) && reports(e, cur.source(), kind, at),
        },
{
    let (year_end, year) = match year_at(cur) {
        Ok(found) => found,
        Err(e) => {
            return Err(e);
        },
    };
    let month_start = match take_char(year_end, '-') {
        Some(next) => next,
        None => {
            return Err(error_at(&year_end, ErrorKind::LexicalMismatch));
        },
    };
    let (month_end, month) = match month_at(month_start) {
        Ok(found) => found,
        Err(e) => {
            return Err(e);
        },
    };
    let day_start = match take_char(month_end, '-') {
        Some(next) => next,
        None => {
            return Err(error_at(&month_end, ErrorKind::LexicalMismatch));
        },
    };
    let (end, day) = match day_at(day_start) {
        Ok(found) => found,
        Err(e) => {
            return Err(e);
        },
    };
    match Date::new(year, month, day) {
        Some(date) => Ok((end, date)),
        None => Err(error_at(&cur, ErrorKind::ConversionFailure)),
    }
}

/// Parses a year at the start of `inp`.
pub fn parse_year<'a>(inp: &'a str) -> (r: Result<(&'a str, i32), ParseError>)
    ensures
        match year_outcome(inp@, 0) {
            Outcome::Accept { end, value } => r matches Ok((rest, year)) && rest@ == inp@.subrange(
                end,
                inp@.len() as int,
            ) && year == value,
            Outcome::Reject { kind, at } => r matches Err(e) && reports(e, inp@, kind, at),
        },
{
    match year_at(Cursor::new(inp)) {
        Ok((next, year)) => Ok((next.rest(), year)),
        Err(e) => Err(e),
    }
}

/// Parses a month at the start of `inp`: its number, from 1 to 12.
pub fn parse_month<'a>(inp: &'a str) -> (r: Result<(&'a str, u8), ParseError>)
    ensures
        match month_outcome(inp@, 0) {
            Outcome::Accept { end, value } => r matches Ok((rest, month)) && rest@
                == inp@.subrange(end, inp@.len() as int) && month == value,
            Outcome::Reject { kind, at } => r matches Err(e) && reports(e, inp@, kind, at),
        },
{
    match month_at(Cursor::new(inp)) {
        Ok((next, month)) => Ok((next.rest(), month)),
        Err(e) => Err(e),
    }
}

/// Parses a day of the month at the start of `inp`.
pub fn parse_day<'a>(inp: &'a str) -> (r: Result<(&'a str, u8), ParseError>)
    ensures
        match day_outcome(inp@, 0) {
            Outcome::Accept { end, value } => r matches Ok((rest, day)) && rest@ == inp@.subrange(
                end,
                inp@.len() as int,
            ) && day == value,
            Outcome::Reject { kind, at } => r matches Err(e) && reports(e, inp@, kind, at),
        },
{
    match day_at(Cursor::new(inp)) {
        Ok((next, day)) => Ok((next.rest(), day)),
        Err(e) => Err(e),
    }
}

/// Parses a date at the start of `inp`.
pub fn parse_date<'a>(inp: &'a str) -> (r: Result<(&'a str, Date), ParseError>)
    ensures
        match date_outcome(inp@, 0) {
            Outcome::Accept { end, value } => r matches Ok((rest, date)) && rest@ == inp@.subrange(
                end,
                inp@.len() as int,
            ) && date@ == value && date.wf(),
            Outcome::Reject { kind, at } => r matches Err(e) && reports(e, inp@, kind, at),
        },
{
    match date_at(Cursor::new(inp)) {
        Ok((next, date)) => Ok((next.rest(), date)),
        Err(e) => Err(e),
    }
}

} // verus!
