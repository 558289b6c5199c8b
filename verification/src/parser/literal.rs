//! Literals of any kind.

use vstd::prelude::*;
use vstd::string::StringExecFns;
use vstd::utf8::is_ascii_chars;
use crate::ast::{FloatText, FloatTextView, Literal, LiteralView};
use crate::error::{ErrorKind, ParseError};
use crate::parser::binary::{binary_at, binary_outcome};
use crate::parser::cursor::Cursor;
use crate::parser::date::{date_at, date_outcome};
use crate::parser::grammar::{keyword_outcome, Outcome};
use crate::parser::guid::{guid_at, guid_outcome};
use crate::parser::number::{float_at, float_outcome, integer_at, integer_outcome};
use crate::parser::scan::{error_at, reports, take_keyword};
use crate::parser::string::{string_at, string_outcome};

verus! {

/// The grammar of booleans: `true` or `false`, in any case.
pub open spec fn boolean_outcome(s: Seq<char>, i: int) -> Outcome<bool> {
    if let Outcome::Accept { end, value } = keyword_outcome(s, i, "true"@, true) {
        Outcome::Accept { end, value: true }
    } else if let Outcome::Accept { end, value } = keyword_outcome(s, i, "false"@, true) {
        Outcome::Accept { end, value: false }
    } else {
        Outcome::Reject { kind: ErrorKind::LexicalMismatch, at: i }
    }
}

/// The grammar of floating point literals: a number, or one of the tokens
/// `NaN`, `INF` and `-INF`, in this case only. Where none stands, the
/// complaint is that of the number.
pub open spec fn float_text_outcome(s: Seq<char>, i: int) -> Outcome<FloatTextView> {
    match float_outcome(s, i) {
        Outcome::Accept { end, value } => Outcome::Accept {
            end,
            value: FloatTextView::Decimal(value),
        },
        Outcome::Reject { kind, at } => {
            if let Outcome::Accept { end, value } = keyword_outcome(s, i, "NaN"@, false) {
                Outcome::Accept { end, value: FloatTextView::NaN }
            } else if let Outcome::Accept { end, value } = keyword_outcome(s, i, "INF"@, false) {
                Outcome::Accept { end, value: FloatTextView::Infinity }
            } else if let Outcome::Accept { end, value } = keyword_outcome(s, i, "-INF"@, false) {
                Outcome::Accept { end, value: FloatTextView::NegInfinity }
            } else {
                Outcome::Reject { kind, at }
            }
        },
    }
}

/// The grammar of literals: the first of `null`, a boolean, a string, a
/// date, a GUID, a floating point literal, an integer and a binary value
/// that stands at `i`. Where none does, the alternatives are exhausted.
pub open spec fn literal_outcome(s: Seq<char>, i: int) -> Outcome<LiteralView> {
    if let Outcome::Accept { end, value } = keyword_outcome(s, i, "null"@, false) {
        Outcome::Accept { end, value: LiteralView::Null }
    } else if let Outcome::Accept { end, value } = boolean_outcome(s, i) {
        Outcome::Accept { end, value: LiteralView::Boolean(value) }
    } else if let Outcome::Accept { end, value } = string_outcome(s, i) {
        Outcome::Accept { end, value: LiteralView::String(value) }
    } else if let Outcome::Accept { end, value } = date_outcome(s, i) {
        Outcome::Accept { end, value: LiteralView::Date(value) }
    } else if let Outcome::Accept { end, value } = guid_outcome(s, i) {
        Outcome::Accept { end, value: LiteralView::GUID(value) }
    } else if let Outcome::Accept { end, value } = float_text_outcome(s, i) {
        Outcome::Accept { end, value: LiteralView::Float(value) }
    } else if let Outcome::Accept { end, value } = integer_outcome(s, i) {
        Outcome::Accept { end, value: LiteralView::Integer(value) }
    } else if let Outcome::Accept { end, value } = binary_outcome(s, i) {
        Outcome::Accept { end, value: LiteralView::Binary(value) }
    } else {
        Outcome::Reject { kind: ErrorKind::ExhaustedAlternatives, at: i }
    }
}

/// Reads `null` at the cursor.
pub fn null_at<'a>(cur: Cursor<'a>) -> (r: Result<Cursor<'a>, ParseError>)
    requires
        cur.wf(),
    ensures
        match keyword_outcome(cur.source(), cur.index(), "null"@, false) {
            Outcome::Accept { end, value } => r matches Ok(next) && next.at(cur.source(), end),
            Outcome::Reject { kind, at } => r matches Err(e) && reports(e, cur.source(), kind, at),
        },
{
    proof {
        reveal_strlit("null");
        assert(is_ascii_chars("null"@));
    }
    take_keyword(cur, "null", false)
}

/// Reads a boolean at the cursor.
pub fn boolean_at<'a>(cur: Cursor<'a>) -> (r: Result<(Cursor<'a>, bool), ParseError>)
    requires
        cur.wf(),
    ensures
        match boolean_outcome(cur.source(), cur.index()) {
            Outcome::Accept { end, value } => r matches Ok((next, b)) && next.at(cur.source(), end)
                && b == value,
            Outcome::Reject { kind, at } => r matches Err(e) && reports(e, cur.source(), kind, at),
        },
{
    proof {
        reveal_strlit("true");
        reveal_strlit("false");
        assert(is_ascii_chars("true"@));
        assert(is_ascii_chars("false"@));
    }
    if let Ok(next) = take_keyword(cur, "true", true) {
        return Ok((next, true));
    }
    if let Ok(next) = take_keyword(cur, "false", true) {
        return Ok((next, false));
    }
    Err(error_at(&cur, ErrorKind::LexicalMismatch))
}

/// Reads a floating point literal at the cursor.
pub fn float_text_at<'a>(cur: Cursor<'a>) -> (r: Result<(Cursor<'a>, FloatText), ParseError>)
    requires
        cur.wf(),
    ensures
        match float_text_outcome(cur.source(), cur.index()) {
            Outcome::Accept { end, value } => r matches Ok((next, f)) && next.at(cur.source(), end)
                && f@ == value,
            Outcome::Reject { kind, at } => r matches Err(e) && reports(e, cur.source(), kind, at),
        },
{
    let complaint = match float_at(cur) {
        Ok(next) => {
            return Ok((next, FloatText::Decimal(String::from_str(next.since(&cur)))));
        },
        Err(e) => e,
    };
    proof {
        reveal_strlit("NaN");
        reveal_strlit("INF");
        reveal_strlit("-INF");
        assert(is_ascii_chars("NaN"@));
        assert(is_ascii_chars("INF"@));
        assert(is_ascii_chars("-INF"@));
    }
    if let Ok(next) = take_keyword(cur, "NaN", false) {
        return Ok((next, FloatText::NaN));
    }
    if let Ok(next) = take_keyword(cur, "INF", false) {
        return Ok((next, FloatText::Infinity));
    }
    if let Ok(next) = take_keyword(cur, "-INF", false) {
        return Ok((next, FloatText::NegInfinity));
    }
    Err(complaint)
}

/// Reads a literal at the cursor.
pub fn literal_at<'a>(cur: Cursor<'a>) -> (r: Result<(Cursor<'a>, Literal), ParseError>)
    requires
        cur.wf(),
    ensures
        match literal_outcome(cur.source(), cur.index()) {
            Outcome::Accept { end, value } => r matches Ok((next, literal)) && next.at(
                cur.source(),
                end,
            ) && literal@ == value,
            Outcome::Reject { kind, at } => r matches Err(e) && reports(e, cur.source(), kind, at),
        },
{
    if let Ok(next) = null_at(cur) {
        return Ok((next, Literal::Null));
    }
    if let Ok((next, b)) = boolean_at(cur) {
        return Ok((next, Literal::Boolean(b)));
    }
    if let Ok((next, text)) = string_at(cur) {
        return Ok((next, Literal::String(text)));
    }
    if let Ok((next, date)) = date_at(cur) {
        return Ok((next, Literal::Date(date)));
    }
    if let Ok(next) = guid_at(cur) {
        return Ok((next, Literal::GUID(String::from_str(next.since(&cur)))));
    }
    if let Ok((next, f)) = float_text_at(cur) {
        return Ok((next, Literal::Float(f)));
    }
    if let Ok((next, n)) = integer_at(cur) {
        return Ok((next, Literal::Integer(n)));
    }
    if let Ok((next, bytes)) = binary_at(cur) {
        return Ok((next, Literal::Binary(bytes)));
    }
    Err(error_at(&cur, ErrorKind::ExhaustedAlternatives))
}

/// Parses a literal at the start of `inp`: the value, and the text that
/// follows the literal. Where no literal stands there, the error tells that
/// the alternatives are exhausted, at offset 0.
pub fn parse_literal<'a>(inp: &'a str) -> (r: Result<(&'a str, Literal), ParseError>)
    ensures
        match literal_outcome(inp@, 0) {
            Outcome::Accept { end, value } => r matches Ok((rest, literal)) && rest@
                == inp@.subrange(end, inp@.len() as int) && literal@ == value,
            Outcome::Reject { kind, at } => r == Err::<(&'a str, Literal), ParseError>(
                ParseError { kind: ErrorKind::ExhaustedAlternatives, position: 0 },
            ),
        },
{
    let start = Cursor::new(inp);
    match literal_at(start) {
        Ok((next, literal)) => Ok((next.rest(), literal)),
        Err(e) => {
            proof {
                assert(inp@.subrange(0, 0) =~= Seq::<char>::empty());
            }
            Err(e)
        },
    }
}

} // verus!
