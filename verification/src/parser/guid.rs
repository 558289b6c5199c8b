//! GUIDs.

use vstd::prelude::*;
use vstd::string::StringExecFns;
use crate::error::{ErrorKind, ParseError};
use crate::parser::cursor::Cursor;
use crate::parser::grammar::{hex_digit, Outcome};
use crate::parser::scan::{error_at, is_hex_digit, reports};

verus! {

/// True when the text from `i` has at offset `k` what a GUID has there: a
/// hyphen after the groups of 8, 4, 4 and 4 hexadecimal digits, and a
/// hexadecimal digit elsewhere.
pub open spec fn guid_char_ok(s: Seq<char>, i: int, k: int) -> bool {
    &&& 0 <= i + k < s.len()
    &&& if k == 8 || k == 13 || k == 18 || k == 23 {
        s[i + k] == '-'
    } else {
        hex_digit(s[i + k])
    }
}

/// The first offset from `k` on at which the text from `i` departs from the
/// layout of a GUID, or 36 if it does not.
pub open spec fn guid_departs_at(s: Seq<char>, i: int, k: int) -> int
    decreases 36 - k,
{
    if 0 <= k < 36 && guid_char_ok(s, i, k) {
        guid_departs_at(s, i, k + 1)
    } else {
        k
    }
}

/// The grammar of GUIDs: 36 characters in the layout 8-4-4-4-12. The value
/// is these characters as they stand.
pub open spec fn guid_outcome(s: Seq<char>, i: int) -> Outcome<Seq<char>> {
    let k = guid_departs_at(s, i, 0);
    if k == 36 {
        Outcome::Accept { end: i + 36, value: s.subrange(i, i + 36) }
    } else {
        Outcome::Reject { kind: ErrorKind::LexicalMismatch, at: i + k }
    }
}

/// Finds the end of a GUID at the cursor.
pub fn guid_at<'a>(cur: Cursor<'a>) -> (r: Result<Cursor<'a>, ParseError>)
    requires
        cur.wf(),
    ensures
        match guid_outcome(cur.source(), cur.index()) {
            Outcome::Accept { end, value } => r matches Ok(next) && next.at(cur.source(), end),
            Outcome::Reject { kind, at } => r matches Err(e) && reports(e, cur.source(), kind, at),
        },
{
    let ghost s = cur.source();
    let ghost i = cur.index();
    let mut at = cur;
    let mut k: usize = 0;
    while k < 36
        invariant
            s == cur.source(),
            i == cur.index(),
            0 <= k <= 36,
            at.at(s, i + k),
            guid_departs_at(s, i, 0) == guid_departs_at(s, i, k as int),
        decreases 36 - k,
    {
        let hyphen = k == 8 || k == 13 || k == 18 || k == 23;
        let fits = match at.peek() {
            Some(c) => if hyphen {
                c == '-'
            } else {
                is_hex_digit(c)
            },
            None => false,
        };
        if !fits {
            return Err(error_at(&at, ErrorKind::LexicalMismatch));
        }
        at = at.step();
        k = k + 1;
    }
    Ok(at)
}

/// Parses a GUID at the start of `inp`: its 36 characters, in the case in
/// which they were written, and the text that follows them.
pub fn parse_guid<'a>(inp: &'a str) -> (r: Result<(&'a str, String), ParseError>)
    ensures
        match guid_outcome(inp@, 0) {
            Outcome::Accept { end, value } => r matches Ok((rest, guid)) && rest@ == inp@.subrange(
                end,
                inp@.len() as int,
            ) && guid@ == value,
            Outcome::Reject { kind, at } => r matches Err(e) && reports(e, inp@, kind, at),
        },
{
    let start = Cursor::new(inp);
    match guid_at(start) {
        Ok(next) => Ok((next.rest(), String::from_str(next.since(&start)))),
        Err(e) => Err(e),
    }
}

} // verus!
