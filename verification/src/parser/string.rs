//! Quoted strings.

use vstd::prelude::*;
use vstd::string::StringExecFns;
use crate::error::{ErrorKind, ParseError};
use crate::parser::cursor::Cursor;
use crate::parser::grammar::{stands_at, Outcome};
use crate::parser::scan::{error_at, reports, take_char};

verus! {

/// The characters `head` put before the body that `tail` found, if it found
/// one.
pub open spec fn prepend(head: Seq<char>, tail: Option<(Seq<char>, int)>) -> Option<
    (Seq<char>, int),
> {
    match tail {
        Some((body, close)) => Some((head + body, close)),
        None => None,
    }
}

/// Reads the inside of a quoted string from index `i` on: a quote followed
/// by a second quote stands for one quote, any other character for itself,
/// and a quote that no second quote follows closes the string. Gives the
/// characters read and the index of the closing quote, or nothing if the
/// text ends before a closing quote.
pub open spec fn quoted_body(s: Seq<char>, i: int) -> Option<(Seq<char>, int)>
    decreases s.len() - i,
{
    if i < 0 || i >= s.len() {
        None
    } else if s[i] != '\'' {
        prepend(seq![s[i]], quoted_body(s, i + 1))
    } else if stands_at(s, i + 1, '\'') {
        prepend(seq!['\''], quoted_body(s, i + 2))
    } else {
        Some((Seq::empty(), i))
    }
}

/// The grammar of strings: a quote, the inside, the closing quote. A text
/// that ends before the closing quote holds no string, and the mismatch is
/// found at its end.
pub open spec fn string_outcome(s: Seq<char>, i: int) -> Outcome<Seq<char>> {
    if !stands_at(s, i, '\'') {
        Outcome::Reject { kind: ErrorKind::LexicalMismatch, at: i }
    } else {
        match quoted_body(s, i + 1) {
            Some((body, close)) => Outcome::Accept { end: close + 1, value: body },
            None => Outcome::Reject { kind: ErrorKind::LexicalMismatch, at: s.len() as int },
        }
    }
}

/// Characters put before a body one after the other are put before it
/// together.
pub proof fn lemma_prepend_twice(a: Seq<char>, b: Seq<char>, tail: Option<(Seq<char>, int)>)
    ensures
        prepend(a, prepend(b, tail)) == prepend(a + b, tail),
{
    match tail {
        Some((body, close)) => {
            assert(a + (b + body) =~= (a + b) + body);
        },
        None => {},
    }
}

/// Reads a string at the cursor.
pub fn string_at<'a>(cur: Cursor<'a>) -> (r: Result<(Cursor<'a>, String), ParseError>)
    requires
        cur.wf(),
    ensures
        match string_outcome(cur.source(), cur.index()) {
            Outcome::Accept { end, value } => r matches Ok((next, text)) && next.at(
                cur.source(),
                end,
            ) && text@ == value,
            Outcome::Reject { kind, at } => r matches Err(e) && reports(e, cur.source(), kind, at),
        },
{
    let ghost s = cur.source();
    let ghost i = cur.index();
    let inside = match take_char(cur, '\'') {
        Some(next) => next,
        None => {
            return Err(error_at(&cur, ErrorKind::LexicalMismatch));
        },
    };
    let mut text = String::new();
    let mut span = inside;
    let mut at = inside;
    proof {
        assert(text@ + s.subrange(span.index(), at.index()) =~= Seq::<char>::empty());
        assert(prepend(Seq::<char>::empty(), quoted_body(s, i + 1)) == quoted_body(s, i + 1)) by {
            match quoted_body(s, i + 1) {
                Some((body, close)) => {
                    assert(Seq::<char>::empty() + body =~= body);
                },
                None => {},
            }
        }
    }
    loop
        invariant
            s == cur.source(),
            i == cur.index(),
            stands_at(s, i, '\''),
            span.at(s, span.index()),
            at.at(s, at.index()),
            i < span.index() <= at.index() <= s.len(),
            forall|j: int| span.index() <= j < at.index() ==> s[j] != '\'',
            quoted_body(s, i + 1) == prepend(
                text@ + s.subrange(span.index(), at.index()),
                quoted_body(s, at.index()),
            ),
        decreases s.len() - at.index(),
    {
        let ghost a = at.index();
        let ghost read = text@ + s.subrange(span.index(), a);
        if at.at_end() {
            return Err(error_at(&at, ErrorKind::LexicalMismatch));
        }
        let quote = match at.peek() {
            Some(c) => c == '\'',
            None => false,
        };
        if quote {
            text.append(at.since(&span));
            let after = at.step();
            match take_char(after, '\'') {
                Some(next) => {
                    proof {
                        reveal_strlit("'");
                        assert("'"@ =~= seq!['\'']);
                    }
                    text.append("'");
                    proof {
                        lemma_prepend_twice(read, seq!['\''], quoted_body(s, a + 2));
                        assert(text@ + s.subrange(next.index(), next.index()) =~= read + seq![
                            '\'',
                        ]);
                    }
                    at = next;
                    span = next;
                },
                None => {
                    proof {
                        assert(read + Seq::<char>::empty() =~= read);
                    }
                    return Ok((after, text));
                },
            }
        } else {
            proof {
                lemma_prepend_twice(read, seq![s[a]], quoted_body(s, a + 1));
                assert(text@ + s.subrange(span.index(), a + 1) =~= read + seq![s[a]]);
            }
            at = at.step();
        }
    }
}

/// Parses a quoted string at the start of `inp`: the characters that it
/// holds, and the text that follows it.
pub fn parse_string<'a>(inp: &'a str) -> (r: Result<(&'a str, String), ParseError>)
    ensures
        match string_outcome(inp@, 0) {
            Outcome::Accept { end, value } => r matches Ok((rest, text)) && rest@ == inp@.subrange(
                end,
                inp@.len() as int,
            ) && text@ == value,
            Outcome::Reject { kind, at } => r matches Err(e) && reports(e, inp@, kind, at),
        },
{
    match string_at(Cursor::new(inp)) {
        Ok((next, text)) => Ok((next.rest(), text)),
        Err(e) => Err(e),
    }
}

} // verus!
