//! Binary values: `binary'..'` around base64 text in the URL-safe alphabet.

use vstd::prelude::*;
use vstd::utf8::is_ascii_chars;
use crate::error::{ErrorKind, ParseError};
use crate::parser::cursor::Cursor;
use crate::parser::grammar::{keyword_outcome, run_end, stands_at, CharClass, Outcome};
use crate::parser::scan::{error_at, reports, take_char, take_keyword, take_run};

verus! {

/// The error of the base64 decoder, `base64::DecodeError`. Nothing is known
/// of what it holds.
#[verifier::external_type_specification]
#[verifier::external_body]
pub struct ExDecodeError(base64::DecodeError);

/// The bytes that base64 text in the URL-safe alphabet encodes, with or
/// without padding at its end; nothing where the text is no such encoding.
pub uninterp spec fn base64url_decoded(text: Seq<char>) -> Option<Seq<u8>>;

/// Calls `base64::Engine::decode` on a `GeneralPurpose` engine with the
/// URL-safe alphabet that takes padding or leaves it. The contract gives
/// the outcome the name `base64url_decoded`: the bytes where the engine
/// decodes the text, nothing where it reports an error.
#[verifier::external_body]
fn decode_base64url(text: &str) -> (r: Result<Vec<u8>, base64::DecodeError>)
    ensures
        match r {
            Ok(bytes) => base64url_decoded(text@) == Some(bytes@),
            Err(_) => base64url_decoded(text@) is None,
        },
{
    let config = base64::engine::GeneralPurposeConfig::new().with_decode_padding_mode(
        base64::engine::DecodePaddingMode::Indifferent,
    );
    let engine = base64::engine::GeneralPurpose::new(&base64::alphabet::URL_SAFE, config);
    base64::Engine::decode(&engine, text)
}

/// The grammar of binary values: the keyword `binary` in any case, a
/// quote, the longest run of base64 characters, a quote. The run must be
/// the encoding of some bytes, or the whole text fails to convert.
pub open spec fn binary_outcome(s: Seq<char>, i: int) -> Outcome<Seq<u8>> {
    match keyword_outcome(s, i, "binary'"@, true) {
        Outcome::Reject { kind, at } => Outcome::Reject { kind, at },
        Outcome::Accept { end: first, value: _ } => {
            let close = run_end(s, first, CharClass::Base64Url);
            if !stands_at(s, close, '\'') {
                Outcome::Reject { kind: ErrorKind::LexicalMismatch, at: close }
            } else {
                match base64url_decoded(s.subrange(first, close)) {
                    Some(bytes) => Outcome::Accept { end: close + 1, value: bytes },
                    None => Outcome::Reject { kind: ErrorKind::ConversionFailure, at: i },
                }
            }
        },
    }
}

/// The bytes that the decoder gave, or a failure to convert at the given
/// offset where it gave none.
pub fn binary_from_decoded(decoded: Result<Vec<u8>, base64::DecodeError>, position: usize) -> (r:
    Result<Vec<u8>, ParseError>)
    ensures
        match decoded {
            Ok(bytes) => r == Ok::<Vec<u8>, ParseError>(bytes),
            Err(_) => r == Err::<Vec<u8>, ParseError>(
                ParseError { kind: ErrorKind::ConversionFailure, position },
            ),
        },
{
    match decoded {
        Ok(bytes) => Ok(bytes),
        Err(_) => Err(ParseError { kind: ErrorKind::ConversionFailure, position }),
    }
}

/// Reads a binary value at the cursor.
pub fn binary_at<'a>(cur: Cursor<'a>) -> (r: Result<(Cursor<'a>, Vec<u8>), ParseError>)
    requires
        cur.wf(),
    ensures
        match binary_outcome(cur.source(), cur.index()) {
            Outcome::Accept { end, value } => r matches Ok((next, bytes)) && next.at(
                cur.source(),
                end,
            ) && bytes@ == value,
            Outcome::Reject { kind, at } => r matches Err(e) && reports(e, cur.source(), kind, at),
        },
{
    proof {
        reveal_strlit("binary'");
        assert(is_ascii_chars("binary'"@));
    }
    let first = match take_keyword(cur, "binary'", true) {
        Ok(next) => next,
        Err(e) => {
            return Err(e);
        },
    };
    let close = take_run(first, CharClass::Base64Url);
    let end = match take_char(close, '\'') {
        Some(next) => next,
        None => {
            return Err(error_at(&close, ErrorKind::LexicalMismatch));
        },
    };
    let decoded = decode_base64url(close.since(&first));
    match binary_from_decoded(decoded, cur.offset()) {
        Ok(bytes) => Ok((end, bytes)),
        Err(e) => Err(e),
    }
}

/// Parses a binary value at the start of `inp`: the bytes that it encodes,
/// and the text that follows it.
pub fn parse_binary<'a>(inp: &'a str) -> (r: Result<(&'a str, Vec<u8>), ParseError>)
    ensures
        match binary_outcome(inp@, 0) {
            Outcome::Accept { end, value } => r matches Ok((rest, bytes)) && rest@
                == inp@.subrange(end, inp@.len() as int) && bytes@ == value,
            Outcome::Reject { kind, at } => r matches Err(e) && reports(e, inp@, kind, at),
        },
{
    match binary_at(Cursor::new(inp)) {
        Ok((next, bytes)) => Ok((next.rest(), bytes)),
        Err(e) => Err(e),
    }
}

} // verus!
