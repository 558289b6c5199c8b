//! What holds of the grammars as a whole: strings and integers come back
//! from their written form, GUIDs have their layout, and dates go before
//! the numbers that begin like them.

use vstd::prelude::*;
use crate::ast::{FloatTextView, LiteralView};
use crate::calendar::is_calendar_date;
use crate::parser::binary::{base64url_decoded, binary_outcome};
use crate::parser::date::{date_outcome, month_outcome, year_outcome};
use crate::parser::grammar::{
    agrees, base64url_char, decimal, departs_at, digit, digit_value, in_class, keyword_outcome,
    run_end, sign_len, stands_at, CharClass, Outcome,
};
use crate::parser::guid::{guid_char_ok, guid_departs_at, guid_outcome};
use crate::parser::literal::{boolean_outcome, float_text_outcome, literal_outcome};
use crate::parser::number::{float_outcome, integer_outcome};
use crate::parser::scan::lemma_run_end_bounds;
use crate::parser::string::{quoted_body, string_outcome};

verus! {

/// The written form of the inside of a string: every quote doubled.
pub open spec fn escaped(v: Seq<char>) -> Seq<char>
    decreases v.len(),
{
    if v.len() == 0 {
        Seq::empty()
    } else if v[0] == '\'' {
        seq!['\'', '\''] + escaped(v.drop_first())
    } else {
        seq![v[0]] + escaped(v.drop_first())
    }
}

/// The written form of a string: its inside between two quotes.
pub open spec fn quoted(v: Seq<char>) -> Seq<char> {
    seq!['\''] + escaped(v) + seq!['\'']
}

/// Where the text holds the written form of `v` from `i` on, then a quote
/// that no second quote follows, the inside is read as `v` and the quote
/// closes the string.
pub proof fn lemma_quoted_body_reads(t: Seq<char>, i: int, v: Seq<char>)
    requires
        0 <= i,
        i + escaped(v).len() < t.len(),
        t.subrange(i, i + escaped(v).len()) == escaped(v),
        t[i + escaped(v).len()] == '\'',
        !stands_at(t, i + escaped(v).len() + 1, '\''),
    ensures
        quoted_body(t, i) == Some((v, i + escaped(v).len())),
    decreases v.len(),
{
    let w = escaped(v);
    if v.len() == 0 {
        assert(v =~= Seq::<char>::empty());
    } else {
        let rest = v.drop_first();
        let step: int = if v[0] == '\'' {
            2
        } else {
            1
        };
        assert(w.len() == step + escaped(rest).len());
        assert(t[i] == w[0]);
        if v[0] == '\'' {
            assert(t[i + 1] == w[1]);
        }
        assert(t.subrange(i + step, i + step + escaped(rest).len()) =~= escaped(rest)) by {
            assert forall|k: int| 0 <= k < escaped(rest).len() implies t[i + step + k] == escaped(
                rest,
            )[k] by {
                assert(t[i + step + k] == w[step + k]);
            }
        }
        lemma_quoted_body_reads(t, i + step, rest);
        assert(seq![v[0]] + rest =~= v);
    }
}

/// A string comes back from its written form: the text that begins with
/// the written form of `v`, and goes on with something other than a quote,
/// holds the string `v`, which ends where its written form ends.
pub proof fn lemma_string_round_trip(v: Seq<char>, rest: Seq<char>)
    requires
        rest.len() == 0 || rest[0] != '\'',
    ensures
        string_outcome(quoted(v) + rest, 0) == (Outcome::Accept {
            end: quoted(v).len() as int,
            value: v,
        }),
{
    let t = quoted(v) + rest;
    let w = escaped(v);
    assert(t[0] == '\'');
    let n = w.len() as int;
    assert(t.subrange(1, 1 + n) =~= w);
    assert(t[1 + n] == '\'');
    if rest.len() > 0 {
        assert(t[2 + n] == rest[0]);
    }
    lemma_quoted_body_reads(t, 1, v);
}

/// What was read as the inside of a string was written as such: between
/// `i` and the closing quote the text is the written form of what was
/// read, and no second quote follows the closing one.
pub proof fn lemma_quoted_body_written(s: Seq<char>, i: int)
    requires
        0 <= i,
        quoted_body(s, i) is Some,
    ensures
        ({
            let (body, close) = quoted_body(s, i)->0;
            &&& i <= close < s.len()
            &&& s.subrange(i, close) == escaped(body)
            &&& s[close] == '\''
            &&& !stands_at(s, close + 1, '\'')
        }),
    decreases s.len() - i,
{
    let (body, close) = quoted_body(s, i)->0;
    if s[i] != '\'' {
        lemma_quoted_body_written(s, i + 1);
        let (tail, _) = quoted_body(s, i + 1)->0;
        assert(body == seq![s[i]] + tail);
        assert(body.drop_first() =~= tail);
        assert(s.subrange(i, close) =~= seq![s[i]] + s.subrange(i + 1, close));
    } else if stands_at(s, i + 1, '\'') {
        lemma_quoted_body_written(s, i + 2);
        let (tail, _) = quoted_body(s, i + 2)->0;
        assert(body == seq!['\''] + tail);
        assert(body.drop_first() =~= tail);
        assert(s.subrange(i, close) =~= seq!['\'', '\''] + s.subrange(i + 2, close));
    } else {
        assert(s.subrange(i, close) =~= Seq::<char>::empty());
        assert(body =~= Seq::<char>::empty());
    }
}

/// A GUID is 36 characters in the layout 8-4-4-4-12, taken from the text as
/// they stand.
pub proof fn lemma_guid_layout(s: Seq<char>, i: int)
    requires
        0 <= i,
        guid_outcome(s, i) is Accept,
    ensures
        ({
            let value = guid_outcome(s, i)->value;
            &&& guid_outcome(s, i)->end == i + 36 <= s.len()
            &&& value == s.subrange(i, i + 36)
            &&& forall|k: int| 0 <= k < 36 ==> guid_char_ok(s, i, k)
        }),
{
    assert forall|k: int| 0 <= k < 36 implies guid_char_ok(s, i, k) by {
        if !guid_char_ok(s, i, k) {
            lemma_guid_departs_before(s, i, 0, k);
        }
    }
    assert(guid_char_ok(s, i, 35));
}

/// The layout is left at or before any offset that does not fit it.
pub proof fn lemma_guid_departs_before(s: Seq<char>, i: int, k: int, j: int)
    requires
        0 <= k <= j < 36,
        !guid_char_ok(s, i, j),
    ensures
        guid_departs_at(s, i, k) <= j,
    decreases j - k,
{
    if k < j && guid_char_ok(s, i, k) {
        lemma_guid_departs_before(s, i, k + 1, j);
    }
}

/// A keyword is not found where the first character is not its own.
pub proof fn lemma_keyword_needs_first(s: Seq<char>, i: int, word: Seq<char>, fold: bool)
    requires
        word.len() > 0,
        !(0 <= i < s.len() && agrees(s[i], word[0], fold)),
    ensures
        keyword_outcome(s, i, word, fold) is Reject,
{
}

/// A date begins with a digit or a minus sign, and has a hyphen after its
/// year.
pub proof fn lemma_date_shape(s: Seq<char>, i: int)
    requires
        0 <= i,
        date_outcome(s, i) is Accept,
    ensures
        i < s.len(),
        digit(s[i]) || s[i] == '-',
        stands_at(s, i + 4, '-') || stands_at(s, i + 5, '-'),
{
    let first = if stands_at(s, i, '-') {
        i + 1
    } else {
        i
    };
    lemma_run_end_bounds(s, first, CharClass::Digit);
    if first <= s.len() {
        assert(in_class(CharClass::Digit, s[first]));
    }
}

/// A date that the grammar accepts is a day of the calendar.
pub proof fn lemma_date_is_valid(s: Seq<char>, i: int)
    requires
        date_outcome(s, i) is Accept,
    ensures
        ({
            let date = date_outcome(s, i)->value;
            is_calendar_date(date.year, date.month, date.day)
        }),
{
}

/// A text without a hyphen holds no date, and what it holds as a literal
/// is no date: a run of digits is never taken for one.
pub proof fn lemma_no_date_without_hyphen(s: Seq<char>)
    requires
        forall|j: int| 0 <= j < s.len() ==> s[j] != '-',
    ensures
        date_outcome(s, 0) is Reject,
        !(literal_outcome(s, 0) matches Outcome::Accept { end, value } && value is Date),
{
    if date_outcome(s, 0) is Accept {
        lemma_date_shape(s, 0);
    }
}

/// A date goes before the numbers: where the text holds a date, the
/// literal is that date, whatever an integer or a GUID would make of the
/// same digits.
pub proof fn lemma_date_first(s: Seq<char>, i: int)
    requires
        0 <= i,
        date_outcome(s, i) is Accept,
    ensures
        literal_outcome(s, i) == (Outcome::Accept {
            end: date_outcome(s, i)->end,
            value: LiteralView::Date(date_outcome(s, i)->value),
        }),
{
    lemma_date_shape(s, i);
    reveal_strlit("null");
    reveal_strlit("true");
    reveal_strlit("false");
    lemma_keyword_needs_first(s, i, "null"@, false);
    lemma_keyword_needs_first(s, i, "true"@, true);
    lemma_keyword_needs_first(s, i, "false"@, true);
}

/// A keyword that the text goes on with lies within the text.
pub proof fn lemma_departs_within(s: Seq<char>, i: int, word: Seq<char>, fold: bool, k: int)
    requires
        0 <= k,
        0 <= i,
    ensures
        k <= departs_at(s, i, word, fold, k),
        k < departs_at(s, i, word, fold, k) ==> i + departs_at(s, i, word, fold, k) <= s.len(),
    decreases word.len() - k,
{
    if 0 <= k < word.len() && 0 <= i + k < s.len() && agrees(s[i + k], word[k], fold) {
        lemma_departs_within(s, i, word, fold, k + 1);
    }
}

/// A keyword that the grammar accepts is not empty and lies within the
/// text.
pub proof fn lemma_keyword_within(s: Seq<char>, i: int, word: Seq<char>, fold: bool)
    requires
        0 <= i,
        word.len() > 0,
        keyword_outcome(s, i, word, fold) is Accept,
    ensures
        i < keyword_outcome(s, i, word, fold)->end <= s.len(),
{
    lemma_departs_within(s, i, word, fold, 0);
}

/// A run that starts within the text ends within it; one that starts
/// behind the text is empty.
pub proof fn lemma_run_within(s: Seq<char>, i: int, class: CharClass)
    requires
        0 <= i,
    ensures
        i <= run_end(s, i, class),
        i < run_end(s, i, class) ==> run_end(s, i, class) <= s.len(),
{
    if i <= s.len() {
        lemma_run_end_bounds(s, i, class);
    }
}

/// A number that the grammar of integers or of floating point numbers
/// accepts is not empty and lies within the text.
pub proof fn lemma_number_within(s: Seq<char>, i: int)
    requires
        0 <= i,
    ensures
        integer_outcome(s, i) is Accept ==> i < integer_outcome(s, i)->end <= s.len(),
        float_outcome(s, i) is Accept ==> i < float_outcome(s, i)->end <= s.len(),
{
    let first = i + sign_len(s, i);
    let int_end = run_end(s, first, CharClass::Digit);
    lemma_run_within(s, first, CharClass::Digit);
    let fraction_end = if stands_at(s, int_end, '.') {
        run_end(s, int_end + 1, CharClass::Digit)
    } else {
        int_end
    };
    lemma_run_within(s, int_end + 1, CharClass::Digit);
    let exponent_first = fraction_end + 1 + sign_len(s, fraction_end + 1);
    lemma_run_within(s, exponent_first, CharClass::Digit);
}

/// A date that the grammar accepts lies within the text.
pub proof fn lemma_date_within(s: Seq<char>, i: int)
    requires
        0 <= i,
        date_outcome(s, i) is Accept,
    ensures
        i < date_outcome(s, i)->end <= s.len(),
{
    let year_end = year_outcome(s, i)->end;
    let month_end = month_outcome(s, year_end + 1)->end;
    lemma_run_within(s, month_end + 2, CharClass::Digit);
}

/// A literal is not empty and lies within the text: what the grammar
/// accepts is a part of the text that starts at `i`.
pub proof fn lemma_literal_within(s: Seq<char>, i: int)
    requires
        0 <= i,
        literal_outcome(s, i) is Accept,
    ensures
        i < literal_outcome(s, i)->end <= s.len(),
{
    reveal_strlit("null");
    reveal_strlit("true");
    reveal_strlit("false");
    reveal_strlit("NaN");
    reveal_strlit("INF");
    reveal_strlit("-INF");
    reveal_strlit("binary'");
    if keyword_outcome(s, i, "null"@, false) is Accept {
        lemma_keyword_within(s, i, "null"@, false);
    } else if boolean_outcome(s, i) is Accept {
        if keyword_outcome(s, i, "true"@, true) is Accept {
            lemma_keyword_within(s, i, "true"@, true);
        } else {
            lemma_keyword_within(s, i, "false"@, true);
        }
    } else if string_outcome(s, i) is Accept {
        lemma_quoted_body_written(s, i + 1);
    } else if date_outcome(s, i) is Accept {
        lemma_date_within(s, i);
    } else if guid_outcome(s, i) is Accept {
        lemma_guid_layout(s, i);
    } else if float_text_outcome(s, i) is Accept {
        lemma_number_within(s, i);
        if float_outcome(s, i) is Accept {
        } else if keyword_outcome(s, i, "NaN"@, false) is Accept {
            lemma_keyword_within(s, i, "NaN"@, false);
        } else if keyword_outcome(s, i, "INF"@, false) is Accept {
            lemma_keyword_within(s, i, "INF"@, false);
        } else {
            lemma_keyword_within(s, i, "-INF"@, false);
        }
    } else if integer_outcome(s, i) is Accept {
        lemma_number_within(s, i);
    } else {
        lemma_keyword_within(s, i, "binary'"@, true);
        let first = keyword_outcome(s, i, "binary'"@, true)->end;
        lemma_run_within(s, first, CharClass::Base64Url);
    }
}

/// The character that writes a digit.
pub open spec fn digit_char(d: int) -> char {
    if d == 0 {
        '0'
    } else if d == 1 {
        '1'
    } else if d == 2 {
        '2'
    } else if d == 3 {
        '3'
    } else if d == 4 {
        '4'
    } else if d == 5 {
        '5'
    } else if d == 6 {
        '6'
    } else if d == 7 {
        '7'
    } else if d == 8 {
        '8'
    } else {
        '9'
    }
}

/// The digits that write a natural number in decimal, without leading
/// zeros.
pub open spec fn digits_of(n: nat) -> Seq<char>
    decreases n,
{
    if n < 10 {
        seq![digit_char(n as int)]
    } else {
        digits_of(n / 10).push(digit_char((n % 10) as int))
    }
}

/// The written form of an integer: its digits, after a minus sign where it
/// is negative.
pub open spec fn integer_text(n: int) -> Seq<char> {
    if n < 0 {
        seq!['-'] + digits_of((-n) as nat)
    } else {
        digits_of(n as nat)
    }
}

/// The number that digits write depends on these digits alone.
pub proof fn lemma_decimal_of_same_digits(a: Seq<char>, i: int, b: Seq<char>, j: int, n: int)
    requires
        0 <= n,
        forall|p: int| i <= p < i + n ==> #[trigger] a[p] == b[p - i + j],
    ensures
        decimal(a, i, i + n) == decimal(b, j, j + n),
    decreases n,
{
    if n > 0 {
        lemma_decimal_of_same_digits(a, i, b, j, n - 1);
        assert(a[i + n - 1] == b[i + n - 1 - i + j]);
    }
}

/// A run ends where the first character stands that is not of its class,
/// or where the text ends.
pub proof fn lemma_run_stops(s: Seq<char>, i: int, end: int, class: CharClass)
    requires
        0 <= i <= end <= s.len(),
        forall|j: int| i <= j < end ==> in_class(class, #[trigger] s[j]),
        end == s.len() || !in_class(class, s[end]),
    ensures
        run_end(s, i, class) == end,
    decreases end - i,
{
    if i < end {
        assert(in_class(class, s[i]));
        lemma_run_stops(s, i + 1, end, class);
    }
}

/// The digits of a number are digits, and write that number.
pub proof fn lemma_digits_of(n: nat)
    ensures
        digits_of(n).len() >= 1,
        forall|j: int| 0 <= j < digits_of(n).len() ==> digit(#[trigger] digits_of(n)[j]),
        decimal(digits_of(n), 0, digits_of(n).len() as int) == n,
    decreases n,
{
    let t = digits_of(n);
    if n < 10 {
        assert(decimal(t, 0, 1) == decimal(t, 0, 0) * 10 + digit_value(t[0]));
    } else {
        let head = digits_of(n / 10);
        let len = head.len() as int;
        lemma_digits_of(n / 10);
        assert(t.len() == len + 1);
        assert(t[len] == digit_char((n % 10) as int));
        assert forall|j: int| 0 <= j < t.len() implies digit(#[trigger] t[j]) by {
            if j < len {
                assert(t[j] == head[j]);
            }
        }
        lemma_decimal_of_same_digits(t, 0, head, 0, len);
        assert(decimal(t, 0, len + 1) == decimal(t, 0, len) * 10 + digit_value(t[len]));
    }
}

/// An integer comes back from its written form: the text of a signed
/// 64-bit integer holds, as a literal, that integer and nothing after it.
pub proof fn lemma_integer_round_trip(n: int)
    requires
        i64::MIN <= n <= i64::MAX,
    ensures
        integer_outcome(integer_text(n), 0) == (Outcome::Accept {
            end: integer_text(n).len() as int,
            value: n,
        }),
        literal_outcome(integer_text(n), 0) == (Outcome::Accept {
            end: integer_text(n).len() as int,
            value: LiteralView::Integer(n),
        }),
{
    let t = integer_text(n);
    let len = t.len() as int;
    let first: int = if n < 0 {
        1
    } else {
        0
    };
    let m: nat = if n < 0 {
        (-n) as nat
    } else {
        n as nat
    };
    let d = digits_of(m);
    lemma_digits_of(m);
    assert(len == first + d.len());
    assert forall|j: int| first <= j < len implies digit(#[trigger] t[j]) by {
        assert(t[j] == d[j - first]);
    }
    assert(digit(t[first]));
    assert(n < 0 ==> t[0] == '-');
    assert(sign_len(t, 0) == first);
    lemma_run_stops(t, first, len, CharClass::Digit);
    lemma_decimal_of_same_digits(t, first, d, 0, d.len() as int);
    assert(integer_outcome(t, 0) == (Outcome::Accept { end: len, value: n }));

    reveal_strlit("null");
    reveal_strlit("true");
    reveal_strlit("false");
    reveal_strlit("NaN");
    reveal_strlit("INF");
    reveal_strlit("-INF");
    lemma_keyword_needs_first(t, 0, "null"@, false);
    lemma_keyword_needs_first(t, 0, "true"@, true);
    lemma_keyword_needs_first(t, 0, "false"@, true);
    lemma_keyword_needs_first(t, 0, "NaN"@, false);
    lemma_keyword_needs_first(t, 0, "INF"@, false);
    assert(keyword_outcome(t, 0, "-INF"@, false) is Reject) by {
        if n < 0 {
            assert(digit(t[1]));
            assert(!agrees(t[1], "-INF"@[1], false));
            assert(departs_at(t, 0, "-INF"@, false, 1) == 1);
            assert(departs_at(t, 0, "-INF"@, false, 0) == 1);
        } else {
            lemma_keyword_needs_first(t, 0, "-INF"@, false);
        }
    }
    assert(boolean_outcome(t, 0) is Reject);
    assert(string_outcome(t, 0) is Reject);
    assert(date_outcome(t, 0) is Reject) by {
        if first + 4 < len {
            assert(digit(t[first + 4]));
        }
    }
    assert(guid_outcome(t, 0) is Reject) by {
        if 8 < len {
            assert(digit(t[8]));
        }
        assert(!guid_char_ok(t, 0, 8));
        lemma_guid_departs_before(t, 0, 0, 8);
    }
    assert(float_outcome(t, 0) is Reject);
    assert(float_text_outcome(t, 0) is Reject);
}

/// A sign as it is written: nothing, `+` or `-`.
pub open spec fn is_sign(x: Seq<char>) -> bool {
    x.len() == 0 || (x.len() == 1 && (x[0] == '+' || x[0] == '-'))
}

/// Digits and nothing else.
pub open spec fn all_digits(x: Seq<char>) -> bool {
    forall|j: int| 0 <= j < x.len() ==> digit(#[trigger] x[j])
}

/// The written form of a floating point number: a sign, the digits before
/// the period, then the period and the digits of the fraction where there
/// is one, then the marker, the sign and the digits of the exponent where
/// there is one.
pub open spec fn float_text(
    sign: Seq<char>,
    whole: Seq<char>,
    fraction: Option<Seq<char>>,
    exponent: Option<(char, Seq<char>, Seq<char>)>,
) -> Seq<char> {
    sign + whole + (match fraction {
        Some(digits) => seq!['.'] + digits,
        None => Seq::empty(),
    }) + (match exponent {
        Some((marker, exponent_sign, digits)) => seq![marker] + exponent_sign + digits,
        None => Seq::empty(),
    })
}

/// True when the four parts are those of a floating point number: digits
/// before the period, digits in the fraction, and in the exponent the
/// marker `e` or `E`, a sign and at least one digit; and one of fraction
/// and exponent is there.
pub open spec fn is_float_text(
    sign: Seq<char>,
    whole: Seq<char>,
    fraction: Option<Seq<char>>,
    exponent: Option<(char, Seq<char>, Seq<char>)>,
) -> bool {
    &&& is_sign(sign)
    &&& whole.len() >= 1
    &&& all_digits(whole)
    &&& fraction matches Some(digits) ==> all_digits(digits)
    &&& exponent matches Some((marker, exponent_sign, digits)) ==> {
        &&& marker == 'e' || marker == 'E'
        &&& is_sign(exponent_sign)
        &&& digits.len() >= 1
        &&& all_digits(digits)
    }
    &&& fraction is Some || exponent is Some
}

/// The text of a floating point number is taken whole: the grammar of
/// floating point numbers accepts the written form of a number with a
/// fraction, an exponent or both up to its end, with the text itself as
/// the value, and as a literal the text is that floating point number.
pub proof fn lemma_float_text_whole(
    sign: Seq<char>,
    whole: Seq<char>,
    fraction: Option<Seq<char>>,
    exponent: Option<(char, Seq<char>, Seq<char>)>,
)
    requires
        is_float_text(sign, whole, fraction, exponent),
    ensures
        float_outcome(float_text(sign, whole, fraction, exponent), 0) == (Outcome::Accept {
            end: float_text(sign, whole, fraction, exponent).len() as int,
            value: float_text(sign, whole, fraction, exponent),
        }),
        literal_outcome(float_text(sign, whole, fraction, exponent), 0) == (Outcome::Accept {
            end: float_text(sign, whole, fraction, exponent).len() as int,
            value: LiteralView::Float(
                FloatTextView::Decimal(float_text(sign, whole, fraction, exponent)),
            ),
        }),
{
    let t = float_text(sign, whole, fraction, exponent);
    let len = t.len() as int;
    let a = sign.len() as int;
    let b = a + whole.len();
    let fraction_part = match fraction {
        Some(digits) => seq!['.'] + digits,
        None => Seq::empty(),
    };
    let exponent_part = match exponent {
        Some((marker, exponent_sign, digits)) => seq![marker] + exponent_sign + digits,
        None => Seq::empty(),
    };
    let c = b + fraction_part.len();
    assert(t == sign + whole + fraction_part + exponent_part);
    assert(len == c + exponent_part.len());
    assert forall|j: int| 0 <= j < a implies t[j] == sign[j] by {}
    assert forall|j: int| a <= j < b implies t[j] == whole[j - a] && digit(t[j]) by {
        assert(digit(whole[j - a]));
    }
    assert forall|j: int| b <= j < c implies t[j] == fraction_part[j - b] by {}
    assert forall|j: int| c <= j < len implies t[j] == exponent_part[j - c] by {}
    if fraction is Some {
        let digits = fraction->0;
        assert(t[b] == '.');
        assert forall|j: int| b < j < c implies digit(#[trigger] t[j]) by {
            assert(fraction_part[j - b] == digits[j - b - 1]);
            assert(digit(digits[j - b - 1]));
        }
    }
    let d: int = if exponent is Some {
        c + 1 + (exponent->0).1.len()
    } else {
        len
    };
    if exponent is Some {
        let (marker, exponent_sign, digits) = exponent->0;
        assert(t[c] == marker);
        assert(d < len);
        assert forall|j: int| c < j < d implies t[j] == exponent_sign[j - c - 1] by {
            assert(exponent_part[j - c] == exponent_sign[j - c - 1]);
        }
        assert forall|j: int| d <= j < len implies digit(#[trigger] t[j]) by {
            assert(exponent_part[j - c] == digits[j - d]);
            assert(digit(digits[j - d]));
        }
        assert(digit(t[d]));
        assert(sign_len(t, c + 1) == d - (c + 1));
        lemma_run_stops(t, d, len, CharClass::Digit);
    }
    assert(digit(t[a]));
    assert(sign_len(t, 0) == a);
    lemma_run_stops(t, a, b, CharClass::Digit);
    if fraction is Some {
        lemma_run_stops(t, b + 1, c, CharClass::Digit);
    }
    assert(t.subrange(0, len) =~= t);
    assert(float_outcome(t, 0) == (Outcome::Accept { end: len, value: t }));

    reveal_strlit("null");
    reveal_strlit("true");
    reveal_strlit("false");
    lemma_keyword_needs_first(t, 0, "null"@, false);
    lemma_keyword_needs_first(t, 0, "true"@, true);
    lemma_keyword_needs_first(t, 0, "false"@, true);
    assert(string_outcome(t, 0) is Reject);
    assert(date_outcome(t, 0) is Reject) by {
        if a == 1 && t[0] == '+' {
            lemma_run_stops(t, 0, 0, CharClass::Digit);
        }
    }
    assert(guid_outcome(t, 0) is Reject) by {
        if guid_char_ok(t, 0, 8) {
            assert(t[8] == '-');
            assert(8 == c + 1);
            if 13 < len {
                assert(digit(t[13]));
            }
            assert(!guid_char_ok(t, 0, 13));
            lemma_guid_departs_before(t, 0, 0, 13);
        } else {
            lemma_guid_departs_before(t, 0, 0, 8);
        }
    }
}

/// True when the text from `i` has at offset `k` the character that the
/// keyword has there.
pub open spec fn keyword_char_ok(s: Seq<char>, i: int, word: Seq<char>, fold: bool, k: int) -> bool {
    0 <= i + k < s.len() && agrees(s[i + k], word[k], fold)
}

/// A keyword is found where every one of its characters stands.
pub proof fn lemma_keyword_found(s: Seq<char>, i: int, word: Seq<char>, fold: bool, k: int)
    requires
        0 <= k <= word.len(),
        forall|j: int| 0 <= j < word.len() ==> #[trigger] keyword_char_ok(s, i, word, fold, j),
    ensures
        departs_at(s, i, word, fold, k) == word.len(),
    decreases word.len() - k,
{
    if k < word.len() {
        assert(keyword_char_ok(s, i, word, fold, k));
        lemma_keyword_found(s, i, word, fold, k + 1);
    }
}

/// What the decoder gives is what a binary value holds: where `run` is
/// made of base64 characters and the decoder gives `bytes` for it, the
/// text `binary'`, `run`, a quote, and whatever follows, holds the binary
/// value `bytes`, which ends with that quote. So two runs for which the
/// decoder gives the same bytes, one with padding and one without, are the
/// same binary value.
pub proof fn lemma_binary_of_decodable(run: Seq<char>, bytes: Seq<u8>, rest: Seq<char>)
    requires
        forall|j: int| 0 <= j < run.len() ==> base64url_char(#[trigger] run[j]),
        base64url_decoded(run) == Some(bytes),
    ensures
        binary_outcome("binary'"@ + run + seq!['\''] + rest, 0) == (Outcome::Accept {
            end: run.len() as int + 8,
            value: bytes,
        }),
        literal_outcome("binary'"@ + run + seq!['\''] + rest, 0) == (Outcome::Accept {
            end: run.len() as int + 8,
            value: LiteralView::Binary(bytes),
        }),
{
    reveal_strlit("binary'");
    let word = "binary'"@;
    let t = word + run + seq!['\''] + rest;
    let close: int = 7 + run.len() as int;
    assert forall|j: int| 0 <= j < 7 implies t[j] == word[j] by {}
    assert forall|j: int| 7 <= j < close implies t[j] == run[j - 7] && in_class(
        CharClass::Base64Url,
        t[j],
    ) by {
        assert(base64url_char(run[j - 7]));
    }
    assert(t[close] == '\'');
    assert forall|j: int| 0 <= j < word.len() implies #[trigger] keyword_char_ok(
        t,
        0,
        word,
        true,
        j,
    ) by {
        assert(t[j] == word[j]);
    }
    lemma_keyword_found(t, 0, word, true, 0);
    lemma_run_stops(t, 7, close, CharClass::Base64Url);
    assert(t.subrange(7, close) =~= run);
    assert(binary_outcome(t, 0) == (Outcome::Accept { end: close + 1, value: bytes }));

    reveal_strlit("null");
    reveal_strlit("true");
    reveal_strlit("false");
    reveal_strlit("NaN");
    reveal_strlit("INF");
    reveal_strlit("-INF");
    lemma_keyword_needs_first(t, 0, "null"@, false);
    lemma_keyword_needs_first(t, 0, "true"@, true);
    lemma_keyword_needs_first(t, 0, "false"@, true);
    lemma_keyword_needs_first(t, 0, "NaN"@, false);
    lemma_keyword_needs_first(t, 0, "INF"@, false);
    lemma_keyword_needs_first(t, 0, "-INF"@, false);
    assert(t[0] == 'b' && t[1] == 'i');
    assert(!guid_char_ok(t, 0, 1));
    lemma_guid_departs_before(t, 0, 0, 1);
    lemma_run_stops(t, 0, 0, CharClass::Digit);
}

} // verus!
