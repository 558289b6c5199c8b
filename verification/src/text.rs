//! Characters and their UTF-8 bytes.
//!
//! The grammars speak of the characters of the input, the parsers read its
//! bytes. This module relates a position counted in characters to the offset
//! of the same position counted in bytes.

use vstd::prelude::*;
use vstd::utf8::*;

verus! {

/// The offset in bytes at which the character with index `i` starts in the
/// UTF-8 encoding of `s`.
pub open spec fn byte_offset(s: Seq<char>, i: int) -> int {
    encode_utf8(s.subrange(0, i)).len() as int
}

/// True when `c` is an ASCII character.
pub open spec fn is_ascii_char(c: char) -> bool {
    (c as u32) < 0x80
}

/// The number of bytes of a UTF-8 encoded character, read off its first byte.
pub open spec fn width_of_lead(b: u8) -> int {
    if b < 0x80 {
        1
    } else if b < 0xe0 {
        2
    } else if b < 0xf0 {
        3
    } else {
        4
    }
}

/// An ASCII character is the character of its byte.
pub proof fn lemma_ascii_byte(c: char, b: u8)
    requires
        is_ascii_char(c),
        b == c as u8,
    ensures
        b as char == c,
        b < 0x80,
        b as int == c as int,
{
    char_u32_cast(c, b as u32);
}

/// Encoding distributes over concatenation.
pub proof fn lemma_encode_concat(a: Seq<char>, b: Seq<char>)
    ensures
        encode_utf8(a + b) == encode_utf8(a) + encode_utf8(b),
    decreases a.len(),
{
    if a.len() == 0 {
        assert(a + b =~= b);
        assert(encode_utf8(a) + encode_utf8(b) =~= encode_utf8(b));
    } else {
        lemma_encode_concat(a.drop_first(), b);
        assert((a + b).drop_first() =~= a.drop_first() + b);
        assert((a + b)[0] == a[0]);
        assert(encode_utf8(a + b) =~= encode_utf8(a) + encode_utf8(b));
    }
}

/// Two texts with the same encoding are the same text.
pub proof fn lemma_encode_injective(a: Seq<char>, b: Seq<char>)
    requires
        encode_utf8(a) == encode_utf8(b),
    ensures
        a == b,
{
    encode_utf8_decode_utf8(a);
    encode_utf8_decode_utf8(b);
}

/// The encoding of a single character: its first byte tells its width, and
/// it is an ASCII byte exactly when the character is ASCII.
pub proof fn lemma_encode_char(c: char)
    ensures
        ({
            let e = encode_scalar(c as u32);
            &&& e.len() == width_of_lead(e[0])
            &&& 1 <= e.len() <= 4
            &&& !is_continuation_byte(e[0])
            &&& is_ascii_char(c) <==> e[0] < 0x80
            &&& is_ascii_char(c) ==> e[0] == c as u8
        }),
{
    let s = seq![c];
    let e = encode_scalar(c as u32);
    assert(s.drop_first() =~= Seq::<char>::empty());
    assert(encode_utf8(s) =~= e) by {
        reveal_with_fuel(encode_utf8, 2);
    }
    encode_utf8_first_scalar(s);
    char_is_scalar(c);
    let u = c as u32;
    if has_width_1_encoding(u) {
        assert(u as u8 == leading_byte_width_1(u)) by (bit_vector)
            requires
                has_width_1_encoding(u),
        ;
    }
}

/// What the bytes of a text hold at the offset of its `i`-th character.
pub proof fn lemma_offset(s: Seq<char>, i: int)
    requires
        0 <= i <= s.len(),
    ensures
        ({
            let b = encode_utf8(s);
            let o = byte_offset(s, i);
            &&& 0 <= o <= b.len()
            &&& b.subrange(0, o) == encode_utf8(s.subrange(0, i))
            &&& b.subrange(o, b.len() as int) == encode_utf8(s.subrange(i, s.len() as int))
            &&& is_char_boundary(b, o)
            &&& (i == s.len() <==> o == b.len())
            &&& i < s.len() ==> {
                &&& byte_offset(s, i + 1) == o + width_of_lead(b[o])
                &&& o + width_of_lead(b[o]) <= b.len()
                &&& is_ascii_char(s[i]) <==> b[o] < 0x80
                &&& is_ascii_char(s[i]) ==> b[o] == s[i] as u8
            }
        }),
{
    let b = encode_utf8(s);
    let head = s.subrange(0, i);
    let tail = s.subrange(i, s.len() as int);
    let o = byte_offset(s, i);
    assert(s =~= head + tail);
    lemma_encode_concat(head, tail);
    assert(b.subrange(0, o) =~= encode_utf8(head));
    assert(b.subrange(o, b.len() as int) =~= encode_utf8(tail));
    encode_utf8_valid_utf8(s);
    if i == s.len() {
        assert(tail =~= Seq::<char>::empty());
        is_char_boundary_start_end_of_seq(b);
    } else {
        let c = s[i];
        let e = encode_scalar(c as u32);
        lemma_encode_char(c);
        assert(tail[0] == c);
        assert(encode_utf8(tail) == e + encode_utf8(tail.drop_first()));
        assert(b[o] == e[0]);
        is_char_boundary_iff_not_is_continuation_byte(b, o);
        let next = s.subrange(0, i + 1);
        assert(next =~= head + seq![c]);
        lemma_encode_concat(head, seq![c]);
        assert(seq![c].drop_first() =~= Seq::<char>::empty());
        assert(encode_utf8(seq![c]) =~= e) by {
            reveal_with_fuel(encode_utf8, 2);
        }
    }
}

/// A later character starts at a later byte.
pub proof fn lemma_offset_grows(s: Seq<char>, i: int, j: int)
    requires
        0 <= i <= j <= s.len(),
    ensures
        byte_offset(s, i) <= byte_offset(s, j),
        byte_offset(s, i) == byte_offset(s, j) <==> i == j,
    decreases j - i,
{
    if i < j {
        lemma_offset(s, j - 1);
        lemma_offset_grows(s, i, j - 1);
    }
}

} // verus!
