//! A read position in a text.

use vstd::prelude::*;
use vstd::utf8::*;
use vstd::string::*;
use crate::text::{byte_offset, is_ascii_char, lemma_ascii_byte, lemma_encode_injective,
    lemma_offset,
};

verus! {

/// A position in a text, held as an offset in bytes and known to the proofs
/// as an index in characters.
#[derive(Clone, Copy)]
pub struct Cursor<'a> {
    text: &'a str,
    bytes: &'a [u8],
    pos: usize,
    index: Ghost<int>,
}

impl<'a> Cursor<'a> {
    /// The characters of the text.
    pub closed spec fn source(&self) -> Seq<char> {
        self.text@
    }

    /// The index of the character at which the cursor stands.
    pub closed spec fn index(&self) -> int {
        self.index@
    }

    /// The offset in bytes at which the cursor stands.
    pub closed spec fn position(&self) -> usize {
        self.pos
    }

    /// The bytes that the cursor reads are those of its text.
    pub closed spec fn reads_source(&self) -> bool {
        self.bytes@ == encode_utf8(self.text@)
    }

    /// The cursor stands at the start of a character of its text, or at the
    /// end of the text.
    pub open spec fn wf(&self) -> bool {
        &&& self.reads_source()
        &&& 0 <= self.index() <= self.source().len()
        &&& self.position() == byte_offset(self.source(), self.index())
    }

    /// The cursor stands at character `i` of the text `s`.
    pub open spec fn at(&self, s: Seq<char>, i: int) -> bool {
        &&& self.wf()
        &&& self.source() == s
        &&& self.index() == i
    }

    /// A cursor at the start of `text`.
    pub fn new(text: &'a str) -> (c: Self)
        ensures
            c.at(text@, 0),
    {
        let bytes = text.as_bytes();
        proof {
            assert(text@.subrange(0, 0) =~= Seq::<char>::empty());
        }
        Cursor { text, bytes, pos: 0, index: Ghost(0) }
    }

    /// The offset in bytes of the cursor.
    pub fn offset(&self) -> (o: usize)
        ensures
            o == self.position(),
    {
        self.pos
    }

    /// True at the end of the text.
    pub fn at_end(&self) -> (b: bool)
        requires
            self.wf(),
        ensures
            b == (self.index() == self.source().len()),
    {
        proof {
            lemma_offset(self.text@, self.index@);
        }
        self.pos >= self.bytes.len()
    }

    /// The character under the cursor if there is one and it is ASCII.
    pub fn peek(&self) -> (r: Option<char>)
        requires
            self.wf(),
        ensures
            match r {
                Some(c) => self.index() < self.source().len() && self.source()[self.index()] == c
                    && is_ascii_char(c),
                None => self.index() < self.source().len() ==> !is_ascii_char(
                    self.source()[self.index()],
                ),
            },
    {
        proof {
            lemma_offset(self.text@, self.index@);
        }
        if self.pos < self.bytes.len() {
            let b = self.bytes[self.pos];
            if b < 0x80 {
                proof {
                    lemma_ascii_byte(self.text@[self.index@], b);
                }
                Some(b as char)
            } else {
                None
            }
        } else {
            None
        }
    }

    /// The cursor one character further.
    pub fn step(self) -> (c: Self)
        requires
            self.wf(),
            self.index() < self.source().len(),
        ensures
            c.at(self.source(), self.index() + 1),
    {
        proof {
            lemma_offset(self.text@, self.index@);
        }
        let b = self.bytes[self.pos];
        let width: usize = if b < 0x80 {
            1
        } else if b < 0xe0 {
            2
        } else if b < 0xf0 {
            3
        } else {
            4
        };
        Cursor {
            text: self.text,
            bytes: self.bytes,
            pos: self.pos + width,
            index: Ghost(self.index@ + 1),
        }
    }

    /// The text from the cursor to the end.
    pub fn rest(&self) -> (r: &'a str)
        requires
            self.wf(),
        ensures
            r@ == self.source().subrange(self.index(), self.source().len() as int),
    {
        proof {
            lemma_offset(self.text@, self.index@);
        }
        let (_, tail) = self.text.split_at(self.pos);
        proof {
            lemma_encode_injective(
                tail@,
                self.text@.subrange(self.index@, self.text@.len() as int),
            );
        }
        tail
    }

    /// The text from `start` up to the cursor.
    pub fn since(&self, start: &Cursor<'a>) -> (r: &'a str)
        requires
            self.wf(),
            start.wf(),
            start.source() == self.source(),
            start.index() <= self.index(),
        ensures
            r@ == self.source().subrange(start.index(), self.index()),
    {
        let ghost s = self.text@;
        let ghost head = s.subrange(0, self.index@);
        proof {
            lemma_offset(s, self.index@);
            assert(head.subrange(0, start.index@) =~= s.subrange(0, start.index@));
            lemma_offset(head, start.index@);
        }
        let (front, _) = self.text.split_at(self.pos);
        let (_, piece) = front.split_at(start.pos);
        proof {
            assert(head.subrange(start.index@, head.len() as int) =~= s.subrange(
                start.index@,
                self.index@,
            ));
            lemma_encode_injective(piece@, s.subrange(start.index@, self.index@));
        }
        piece
    }
}

} // verus!
