//! The values that literals denote.

use vstd::prelude::*;
use crate::calendar::{Date, DateView};

verus! {

/// A floating point literal, held as text. The value is the double nearest
/// to the decimal number that the text writes; the three tokens that are
/// no decimal numbers have variants of their own.
#[derive(Clone, Debug, PartialEq, Eq)]
pub enum FloatText {
    /// The token `NaN`.
    NaN,
    /// The token `INF`.
    Infinity,
    /// The token `-INF`.
    NegInfinity,
    /// A decimal number with a fraction, an exponent or both.
    Decimal(String),
}

/// What a floating point literal holds.
pub enum FloatTextView {
    NaN,
    Infinity,
    NegInfinity,
    Decimal(Seq<char>),
}

impl View for FloatText {
    type V = FloatTextView;

    open spec fn view(&self) -> FloatTextView {
        match self {
            FloatText::NaN => FloatTextView::NaN,
            FloatText::Infinity => FloatTextView::Infinity,
            FloatText::NegInfinity => FloatTextView::NegInfinity,
            FloatText::Decimal(t) => FloatTextView::Decimal(t@),
        }
    }
}

/// A parsed literal.
#[derive(Clone, Debug, PartialEq, Eq)]
pub enum Literal {
    Null,
    Boolean(bool),
    Integer(i64),
    Float(FloatText),
    /// The characters between the quotes, with each doubled quote made one.
    String(String),
    /// The 36 characters of the GUID as they were written.
    GUID(String),
    /// The bytes that the base64 text encodes.
    Binary(Vec<u8>),
    Date(Date),
}

/// What a literal holds.
pub enum LiteralView {
    Null,
    Boolean(bool),
    Integer(int),
    Float(FloatTextView),
    String(Seq<char>),
    GUID(Seq<char>),
    Binary(Seq<u8>),
    Date(DateView),
}

impl View for Literal {
    type V = LiteralView;

    open spec fn view(&self) -> LiteralView {
        match self {
            Literal::Null => LiteralView::Null,
            Literal::Boolean(b) => LiteralView::Boolean(*b),
            Literal::Integer(n) => LiteralView::Integer(*n as int),
            Literal::Float(f) => LiteralView::Float(f@),
            Literal::String(s) => LiteralView::String(s@),
            Literal::GUID(g) => LiteralView::GUID(g@),
            Literal::Binary(b) => LiteralView::Binary(b@),
            Literal::Date(d) => LiteralView::Date(d@),
        }
    }
}

} // verus!
