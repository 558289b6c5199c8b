//! Parsing of OData primitive literals: `null`, booleans, integers, floating
//! point numbers, quoted strings, GUIDs, dates and `binary'..'` values.
//!
//! Every parser takes the text at the point where a literal is expected and
//! returns the value together with the text that follows it. The grammar of
//! each kind of literal is given as a specification function over the
//! characters of the input, and each parser is proved to compute exactly the
//! outcome that its grammar prescribes.

pub mod ast;
pub mod calendar;
pub mod error;
pub mod laws;
pub mod text;
pub mod parser;

pub use crate::ast::{FloatText, Literal};
pub use crate::calendar::Date;
pub use crate::error::{ErrorKind, ParseError};
pub use crate::parser::binary::{binary_from_decoded, parse_binary};
pub use crate::parser::date::{parse_date, parse_day, parse_month, parse_year};
pub use crate::parser::guid::parse_guid;
pub use crate::parser::literal::parse_literal;
pub use crate::parser::number::{parse_float, parse_integer};
pub use crate::parser::string::parse_string;
