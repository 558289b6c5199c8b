//! The parsers, one module for each kind of literal.

pub mod binary;
pub mod cursor;
pub mod date;
pub mod grammar;
pub mod guid;
pub mod literal;
pub mod number;
pub mod scan;
pub mod string;
