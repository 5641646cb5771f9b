//! A compiler for a small configuration language with prototype-style
//! inheritance between records and references between their fields.
//!
//! Source text is split into tokens by [`lexer`] and turned into a table of
//! raw records by [`parser`]. [`cycles`] checks the parent relation of the
//! table, [`resolve`] flattens the inheritance of a record and evaluates its
//! fields into plain strings, and [`format`] writes records in the language
//! itself, as JSON and as YAML. [`theorems`] and [`roundtrip`] hold what is
//! proved of these in general.

pub mod args;
pub mod cycles;
pub mod error;
pub mod format;
pub mod lexer;
pub mod nds;
pub mod non;
pub mod parser;
pub mod resolve;
pub mod roundtrip;
pub mod text;
pub mod theorems;
pub mod token;
