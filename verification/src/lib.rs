//! Parsing of unit-of-measurement directives.
//!
//! A directive is a parenthesised list of `key = value` parameters, such as
//! `( quantity = A , symbol = "c" , singular = "c" )`. The tokenizer cuts
//! the text into its parameters; from these the record of the unit is built,
//! with the plural inferred where the directive gives none.
//!
//! - `text`: searching, splitting and trimming of character sequences
//! - `error`: the ways in which a directive can be rejected
//! - `tokenizer`: from the text to its parameters
//! - `properties`: from the parameters to the record
//! - `directive`: from the record back to a text, and what reading it gives
//! - `plain`: what holds of every value that was read

pub mod directive;
pub mod error;
pub mod plain;
pub mod properties;
pub mod text;
pub mod tokenizer;
