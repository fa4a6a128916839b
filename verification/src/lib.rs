//! Line specifications: a small language for selecting rows of a table.
//!
//! A specification such as `1,3-5,(7,9)` is split into tokens at its top-level
//! commas, each token is classified against the accepted grammars, resolved to
//! the row numbers it names, checked against the number of rows of the table,
//! and written back in its shortest comma-and-hyphen form.

pub mod text;
pub mod split;
pub mod numbers;
pub mod generator;
pub mod selection;
pub mod zeilen_parser;
pub mod token_kind;
pub mod compress;
pub mod rows;
pub mod patterns;
pub mod classifier;
pub mod laws;
pub mod outcome;
pub mod csv_parser;
pub mod autocomplete;
pub mod table;
pub mod word_index;
pub mod csv_data;
