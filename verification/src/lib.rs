//! Parsing of CSV rows into their fields.
//!
//! [`parse_csv`] takes a row and a delimiter, both as values, and gives the fields of the first
//! record as an array of byte strings. The CSV reader of the `csv-core` crate does the reading;
//! `csv_reader` says what it is relied on for. [`ParseCsv`] describes `parse_csv` as a function
//! that programs can call, and makes such calls. What holds of the whole is in `laws`, and what
//! holds of the fields of a record in `field_laws`.

pub mod argument_list;
pub mod bytes;
pub mod csv_reader;
pub mod dialect;
pub mod expression;
pub mod field_laws;
pub mod function;
pub mod kind;
pub mod laws;
pub mod reader_cache;
pub mod record;
pub mod row;
pub mod scan;
pub mod value;

pub use crate::function::{ParseCsv, inner_kind, parse_csv};
pub use crate::reader_cache::parse_first_record;
