//! The rules of CSV data.

use vstd::prelude::*;

verus! {

/// Where a CSV reader stands within the data it is given.
pub enum Position {
    /// Before the first byte of a record.
    RecordStart,
    /// Inside a field, outside quotes.
    InField,
    /// Inside a field, inside quotes.
    InQuotes,
    /// Behind a quote inside a quoted field: it closes the field unless another one follows.
    QuoteInQuotes,
    /// Behind a delimiter.
    FieldEnd,
    /// Behind the byte that ends a record.
    RecordEnd,
}

/// The byte that opens and closes a quoted field.
pub const QUOTE: u8 = 0x22;

/// A carriage return or a line feed: either ends a record.
pub open spec fn is_newline(byte: u8) -> bool {
    byte == 0x0d || byte == 0x0a
}

/// Outside quotes the delimiter ends a field, a newline ends the record, and any other byte
/// belongs to the field.
pub open spec fn outside_quotes(delimiter: u8, byte: u8) -> (Position, bool) {
    if byte == delimiter {
        (Position::FieldEnd, false)
    } else if is_newline(byte) {
        (Position::RecordEnd, false)
    } else {
        (Position::InField, true)
    }
}

/// A quote at the start of a field opens a quoted field.
pub open spec fn field_start(delimiter: u8, byte: u8) -> (Position, bool) {
    if byte == QUOTE {
        (Position::InQuotes, false)
    } else {
        outside_quotes(delimiter, byte)
    }
}

/// Where `byte` takes a reader from `position`, and whether it belongs to the field.
pub open spec fn transition(delimiter: u8, position: Position, byte: u8) -> (Position, bool) {
    match position {
        // Empty lines in front of a record are skipped.
        Position::RecordStart => if is_newline(byte) {
            (Position::RecordStart, false)
        } else {
            field_start(delimiter, byte)
        },
        Position::FieldEnd => field_start(delimiter, byte),
        // A quote inside a field that none has opened is an ordinary byte.
        Position::InField => outside_quotes(delimiter, byte),
        // Inside quotes every byte but the quote belongs to the field.
        Position::InQuotes => if byte == QUOTE {
            (Position::QuoteInQuotes, false)
        } else {
            (Position::InQuotes, true)
        },
        // A doubled quote stands for one quote; a single one closes the quoted field.
        Position::QuoteInQuotes => if byte == QUOTE {
            (Position::InQuotes, true)
        } else {
            outside_quotes(delimiter, byte)
        },
        // What is behind the end of the record is no part of it.
        Position::RecordEnd => (Position::RecordEnd, false),
    }
}

/// Every byte of `data` is a newline.
pub open spec fn is_blank(data: Seq<u8>) -> bool {
    forall|i: int| 0 <= i < data.len() ==> is_newline(#[trigger] data[i])
}

} // verus!
