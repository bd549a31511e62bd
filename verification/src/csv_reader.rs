//! The CSV reader of the `csv-core` crate.

use vstd::prelude::*;

use crate::dialect::Position;
use crate::scan::{Scan, strip_bom};

verus! {

/// A streaming CSV reader of the `csv-core` crate.
#[verifier::external_type_specification]
#[verifier::external_body]
pub struct ExReader(csv_core::Reader);

/// What a `csv_core::Reader` holds.
pub struct ReaderModel {
    /// The delimiter that it separates fields by, if its other settings are the defaults.
    pub delimiter: Option<u8>,
    /// Its current state.
    pub position: Position,
    /// Whether it has read anything since it was built or reset.
    pub started: bool,
    /// How many bytes of the current record it has written.
    pub written: nat,
}

/// What `reader` holds: the delimiter, the current state, the `has_read` flag and the output
/// position.
///
/// The states `StartRecord`, `InField`, `InQuotedField`, `InDoubleEscapedQuote` and
/// `EndFieldDelim` are the positions in the order of their declaration; `EndRecord` and `CRLF`
/// are both the last one. A reader that was not built as `build_reader` builds one is taken to
/// have no delimiter.
pub uninterp spec fn reader_model(reader: csv_core::Reader) -> ReaderModel;

/// Why a call of `read_record` came to an end.
#[derive(Clone, Copy, Debug, PartialEq, Eq, Structural)]
pub enum ReadStatus {
    /// The input is used up, and the record has not ended.
    InputEmpty,
    /// The buffer for the bytes of the fields is full.
    OutputFull,
    /// The buffer for the ends of the fields is full.
    OutputEndsFull,
    /// The record has ended.
    Record,
    /// There is no further record.
    End,
}

/// The part of `input` that a reader parses: a byte order mark at the very beginning is
/// passed over.
pub open spec fn parsed_part(reader: ReaderModel, input: Seq<u8>) -> Seq<u8> {
    if reader.started {
        input
    } else {
        strip_bom(input)
    }
}

/// What one call of `read_record` does. It reads the first `count` bytes of `data`, the part
/// of the input that is parsed, and writes `bytes` and `ends` to buffers with room for
/// `room` bytes and `ends_room` field ends.
pub open spec fn reads_record(
    before: ReaderModel,
    after: ReaderModel,
    status: ReadStatus,
    data: Seq<u8>,
    count: int,
    bytes: Seq<u8>,
    room: int,
    ends: Seq<usize>,
    ends_room: int,
) -> bool {
    if data.len() == 0 {
        // The end of the data ends a record that has begun, if its last field's end fits.
        &&& count == 0
        &&& bytes.len() == 0
        &&& if before.position is RecordStart {
            &&& status is End
            &&& ends.len() == 0
            &&& after.position is RecordStart
            &&& after.written == before.written
        } else if ends_room == 0 {
            &&& status is OutputEndsFull
            &&& ends.len() == 0
            &&& after.position == before.position
            &&& after.written == before.written
        } else {
            &&& status is Record
            &&& ends.len() == 1
            &&& ends[0] == before.written
            &&& after.position is RecordEnd
            &&& after.written == 0
        }
    } else {
        let scan = Scan::at(before.position).read(before.delimiter->0, data.take(count));
        // What is written is what the bytes that are read come to; the ends count from the
        // beginning of the record.
        &&& 0 <= count <= data.len()
        &&& bytes == scan.bytes
        &&& ends.len() == scan.ends.len()
        &&& forall|i: int|
            0 <= i < ends.len() ==> #[trigger] ends[i] == before.written + scan.ends[i]
        &&& after.position == scan.position
        // Nothing behind the end of the record is read.
        &&& forall|i: int|
            0 <= i < count ==> !(#[trigger] Scan::at(before.position).read(
                before.delimiter->0,
                data.take(i),
            ).position is RecordEnd)
        // Reading stops only where it has to.
        &&& room > 0 && ends_room > 0 ==> count > 0
        &&& if scan.position is RecordEnd {
            &&& status is Record
            &&& after.written == 0
        } else {
            &&& after.written == before.written + bytes.len()
            &&& if count == data.len() {
                status is InputEmpty
            } else if bytes.len() == room {
                status is OutputFull
            } else {
                status is OutputEndsFull && ends.len() == ends_room
            }
        }
    }
}

/// Calls `csv_core::ReaderBuilder::new`, `delimiter` and `build`.
///
/// The reader separates fields by the delimiter, has the default settings otherwise, is at the
/// beginning of its data, and has written nothing.
#[verifier::external_body]
pub(crate) fn build_reader(delimiter: u8) -> (reader: csv_core::Reader)
    ensures
        reader_model(reader).delimiter == Some(delimiter),
        reader_model(reader).position is RecordStart,
        !reader_model(reader).started,
        reader_model(reader).written == 0,
{
    csv_core::ReaderBuilder::new().delimiter(delimiter).build()
}

/// `csv_core::Reader::reset` puts the reader back to the beginning of its data. The count of
/// the bytes written of the current record stays: it is back at zero only once a record has
/// been read to its end.
pub assume_specification[ csv_core::Reader::reset ](reader: &mut csv_core::Reader)
    ensures
        reader_model(*final(reader)).delimiter == reader_model(*old(reader)).delimiter,
        reader_model(*final(reader)).position is RecordStart,
        !reader_model(*final(reader)).started,
        reader_model(*final(reader)).written == reader_model(*old(reader)).written,
;

/// Calls `csv_core::Reader::read_record`, which reads on in the current record.
///
/// Besides how it ended, it returns how many bytes of `input` it has read, how many bytes it
/// has written to `output` and how many field ends to `ends`, as `reads_record` tells them:
/// by the rules of CSV data, which are those of the default settings, with the double quote as
/// the quote, doubled inside quotes, and with carriage return and line feed as record
/// terminators. The rest of the two buffers is left as it was.
#[verifier::external_body]
pub(crate) fn read_record(
    reader: &mut csv_core::Reader,
    input: &[u8],
    output: &mut [u8],
    ends: &mut [usize],
) -> (result: (ReadStatus, usize, usize, usize))
    requires
        reader_model(*old(reader)).delimiter is Some,
        !(reader_model(*old(reader)).position is RecordEnd),
        reader_model(*old(reader)).written + old(output)@.len() <= usize::MAX,
    ensures
        reader_model(*final(reader)).delimiter == reader_model(*old(reader)).delimiter,
        reader_model(*final(reader)).started,
        input@.len() - parsed_part(reader_model(*old(reader)), input@).len() <= result.1
            <= input@.len(),
        result.2 <= old(output)@.len(),
        result.3 <= old(ends)@.len(),
        final(output)@.len() == old(output)@.len(),
        final(ends)@.len() == old(ends)@.len(),
        final(output)@.skip(result.2 as int) == old(output)@.skip(result.2 as int),
        final(ends)@.skip(result.3 as int) == old(ends)@.skip(result.3 as int),
        ({
            let before = reader_model(*old(reader));
            let data = parsed_part(before, input@);
            reads_record(
                before,
                reader_model(*final(reader)),
                result.0,
                data,
                result.1 - (input@.len() - data.len()),
                final(output)@.take(result.2 as int),
                old(output)@.len() as int,
                final(ends)@.take(result.3 as int),
                old(ends)@.len() as int,
            )
        }),
{
    let (status, read, written, ended) = reader.read_record(input, output, ends);
    let status = match status {
        csv_core::ReadRecordResult::InputEmpty => ReadStatus::InputEmpty,
        csv_core::ReadRecordResult::OutputFull => ReadStatus::OutputFull,
        csv_core::ReadRecordResult::OutputEndsFull => ReadStatus::OutputEndsFull,
        csv_core::ReadRecordResult::Record => ReadStatus::Record,
        csv_core::ReadRecordResult::End => ReadStatus::End,
    };
    (status, read, written, ended)
}

} // verus!
