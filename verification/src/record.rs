//! Reading the first record of CSV data.

use vstd::prelude::*;

use crate::bytes::Bytes;
use crate::csv_reader::{
    ReadStatus, ReaderModel, parsed_part, read_record, reader_model, reads_record,
};
use crate::dialect::Position;
use crate::scan::{
    Scan, cut, cuts_within, first_record, lemma_before_record, piece_start, strip_bom,
};
use crate::value::{Value, are_bytes};

verus! {

/// The positions `ends` as integers.
pub open spec fn positions(ends: Seq<usize>) -> Seq<int> {
    ends.map_values(|end: usize| end as int)
}

/// The pieces of `output` that end at `ends`, each beginning where the one before it ended.
pub fn record_fields(output: &[u8], ends: &[usize]) -> (fields: Vec<Value>)
    requires
        output@.len() <= isize::MAX,
        cuts_within(positions(ends@), output@.len() as int),
    ensures
        are_bytes(fields@, cut(output@, positions(ends@))),
        fields@.len() == ends@.len(),
        forall|i: int|
            0 <= i < ends@.len() ==> ((#[trigger] fields@[i]) matches Value::Bytes(bytes) && bytes@
                == output@.subrange(
                if i == 0 {
                    0
                } else {
                    ends@[i - 1] as int
                },
                ends@[i] as int,
            )),
{
    let mut fields: Vec<Value> = Vec::with_capacity(ends.len());
    let mut start: usize = 0;
    let mut i: usize = 0;
    while i < ends.len()
        invariant
            i <= ends@.len(),
            output@.len() <= isize::MAX,
            cuts_within(positions(ends@), output@.len() as int),
            i < ends@.len() ==> start == piece_start(positions(ends@), i as int),
            fields@.len() == i,
            forall|j: int|
                0 <= j < i ==> (#[trigger] fields@[j]).is_bytes(
                    cut(output@, positions(ends@))[j],
                ),
        decreases ends@.len() - i,
    {
        let end = ends[i];
        proof {
            assert(positions(ends@)[i as int] == end);
            assert(piece_start(positions(ends@), i as int) <= end);
        }
        fields.push(Value::Bytes(Bytes::copy_from_slice(&output[start..end])));
        start = end;
        i = i + 1;
    }
    assert forall|j: int| 0 <= j < ends@.len() implies ((
    #[trigger] fields@[j]) matches Value::Bytes(bytes) && bytes@ == output@.subrange(
        if j == 0 {
            0
        } else {
            ends@[j - 1] as int
        },
        ends@[j] as int,
    )) by {
        assert(fields@[j].is_bytes(cut(output@, positions(ends@))[j]));
    }
    fields
}

/// What a reader has made of the first `count` bytes of `body`.
spec fn read_so_far(delimiter: u8, body: Seq<u8>, count: int) -> Scan {
    Scan::at(Position::RecordStart).read(delimiter, body.take(count))
}

/// What a call of `read_record` writes is what comes next of the first record of `body`, of
/// which `count` bytes have been read; when it says that the record or the data has ended,
/// the record is complete.
proof fn lemma_read_on(
    delimiter: u8,
    body: Seq<u8>,
    count: int,
    before: ReaderModel,
    after: ReaderModel,
    status: ReadStatus,
    read: int,
    bytes: Seq<u8>,
    room: int,
    ends: Seq<usize>,
    ends_room: int,
) -> (scan: Scan)
    requires
        before.delimiter == Some(delimiter),
        0 <= count <= body.len(),
        before.position == read_so_far(delimiter, body, count).position,
        !(before.position is RecordEnd),
        before.written == read_so_far(delimiter, body, count).bytes.len(),
        reads_record(
            before,
            after,
            status,
            body.skip(count),
            read,
            bytes,
            room,
            ends,
            ends_room,
        ),
    ensures
        0 <= read <= body.len() - count,
        scan.bytes == read_so_far(delimiter, body, count).bytes + bytes,
        scan.ends == read_so_far(delimiter, body, count).ends + positions(ends),
        if status is Record || status is End {
            &&& scan == Scan::at(Position::RecordStart).read(delimiter, body).finish()
            &&& after.written == 0
        } else {
            &&& scan == read_so_far(delimiter, body, count + read)
            &&& after.position == scan.position
            &&& !(scan.position is RecordEnd)
            &&& after.written == scan.bytes.len()
        },
{
    let start = Scan::at(Position::RecordStart);
    let data = body.skip(count);
    let old_scan = read_so_far(delimiter, body, count);
    if data.len() == 0 {
        assert(body.take(count) =~= body);
        lemma_before_record(delimiter, body);
        if status is Record {
            assert(old_scan.finish().ends =~= old_scan.ends + positions(ends));
            assert(old_scan.finish().bytes =~= old_scan.bytes + bytes);
            old_scan.finish()
        } else {
            assert(old_scan.bytes =~= old_scan.bytes + bytes);
            assert(old_scan.ends =~= old_scan.ends + positions(ends));
            old_scan
        }
    } else {
        let scan = read_so_far(delimiter, body, count + read);
        let shift = |end: int| old_scan.bytes.len() + end;
        let fresh = Scan::at(before.position).read(delimiter, data.take(read));
        old_scan.lemma_read_shift(delimiter, data.take(read));
        start.lemma_read_concat(delimiter, body.take(count), data.take(read));
        assert(body.take(count) + data.take(read) =~= body.take(count + read));
        assert(fresh.ends.map_values(shift) =~= positions(ends));
        if status is Record {
            start.lemma_read_concat(delimiter, body.take(count + read), body.skip(count + read));
            assert(body.take(count + read) + body.skip(count + read) =~= body);
            scan.lemma_read_after_end(delimiter, body.skip(count + read));
        }
        scan
    }
}

/// Reads the first record of `input` from its beginning, and cuts it into its fields.
///
/// The fields are never longer, all together, than the input, so that the buffer for their
/// bytes never fills up before the input is used up; the one for their ends grows.
#[verifier::rlimit(40)]
pub(crate) fn read_first_record(reader: &mut csv_core::Reader, input: &[u8]) -> (fields: Vec<
    Value,
>)
    requires
        reader_model(*old(reader)).delimiter is Some,
        reader_model(*old(reader)).written == 0,
        input@.len() <= isize::MAX,
    ensures
        reader_model(*final(reader)).delimiter == reader_model(*old(reader)).delimiter,
        reader_model(*final(reader)).written == 0,
        are_bytes(fields@, first_record(reader_model(*old(reader)).delimiter->0, input@)),
{
    let ghost delimiter = reader_model(*old(reader)).delimiter->0;
    let ghost body = strip_bom(input@);
    let ghost bom = input@.len() - body.len();
    let ghost start = Scan::at(Position::RecordStart);
    let ghost mut count: int = 0;
    let ghost mut scan = start;
    reader.reset();

    let mut output: Vec<u8> = vec![0u8; input.len()];
    let mut ends: Vec<usize> = vec![0usize; 64];
    let mut nin: usize = 0;
    let mut nout: usize = 0;
    let mut nend: usize = 0;
    proof {
        assert(body.take(0) =~= Seq::<u8>::empty());
        assert(output@.take(0) =~= Seq::<u8>::empty());
        assert(positions(ends@.take(0)) =~= Seq::<int>::empty());
    }
    loop
        invariant_except_break
            body == strip_bom(input@),
            bom == input@.len() - body.len(),
            ends@.len() > 0,
            0 <= count <= body.len(),
            if reader_model(*reader).started {
                nin == bom + count
            } else {
                nin == 0 && count == 0
            },
            scan == read_so_far(delimiter, body, count),
            !(scan.position is RecordEnd),
            reader_model(*reader).position == scan.position,
            reader_model(*reader).written == nout,
            nin <= input@.len(),
        invariant
            start == Scan::at(Position::RecordStart),
            input@.len() <= isize::MAX,
            reader_model(*reader).delimiter == Some(delimiter),
            output@.len() == input@.len(),
            nout <= output@.len(),
            nend <= ends@.len(),
            output@.take(nout as int) == scan.bytes,
            positions(ends@.take(nend as int)) == scan.ends,
        ensures
            scan == start.read(delimiter, body).finish(),
            reader_model(*reader).written == 0,
        decreases
            input@.len() - nin,
            if ends@.len() == nend {
                1int
            } else {
                0
            },
    {
        let ghost before = reader_model(*reader);
        let ghost data = body.skip(count);
        proof {
            start.lemma_read_bounds(delimiter, body.take(count));
            assert(input@.subrange(nin as int, input@.len() as int) =~= input@.skip(nin as int));
            assert(parsed_part(before, input@.skip(nin as int)) =~= data);
            assert(ends.len() == ends@.len());
        }
        let ghost old_output = output@;
        let ghost old_ends = ends@;
        let ghost old_nout = nout as int;
        let ghost old_nend = nend as int;
        let (_, output_rest) = output.as_mut_slice().split_at_mut(nout);
        let (_, ends_rest) = ends.as_mut_slice().split_at_mut(nend);
        let (status, in_read, out_written, ends_written) = read_record(
            reader,
            &input[nin..input.len()],
            output_rest,
            ends_rest,
        );
        let ghost new_output_rest = output_rest@;
        let ghost new_ends_rest = ends_rest@;
        proof {
            assert(output@.skip(old_nout) =~= new_output_rest);
            assert(ends@.skip(old_nend) =~= new_ends_rest);
            let read = in_read - (input@.len() - nin - data.len());
            let bytes = output@.skip(old_nout).take(out_written as int);
            let new_ends = ends@.skip(old_nend).take(ends_written as int);
            scan = lemma_read_on(
                delimiter,
                body,
                count,
                before,
                reader_model(*reader),
                status,
                read,
                bytes,
                output@.len() - old_nout,
                new_ends,
                ends@.len() - old_nend,
            );
            count = count + read;
            assert(output@.take(old_nout + out_written) =~= old_output.take(old_nout) + bytes);
            assert(positions(ends@.take(old_nend + ends_written)) =~= positions(
                old_ends.take(old_nend),
            ) + positions(new_ends));
            start.lemma_read_bounds(delimiter, body.take(count));
        }
        nin = nin + in_read;
        nout = nout + out_written;
        nend = nend + ends_written;
        match status {
            ReadStatus::Record | ReadStatus::End => {
                break;
            },
            // The last field had no terminator: an empty input ends it.
            ReadStatus::InputEmpty => {},
            ReadStatus::OutputFull => {
                // Out of reach: what was written is no longer than what was read.
                assert(false);
                output.resize(output.len() * 2, 0);
            },
            ReadStatus::OutputEndsFull => {
                ends.resize(ends.len() * 2, 0);
            },
        }
    }
    proof {
        start.lemma_read_cuts(delimiter, body);
        start.read(delimiter, body).lemma_finish_cuts();
        assert(output@.subrange(0, nout as int) =~= scan.bytes);
        assert(ends@.subrange(0, nend as int) =~= ends@.take(nend as int));
    }
    record_fields(&output[0..nout], &ends[0..nend])
}

} // verus!
