//! CSV rows as they are written.

use vstd::prelude::*;

use crate::dialect::{Position, QUOTE, is_newline};
use crate::scan::{Scan, cuts_within, piece_start};

verus! {

/// `field` with each quote in it doubled.
pub open spec fn doubled(field: Seq<u8>) -> Seq<u8>
    decreases field.len(),
{
    if field.len() == 0 {
        field
    } else if field.last() == QUOTE {
        doubled(field.drop_last()).push(QUOTE).push(QUOTE)
    } else {
        doubled(field.drop_last()).push(field.last())
    }
}

/// `field` can be written as it is: it holds neither delimiter nor newline, and does not
/// begin with a quote.
pub open spec fn is_plain(delimiter: u8, field: Seq<u8>) -> bool {
    &&& forall|i: int|
        0 <= i < field.len() ==> (#[trigger] field[i]) != delimiter && !is_newline(field[i])
    &&& field.len() > 0 ==> field[0] != QUOTE
}

/// `field` as it is written, in quotes or not.
pub open spec fn written(field: Seq<u8>, quoted: bool) -> Seq<u8> {
    if quoted {
        (seq![QUOTE] + doubled(field)).push(QUOTE)
    } else {
        field
    }
}

/// The beginning of a row: `fields`, those in quotes that `quoted` tells, with a delimiter
/// behind each.
pub open spec fn leading(delimiter: u8, fields: Seq<Seq<u8>>, quoted: Seq<bool>) -> Seq<u8>
    decreases fields.len(),
{
    if fields.len() == 0 {
        Seq::empty()
    } else {
        (leading(delimiter, fields.drop_last(), quoted.drop_last()) + written(
            fields.last(),
            quoted.last(),
        )).push(delimiter)
    }
}

/// The row that holds `fields`, those in quotes that `quoted` tells.
pub open spec fn row(delimiter: u8, fields: Seq<Seq<u8>>, quoted: Seq<bool>) -> Seq<u8> {
    if fields.len() == 0 {
        Seq::empty()
    } else {
        leading(delimiter, fields.drop_last(), quoted.drop_last()) + written(
            fields.last(),
            quoted.last(),
        )
    }
}

/// The delimiter behind each of `fields` can be told from what is before and behind it.
///
/// Fields that are not in quotes have to be plain. If the quote is the delimiter, it must not
/// stand where a field begins, nor behind a closing quote. A newline that is the delimiter must
/// not come first, where it is an empty line.
pub open spec fn is_separable(delimiter: u8, fields: Seq<Seq<u8>>, quoted: Seq<bool>) -> bool {
    &&& fields.len() == quoted.len()
    &&& forall|i: int|
        0 <= i < fields.len() ==> quoted[i] || is_plain(delimiter, #[trigger] fields[i])
    &&& delimiter == QUOTE ==> forall|i: int|
        0 <= i < fields.len() ==> !quoted[i] && (#[trigger] fields[i]).len() > 0
    &&& is_newline(delimiter) && fields.len() > 0 ==> written(fields[0], quoted[0]).len() > 0
}

/// `fields` can be written as a row, those in quotes that `quoted` tells: the delimiters are
/// told apart, and the last field, too, is plain if it is not in quotes.
pub open spec fn is_writable(delimiter: u8, fields: Seq<Seq<u8>>, quoted: Seq<bool>) -> bool {
    &&& fields.len() == quoted.len()
    &&& fields.len() > 0 ==> {
        &&& is_separable(delimiter, fields.drop_last(), quoted.drop_last())
        &&& quoted.last() || is_plain(delimiter, fields.last())
    }
}

/// The bytes of `scan` up to here are one more field.
pub(crate) open spec fn closed(scan: Scan) -> Scan {
    Scan {
        position: Position::RecordEnd,
        bytes: scan.bytes,
        ends: scan.ends.push(scan.bytes.len() as int),
    }
}

/// A field that is written as it is, is read as it is; so is text behind a closing quote.
pub(crate) proof fn lemma_read_plain(delimiter: u8, scan: Scan, field: Seq<u8>)
    requires
        is_plain(delimiter, field),
        scan.position is RecordStart || scan.position is FieldEnd
            || scan.position is QuoteInQuotes,
    ensures
        scan.read(delimiter, field).bytes == scan.bytes + field,
        scan.read(delimiter, field).ends == scan.ends,
        scan.read(delimiter, field).position == if field.len() == 0 {
            scan.position
        } else {
            Position::InField
        },
    decreases field.len(),
{
    if field.len() == 0 {
        assert(scan.bytes =~= scan.bytes + field);
    } else {
        let head = field.drop_last();
        assert forall|i: int| 0 <= i < head.len() implies (#[trigger] head[i]) != delimiter
            && !is_newline(head[i]) by {
            assert(head[i] == field[i]);
        }
        lemma_read_plain(delimiter, scan, head);
        let last = field[field.len() - 1];
        assert(last != delimiter && !is_newline(last));
        let before = scan.read(delimiter, head);
        assert(before.bytes.push(last) =~= scan.bytes + field);
    }
}

/// Behind an opening quote, a field whose quotes are doubled is read as it is.
pub(crate) proof fn lemma_read_doubled(delimiter: u8, scan: Scan, field: Seq<u8>)
    requires
        scan.position is InQuotes,
    ensures
        scan.read(delimiter, doubled(field)) == (Scan {
            position: Position::InQuotes,
            bytes: scan.bytes + field,
            ends: scan.ends,
        }),
    decreases field.len(),
{
    if field.len() == 0 {
        assert(scan.bytes =~= scan.bytes + field);
    } else {
        let head = field.drop_last();
        let last = field.last();
        let before = scan.read(delimiter, doubled(head));
        lemma_read_doubled(delimiter, scan, head);
        assert(before.bytes.push(last) =~= scan.bytes + field);
        if last == QUOTE {
            let once = doubled(head).push(QUOTE);
            assert(once.drop_last() =~= doubled(head));
            assert(scan.read(delimiter, once) == before.step(delimiter, QUOTE));
            assert(once.push(QUOTE).drop_last() =~= once);
            assert(scan.read(delimiter, once.push(QUOTE)) == scan.read(delimiter, once).step(
                delimiter,
                QUOTE,
            ));
        } else {
            let whole = doubled(head).push(last);
            assert(whole.drop_last() =~= doubled(head));
            assert(scan.read(delimiter, whole) == before.step(delimiter, last));
        }
    }
}

/// A field as it is written is read as it is.
pub(crate) proof fn lemma_read_written(
    delimiter: u8,
    scan: Scan,
    field: Seq<u8>,
    quoted: bool,
)
    requires
        quoted || is_plain(delimiter, field),
        scan.position is RecordStart || scan.position is FieldEnd,
    ensures
        ({
            let after = scan.read(delimiter, written(field, quoted));
            &&& after.bytes == scan.bytes + field
            &&& after.ends == scan.ends
            &&& after.position == if written(field, quoted).len() == 0 {
                scan.position
            } else if quoted {
                Position::QuoteInQuotes
            } else {
                Position::InField
            }
        }),
{
    if quoted {
        let open = seq![QUOTE];
        assert(open.drop_last() =~= Seq::<u8>::empty());
        let opened = scan.read(delimiter, open);
        assert(opened == scan.read(delimiter, open.drop_last()).step(delimiter, QUOTE));
        assert(scan.read(delimiter, open.drop_last()) == scan);
        lemma_read_doubled(delimiter, opened, field);
        scan.lemma_read_concat(delimiter, open, doubled(field));
        let inside = open + doubled(field);
        assert(inside.push(QUOTE).drop_last() =~= inside);
    } else {
        lemma_read_plain(delimiter, scan, field);
    }
}

/// Closing a field adds it to the fields, if those before it were closed right before it.
pub(crate) proof fn lemma_add_field(before: Scan, after: Scan, field: Seq<u8>)
    requires
        cuts_within(before.ends, before.bytes.len() as int),
        before.ends.len() == 0 ==> before.bytes.len() == 0,
        before.ends.len() > 0 ==> before.ends.last() == before.bytes.len(),
        after.bytes == before.bytes + field,
        after.ends == before.ends,
    ensures
        closed(after).fields() == before.fields().push(field),
        cuts_within(closed(after).ends, closed(after).bytes.len() as int),
{
    let scan = closed(after);
    let n = before.ends.len() as int;
    assert forall|i: int| 0 <= i < scan.ends.len() implies 0 <= #[trigger] piece_start(
        scan.ends,
        i,
    ) <= scan.ends[i] <= scan.bytes.len() by {
        if i < n {
            assert(piece_start(before.ends, i) == piece_start(scan.ends, i));
        } else if i > 0 {
            assert(piece_start(before.ends, i - 1) <= before.ends[i - 1]);
        }
    }
    assert forall|i: int| 0 <= i < n + 1 implies scan.fields()[i] == before.fields().push(
        field,
    )[i] by {
        assert(0 <= piece_start(scan.ends, i) <= scan.ends[i] <= scan.bytes.len());
        if i < n {
            assert(piece_start(before.ends, i) == piece_start(scan.ends, i));
            assert(piece_start(before.ends, i) <= before.ends[i] <= before.bytes.len());
            assert(scan.fields()[i] =~= before.fields()[i]);
        } else {
            assert(scan.fields()[i] =~= field);
        }
    }
    assert(scan.fields() =~= before.fields().push(field));
}

/// The beginning of a row is read as its fields.
pub(crate) proof fn lemma_read_leading(delimiter: u8, fields: Seq<Seq<u8>>, quoted: Seq<bool>)
    requires
        is_separable(delimiter, fields, quoted),
    ensures
        ({
            let scan = Scan::at(Position::RecordStart).read(
                delimiter,
                leading(delimiter, fields, quoted),
            );
            &&& scan.fields() == fields
            &&& cuts_within(scan.ends, scan.bytes.len() as int)
            &&& scan.ends.len() == 0 ==> scan.bytes.len() == 0
            &&& scan.ends.len() > 0 ==> scan.ends.last() == scan.bytes.len()
            &&& scan.position == if fields.len() == 0 {
                Position::RecordStart
            } else {
                Position::FieldEnd
            }
        }),
    decreases fields.len(),
{
    let start = Scan::at(Position::RecordStart);
    let text = leading(delimiter, fields, quoted);
    if fields.len() == 0 {
        assert(start.fields() =~= fields);
    } else {
        let (head, head_quoted) = (fields.drop_last(), quoted.drop_last());
        let (last, last_quoted) = (fields.last(), quoted.last());
        let n = head.len() as int;
        assert forall|i: int| 0 <= i < n implies head_quoted[i] || is_plain(
            delimiter,
            #[trigger] head[i],
        ) by {
            assert(head[i] == fields[i]);
        }
        if delimiter == QUOTE {
            assert forall|i: int| 0 <= i < n implies !head_quoted[i] && (
            #[trigger] head[i]).len() > 0 by {
                assert(head[i] == fields[i]);
                assert(head_quoted[i] == quoted[i]);
            }
        }
        assert(is_separable(delimiter, head, head_quoted));
        assert(n > 0 ==> head[0] == fields[0] && head_quoted[0] == quoted[0]);
        assert(fields[n] == last && quoted[n] == last_quoted);
        lemma_read_leading(delimiter, head, head_quoted);
        let before = start.read(delimiter, leading(delimiter, head, head_quoted));
        let inner = leading(delimiter, head, head_quoted) + written(last, last_quoted);
        let after = start.read(delimiter, inner);
        start.lemma_read_concat(
            delimiter,
            leading(delimiter, head, head_quoted),
            written(last, last_quoted),
        );
        lemma_read_written(delimiter, before, last, last_quoted);
        assert(text.drop_last() =~= inner);
        let scan = start.read(delimiter, text);
        assert(scan == after.step(delimiter, delimiter));
        lemma_add_field(before, after, last);
        assert(scan.ends == closed(after).ends && scan.bytes == closed(after).bytes);
        assert(head.push(last) =~= fields);
    }
}

/// A row is read as its fields, the last of which is still to be closed.
pub(crate) proof fn lemma_read_row(delimiter: u8, fields: Seq<Seq<u8>>, quoted: Seq<bool>)
    requires
        is_writable(delimiter, fields, quoted),
        row(delimiter, fields, quoted).len() > 0,
    ensures
        ({
            let scan = Scan::at(Position::RecordStart).read(
                delimiter,
                row(delimiter, fields, quoted),
            );
            &&& closed(scan).fields() == fields
            &&& scan.position is InField || scan.position is QuoteInQuotes
                || scan.position is FieldEnd
        }),
{
    let start = Scan::at(Position::RecordStart);
    let (head, head_quoted) = (fields.drop_last(), quoted.drop_last());
    let (last, last_quoted) = (fields.last(), quoted.last());
    let text = leading(delimiter, head, head_quoted);
    lemma_read_leading(delimiter, head, head_quoted);
    start.lemma_read_concat(delimiter, text, written(last, last_quoted));
    lemma_read_written(delimiter, start.read(delimiter, text), last, last_quoted);
    lemma_add_field(
        start.read(delimiter, text),
        start.read(delimiter, row(delimiter, fields, quoted)),
        last,
    );
    assert(head.push(last) =~= fields);
}

} // verus!
