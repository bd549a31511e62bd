//! What holds of the fields of a record.

use vstd::prelude::*;

use crate::dialect::{Position, QUOTE, is_newline};
use crate::row::{
    closed, doubled, is_plain, is_separable, leading, lemma_add_field, lemma_read_leading,
    lemma_read_plain, lemma_read_written, row, written,
};
use crate::scan::{
    Scan, cut, cuts_within, first_record, lemma_before_record, piece_start, starts_with_bom,
    strip_bom,
};

verus! {

/// Three bytes are special whatever the delimiter is: the quote, and the carriage return and the
/// line feed, which are the newlines.
pub proof fn law_quote_and_newlines_are_those_of_ascii(byte: u8)
    ensures
        byte == QUOTE <==> byte == 0x22,
        is_newline(byte) <==> byte == 0x0d || byte == 0x0a,
{
}

/// Only a byte order mark is taken off the data, and only one, at its beginning.
pub proof fn law_only_one_byte_order_mark_is_taken_off(input: Seq<u8>)
    ensures
        starts_with_bom(input) <==> seq![0xefu8, 0xbb, 0xbf].is_prefix_of(input),
        seq![0xefu8, 0xbb, 0xbf].is_prefix_of(input) ==> input == seq![0xefu8, 0xbb, 0xbf]
            + strip_bom(input),
        !seq![0xefu8, 0xbb, 0xbf].is_prefix_of(input) ==> strip_bom(input) == input,
{
    let mark = seq![0xefu8, 0xbb, 0xbf];
    if input.len() >= 3 {
        let front = input.subrange(0, 3);
        if starts_with_bom(input) {
            assert(mark =~= front);
        } else if mark.is_prefix_of(input) {
            assert(mark[0] == input[0] && mark[1] == input[1] && mark[2] == input[2]);
        }
    }
}

/// A field, in quotes or not, with text behind it that is plain, is read as what is in the
/// quotes with the text behind it.
proof fn lemma_read_field(
    delimiter: u8,
    scan: Scan,
    inside: Option<Seq<u8>>,
    tail: Seq<u8>,
    text: Seq<u8>,
    value: Seq<u8>,
)
    requires
        scan.position is RecordStart || scan.position is FieldEnd,
        is_plain(delimiter, tail),
        match inside {
            Some(quoted) => {
                &&& text == seq![QUOTE] + doubled(quoted) + seq![QUOTE] + tail
                &&& value == quoted + tail
            },
            None => text == tail && value == tail,
        },
    ensures
        scan.read(delimiter, text).bytes == scan.bytes + value,
        scan.read(delimiter, text).ends == scan.ends,
        scan.read(delimiter, text).position == if text.len() == 0 {
            scan.position
        } else if tail.len() == 0 {
            Position::QuoteInQuotes
        } else {
            Position::InField
        },
{
    match inside {
        Some(quoted) => {
            let front = written(quoted, true);
            lemma_read_written(delimiter, scan, quoted, true);
            let before = scan.read(delimiter, front);
            lemma_read_plain(delimiter, before, tail);
            scan.lemma_read_concat(delimiter, front, tail);
            assert(front + tail =~= text);
            assert(scan.bytes + quoted + tail =~= scan.bytes + value);
        },
        None => {
            lemma_read_plain(delimiter, scan, tail);
        },
    }
}

/// The fields of a record whose first ones are finished are these, and those that the data
/// behind them comes to.
proof fn lemma_fields_behind(delimiter: u8, before: Scan, data: Seq<u8>)
    requires
        cuts_within(before.ends, before.bytes.len() as int),
        before.ends.len() > 0,
        before.ends.last() == before.bytes.len(),
    ensures
        before.read(delimiter, data).finish().fields() == before.fields() + Scan::at(
            before.position,
        ).read(delimiter, data).finish().fields(),
{
    let whole = before.read(delimiter, data).finish();
    let fresh = Scan::at(before.position).read(delimiter, data).finish();
    let shift = |end: int| before.bytes.len() + end;
    before.lemma_read_shift(delimiter, data);
    assert(whole.bytes == before.bytes + fresh.bytes);
    assert(whole.ends =~= before.ends + fresh.ends.map_values(shift));
    Scan::at(before.position).lemma_read_cuts(delimiter, data);
    Scan::at(before.position).read(delimiter, data).lemma_finish_cuts();
    let n = before.ends.len() as int;
    assert forall|i: int| 0 <= i < whole.ends.len() implies #[trigger] whole.fields()[i] == (
    before.fields() + fresh.fields())[i] by {
        if i < n {
            assert(piece_start(before.ends, i) <= before.ends[i]);
            assert(piece_start(whole.ends, i) == piece_start(before.ends, i));
            assert(whole.fields()[i] =~= before.fields()[i]);
        } else {
            let k = i - n;
            assert(0 <= piece_start(fresh.ends, k) <= fresh.ends[k] <= fresh.bytes.len());
            assert(piece_start(whole.ends, i) == shift(piece_start(fresh.ends, k)));
            assert(whole.fields()[i] =~= fresh.fields()[k]);
        }
    }
    assert(whole.fields() =~= before.fields() + fresh.fields());
}

/// Behind a delimiter data is read as at its beginning, unless it begins with a newline.
proof fn lemma_read_behind_delimiter(delimiter: u8, data: Seq<u8>)
    requires
        data.len() > 0,
        !is_newline(data[0]),
    ensures
        Scan::at(Position::FieldEnd).read(delimiter, data) == Scan::at(Position::RecordStart).read(
            delimiter,
            data,
        ),
    decreases data.len(),
{
    let head = data.drop_last();
    if head.len() > 0 {
        lemma_read_behind_delimiter(delimiter, head);
    } else {
        assert(Scan::at(Position::FieldEnd).read(delimiter, head) == Scan::at(Position::FieldEnd));
        assert(Scan::at(Position::RecordStart).read(delimiter, head) == Scan::at(
            Position::RecordStart,
        ));
    }
}

/// A first field and the delimiter behind it are one finished field.
proof fn lemma_read_first_field(
    delimiter: u8,
    inside: Option<Seq<u8>>,
    tail: Seq<u8>,
    text: Seq<u8>,
    value: Seq<u8>,
) -> (scan: Scan)
    requires
        is_plain(delimiter, tail),
        match inside {
            Some(quoted) => {
                &&& text == seq![QUOTE] + doubled(quoted) + seq![QUOTE] + tail
                &&& value == quoted + tail
            },
            None => text == tail && value == tail,
        },
        delimiter == QUOTE ==> tail.len() > 0,
        is_newline(delimiter) ==> text.len() > 0,
    ensures
        scan == Scan::at(Position::RecordStart).read(delimiter, text.push(delimiter)),
        scan.position is FieldEnd,
        scan.fields() == seq![value],
        cuts_within(scan.ends, scan.bytes.len() as int),
        scan.ends.len() > 0,
        scan.ends.last() == scan.bytes.len(),
{
    let start = Scan::at(Position::RecordStart);
    lemma_read_field(delimiter, start, inside, tail, text, value);
    let after = start.read(delimiter, text);
    let line = text.push(delimiter);
    assert(line.drop_last() =~= text);
    let scan = start.read(delimiter, line);
    assert(scan == after.step(delimiter, delimiter));
    lemma_add_field(start, after, value);
    assert(start.fields() =~= Seq::<Seq<u8>>::empty());
    assert(scan.ends == closed(after).ends && scan.bytes == closed(after).bytes);
    assert(scan.fields() =~= seq![value]);
    scan
}

/// The fields behind the first are those of the data behind its delimiter.
///
/// The first field is plain text, or a field in quotes with plain text behind it: text without
/// delimiter and newline, that does not begin with a quote. What is in quotes and the text
/// behind it make one field. The delimiter behind it ends it: if that is the quote, it must not
/// follow the closing quote; if it is a newline, it must not come first.
///
/// `other` is the data behind the delimiter. A delimiter that nothing, or a newline, follows
/// has an empty field behind it.
pub proof fn law_first_field_is_split_off(
    delimiter: u8,
    inside: Option<Seq<u8>>,
    tail: Seq<u8>,
    text: Seq<u8>,
    value: Seq<u8>,
    rest: Seq<u8>,
    input: Seq<u8>,
    other: Seq<u8>,
)
    requires
        forall|i: int|
            0 <= i < tail.len() ==> (#[trigger] tail[i]) != delimiter && !is_newline(tail[i]),
        tail.len() > 0 ==> tail[0] != QUOTE,
        match inside {
            Some(quoted) => {
                &&& text == seq![QUOTE] + doubled(quoted) + seq![QUOTE] + tail
                &&& value == quoted + tail
            },
            None => text == tail && value == tail,
        },
        delimiter == QUOTE ==> tail.len() > 0,
        is_newline(delimiter) ==> text.len() > 0,
        strip_bom(input) == text.push(delimiter) + rest,
        strip_bom(other) == rest,
    ensures
        rest.len() > 0 && !is_newline(rest[0]) ==> first_record(delimiter, input) == seq![value]
            + first_record(delimiter, other),
        rest.len() == 0 || (is_newline(rest[0]) && rest[0] != delimiter) ==> first_record(
            delimiter,
            input,
        ) == seq![value, Seq::empty()],
        first_record(delimiter, input).len() > 1,
        first_record(delimiter, input)[0] == value,
{
    let start = Scan::at(Position::RecordStart);
    let line = text.push(delimiter);
    let before = lemma_read_first_field(delimiter, inside, tail, text, value);
    start.lemma_read_concat(delimiter, line, rest);
    lemma_fields_behind(delimiter, before, rest);
    let fresh = Scan::at(Position::FieldEnd).read(delimiter, rest);
    assert(first_record(delimiter, input) == seq![value] + fresh.finish().fields());
    lemma_read_behind_field(delimiter, rest);
    if rest.len() > 0 && !is_newline(rest[0]) {
        lemma_read_behind_delimiter(delimiter, rest);
    } else if rest.len() == 0 || rest[0] != delimiter {
        lemma_nothing_behind_delimiter(delimiter, rest);
        assert(seq![value] + seq![Seq::<u8>::empty()] =~= seq![value, Seq::empty()]);
    }
}

/// Behind a delimiter there is at least one more field.
proof fn lemma_read_behind_field(delimiter: u8, data: Seq<u8>)
    ensures
        Scan::at(Position::FieldEnd).read(delimiter, data).finish().ends.len() > 0,
{
    lemma_read_leaves_start(delimiter, data);
}

/// A reader behind a delimiter never goes back to the beginning of a record.
proof fn lemma_read_leaves_start(delimiter: u8, data: Seq<u8>)
    ensures
        ({
            let scan = Scan::at(Position::FieldEnd).read(delimiter, data);
            &&& !(scan.position is RecordStart)
            &&& scan.position is RecordEnd ==> scan.ends.len() > 0
        }),
    decreases data.len(),
{
    if data.len() > 0 {
        lemma_read_leaves_start(delimiter, data.drop_last());
    }
}

/// What ends right behind a delimiter is an empty field.
proof fn lemma_nothing_behind_delimiter(delimiter: u8, data: Seq<u8>)
    requires
        data.len() == 0 || (is_newline(data[0]) && data[0] != delimiter),
    ensures
        Scan::at(Position::FieldEnd).read(delimiter, data).finish().fields() == seq![
            Seq::<u8>::empty(),
        ],
{
    let start = Scan::at(Position::FieldEnd);
    let scan = start.read(delimiter, data).finish();
    if data.len() > 0 {
        let one = data.take(1);
        let ended = start.read(delimiter, one);
        assert(start.read(delimiter, one.drop_last()) == start);
        assert(ended == start.step(delimiter, data[0]));
        start.lemma_read_concat(delimiter, one, data.skip(1));
        assert(one + data.skip(1) =~= data);
        ended.lemma_read_after_end(delimiter, data.skip(1));
    }
    assert(scan.ends =~= seq![0int]);
    assert(scan.fields()[0] =~= Seq::<u8>::empty());
    assert(scan.fields() =~= seq![Seq::<u8>::empty()]);
}

/// Between two delimiters right behind each other there is an empty field; without it, and
/// without one of the two, the other fields are the same.
///
/// `shorter` is the data without the second delimiter.
pub proof fn law_empty_field_between_delimiters(
    delimiter: u8,
    inside: Option<Seq<u8>>,
    tail: Seq<u8>,
    text: Seq<u8>,
    value: Seq<u8>,
    rest: Seq<u8>,
    input: Seq<u8>,
    shorter: Seq<u8>,
)
    requires
        forall|i: int|
            0 <= i < tail.len() ==> (#[trigger] tail[i]) != delimiter && !is_newline(tail[i]),
        tail.len() > 0 ==> tail[0] != QUOTE,
        match inside {
            Some(quoted) => {
                &&& text == seq![QUOTE] + doubled(quoted) + seq![QUOTE] + tail
                &&& value == quoted + tail
            },
            None => text == tail && value == tail,
        },
        delimiter != QUOTE,
        is_newline(delimiter) ==> text.len() > 0,
        strip_bom(input) == text.push(delimiter).push(delimiter) + rest,
        strip_bom(shorter) == text.push(delimiter) + rest,
    ensures
        first_record(delimiter, input) == seq![value, Seq::empty()] + first_record(
            delimiter,
            shorter,
        ).skip(1),
{
    let start = Scan::at(Position::RecordStart);
    let behind = Scan::at(Position::FieldEnd);
    let line = text.push(delimiter);
    let more = seq![delimiter] + rest;
    let before = lemma_read_first_field(delimiter, inside, tail, text, value);
    let fresh = behind.read(delimiter, rest).finish().fields();
    start.lemma_read_concat(delimiter, line, rest);
    lemma_fields_behind(delimiter, before, rest);
    assert((seq![value] + fresh).skip(1) =~= fresh);

    assert(line.push(delimiter) + rest =~= line + more);
    start.lemma_read_concat(delimiter, line, more);
    lemma_fields_behind(delimiter, before, more);
    let one = seq![delimiter];
    let again = behind.read(delimiter, one);
    assert(behind.read(delimiter, one.drop_last()) == behind);
    assert(again == behind.step(delimiter, delimiter));
    assert(again.ends =~= seq![0int]);
    assert(again.fields()[0] =~= Seq::<u8>::empty());
    assert(again.fields() =~= seq![Seq::<u8>::empty()]);
    behind.lemma_read_concat(delimiter, one, rest);
    lemma_fields_behind(delimiter, again, rest);
    assert(seq![value] + (seq![Seq::<u8>::empty()] + fresh) =~= seq![value, Seq::empty()] + fresh);
}

/// A field that no delimiter follows is the only field of the record: at the end of the data,
/// and in front of a newline, which is not the delimiter, and anything behind it.
///
/// The field is plain text, or a field in quotes with plain text behind it, which make one
/// field.
pub proof fn law_field_without_delimiter_is_the_only_one(
    delimiter: u8,
    inside: Option<Seq<u8>>,
    tail: Seq<u8>,
    text: Seq<u8>,
    value: Seq<u8>,
    rest: Seq<u8>,
    input: Seq<u8>,
)
    requires
        forall|i: int|
            0 <= i < tail.len() ==> (#[trigger] tail[i]) != delimiter && !is_newline(tail[i]),
        tail.len() > 0 ==> tail[0] != QUOTE,
        match inside {
            Some(quoted) => {
                &&& text == seq![QUOTE] + doubled(quoted) + seq![QUOTE] + tail
                &&& value == quoted + tail
            },
            None => text == tail && value == tail,
        },
        text.len() > 0,
        strip_bom(input) == text + rest,
        rest.len() > 0 ==> is_newline(rest[0]) && rest[0] != delimiter,
    ensures
        first_record(delimiter, input) == seq![value],
{
    let start = Scan::at(Position::RecordStart);
    lemma_read_field(delimiter, start, inside, tail, text, value);
    let after = start.read(delimiter, text);
    lemma_add_field(start, after, value);
    assert(start.fields() =~= Seq::<Seq<u8>>::empty());
    assert(closed(after).fields() =~= seq![value]);
    lemma_ends_record(delimiter, text, rest);
}

/// The end of the data, or a newline that is not the delimiter, ends the record if a field has
/// begun that is not in open quotes.
proof fn lemma_ends_record(delimiter: u8, text: Seq<u8>, rest: Seq<u8>)
    requires
        ({
            let position = Scan::at(Position::RecordStart).read(delimiter, text).position;
            position is InField || position is QuoteInQuotes || position is FieldEnd
        }),
        rest.len() > 0 ==> is_newline(rest[0]) && rest[0] != delimiter,
    ensures
        Scan::at(Position::RecordStart).read(delimiter, text + rest).finish() == closed(
            Scan::at(Position::RecordStart).read(delimiter, text),
        ),
{
    let start = Scan::at(Position::RecordStart);
    let after = start.read(delimiter, text);
    if rest.len() == 0 {
        assert(text + rest =~= text);
    } else {
        let line = text.push(rest[0]);
        let ended = start.read(delimiter, line);
        assert(line.drop_last() =~= text);
        assert(ended == after.step(delimiter, rest[0]));
        start.lemma_read_concat(delimiter, line, rest.skip(1));
        assert(line + rest.skip(1) =~= text + rest);
        ended.lemma_read_after_end(delimiter, rest.skip(1));
    }
}

/// Newlines in front of the data make no difference; nor does a byte order mark in front of
/// either.
pub proof fn law_blank_lines_make_no_difference(
    delimiter: u8,
    blank: Seq<u8>,
    data: Seq<u8>,
    input: Seq<u8>,
    other: Seq<u8>,
)
    requires
        forall|i: int| 0 <= i < blank.len() ==> is_newline(#[trigger] blank[i]),
        strip_bom(input) == blank + data,
        strip_bom(other) == data,
    ensures
        first_record(delimiter, input) == first_record(delimiter, other),
        data.len() == 0 ==> first_record(delimiter, input) == Seq::<Seq<u8>>::empty(),
{
    let start = Scan::at(Position::RecordStart);
    lemma_before_record(delimiter, blank);
    start.lemma_read_concat(delimiter, blank, data);
    if data.len() == 0 {
        assert(first_record(delimiter, other) =~= Seq::<Seq<u8>>::empty());
    }
}

/// Data that does not begin with a newline begins with a field: with a quote that is not closed
/// up to its end, or with plain text or a field in quotes with plain text behind it, in front
/// of a delimiter, a newline or the end.
///
/// What is found is what is in quotes, if anything is, the text behind it, and the rest of the
/// data, or `None` if the quote is not closed.
pub proof fn law_data_begins_with_a_field(delimiter: u8, data: Seq<u8>) -> (found: (
    Option<Seq<u8>>,
    Seq<u8>,
    Option<Seq<u8>>,
))
    requires
        data.len() > 0,
        !is_newline(data[0]),
    ensures
        match found {
            (Some(quoted), tail, None) => tail.len() == 0 && data == seq![QUOTE] + doubled(quoted),
            (None, _, None) => false,
            (inside, tail, Some(rest)) => {
                &&& forall|i: int|
                    0 <= i < tail.len() ==> (#[trigger] tail[i]) != delimiter && !is_newline(
                        tail[i],
                    )
                &&& tail.len() > 0 ==> tail[0] != QUOTE
                &&& match inside {
                    Some(quoted) => data == seq![QUOTE] + doubled(quoted) + seq![QUOTE] + tail
                        + rest,
                    None => data == tail + rest,
                }
                &&& if rest.len() > 0 && rest[0] == delimiter {
                    &&& delimiter == QUOTE ==> tail.len() > 0
                    &&& is_newline(delimiter) ==> inside is Some || tail.len() > 0
                } else {
                    &&& inside is Some || tail.len() > 0
                    &&& rest.len() > 0 ==> is_newline(rest[0])
                }
            },
        },
    decreases data.len(),
{
    let head = data.drop_last();
    let last = data[data.len() - 1];
    let nothing = Seq::<u8>::empty();
    if head.len() == 0 {
        if last == QUOTE {
            assert(data =~= seq![QUOTE] + doubled(nothing));
            (Some(nothing), nothing, None)
        } else if last == delimiter {
            assert(data =~= nothing + seq![last]);
            (None, nothing, Some(seq![last]))
        } else {
            assert(data =~= seq![last] + nothing);
            (None, seq![last], Some(nothing))
        }
    } else {
        match law_data_begins_with_a_field(delimiter, head) {
            (Some(quoted), _, None) => {
                assert(data =~= head.push(last));
                if last == QUOTE {
                    assert(data =~= seq![QUOTE] + doubled(quoted) + seq![QUOTE] + nothing
                        + nothing);
                    (Some(quoted), nothing, Some(nothing))
                } else {
                    assert(quoted.push(last).drop_last() =~= quoted);
                    assert(data =~= seq![QUOTE] + doubled(quoted.push(last)));
                    (Some(quoted.push(last)), nothing, None)
                }
            },
            (inside, tail, Some(rest)) => {
                assert(data =~= head.push(last));
                if rest.len() > 0 || (last == delimiter || is_newline(last)) && !(inside is Some
                    && tail.len() == 0 && last == QUOTE) {
                    match inside {
                        Some(quoted) => {
                            assert(data =~= seq![QUOTE] + doubled(quoted) + seq![QUOTE] + tail
                                + rest.push(last));
                        },
                        None => {
                            assert(data =~= tail + rest.push(last));
                        },
                    }
                    assert(rest.len() > 0 ==> rest.push(last)[0] == rest[0]);
                    (inside, tail, Some(rest.push(last)))
                } else {
                    match inside {
                        Some(quoted) => {
                            if tail.len() == 0 && last == QUOTE {
                                assert(quoted.push(QUOTE).drop_last() =~= quoted);
                                assert(data =~= seq![QUOTE] + doubled(quoted.push(QUOTE)));
                                (Some(quoted.push(QUOTE)), nothing, None)
                            } else {
                                assert(data =~= seq![QUOTE] + doubled(quoted) + seq![QUOTE]
                                    + tail.push(last) + nothing);
                                (inside, tail.push(last), Some(nothing))
                            }
                        },
                        None => {
                            assert(data =~= tail.push(last) + nothing);
                            (inside, tail.push(last), Some(nothing))
                        },
                    }
                }
            },
            (None, _, None) => (None, nothing, None),
        }
    }
}

/// What follows a closing quote belongs to the field, up to the delimiter or the newline: behind
/// any other fields, a field in quotes with text directly behind it is one field, and the last
/// if the data or the line ends there.
pub proof fn law_text_behind_a_closing_quote_stays_in_its_field(
    delimiter: u8,
    fields: Seq<Seq<u8>>,
    quoted: Seq<bool>,
    inside: Seq<u8>,
    tail: Seq<u8>,
    rest: Seq<u8>,
)
    requires
        is_separable(delimiter, fields, quoted),
        !starts_with_bom(leading(delimiter, fields, quoted)),
        tail.len() > 0,
        forall|i: int|
            0 <= i < tail.len() ==> (#[trigger] tail[i]) != delimiter && !is_newline(tail[i]),
        tail[0] != QUOTE,
        rest.len() > 0 ==> is_newline(rest[0]) && rest[0] != delimiter,
    ensures
        first_record(
            delimiter,
            leading(delimiter, fields, quoted) + (seq![QUOTE] + doubled(inside) + seq![QUOTE]
                + tail) + rest,
        ) == fields.push(inside + tail),
{
    let start = Scan::at(Position::RecordStart);
    let head = leading(delimiter, fields, quoted);
    let text = seq![QUOTE] + doubled(inside) + seq![QUOTE] + tail;
    let value = inside + tail;
    lemma_read_leading(delimiter, fields, quoted);
    let before = start.read(delimiter, head);
    lemma_read_field(delimiter, before, Some(inside), tail, text, value);
    start.lemma_read_concat(delimiter, head, text);
    let after = start.read(delimiter, head + text);
    lemma_add_field(before, after, value);
    lemma_ends_record(delimiter, head + text, rest);
    let input = head + text + rest;
    assert(input[head.len() as int] == QUOTE);
    if head.len() >= 3 {
        assert(input[0] == head[0] && input[1] == head[1] && input[2] == head[2]);
    }
    assert(!starts_with_bom(input));
}

/// A record has one field more than delimiters outside quotes, unless the delimiter is a quote
/// or a newline itself.
pub proof fn law_fields_are_one_more_than_delimiters(delimiter: u8, input: Seq<u8>)
    requires
        delimiter != QUOTE,
        !is_newline(delimiter),
        exists|i: int|
            0 <= i < strip_bom(input).len() && !is_newline(#[trigger] strip_bom(input)[i]),
    ensures
        ({
            let data = strip_bom(input);
            let counts = |i: int|
                {
                    let position = Scan::at(Position::RecordStart).read(
                        delimiter,
                        data.take(i),
                    ).position;
                    data[i] == delimiter && !(position is InQuotes) && !(position is RecordEnd)
                };
            first_record(delimiter, input).len() == 1 + Seq::new(data.len(), |i: int| i).filter(
                counts,
            ).len()
        }),
{
    let data = strip_bom(input);
    let counts = |i: int|
        {
            let position = Scan::at(Position::RecordStart).read(delimiter, data.take(i)).position;
            data[i] == delimiter && !(position is InQuotes) && !(position is RecordEnd)
        };
    lemma_count_delimiters(delimiter, data, counts, data.len());
    assert(data.take(data.len() as int) =~= data);
    lemma_before_record(delimiter, data);
}

/// A reader finishes a field at each delimiter outside quotes, and one more at the end of the
/// record.
proof fn lemma_count_delimiters(
    delimiter: u8,
    data: Seq<u8>,
    counts: spec_fn(int) -> bool,
    n: nat,
)
    requires
        delimiter != QUOTE,
        !is_newline(delimiter),
        n <= data.len(),
        forall|i: int|
            #![trigger counts(i)]
            counts(i) <==> {
                let position = Scan::at(Position::RecordStart).read(
                    delimiter,
                    data.take(i),
                ).position;
                data[i] == delimiter && !(position is InQuotes) && !(position is RecordEnd)
            },
    ensures
        ({
            let scan = Scan::at(Position::RecordStart).read(delimiter, data.take(n as int));
            scan.ends.len() == Seq::new(n, |i: int| i).filter(counts).len() + if scan.position
                is RecordEnd {
                1int
            } else {
                0
            }
        }),
    decreases n,
{
    reveal(Seq::filter);
    let places = Seq::new(n, |i: int| i);
    if n > 0 {
        let m = (n - 1) as nat;
        lemma_count_delimiters(delimiter, data, counts, m);
        assert(places.drop_last() =~= Seq::new(m, |i: int| i));
        assert(places.last() == m);
        assert(data.take(n as int).drop_last() =~= data.take(m as int));
        assert(counts(m as int) == counts(places.last()));
    }
}

/// To double the quotes of a field is to put two quotes for each quote, and to leave each other
/// byte.
pub proof fn law_quotes_are_doubled(field: Seq<u8>)
    ensures
        doubled(field) == field.map_values(
            |byte: u8|
                if byte == QUOTE {
                    seq![QUOTE, QUOTE]
                } else {
                    seq![byte]
                },
        ).flatten(),
    decreases field.len(),
{
    let escape = |byte: u8|
        if byte == QUOTE {
            seq![QUOTE, QUOTE]
        } else {
            seq![byte]
        };
    if field.len() > 0 {
        let head = field.drop_last();
        law_quotes_are_doubled(head);
        assert(field.map_values(escape) =~= head.map_values(escape).push(escape(field.last())));
        head.map_values(escape).lemma_flatten_push(escape(field.last()));
        assert(doubled(field) =~= doubled(head) + escape(field.last()));
    }
}

/// A row is its fields one behind the other, as they are or in quotes, with a delimiter behind
/// each but the last.
pub proof fn law_row_is_its_fields_joined(
    delimiter: u8,
    fields: Seq<Seq<u8>>,
    quoted: Seq<bool>,
)
    requires
        fields.len() == quoted.len(),
    ensures
        leading(delimiter, fields, quoted) == Seq::new(
            fields.len(),
            |i: int|
                if quoted[i] {
                    seq![QUOTE] + doubled(fields[i]) + seq![QUOTE, delimiter]
                } else {
                    fields[i] + seq![delimiter]
                },
        ).flatten(),
        fields.len() > 0 ==> row(delimiter, fields, quoted).push(delimiter) == leading(
            delimiter,
            fields,
            quoted,
        ),
    decreases fields.len(),
{
    let pieces = Seq::new(
        fields.len(),
        |i: int|
            if quoted[i] {
                seq![QUOTE] + doubled(fields[i]) + seq![QUOTE, delimiter]
            } else {
                fields[i] + seq![delimiter]
            },
    );
    if fields.len() > 0 {
        let (head, head_quoted) = (fields.drop_last(), quoted.drop_last());
        law_row_is_its_fields_joined(delimiter, head, head_quoted);
        let head_pieces = Seq::new(
            head.len(),
            |i: int|
                if head_quoted[i] {
                    seq![QUOTE] + doubled(head[i]) + seq![QUOTE, delimiter]
                } else {
                    head[i] + seq![delimiter]
                },
        );
        assert(pieces.drop_last() =~= head_pieces);
        assert(pieces =~= head_pieces.push(pieces.last()));
        head_pieces.lemma_flatten_push(pieces.last());
        assert(leading(delimiter, fields, quoted) =~= leading(delimiter, head, head_quoted)
            + pieces.last());
    }
}

/// Pieces are cut from bytes one behind the other: together they are the bytes up to the last
/// cut, and each reaches from the cut before it, or from the beginning, to its own.
pub proof fn law_pieces_make_up_the_bytes(bytes: Seq<u8>, ends: Seq<int>)
    requires
        forall|i: int| 0 <= i < ends.len() ==> 0 <= #[trigger] ends[i] <= bytes.len(),
        forall|i: int, j: int| 0 <= i <= j < ends.len() ==> ends[i] <= ends[j],
    ensures
        cut(bytes, ends).len() == ends.len(),
        ends.len() > 0 ==> cut(bytes, ends).flatten() == bytes.take(ends.last()),
        forall|i: int|
            0 <= i < ends.len() ==> (#[trigger] cut(bytes, ends)[i]).len() == ends[i] - if i == 0 {
                0
            } else {
                ends[i - 1]
            },
    decreases ends.len(),
{
    if ends.len() > 0 {
        let head = ends.drop_last();
        let n = head.len() as int;
        assert forall|i: int| 0 <= i < head.len() implies 0 <= #[trigger] head[i]
            <= bytes.len() by {
            assert(head[i] == ends[i]);
        }
        law_pieces_make_up_the_bytes(bytes, head);
        let pieces = cut(bytes, ends);
        assert forall|i: int| 0 <= i < n implies #[trigger] pieces[i] == cut(bytes, head)[i] by {
            assert(piece_start(head, i) == piece_start(ends, i));
        }
        assert(pieces =~= cut(bytes, head).push(pieces[n]));
        cut(bytes, head).lemma_flatten_push(pieces[n]);
        assert(0 <= ends[n] <= bytes.len());
        if n == 0 {
            assert(cut(bytes, head).flatten() =~= Seq::<u8>::empty());
            assert(pieces.flatten() =~= bytes.take(ends[n]));
        } else {
            assert(head.last() == ends[n - 1]);
            assert(ends[n - 1] <= ends[n]);
            assert(pieces.flatten() =~= bytes.take(ends[n]));
        }
        assert forall|i: int| 0 <= i < ends.len() implies (#[trigger] pieces[i]).len() == ends[i]
            - if i == 0 {
            0
        } else {
            ends[i - 1]
        } by {
            assert(0 <= ends[i] <= bytes.len());
            if i > 0 {
                assert(0 <= ends[i - 1] <= ends[i]);
            }
        }
    }
}

} // verus!
