//! What holds of parsing CSV rows.

use vstd::prelude::*;

use crate::bytes::Bytes;
use crate::dialect::{Position, QUOTE, is_blank, is_newline};
use crate::expression::{Context, Expr, Expression, ExpressionError, Noop, Resolved};
use crate::function::{
    COMMA, ParseCsvFn, csv_outcome, is_row_kind, is_type_error, readers_after,
};
use crate::kind::{Kind, TypeDef};
use crate::reader_cache::with_delimiter;
use crate::row::{
    closed, doubled, is_writable, leading, lemma_add_field, lemma_read_doubled, lemma_read_leading,
    lemma_read_row, row,
};
use crate::scan::{
    Scan, cut, cuts_within, first_record, lemma_before_record, piece_start, starts_with_bom,
    strip_bom,
};
use crate::value::{Value, ValueError, ValueType, are_bytes};

verus! {

/// A row that is not empty reads back as the fields that it was written from, whatever bytes
/// they hold: at the end of the data, and in front of a newline, which is not the delimiter,
/// and anything behind it. The row must not begin with what is a byte order mark.
pub proof fn law_row_reads_back(
    delimiter: u8,
    fields: Seq<Seq<u8>>,
    quoted: Seq<bool>,
    newline: u8,
    rest: Seq<u8>,
)
    requires
        is_writable(delimiter, fields, quoted),
        row(delimiter, fields, quoted).len() > 0,
        !starts_with_bom(row(delimiter, fields, quoted)),
        is_newline(newline),
        newline != delimiter,
    ensures
        first_record(delimiter, row(delimiter, fields, quoted)) == fields,
        first_record(delimiter, row(delimiter, fields, quoted).push(newline) + rest) == fields,
{
    let start = Scan::at(Position::RecordStart);
    let text = row(delimiter, fields, quoted);
    let scan = start.read(delimiter, text);
    lemma_read_row(delimiter, fields, quoted);
    assert(scan.finish() == closed(scan));

    let line = text.push(newline);
    let ended = start.read(delimiter, line);
    assert(line.drop_last() =~= text);
    assert(ended == scan.step(delimiter, newline));
    assert(ended == closed(scan));
    start.lemma_read_concat(delimiter, line, rest);
    ended.lemma_read_after_end(delimiter, rest);
    assert((line + rest)[text.len() as int] == newline);
    assert(text.len() >= 3 ==> (line + rest)[0] == text[0] && (line + rest)[1] == text[1] && (line
        + rest)[2] == text[2]);
    assert(!starts_with_bom(line + rest));
}

/// Parsing a row gives the fields that it was written from, on the same terms.
pub proof fn law_parsing_undoes_writing(
    csv_string: Bytes,
    delimiter: Bytes,
    fields: Seq<Seq<u8>>,
    quoted: Seq<bool>,
    newline: u8,
    rest: Seq<u8>,
    result: Resolved,
)
    requires
        csv_outcome(Value::Bytes(csv_string), Value::Bytes(delimiter), result),
        delimiter@.len() == 1,
        is_writable(delimiter@[0], fields, quoted),
        row(delimiter@[0], fields, quoted).len() > 0,
        !starts_with_bom(row(delimiter@[0], fields, quoted)),
        is_newline(newline),
        newline != delimiter@[0],
        csv_string@ == row(delimiter@[0], fields, quoted) || csv_string@ == row(
            delimiter@[0],
            fields,
            quoted,
        ).push(newline) + rest,
    ensures
        is_row(result, fields),
{
    law_row_reads_back(delimiter@[0], fields, quoted, newline, rest);
}

/// A quote that is opened and not closed takes in everything up to the end of the data:
/// delimiters, newlines and all.
pub proof fn law_unclosed_quote_runs_to_the_end(
    delimiter: u8,
    fields: Seq<Seq<u8>>,
    quoted: Seq<bool>,
    last: Seq<u8>,
)
    requires
        is_writable(delimiter, fields.push(last), quoted.push(true)),
        !starts_with_bom(leading(delimiter, fields, quoted)),
    ensures
        first_record(
            delimiter,
            leading(delimiter, fields, quoted).push(QUOTE) + doubled(last),
        ) == fields.push(last),
{
    let start = Scan::at(Position::RecordStart);
    let head = leading(delimiter, fields, quoted);
    let before = start.read(delimiter, head);
    assert(fields.push(last).drop_last() =~= fields);
    assert(quoted.push(true).drop_last() =~= quoted);
    lemma_read_leading(delimiter, fields, quoted);
    let open = head.push(QUOTE);
    let opened = start.read(delimiter, open);
    assert(open.drop_last() =~= head);
    assert(opened == before.step(delimiter, QUOTE));
    lemma_read_doubled(delimiter, opened, last);
    start.lemma_read_concat(delimiter, open, doubled(last));
    let whole = open + doubled(last);
    let scan = start.read(delimiter, whole);
    lemma_add_field(before, scan, last);
    assert(scan.finish() == closed(scan));
    assert(whole[head.len() as int] == QUOTE);
    if head.len() >= 3 {
        assert(whole[0] == head[0] && whole[1] == head[1] && whole[2] == head[2]);
    }
    assert(!starts_with_bom(whole));
}

/// A quote that comes first and is not closed makes one field of all the data, whatever the
/// delimiter is.
pub proof fn law_unclosed_quote_at_the_start(delimiter: u8, last: Seq<u8>)
    ensures
        first_record(delimiter, seq![QUOTE] + doubled(last)) == seq![last],
{
    let none = Seq::<Seq<u8>>::empty();
    let unquoted = Seq::<bool>::empty();
    assert(none.push(last).drop_last() =~= none);
    assert(unquoted.push(true).drop_last() =~= unquoted);
    law_unclosed_quote_runs_to_the_end(delimiter, none, unquoted, last);
    assert(leading(delimiter, none, unquoted).push(QUOTE) =~= seq![QUOTE]);
    assert(none.push(last) =~= seq![last]);
}

/// Only the first record counts: once it has ended, nothing that follows changes it.
pub proof fn law_only_the_first_record_counts(
    delimiter: u8,
    input: Seq<u8>,
    rest: Seq<u8>,
)
    requires
        Scan::at(Position::RecordStart).read(delimiter, strip_bom(input)).position is RecordEnd,
    ensures
        first_record(delimiter, input + rest) == first_record(delimiter, input),
{
    let start = Scan::at(Position::RecordStart);
    let scan = start.read(delimiter, strip_bom(input));
    if input.len() >= 3 {
        assert(strip_bom(input + rest) =~= strip_bom(input) + rest);
    } else {
        lemma_ended_by_newline(delimiter, input);
        let i = choose|i: int| 0 <= i < input.len() && is_newline(#[trigger] input[i]);
        assert((input + rest)[i] == input[i]);
        assert(!starts_with_bom(input + rest));
    }
    start.lemma_read_concat(delimiter, strip_bom(input), rest);
    scan.lemma_read_after_end(delimiter, rest);
}

/// Only a newline ends a record.
proof fn lemma_ended_by_newline(delimiter: u8, data: Seq<u8>)
    requires
        Scan::at(Position::RecordStart).read(delimiter, data).position is RecordEnd,
    ensures
        exists|i: int| 0 <= i < data.len() && is_newline(#[trigger] data[i]),
    decreases data.len(),
{
    let head = data.drop_last();
    let before = Scan::at(Position::RecordStart).read(delimiter, head);
    if before.position is RecordEnd {
        lemma_ended_by_newline(delimiter, head);
        let i = choose|i: int| 0 <= i < head.len() && is_newline(#[trigger] head[i]);
        assert(data[i] == head[i]);
    } else {
        assert(is_newline(data[data.len() - 1]));
    }
}

/// There is no record, and so no field, if and only if the data is empty or all newlines.
pub proof fn law_no_fields_iff_blank(delimiter: u8, input: Seq<u8>)
    ensures
        first_record(delimiter, input).len() == 0 <==> is_blank(strip_bom(input)),
        first_record(delimiter, Seq::empty()).len() == 0,
{
    let data = strip_bom(input);
    lemma_before_record(delimiter, data);
    lemma_read_keeps_order(delimiter, data);
}

/// Empty lines in front of a record are passed over.
pub proof fn law_blank_lines_are_skipped(delimiter: u8, blank: Seq<u8>, input: Seq<u8>)
    requires
        is_blank(blank),
        blank.len() > 0 ==> !starts_with_bom(input),
    ensures
        first_record(delimiter, blank + input) == first_record(delimiter, input),
{
    let start = Scan::at(Position::RecordStart);
    if blank.len() > 0 {
        assert((blank + input)[0] == blank[0]);
    } else {
        assert(blank + input =~= input);
    }
    lemma_before_record(delimiter, blank);
    start.lemma_read_concat(delimiter, blank, input);
}

/// A byte order mark in front of the data makes no difference.
pub proof fn law_byte_order_mark_is_dropped(delimiter: u8, input: Seq<u8>)
    requires
        !starts_with_bom(input),
    ensures
        first_record(delimiter, seq![0xefu8, 0xbb, 0xbf] + input) == first_record(delimiter, input),
{
    assert((seq![0xefu8, 0xbb, 0xbf] + input).skip(3) =~= input);
}

/// The fields one behind the other.
pub open spec fn joined(fields: Seq<Seq<u8>>) -> Seq<u8>
    decreases fields.len(),
{
    if fields.len() == 0 {
        Seq::empty()
    } else {
        joined(fields.drop_last()) + fields.last()
    }
}

/// `part` is what is left of `whole` when some of its bytes are taken out.
pub open spec fn is_subsequence_of(part: Seq<u8>, whole: Seq<u8>) -> bool
    decreases whole.len(),
{
    if whole.len() == 0 {
        part.len() == 0
    } else {
        ||| is_subsequence_of(part, whole.drop_last())
        ||| part.len() > 0 && part.last() == whole.last() && is_subsequence_of(
            part.drop_last(),
            whole.drop_last(),
        )
    }
}

/// Unescaping never lengthens: the bytes of the fields are bytes of the data, in their order,
/// and each field but one has cost a byte more.
pub proof fn law_fields_come_from_the_input(delimiter: u8, input: Seq<u8>)
    ensures
        is_subsequence_of(joined(first_record(delimiter, input)), input),
        joined(first_record(delimiter, input)).len() + first_record(delimiter, input).len()
            <= input.len() + 1,
{
    let start = Scan::at(Position::RecordStart);
    let data = strip_bom(input);
    let scan = start.read(delimiter, data);
    start.lemma_read_bounds(delimiter, data);
    start.lemma_read_cuts(delimiter, data);
    scan.lemma_finish_cuts();
    lemma_joined(scan.finish().bytes, scan.finish().ends);
    lemma_read_keeps_order(delimiter, data);
    lemma_before_record(delimiter, data);
    assert(scan.bytes.take(scan.bytes.len() as int) =~= scan.bytes);
    assert(joined(first_record(delimiter, input)) =~= scan.bytes);
    if starts_with_bom(input) {
        assert(input =~= input.take(3) + data);
        lemma_subsequence_of_longer(scan.bytes, input.take(3), data);
    }
}

/// A reader keeps bytes of the data, in their order; the last field of a record that has ended
/// reaches up to the last of them.
proof fn lemma_read_keeps_order(delimiter: u8, data: Seq<u8>)
    ensures
        ({
            let scan = Scan::at(Position::RecordStart).read(delimiter, data);
            &&& is_subsequence_of(scan.bytes, data)
            &&& scan.position is RecordEnd ==> scan.ends.len() > 0 && scan.ends.last()
                == scan.bytes.len()
        }),
    decreases data.len(),
{
    if data.len() > 0 {
        lemma_read_keeps_order(delimiter, data.drop_last());
        let before = Scan::at(Position::RecordStart).read(delimiter, data.drop_last());
        assert(before.bytes.push(data.last()).drop_last() =~= before.bytes);
    }
}

/// To put data in front takes nothing away.
proof fn lemma_subsequence_of_longer(part: Seq<u8>, front: Seq<u8>, whole: Seq<u8>)
    requires
        is_subsequence_of(part, whole),
    ensures
        is_subsequence_of(part, front + whole),
    decreases whole.len() + front.len(),
{
    if whole.len() == 0 {
        assert(front + whole =~= front);
        if front.len() > 0 {
            lemma_subsequence_of_longer(part, front.drop_last(), whole);
            assert(front.drop_last() + whole =~= front.drop_last());
        }
    } else {
        assert((front + whole).drop_last() =~= front + whole.drop_last());
        if is_subsequence_of(part, whole.drop_last()) {
            lemma_subsequence_of_longer(part, front, whole.drop_last());
        } else {
            lemma_subsequence_of_longer(part.drop_last(), front, whole.drop_last());
        }
    }
}

/// Pieces that lie one behind the other are, joined, what they were cut from.
proof fn lemma_joined(bytes: Seq<u8>, ends: Seq<int>)
    requires
        cuts_within(ends, bytes.len() as int),
    ensures
        joined(cut(bytes, ends)) == if ends.len() == 0 {
            Seq::empty()
        } else {
            bytes.take(ends.last())
        },
        ends.len() > 0 ==> 0 <= ends.last() <= bytes.len(),
    decreases ends.len(),
{
    if ends.len() > 0 {
        let head = ends.drop_last();
        let n = head.len() as int;
        assert forall|i: int| 0 <= i < head.len() implies 0 <= #[trigger] piece_start(head, i)
            <= head[i] <= bytes.len() by {
            assert(piece_start(head, i) == piece_start(ends, i));
        }
        lemma_joined(bytes, head);
        assert(cut(bytes, ends).drop_last() =~= cut(bytes, head)) by {
            assert forall|i: int| 0 <= i < n implies cut(bytes, ends)[i] == cut(bytes, head)[i] by {
                assert(piece_start(head, i) == piece_start(ends, i));
            }
        }
        assert(0 <= piece_start(ends, n) <= ends[n] <= bytes.len());
        assert(joined(cut(bytes, ends)) =~= bytes.take(ends.last()));
    }
}

/// The outcome is settled by the row and the delimiter alone: whatever readers the cache held,
/// two calls agree.
pub proof fn law_outcome_is_unique(csv_string: Value, delimiter: Value, a: Resolved, b: Resolved)
    requires
        csv_outcome(csv_string, delimiter, a),
        csv_outcome(csv_string, delimiter, b),
    ensures
        a is Ok <==> b is Ok,
        a is Ok ==> exists|fields: Seq<Seq<u8>>| #[trigger]
            is_row(a, fields) && is_row(b, fields),
        a is Err && !(a->Err_0 is Error) ==> b == a,
        a is Err && a->Err_0 is Error ==> b->Err_0 is Error && a->Err_0->message@
            == b->Err_0->message@,
{
    if a is Ok {
        if let (Value::Bytes(csv), Value::Bytes(separator)) = (csv_string, delimiter) {
            let fields = first_record(separator@[0], csv@);
            assert(is_row(a, fields) && is_row(b, fields));
        }
    }
}

/// `result` is an array of these byte strings.
pub open spec fn is_row(result: Resolved, fields: Seq<Seq<u8>>) -> bool {
    result matches Ok(Value::Array(values)) && are_bytes(values@, fields)
}

/// With arguments of the kinds that the parameters take, parsing fails if and only if the
/// delimiter is not a single byte.
pub proof fn law_fails_iff_delimiter_is_not_one_byte(
    csv_string: Bytes,
    delimiter: Bytes,
    result: Resolved,
)
    requires
        csv_outcome(Value::Bytes(csv_string), Value::Bytes(delimiter), result),
    ensures
        result is Err <==> delimiter@.len() != 1,
{
}

/// What the type definition of a call says is true: every value that the call resolves to is
/// of its kind.
pub proof fn law_type_def_is_sound<S, E: Expression<S>>(
    call: ParseCsvFn<E>,
    type_def: TypeDef,
    before: Context<S>,
    after: Context<S>,
    value: Value,
)
    requires
        is_row_kind(type_def.kind),
        call.resolves(before, after, Ok(value)),
    ensures
        type_def.kind.admits(value),
{
    reveal_with_fuel(Kind::admits, 2);
    if let Value::Array(items) = value {
        if let Kind::Array(collection) = type_def.kind {
            assert forall|i: int| 0 <= i < items@.len() implies collection.kind_at(i).admits(
                #[trigger] items@[i],
            ) by {
                assert(collection.kind_at(i) == Kind::Bytes);
                assert(items@[i] is Bytes);
            }
        }
    }
}

/// A call with literals succeeds if and only if its delimiter is a single byte. It gives the
/// fields of the first record, and leaves the state alone.
pub proof fn law_call_with_literals<S, E: Expression<S>>(
    call: ParseCsvFn<E>,
    csv_string: Bytes,
    delimiter: Bytes,
    before: Context<S>,
    after: Context<S>,
    result: Resolved,
)
    requires
        call.value == Expr::<E>::Literal(csv_string),
        call.delimiter == Expr::<E>::Literal(delimiter),
        call.resolves(before, after, result),
    ensures
        result is Ok <==> delimiter@.len() == 1,
        delimiter@.len() == 1 ==> is_row(result, first_record(delimiter@[0], csv_string@)),
        after.state == before.state,
{
}

/// A call whose delimiter is the default one parses its value with a comma.
pub proof fn law_default_delimiter_is_comma<S, E: Expression<S>>(
    call: ParseCsvFn<E>,
    comma: Bytes,
    before: Context<S>,
    after: Context<S>,
    result: Resolved,
)
    requires
        call.delimiter == Expr::<E>::Literal(comma),
        comma@ == seq![COMMA],
        call.resolves(before, after, result),
    ensures
        exists|between: Context<S>, value: Resolved| #[trigger]
            call.value.resolves(before, between, value) && match value {
                Ok(Value::Bytes(csv_string)) => is_row(
                    result,
                    first_record(COMMA, csv_string@),
                ),
                Ok(other) => is_type_error(other, result),
                Err(_) => result == value,
            },
{
}

/// No delimiter ever gets a second reader, and one that has a reader keeps it, in its place: to
/// ask for it again changes nothing.
pub proof fn law_one_reader_per_delimiter(seen: Seq<u8>, delimiter: u8)
    requires
        seen.no_duplicates(),
    ensures
        with_delimiter(seen, delimiter).no_duplicates(),
        with_delimiter(seen, delimiter).contains(delimiter),
        seen.is_prefix_of(with_delimiter(seen, delimiter)),
        with_delimiter(seen, delimiter).len() <= seen.len() + 1,
        seen.contains(delimiter) ==> with_delimiter(seen, delimiter) == seen,
        with_delimiter(with_delimiter(seen, delimiter), delimiter) == with_delimiter(
            seen,
            delimiter,
        ),
{
    if !seen.contains(delimiter) {
        assert(seen.push(delimiter)[seen.len() as int] == delimiter);
    }
}

/// The values of a row are byte strings, one for each field, in the order of the fields, and
/// hold nothing but the bytes of the field; and values like that are the values of the row.
pub proof fn law_values_are_the_fields(values: Seq<Value>, fields: Seq<Seq<u8>>)
    ensures
        are_bytes(values, fields) <==> values.len() == fields.len() && forall|i: int|
            0 <= i < fields.len() ==> ((#[trigger] values[i]) matches Value::Bytes(bytes)
                && bytes@ == fields[i]),
{
    if are_bytes(values, fields) {
        assert forall|i: int| 0 <= i < fields.len() implies ((
        #[trigger] values[i]) matches Value::Bytes(bytes) && bytes@ == fields[i]) by {
            assert(values[i].is_bytes(fields[i]));
        }
    }
}

/// Whatever values a row and a delimiter are, there is a result if and only if both are byte
/// strings and the delimiter is a single byte. It is an array of the fields of the first record.
pub proof fn law_succeeds_iff_both_are_byte_strings_and_the_delimiter_one_byte(
    csv_string: Value,
    delimiter: Value,
    result: Resolved,
)
    requires
        csv_outcome(csv_string, delimiter, result),
    ensures
        result is Ok <==> csv_string is Bytes && (delimiter matches Value::Bytes(separator)
            && separator@.len() == 1),
        result is Ok ==> {
            let fields = first_record(delimiter->Bytes_0@[0], csv_string->Bytes_0@);
            &&& result->Ok_0 matches Value::Array(values)
            &&& values@.len() == fields.len()
            &&& forall|i: int|
                0 <= i < fields.len() ==> ((#[trigger] values@[i]) matches Value::Bytes(bytes)
                    && bytes@ == fields[i])
        },
{
    if let (Value::Bytes(csv), Value::Bytes(separator), Ok(Value::Array(values))) = (
        csv_string,
        delimiter,
        result,
    ) {
        law_values_are_the_fields(values@, first_record(separator@[0], csv@));
    }
}

/// A row that is no byte string is reported before anything else, then a delimiter that is none:
/// the error says that a byte string was expected, and what was found. A delimiter that is not a
/// single byte has a message of its own.
pub proof fn law_the_first_fault_is_reported(
    csv_string: Value,
    delimiter: Value,
    result: Resolved,
)
    requires
        csv_outcome(csv_string, delimiter, result),
    ensures
        !(csv_string is Bytes) ==> result == Err::<Value, ExpressionError>(
            ExpressionError::Value(
                ValueError::Expected { got: csv_string.value_type(), expected: ValueType::Bytes },
            ),
        ),
        csv_string is Bytes && !(delimiter is Bytes) ==> result == Err::<Value, ExpressionError>(
            ExpressionError::Value(
                ValueError::Expected { got: delimiter.value_type(), expected: ValueType::Bytes },
            ),
        ),
        csv_string is Bytes && delimiter is Bytes && delimiter->Bytes_0@.len() != 1 ==> (
        result matches Err(ExpressionError::Error { message }) && message@
            == "delimiter must be a single character"@),
{
}

/// The type of a value tells which values it can be.
pub proof fn law_type_tells_the_values(value: Value)
    ensures
        value.value_type() is Bytes <==> value is Bytes,
        value.value_type() is Regex <==> value is Regex,
        value.value_type() is Integer <==> value is Integer,
        value.value_type() is Float <==> value is Float,
        value.value_type() is Boolean <==> value is Boolean,
        value.value_type() is Timestamp <==> value is Timestamp,
        value.value_type() is Object <==> value is Object,
        value.value_type() is Array <==> value is Array,
        value.value_type() is Null <==> value is Null,
{
}

/// A reader is added only if something is parsed with a delimiter that has none yet: those that
/// are there stay where they are, and no other is added.
pub proof fn law_readers_are_kept(seen: Seq<u8>, csv_string: Value, delimiter: Value)
    ensures
        seen.is_prefix_of(readers_after(seen, csv_string, delimiter)),
        !(csv_string is Bytes && delimiter is Bytes && delimiter->Bytes_0@.len() == 1)
            ==> readers_after(seen, csv_string, delimiter) == seen,
        csv_string is Bytes && delimiter is Bytes && delimiter->Bytes_0@.len() == 1 ==> {
            let separator = delimiter->Bytes_0@[0];
            readers_after(seen, csv_string, delimiter) == if seen.contains(separator) {
                seen
            } else {
                seen + seq![separator]
            }
        },
{
    if let (Value::Bytes(_), Value::Bytes(separator)) = (csv_string, delimiter) {
        if separator@.len() == 1 {
            assert(seen.push(separator@[0]) =~= seen + seq![separator@[0]]);
        }
    }
}

/// An argument gives what it is: a literal its whole byte string, without a change of the
/// context; any other expression what that expression gives, with the change that it makes.
pub proof fn law_argument_gives_what_it_is<S, E: Expression<S>>(
    argument: Expr<E>,
    before: Context<S>,
    after: Context<S>,
    result: Resolved,
)
    ensures
        argument.resolves(before, after, result) <==> match argument {
            Expr::Literal(literal) => {
                &&& after == before
                &&& result matches Ok(Value::Bytes(bytes)) && bytes@ == literal@
            },
            Expr::Other(expression) => expression.resolves(before, after, result),
        },
{
}

/// The expression that does nothing gives no value, and changes nothing.
pub proof fn law_noop_changes_nothing<S>(before: Context<S>, after: Context<S>, result: Resolved)
    ensures
        Noop.resolves(before, after, result) ==> after == before && result == Ok::<
            Value,
            ExpressionError,
        >(Value::Null),
{
}

/// Whatever its arguments are, a call takes what the value gives, then, unless that is an error,
/// what the delimiter gives behind it, and parses the one with the other. An error of either is
/// its error, and what was changed up to there is all that it changes.
///
/// What is found is the context behind the value and what that gave, and the context behind the
/// delimiter and what that gave.
pub proof fn law_call_parses_what_its_arguments_give<S, E: Expression<S>>(
    call: ParseCsvFn<E>,
    before: Context<S>,
    after: Context<S>,
    result: Resolved,
) -> (found: (Context<S>, Resolved, Context<S>, Resolved))
    requires
        call.resolves(before, after, result),
    ensures
        match call.value {
            Expr::Literal(literal) => {
                &&& found.0 == before
                &&& found.1 matches Ok(Value::Bytes(bytes)) && bytes@ == literal@
            },
            Expr::Other(expression) => expression.resolves(before, found.0, found.1),
        },
        found.1 is Err ==> result == found.1 && after == found.0,
        found.1 is Ok ==> match call.delimiter {
            Expr::Literal(literal) => {
                &&& found.2 == found.0
                &&& found.3 matches Ok(Value::Bytes(bytes)) && bytes@ == literal@
            },
            Expr::Other(expression) => expression.resolves(found.0, found.2, found.3),
        },
        found.1 is Ok && found.3 is Err ==> result == found.3 && after == found.2,
        found.1 is Ok && found.3 is Ok ==> {
            let (csv_string, delimiter) = (found.1->Ok_0, found.3->Ok_0);
            &&& after.state == found.2.state
            &&& after.readers@ == if result is Ok && !found.2.readers@.contains(
                delimiter->Bytes_0@[0],
            ) {
                found.2.readers@ + seq![delimiter->Bytes_0@[0]]
            } else {
                found.2.readers@
            }
            &&& result is Ok <==> csv_string is Bytes && delimiter is Bytes
                && delimiter->Bytes_0@.len() == 1
            &&& result is Ok ==> {
                let fields = first_record(delimiter->Bytes_0@[0], csv_string->Bytes_0@);
                &&& result->Ok_0 matches Value::Array(values)
                &&& values@.len() == fields.len()
                &&& forall|i: int|
                    0 <= i < fields.len() ==> ((#[trigger] values@[i]) matches Value::Bytes(bytes)
                        && bytes@ == fields[i])
            }
            &&& !(csv_string is Bytes) ==> result == Err::<Value, ExpressionError>(
                ExpressionError::Value(
                    ValueError::Expected {
                        got: csv_string.value_type(),
                        expected: ValueType::Bytes,
                    },
                ),
            )
            &&& csv_string is Bytes && !(delimiter is Bytes) ==> result == Err::<
                Value,
                ExpressionError,
            >(
                ExpressionError::Value(
                    ValueError::Expected {
                        got: delimiter.value_type(),
                        expected: ValueType::Bytes,
                    },
                ),
            )
            &&& csv_string is Bytes && delimiter is Bytes && delimiter->Bytes_0@.len() != 1 ==> (
            result matches Err(ExpressionError::Error { message }) && message@
                == "delimiter must be a single character"@)
        },
{
    let (between, value) = choose|between: Context<S>, value: Resolved| #[trigger]
        call.value.resolves(before, between, value) && match value {
            Err(_) => after == between && result == value,
            Ok(csv_string) => exists|parsing: Context<S>, given: Resolved| #[trigger]
                call.delimiter.resolves(between, parsing, given) && match given {
                    Err(_) => after == parsing && result == given,
                    Ok(delimiter) => {
                        &&& csv_outcome(csv_string, delimiter, result)
                        &&& after.state == parsing.state
                        &&& after.readers@ == readers_after(
                            parsing.readers@,
                            csv_string,
                            delimiter,
                        )
                    },
                },
        };
    match value {
        Err(_) => (between, value, between, value),
        Ok(csv_string) => {
            let (parsing, given) = choose|parsing: Context<S>, given: Resolved| #[trigger]
                call.delimiter.resolves(between, parsing, given) && match given {
                    Err(_) => after == parsing && result == given,
                    Ok(delimiter) => {
                        &&& csv_outcome(csv_string, delimiter, result)
                        &&& after.state == parsing.state
                        &&& after.readers@ == readers_after(
                            parsing.readers@,
                            csv_string,
                            delimiter,
                        )
                    },
                };
            if let Ok(delimiter) = given {
                law_succeeds_iff_both_are_byte_strings_and_the_delimiter_one_byte(
                    csv_string,
                    delimiter,
                    result,
                );
                law_the_first_fault_is_reported(csv_string, delimiter, result);
                law_readers_are_kept(parsing.readers@, csv_string, delimiter);
            }
            (between, value, parsing, given)
        },
    }
}

/// A call whose value can only give one byte string, and whose delimiter then only a single
/// byte, literals or not, gives all the fields of the first record, and nothing else.
pub proof fn law_call_gives_the_whole_row<S, E: Expression<S>>(
    call: ParseCsvFn<E>,
    csv_string: Seq<u8>,
    delimiter: u8,
    before: Context<S>,
    after: Context<S>,
    result: Resolved,
)
    requires
        call.resolves(before, after, result),
        match call.value {
            Expr::Literal(literal) => literal@ == csv_string,
            Expr::Other(expression) => forall|between: Context<S>, given: Resolved| #[trigger]
                expression.resolves(before, between, given) ==> (given matches Ok(
                    Value::Bytes(bytes),
                ) && bytes@ == csv_string),
        },
        match call.delimiter {
            Expr::Literal(literal) => literal@ == seq![delimiter],
            Expr::Other(expression) => forall|
                between: Context<S>,
                parsing: Context<S>,
                given: Resolved,
            | #[trigger]
                expression.resolves(between, parsing, given) ==> (given matches Ok(
                    Value::Bytes(bytes),
                ) && bytes@ == seq![delimiter]),
        },
    ensures
        result matches Ok(Value::Array(values)) && {
            let fields = first_record(delimiter, csv_string);
            &&& values@.len() == fields.len()
            &&& forall|i: int|
                0 <= i < fields.len() ==> ((#[trigger] values@[i]) matches Value::Bytes(bytes)
                    && bytes@ == fields[i])
        },
{
    let _ = law_call_parses_what_its_arguments_give(call, before, after, result);
}

/// A call whose value can only fail with one error fails with it, whatever its delimiter is.
pub proof fn law_error_of_the_value_is_passed_on<S, E: Expression<S>>(
    call: ParseCsvFn<E>,
    value: E,
    error: ExpressionError,
    before: Context<S>,
    after: Context<S>,
    result: Resolved,
)
    requires
        call.resolves(before, after, result),
        call.value == Expr::Other(value),
        forall|between: Context<S>, given: Resolved| #[trigger]
            value.resolves(before, between, given) ==> given == Err::<Value, ExpressionError>(
                error,
            ),
    ensures
        result == Err::<Value, ExpressionError>(error),
        value.resolves(before, after, result),
{
    let _ = law_call_parses_what_its_arguments_give(call, before, after, result);
}

/// A call whose value does not fail, and whose delimiter can only fail with one error, fails
/// with it.
pub proof fn law_error_of_the_delimiter_is_passed_on<S, E: Expression<S>>(
    call: ParseCsvFn<E>,
    delimiter: E,
    error: ExpressionError,
    before: Context<S>,
    after: Context<S>,
    result: Resolved,
)
    requires
        call.resolves(before, after, result),
        match call.value {
            Expr::Literal(_) => true,
            Expr::Other(value) => forall|between: Context<S>, given: Resolved| #[trigger]
                value.resolves(before, between, given) ==> given is Ok,
        },
        call.delimiter == Expr::Other(delimiter),
        forall|between: Context<S>, parsing: Context<S>, given: Resolved| #[trigger]
            delimiter.resolves(between, parsing, given) ==> given == Err::<Value, ExpressionError>(
                error,
            ),
    ensures
        result == Err::<Value, ExpressionError>(error),
{
    let _ = law_call_parses_what_its_arguments_give(call, before, after, result);
}

/// The type definition of a call says all that there is to say: its kind is that of arrays of
/// byte strings, of any length, and of no other value.
pub proof fn law_type_def_admits_arrays_of_byte_strings(type_def: TypeDef, value: Value)
    requires
        is_row_kind(type_def.kind),
    ensures
        type_def.kind.admits(value) <==> (value matches Value::Array(items) && forall|i: int|
            0 <= i < items@.len() ==> #[trigger] items@[i] is Bytes),
{
    reveal_with_fuel(Kind::admits, 2);
    if let Kind::Array(collection) = type_def.kind {
        assert forall|i: int| #[trigger] collection.kind_at(i) == Kind::Bytes by {}
        if let Value::Array(items) = value {
            if type_def.kind.admits(value) {
                assert forall|i: int| 0 <= i < items@.len() implies #[trigger] items@[i]
                    is Bytes by {
                    assert(collection.kind_at(i).admits(items@[i]));
                }
            } else {
                if forall|i: int| 0 <= i < items@.len() ==> #[trigger] items@[i] is Bytes {
                    assert forall|i: int| 0 <= i < items@.len() implies collection.kind_at(
                        i,
                    ).admits(#[trigger] items@[i]) by {
                        assert(collection.kind_at(i) == Kind::Bytes);
                    }
                }
            }
        }
    }
}

} // verus!
