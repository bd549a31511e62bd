//! The function `parse_csv`, and calls of it.

use vstd::prelude::*;

use crate::argument_list::ArgumentList;
use crate::bytes::Bytes;
use crate::expression::{Context, Expr, Expression, ExpressionError, Resolved};
use crate::kind::{Collection, Index, Kind, TypeDef};
use crate::reader_cache::{ReaderCache, parse_first_record, with_delimiter};
use crate::scan::first_record;
use crate::value::{Value, ValueError, ValueType, are_bytes};

verus! {

/// The delimiter of a call that names none.
pub const COMMA: u8 = 0x2c;

/// `result` is the error that comes of `value` not being a byte string.
pub open spec fn is_type_error(value: Value, result: Resolved) -> bool {
    result == Err::<Value, ExpressionError>(
        ExpressionError::Value(
            ValueError::Expected { got: value.value_type(), expected: ValueType::Bytes },
        ),
    )
}

/// What parsing `csv_string` as a CSV row with `delimiter` gives.
///
/// Both have to be byte strings, and the delimiter a single byte; the first of these
/// conditions that does not hold is the one that is reported. Otherwise the result is an
/// array of the fields of the first record, by the rules of CSV data for that delimiter; it is
/// empty if there is no record.
pub open spec fn csv_outcome(csv_string: Value, delimiter: Value, result: Resolved) -> bool {
    match (csv_string, delimiter) {
        (Value::Bytes(csv), Value::Bytes(separator)) => if separator@.len() != 1 {
            result matches Err(ExpressionError::Error { message }) && message@
                == "delimiter must be a single character"@
        } else {
            result matches Ok(Value::Array(fields)) && are_bytes(
                fields@,
                first_record(separator@[0], csv@),
            )
        },
        (Value::Bytes(_), other) => is_type_error(other, result),
        (other, _) => is_type_error(other, result),
    }
}

/// The delimiters that there is a reader for once `csv_string` has been parsed.
pub open spec fn readers_after(seen: Seq<u8>, csv_string: Value, delimiter: Value) -> Seq<u8> {
    match (csv_string, delimiter) {
        (Value::Bytes(_), Value::Bytes(separator)) => if separator@.len() == 1 {
            with_delimiter(seen, separator@[0])
        } else {
            seen
        },
        _ => seen,
    }
}

/// Parses `csv_string` as a CSV row whose fields `delimiter` separates.
pub fn parse_csv(cache: &mut ReaderCache, csv_string: Value, delimiter: Value) -> (result: Resolved)
    ensures
        csv_outcome(csv_string, delimiter, result),
        final(cache)@ == readers_after(old(cache)@, csv_string, delimiter),
{
    let csv_string = match csv_string.try_bytes() {
        Ok(bytes) => bytes,
        Err(error) => return Err(ExpressionError::Value(error)),
    };
    let delimiter = match delimiter.try_bytes() {
        Ok(bytes) => bytes,
        Err(error) => return Err(ExpressionError::Value(error)),
    };
    if delimiter.len() != 1 {
        return Err(
            ExpressionError::Error { message: "delimiter must be a single character".to_string() },
        );
    }
    let delimiter: u8 = delimiter.as_slice()[0];

    Ok(Value::Array(parse_first_record(cache, csv_string.as_slice(), delimiter)))
}

/// The kind of the elements of a parsed row: all of them are byte strings.
pub fn inner_kind() -> (collection: Collection<Index>)
    ensures
        collection.known@.len() == 0,
        collection.unknown == Kind::Bytes,
{
    let mut v = Collection::any();
    v.set_unknown(Kind::bytes());
    v
}

/// Arrays of byte strings.
pub open spec fn is_row_kind(kind: Kind) -> bool {
    kind matches Kind::Array(collection) && collection.known@.len() == 0 && collection.unknown
        == Kind::Bytes
}

/// A parameter of a function.
#[derive(Debug, PartialEq, Eq)]
pub struct Parameter {
    /// The keyword that an argument for it is passed with.
    pub keyword: &'static str,
    /// The kind of value that it takes.
    pub kind: Kind,
    /// Whether a call has to have an argument for it.
    pub required: bool,
}

/// An example of the use of a function.
#[derive(Debug, PartialEq, Eq)]
pub struct Example {
    /// What it shows.
    pub title: &'static str,
    /// A program.
    pub source: &'static str,
    /// What the program resolves to, or the error that it fails with.
    pub result: Result<&'static str, &'static str>,
}

/// The function `parse_csv`.
#[derive(Clone, Copy, Debug)]
pub struct ParseCsv;

impl ParseCsv {
    /// The name by which programs call the function.
    pub fn identifier(&self) -> (name: &'static str)
        ensures
            name@ == "parse_csv"@,
    {
        "parse_csv"
    }

    /// Examples of its use.
    pub fn examples(&self) -> (examples: Vec<Example>)
        ensures
            examples@.len() == 1,
            examples@[0].title@ == "parse a single CSV formatted row"@,
            examples@[0].source@ == r#"parse_csv!(s'foo,bar,"foo "", bar"')"#@,
            examples@[0].result matches Ok(result) && result@
                == r#"["foo", "bar", "foo \", bar"]"#@,
    {
        vec![
            Example {
                title: "parse a single CSV formatted row",
                source: r#"parse_csv!(s'foo,bar,"foo "", bar"')"#,
                result: Ok(r#"["foo", "bar", "foo \", bar"]"#),
            },
        ]
    }

    /// Its parameters.
    pub fn parameters(&self) -> (parameters: Vec<Parameter>)
        ensures
            parameters@.len() == 2,
            parameters@[0].keyword@ == "value"@,
            parameters@[0].kind == Kind::Bytes,
            parameters@[0].required,
            parameters@[1].keyword@ == "delimiter"@,
            parameters@[1].kind == Kind::Bytes,
            !parameters@[1].required,
    {
        vec![
            Parameter { keyword: "value", kind: Kind::bytes(), required: true },
            Parameter { keyword: "delimiter", kind: Kind::bytes(), required: false },
        ]
    }

    /// The call of the function with these arguments. The delimiter is a comma unless there
    /// is an argument for it.
    pub fn compile<E>(&self, arguments: ArgumentList<E>) -> (call: ParseCsvFn<E>)
        requires
            arguments@.contains_key("value"@),
        ensures
            call.value == arguments@["value"@],
            if arguments@.contains_key("delimiter"@) {
                call.delimiter == arguments@["delimiter"@]
            } else {
                call.delimiter matches Expr::Literal(delimiter) && delimiter@ == seq![COMMA]
            },
    {
        proof {
            reveal_strlit("value");
            reveal_strlit("delimiter");
            assert("value"@.len() != "delimiter"@.len());
        }
        let (value, rest) = arguments.required("value");
        let (delimiter, _) = rest.optional("delimiter");
        let delimiter = match delimiter {
            Some(delimiter) => delimiter,
            None => Expr::Literal(Bytes::copy_from_slice(&[COMMA])),
        };
        ParseCsvFn { value, delimiter }
    }
}

/// A call of `parse_csv`.
#[derive(Clone, Debug)]
pub struct ParseCsvFn<E> {
    pub value: Expr<E>,
    pub delimiter: Expr<E>,
}

impl<E> ParseCsvFn<E> {
    /// What is known of the call before it is resolved: it gives an array of byte strings,
    /// and it can fail.
    pub fn type_def(&self) -> (type_def: TypeDef)
        ensures
            is_row_kind(type_def.kind),
            type_def.kind matches Kind::Array(collection) && collection.known@.len() == 0
                && collection.unknown == Kind::Bytes,
            type_def.fallible,
    {
        TypeDef::array(inner_kind()).fallible()
    }
}

impl<S, E: Expression<S>> Expression<S> for ParseCsvFn<E> {
    /// The value is resolved first, then the delimiter, and then the one is parsed with the
    /// other, which leaves the state alone. An error of either is the error of the call, and
    /// what comes after it is left out.
    open spec fn resolves(
        &self,
        before: Context<S>,
        after: Context<S>,
        result: Resolved,
    ) -> bool {
        exists|between: Context<S>, csv_string: Resolved| #[trigger]
            self.value.resolves(before, between, csv_string) && match csv_string {
                Err(_) => after == between && result == csv_string,
                Ok(csv_string) => exists|parsing: Context<S>, delimiter: Resolved| #[trigger]
                    self.delimiter.resolves(between, parsing, delimiter) && match delimiter {
                        Err(_) => after == parsing && result == delimiter,
                        Ok(delimiter) => {
                            &&& csv_outcome(csv_string, delimiter, result)
                            &&& after.state == parsing.state
                            &&& after.readers@ == readers_after(
                                parsing.readers@,
                                csv_string,
                                delimiter,
                            )
                        },
                    },
            }
    }

    fn resolve(&self, ctx: &mut Context<S>) -> (result: Resolved) {
        let ghost before = *ctx;
        let csv_string = self.value.resolve(ctx);
        let ghost between = *ctx;
        assert(self.value.resolves(before, between, csv_string));
        let csv_string = match csv_string {
            Ok(value) => value,
            Err(error) => return Err(error),
        };
        let delimiter = self.delimiter.resolve(ctx);
        let ghost parsing = *ctx;
        assert(self.delimiter.resolves(between, parsing, delimiter));
        let delimiter = match delimiter {
            Ok(value) => value,
            Err(error) => return Err(error),
        };

        parse_csv(&mut ctx.readers, csv_string, delimiter)
    }
}

} // verus!
