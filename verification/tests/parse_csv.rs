use parse_csv::argument_list::ArgumentList;
use parse_csv::bytes::Bytes;
use parse_csv::expression::{Context, Expr, Expression, ExpressionError, Noop, Resolved};
use parse_csv::kind::{Collection, Kind, TypeDef};
use parse_csv::reader_cache::ReaderCache;
use parse_csv::record::record_fields;
use parse_csv::value::{Value, ValueError, ValueType};
use parse_csv::{inner_kind, parse_csv, parse_first_record, ParseCsv};

fn bytes(data: &[u8]) -> Value {
    Value::Bytes(Bytes::copy_from_slice(data))
}

fn array(fields: &[&[u8]]) -> Value {
    Value::Array(fields.iter().map(|field| bytes(field)).collect())
}

fn strings(fields: &[&str]) -> Value {
    Value::Array(fields.iter().map(|field| bytes(field.as_bytes())).collect())
}

fn error(message: &str) -> ExpressionError {
    ExpressionError::Error { message: message.to_string() }
}

fn expected_bytes(got: ValueType) -> ExpressionError {
    ExpressionError::Value(ValueError::Expected { got, expected: ValueType::Bytes })
}

/// Parses the first record with the `csv` crate.
fn csv_crate_oracle(input: &[u8], delimiter: u8) -> Vec<Value> {
    let mut reader = csv::ReaderBuilder::new()
        .has_headers(false)
        .delimiter(delimiter)
        .flexible(true)
        .from_reader(std::io::Cursor::new(input));
    let mut record = csv::ByteRecord::new();
    match reader.read_byte_record(&mut record) {
        Ok(true) => record.iter().map(|f| bytes(f)).collect(),
        _ => Vec::new(),
    }
}

/// An expression that is not a literal: it gives an error, or the byte string, that it holds.
#[derive(Debug)]
enum Probe {
    Fails(&'static str),
    Aborts,
    Gives(&'static [u8]),
    /// Parses a row of its own first.
    Parses(u8),
    Number(i64),
}

/// The state counts how often a probe has been resolved.
impl Expression<u32> for Probe {
    fn resolve(&self, ctx: &mut Context<u32>) -> Resolved {
        ctx.state += 1;
        match self {
            Probe::Fails(message) => Err(error(message)),
            Probe::Aborts => Err(ExpressionError::Abort(None)),
            Probe::Gives(data) => Ok(bytes(data)),
            Probe::Parses(delimiter) => {
                let row = parse_first_record(&mut ctx.readers, b"a;b", *delimiter);
                Ok(row.into_iter().next().unwrap())
            }
            Probe::Number(number) => Ok(Value::Integer(*number)),
        }
    }
}

fn call(value: Expr<Probe>, delimiter: Option<Expr<Probe>>) -> Resolved {
    let mut ctx = Context { readers: ReaderCache::new(), state: 0u32 };
    call_in(&mut ctx, value, delimiter)
}

fn call_in(ctx: &mut Context<u32>, value: Expr<Probe>, delimiter: Option<Expr<Probe>>) -> Resolved {
    let mut arguments = ArgumentList::new().with("value", value);
    if let Some(delimiter) = delimiter {
        arguments = arguments.with("delimiter", delimiter);
    }
    let function = ParseCsv.compile(arguments);
    assert_eq!(function.type_def(), TypeDef::array(inner_kind()).fallible());
    function.resolve(ctx)
}

fn literal(text: &str) -> Expr<Probe> {
    Expr::Literal(Bytes::copy_from_slice(text.as_bytes()))
}

fn parse(text: &str) -> Resolved {
    call(literal(text), None)
}

fn parse_with(text: &str, delimiter: &str) -> Resolved {
    call(literal(text), Some(literal(delimiter)))
}

#[test]
fn matches_csv_crate_on_edge_cases() {
    let cases: &[(&[u8], u8)] = &[
        (b"", b','),
        (b"foo", b','),
        (b"foo,bar", b','),
        (b"foo,bar\n", b','),
        (b"foo,bar\r\n", b','),
        (b"a,b\nc,d", b','), // only first record
        (b"\n", b','),       // empty line
        (b"\r\n", b','),
        (b",,,", b','),                 // empty fields
        (b"a,b,", b','),                // trailing empty field
        (b"\"\"", b','),                // empty quoted field
        (b"\"\"\"\"", b','),            // escaped quote only
        (b"\"a,b\",c", b','),           // quoted comma
        (b"\"a\"\"b\",c", b','),        // escaped quote inside field
        (b"a\"b,c", b','),              // lenient: quote mid-field
        (b"\"unterminated,c", b','),    // unterminated quote
        (b"\xEF\xBB\xBFfoo,bar", b','), // leading UTF-8 BOM
        (b"foo,b\xFFar", b','),         // invalid UTF-8 bytes
        (b" a , b ", b','),             // surrounding whitespace
        (b"a,\"b\nc\",d", b','),        // newline inside quotes
        (b"a\rb", b','),                // bare carriage return
        (b"x\ty\tz", b'\t'),            // tab delimiter
        (b"x|y|z", b'|'),               // pipe delimiter
        (b"\"a\tb\",c", b'\t'),         // quoted tab with tab delimiter
    ];
    // One cache for all of them, with changing delimiters: a reader must not carry anything
    // over from one row to the next.
    let mut cache = ReaderCache::new();
    for &(input, delimiter) in cases {
        let ours = parse_first_record(&mut cache, input, delimiter);
        let oracle = csv_crate_oracle(input, delimiter);
        assert_eq!(
            ours,
            oracle,
            "mismatch for input {:?} (delimiter {:?})",
            String::from_utf8_lossy(input),
            delimiter as char,
        );
    }
}

#[test]
fn unterminated_record_exits_via_input_empty_then_record() {
    let mut cache = ReaderCache::new();
    for input in [&b"a,b,c"[..], b"single", b"\"quoted\"", b"trailing,"] {
        assert_eq!(parse_first_record(&mut cache, input, b','), csv_crate_oracle(input, b','));
    }
}

#[test]
fn many_fields_exit_via_ends_growth_then_record() {
    let mut cache = ReaderCache::new();
    for n in [1usize, 63, 64, 65, 200, 1000] {
        let input =
            (0..n).map(|i| i.to_string()).collect::<Vec<_>>().join(",").into_bytes();
        let ours = parse_first_record(&mut cache, &input, b',');
        assert_eq!(ours.len(), n, "field count for n={n}");
        assert_eq!(ours, csv_crate_oracle(&input, b','), "mismatch for n={n}");
    }
}

#[test]
fn valid() {
    assert_eq!(
        parse("foo,bar,\"foo \"\", bar\""),
        Ok(strings(&["foo", "bar", "foo \", bar"]))
    );
}

#[test]
fn invalid_utf8() {
    let value = Expr::Literal(Bytes::copy_from_slice(b"foo,b\xFFar"));
    assert_eq!(call(value, None), Ok(array(&[b"foo", b"b\xFFar"])));
}

#[test]
fn custom_delimiter() {
    assert_eq!(parse_with("foo bar", " "), Ok(strings(&["foo", "bar"])));
}

#[test]
fn invalid_delimiter() {
    assert_eq!(parse_with("foo bar", ",,"), Err(error("delimiter must be a single character")));
}

#[test]
fn single_value() {
    assert_eq!(parse("foo"), Ok(strings(&["foo"])));
}

#[test]
fn empty_string() {
    assert_eq!(parse(""), Ok(strings(&[])));
}

#[test]
fn multiple_lines() {
    assert_eq!(
        parse("first,line\nsecond,line,with,more,fields"),
        Ok(strings(&["first", "line"]))
    );
}

#[test]
fn quoted_fields_with_commas() {
    assert_eq!(
        parse("\"field,with,commas\",normal,\"another,quoted\""),
        Ok(strings(&["field,with,commas", "normal", "another,quoted"]))
    );
}

#[test]
fn quoted_fields_with_quotes() {
    assert_eq!(
        parse("\"field with \"\"quotes\"\"\",normal"),
        Ok(strings(&["field with \"quotes\"", "normal"]))
    );
}

#[test]
fn mixed_quoted_unquoted() {
    assert_eq!(
        parse("unquoted,\"quoted field\",another_unquoted"),
        Ok(strings(&["unquoted", "quoted field", "another_unquoted"]))
    );
}

#[test]
fn empty_fields() {
    assert_eq!(parse("field1,,field3,"), Ok(strings(&["field1", "", "field3", ""])));
}

#[test]
fn quoted_empty_fields() {
    assert_eq!(parse("field1,\"\",field3"), Ok(strings(&["field1", "", "field3"])));
}

#[test]
fn whitespace_handling() {
    assert_eq!(
        parse(" field1 , field2 ,field3 "),
        Ok(strings(&[" field1 ", " field2 ", "field3 "]))
    );
}

#[test]
fn quoted_whitespace() {
    assert_eq!(
        parse("\" field1 \",\"field2\",\" field3 \""),
        Ok(strings(&[" field1 ", "field2", " field3 "]))
    );
}

#[test]
fn newlines_in_quoted_fields() {
    assert_eq!(
        parse("\"field\nwith\nnewlines\",normal"),
        Ok(strings(&["field\nwith\nnewlines", "normal"]))
    );
}

#[test]
fn tab_delimiter() {
    assert_eq!(
        parse_with("field1\tfield2\tfield3", "\t"),
        Ok(strings(&["field1", "field2", "field3"]))
    );
}

#[test]
fn pipe_delimiter() {
    assert_eq!(
        parse_with("field1|field2|field3", "|"),
        Ok(strings(&["field1", "field2", "field3"]))
    );
}

#[test]
fn semicolon_delimiter() {
    assert_eq!(
        parse_with("field1;field2;field3", ";"),
        Ok(strings(&["field1", "field2", "field3"]))
    );
}

#[test]
fn single_quote_field() {
    assert_eq!(parse("field1,'field2',field3"), Ok(strings(&["field1", "'field2'", "field3"])));
}

#[test]
fn numeric_looking_fields() {
    assert_eq!(parse("123,45.67,\"789\",0"), Ok(strings(&["123", "45.67", "789", "0"])));
}

#[test]
fn boolean_looking_fields() {
    assert_eq!(parse("true,false,TRUE,FALSE"), Ok(strings(&["true", "false", "TRUE", "FALSE"])));
}

#[test]
fn special_characters() {
    assert_eq!(
        parse("field@#$%,\"field^&*()\",field!~`"),
        Ok(strings(&["field@#$%", "field^&*()", "field!~`"]))
    );
}

#[test]
fn unicode_characters() {
    assert_eq!(
        parse("café,naïve,\"résumé\",München"),
        Ok(strings(&["café", "naïve", "résumé", "München"]))
    );
}

#[test]
fn malformed_quotes_unclosed() {
    assert_eq!(
        parse("field1,\"unclosed quote,field3"),
        Ok(strings(&["field1", "unclosed quote,field3"]))
    );
}

#[test]
fn malformed_quotes_embedded() {
    assert_eq!(parse("field1,fie\"ld2,field3"), Ok(strings(&["field1", "fie\"ld2", "field3"])));
}

#[test]
fn empty_delimiter() {
    assert_eq!(parse_with("foo,bar", ""), Err(error("delimiter must be a single character")));
}

#[test]
fn multi_byte_delimiter_attempt() {
    assert_eq!(parse_with("foo,bar", "🎵"), Err(error("delimiter must be a single character")));
}

#[test]
fn carriage_return_handling() {
    assert_eq!(parse("field1,field2\r\nfield3,field4"), Ok(strings(&["field1", "field2"])));
}

#[test]
fn only_commas() {
    assert_eq!(parse(",,,"), Ok(strings(&["", "", "", ""])));
}

#[test]
fn only_quotes() {
    assert_eq!(parse("\"\""), Ok(strings(&[""])));
}

#[test]
fn arguments_must_be_byte_strings() {
    let mut cache = ReaderCache::new();
    let cases = vec![
        (Value::Regex("a+".to_string()), ValueType::Regex),
        (Value::Integer(1), ValueType::Integer),
        (Value::Float(0x3ff0_0000_0000_0000), ValueType::Float),
        (Value::Boolean(true), ValueType::Boolean),
        (Value::Timestamp(0, 1), ValueType::Timestamp),
        (Value::Object(vec![("a".to_string(), Value::Null)]), ValueType::Object),
        (Value::Array(vec![bytes(b"a")]), ValueType::Array),
        (Value::Null, ValueType::Null),
    ];
    for (value, got) in cases {
        assert_eq!(value.value_type(), got);
        assert_eq!(parse_csv(&mut cache, value, bytes(b",")), Err(expected_bytes(got)));
    }
    assert_eq!(
        parse_csv(&mut cache, bytes(b"a,b"), Value::Boolean(false)),
        Err(expected_bytes(ValueType::Boolean))
    );
    // The row is looked at before the delimiter.
    assert_eq!(
        parse_csv(&mut cache, Value::Null, Value::Integer(2)),
        Err(expected_bytes(ValueType::Null))
    );
    assert_eq!(
        parse_csv(&mut cache, Value::Null, bytes(b",,")),
        Err(expected_bytes(ValueType::Null))
    );
    assert_eq!(bytes(b"a").value_type(), ValueType::Bytes);
    assert_eq!(bytes(b"a").try_bytes(), Ok(Bytes::copy_from_slice(b"a")));
}

#[test]
fn errors_of_the_arguments_are_passed_on() {
    let parse = |value: Probe, delimiter: Probe| {
        call(Expr::Other(value), Some(Expr::Other(delimiter)))
    };
    assert_eq!(parse(Probe::Fails("first"), Probe::Fails("second")), Err(error("first")));
    assert_eq!(parse(Probe::Gives(b"a b"), Probe::Fails("second")), Err(error("second")));
    assert_eq!(parse(Probe::Gives(b"a b"), Probe::Aborts), Err(ExpressionError::Abort(None)));
    assert_eq!(parse(Probe::Gives(b"a b"), Probe::Gives(b" ")), Ok(strings(&["a", "b"])));
    assert_eq!(
        parse(Probe::Number(1), Probe::Gives(b" ")),
        Err(expected_bytes(ValueType::Integer))
    );
}

#[test]
fn arguments_are_resolved_once_and_in_order() {
    let state_after = |value: Expr<Probe>, delimiter: Option<Expr<Probe>>| {
        let mut ctx = Context { readers: ReaderCache::new(), state: 7u32 };
        let _ = call_in(&mut ctx, value, delimiter);
        ctx.state
    };
    // Parsing leaves the state alone.
    assert_eq!(state_after(literal("a,b"), None), 7);
    assert_eq!(state_after(literal("a,b"), Some(literal(",,"))), 7);
    assert_eq!(state_after(Expr::Other(Probe::Gives(b"a b")), Some(literal(" "))), 8);
    let delimiter = || Some(Expr::Other(Probe::Gives(b" ")));
    assert_eq!(state_after(Expr::Other(Probe::Gives(b"a b")), delimiter()), 9);
    // The delimiter is resolved even if the value is no byte string, but not after an error.
    assert_eq!(state_after(Expr::Other(Probe::Number(1)), delimiter()), 9);
    assert_eq!(state_after(Expr::Other(Probe::Fails("first")), delimiter()), 8);
}

#[test]
fn calls_of_literals_need_no_other_expressions() {
    let resolve = |value: Expr<Noop>, delimiter: Expr<Noop>| {
        let arguments = ArgumentList::new().with("value", value).with("delimiter", delimiter);
        let mut ctx = Context { readers: ReaderCache::new(), state: () };
        ParseCsv.compile(arguments).resolve(&mut ctx)
    };
    let text = |data: &[u8]| Expr::Literal(Bytes::copy_from_slice(data));
    assert_eq!(resolve(text(b"a;b"), text(b";")), Ok(strings(&["a", "b"])));
    assert_eq!(
        resolve(text(b"a;b"), text(b"")),
        Err(error("delimiter must be a single character"))
    );
    assert_eq!(
        resolve(Expr::Other(Noop), text(b";")),
        Err(expected_bytes(ValueType::Null))
    );
}

#[test]
fn an_argument_may_parse_rows_itself() {
    let mut ctx = Context { readers: ReaderCache::new(), state: 0u32 };
    let row = Expr::Other(Probe::Parses(b';'));
    assert_eq!(call_in(&mut ctx, row, None), Ok(strings(&["a"])));
    let row = Expr::Other(Probe::Parses(b','));
    assert_eq!(call_in(&mut ctx, row, Some(literal(";"))), Ok(strings(&["a", "b"])));
}

#[test]
fn later_arguments_replace_earlier_ones() {
    let arguments: ArgumentList<Probe> = ArgumentList::new()
        .with("value", literal("a"))
        .with("delimiter", literal(";"))
        .with("value", literal("b;c"));
    let mut ctx = Context { readers: ReaderCache::new(), state: 0u32 };
    assert_eq!(ParseCsv.compile(arguments).resolve(&mut ctx), Ok(strings(&["b", "c"])));

    let arguments: ArgumentList<Probe> = ArgumentList::new().with("value", literal("a"));
    let (found, arguments) = arguments.optional("delimiter");
    assert!(found.is_none());
    let (found, arguments) = arguments.required("value");
    assert!(matches!(found, Expr::Literal(text) if text == Bytes::copy_from_slice(b"a")));
    assert!(arguments.optional("value").0.is_none());
}

#[test]
fn description_of_the_function() {
    assert_eq!(ParseCsv.identifier(), "parse_csv");

    let parameters = ParseCsv.parameters();
    assert_eq!(parameters.len(), 2);
    assert_eq!(parameters[0].keyword, "value");
    assert_eq!(parameters[0].kind, Kind::Bytes);
    assert!(parameters[0].required);
    assert_eq!(parameters[1].keyword, "delimiter");
    assert_eq!(parameters[1].kind, Kind::Bytes);
    assert!(!parameters[1].required);

    let examples = ParseCsv.examples();
    assert_eq!(examples.len(), 1);
    assert_eq!(examples[0].title, "parse a single CSV formatted row");
    assert_eq!(examples[0].source, r#"parse_csv!(s'foo,bar,"foo "", bar"')"#);
    assert_eq!(examples[0].result, Ok(r#"["foo", "bar", "foo \", bar"]"#));
}

#[test]
fn kinds() {
    let inner = inner_kind();
    assert_eq!(inner, Collection { known: vec![], unknown: Kind::Bytes });
    assert_ne!(inner, Collection::any());
    let type_def = TypeDef::array(inner_kind());
    assert!(!type_def.fallible);
    let type_def = type_def.fallible();
    assert!(type_def.fallible);
    assert_eq!(type_def.kind, Kind::Array(Box::new(inner_kind())));
}

#[test]
fn rows_read_back() {
    let fields: &[&[u8]] = &[b"", b"plain", b"a\"b", b"\"", b"x,y\r\nz", b"\xFF\x00", b""];
    for delimiter in [b',', b';', b'\t', 0u8, 0xffu8] {
        let mut row = Vec::new();
        for (i, field) in fields.iter().enumerate() {
            if i > 0 {
                row.push(delimiter);
            }
            let plain = field.first() != Some(&b'"')
                && !field.iter().any(|b| *b == delimiter || *b == b'\r' || *b == b'\n');
            if plain {
                row.extend_from_slice(field);
            } else {
                row.push(b'"');
                for b in field.iter() {
                    row.push(*b);
                    if *b == b'"' {
                        row.push(b'"');
                    }
                }
                row.push(b'"');
            }
        }
        let mut cache = ReaderCache::new();
        let read = Value::Array(parse_first_record(&mut cache, &row, delimiter));
        assert_eq!(read, array(fields));
        row.extend_from_slice(b"\nnext,\"row");
        let read = Value::Array(parse_first_record(&mut cache, &row, delimiter));
        assert_eq!(read, array(fields));
    }
}

#[test]
fn unclosed_quote_runs_to_the_end() {
    assert_eq!(parse("a,\"b,c\nd\"\"e"), Ok(strings(&["a", "b,c\nd\"e"])));
    assert_eq!(parse("\"b,c"), Ok(strings(&["b,c"])));
}

#[test]
fn unclosed_quote_at_the_start_makes_one_field() {
    let mut cache = ReaderCache::new();
    for delimiter in [b',', b'"', b'\n', b'\r'] {
        let fields = parse_first_record(&mut cache, b"\"a,b\r\n\"\"c", delimiter);
        assert_eq!(fields, vec![bytes(b"a,b\r\n\"c")]);
    }
}

#[test]
fn rows_with_unusual_delimiters_read_back() {
    let mut cache = ReaderCache::new();
    // The quote separates fields that are not empty and not in quotes.
    assert_eq!(
        parse_first_record(&mut cache, b"a\"b\"\"c,\"\"d\"\nrest", b'"'),
        vec![bytes(b"a"), bytes(b"b"), bytes(b"c,\"d")]
    );
    // A newline does unless it comes first.
    assert_eq!(
        parse_first_record(&mut cache, b"\"\"\n\nb\rrest", b'\n'),
        vec![bytes(b""), bytes(b""), bytes(b"b")]
    );
    assert_eq!(parse_first_record(&mut cache, b"\nb", b'\n'), vec![bytes(b"b")]);
}

#[test]
fn fields_cost_bytes_of_the_input() {
    let mut cache = ReaderCache::new();
    let inputs: &[&[u8]] = &[b"", b",", b"a,b", b"\"a\"\"\",b\n", b"\xEF\xBB\xBFa", b"\n\na,"];
    for input in inputs {
        let fields = parse_first_record(&mut cache, input, b',');
        let mut cost = fields.len();
        let mut rest = input.iter();
        for field in fields {
            let field = field.try_bytes().unwrap();
            cost += field.len();
            for byte in field.as_slice() {
                assert!(rest.any(|other| other == byte));
            }
        }
        assert!(cost <= input.len() + 1);
    }
}

#[test]
fn only_the_first_record_counts() {
    assert_eq!(parse("a,b\nc,\"d"), parse("a,b\n"));
    assert_eq!(parse("a\r\n\r\n"), Ok(strings(&["a"])));
}

#[test]
fn blank_data_has_no_fields() {
    assert_eq!(parse("\r\n\n\r"), Ok(strings(&[])));
    assert_eq!(parse("\n\r\na,b"), Ok(strings(&["a", "b"])));
    assert_eq!(parse(" \n"), Ok(strings(&[" "])));
    let mut cache = ReaderCache::new();
    assert_eq!(parse_first_record(&mut cache, b"\xEF\xBB\xBF", b','), vec![]);
    assert_eq!(parse_first_record(&mut cache, b"\xEF\xBB\xBF\n", b','), vec![]);
}

#[test]
fn byte_order_mark_is_dropped_once() {
    let mut cache = ReaderCache::new();
    assert_eq!(parse_first_record(&mut cache, b"\xEF\xBB\xBFa,b", b','), vec![bytes(b"a"), bytes(b"b")]);
    assert_eq!(
        parse_first_record(&mut cache, b"\xEF\xBB\xBF\xEF\xBB\xBFa", b','),
        vec![bytes(b"\xEF\xBB\xBFa")]
    );
    assert_eq!(parse_first_record(&mut cache, b"\xEF\xBB", b','), vec![bytes(b"\xEF\xBB")]);
    assert_eq!(
        parse_first_record(&mut cache, b"\n\xEF\xBB\xBFa", b','),
        vec![bytes(b"\xEF\xBB\xBFa")]
    );
}

#[test]
fn unusual_delimiters_match_csv_crate() {
    let inputs: &[&[u8]] = &[
        b"a\"b\"c", b"\"a\"b", b"\"\"", b"a\nb\nc", b"\n\na", b"a\rb\r\nc", b"\r\ra\r\n", b"a,b",
    ];
    let mut cache = ReaderCache::new();
    for delimiter in [b'"', b'\n', b'\r', 0u8, 0xefu8] {
        for input in inputs {
            let ours = parse_first_record(&mut cache, input, delimiter);
            assert_eq!(ours, csv_crate_oracle(input, delimiter));
        }
    }
}

#[test]
fn ends_grow_at_the_end_of_the_data() {
    // The data ends right where the buffer for the field ends is full.
    let mut cache = ReaderCache::new();
    for n in [63usize, 64, 65, 127, 128, 129] {
        let row = vec![b','; n];
        let fields = parse_first_record(&mut cache, &row, b',');
        assert_eq!(fields.len(), n + 1);
        assert!(fields.iter().all(|field| *field == bytes(b"")));
    }
}

#[test]
fn a_used_reader_starts_afresh() {
    let mut cache = ReaderCache::new();
    let first = parse_first_record(&mut cache, b"abc,\"unclosed", b',');
    assert_eq!(first, vec![bytes(b"abc"), bytes(b"unclosed")]);
    assert_eq!(parse_first_record(&mut cache, b"d;e", b';'), vec![bytes(b"d"), bytes(b"e")]);
    assert_eq!(parse_first_record(&mut cache, b"", b','), vec![]);
    assert_eq!(parse_first_record(&mut cache, b"f\r", b','), vec![bytes(b"f")]);
    assert_eq!(parse_first_record(&mut cache, b"\ng,h", b','), vec![bytes(b"g"), bytes(b"h")]);
}

#[test]
fn fields_are_cut_at_their_ends() {
    assert_eq!(record_fields(b"abc", &[]), vec![]);
    assert_eq!(
        record_fields(b"abcdef", &[0, 2, 2, 5]),
        vec![bytes(b""), bytes(b"ab"), bytes(b""), bytes(b"cde")]
    );
}

#[test]
fn byte_strings() {
    let text = Bytes::copy_from_slice(b"abc");
    assert_eq!(text.len(), 3);
    assert_eq!(text.as_slice(), b"abc");
    assert_eq!(text.clone(), text);
    assert_ne!(text, Bytes::copy_from_slice(b"abd"));
}
