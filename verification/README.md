# parse_csv

Parses the first record of a CSV formatted byte string into its fields.

- `src/` is the library. `parse_csv` and `ParseCsv` are in `function.rs`, the reading of a
  record in `record.rs` and `reader_cache.rs`. The model that the contracts speak of is in
  `scan.rs`, `dialect.rs` and `row.rs`; `laws.rs` states what holds of the whole.
- `csv_reader.rs` holds what is relied on without proof: the CSV reader of `csv-core`.
- `app/` puts the library behind trait objects and keeps one set of CSV readers per thread.
- `tests/` runs the library, among others against the `csv` crate.
