//! CSV readers that are kept for reuse.

use vstd::prelude::*;

use crate::csv_reader::{build_reader, reader_model};
use crate::record::read_first_record;
use crate::scan::first_record;
use crate::value::{Value, are_bytes};

verus! {

/// One CSV reader for each delimiter that has been asked for. To build a reader costs more
/// than to read a short row, so readers are kept and reset.
pub struct ReaderCache {
    readers: Vec<(u8, csv_core::Reader)>,
}

/// `reader` reads CSV data with this delimiter, and has no record half read.
spec fn reads_with(delimiter: u8, reader: csv_core::Reader) -> bool {
    &&& reader_model(reader).delimiter == Some(delimiter)
    &&& reader_model(reader).written == 0
}

/// Each reader reads with its delimiter; no delimiter has two readers.
spec fn valid_readers(readers: Seq<(u8, csv_core::Reader)>) -> bool {
    &&& forall|i: int|
        0 <= i < readers.len() ==> reads_with((#[trigger] readers[i]).0, readers[i].1)
    &&& forall|i: int, j: int|
        0 <= i < j < readers.len() ==> (#[trigger] readers[i]).0 != (#[trigger] readers[j]).0
}

/// The delimiters of the readers.
spec fn delimiters(readers: Seq<(u8, csv_core::Reader)>) -> Seq<u8> {
    readers.map_values(|entry: (u8, csv_core::Reader)| entry.0)
}

impl View for ReaderCache {
    type V = Seq<u8>;

    /// The delimiters that there is a reader for.
    closed spec fn view(&self) -> Seq<u8> {
        delimiters(self.readers@)
    }
}

impl ReaderCache {
    /// A cache never holds a reader that is in the middle of a record.
    #[verifier::type_invariant]
    spec fn valid(self) -> bool {
        valid_readers(self.readers@)
    }

    /// A cache without readers.
    pub fn new() -> (cache: ReaderCache)
        ensures
            cache@ == Seq::<u8>::empty(),
    {
        let cache = ReaderCache { readers: Vec::new() };
        assert(cache@ =~= Seq::<u8>::empty());
        cache
    }
}

/// `seen` with `delimiter` behind it, unless it is there already.
pub open spec fn with_delimiter(seen: Seq<u8>, delimiter: u8) -> Seq<u8> {
    if seen.contains(delimiter) {
        seen
    } else {
        seen.push(delimiter)
    }
}

/// The index of the reader for `delimiter`, which is built if there is none yet.
fn find_or_build(readers: &mut Vec<(u8, csv_core::Reader)>, delimiter: u8) -> (index: usize)
    requires
        valid_readers(old(readers)@),
    ensures
        valid_readers(final(readers)@),
        delimiters(final(readers)@) == with_delimiter(delimiters(old(readers)@), delimiter),
        index < final(readers)@.len(),
        final(readers)@[index as int].0 == delimiter,
{
    let mut i: usize = 0;
    while i < readers.len()
        invariant
            i <= readers@.len(),
            readers@ == old(readers)@,
            valid_readers(readers@),
            forall|j: int| 0 <= j < i ==> (#[trigger] readers@[j]).0 != delimiter,
        decreases readers@.len() - i,
    {
        if readers[i].0 == delimiter {
            assert(delimiters(readers@)[i as int] == delimiter);
            return i;
        }
        i = i + 1;
    }
    assert(!delimiters(readers@).contains(delimiter)) by {
        if delimiters(readers@).contains(delimiter) {
            let j = choose|j: int| 0 <= j < readers@.len() && delimiters(readers@)[j] == delimiter;
            assert(readers@[j].0 == delimiter);
        }
    }
    readers.push((delimiter, build_reader(delimiter)));
    assert(delimiters(readers@) =~= delimiters(old(readers)@).push(delimiter));
    i
}

/// The fields of the first CSV record of `input`.
///
/// The reader for the delimiter is taken from the cache and put back; which readers the
/// cache holds makes no difference to the fields. There is always a result: data that is not
/// proper CSV is read as well as it can be.
pub fn parse_first_record(cache: &mut ReaderCache, input: &[u8], delimiter: u8) -> (fields: Vec<
    Value,
>)
    requires
        input@.len() <= isize::MAX,
    ensures
        are_bytes(fields@, first_record(delimiter, input@)),
        fields@.len() == first_record(delimiter, input@).len(),
        forall|i: int|
            0 <= i < fields@.len() ==> ((#[trigger] fields@[i]) matches Value::Bytes(bytes)
                && bytes@ == first_record(delimiter, input@)[i]),
        final(cache)@ == with_delimiter(old(cache)@, delimiter),
        final(cache)@.no_duplicates(),
{
    proof {
        use_type_invariant(&*cache);
    }
    let mut readers: Vec<(u8, csv_core::Reader)> = Vec::new();
    std::mem::swap(&mut readers, &mut cache.readers);
    let index = find_or_build(&mut readers, delimiter);
    let ghost found = readers@;
    let fields = read_first_record(&mut readers[index].1, input);
    assert(delimiters(readers@) =~= delimiters(found));
    cache.readers = readers;
    assert forall|i: int| 0 <= i < fields@.len() implies ((
    #[trigger] fields@[i]) matches Value::Bytes(bytes) && bytes@ == first_record(
        delimiter,
        input@,
    )[i]) by {
        assert(fields@[i].is_bytes(first_record(delimiter, input@)[i]));
    }
    fields
}

} // verus!
