//! How a CSV reader turns bytes into the fields of one record.

use vstd::prelude::*;

use crate::dialect::{Position, is_blank, is_newline, transition};

verus! {

/// What a reader has made of the data that it has read so far: its position, the bytes of
/// the fields one behind the other, and where in those bytes each finished field ends.
#[verifier::ext_equal]
pub struct Scan {
    pub position: Position,
    pub bytes: Seq<u8>,
    pub ends: Seq<int>,
}

/// The pieces of `bytes` that end at `ends`, each beginning where the one before it ended.
pub open spec fn cut(bytes: Seq<u8>, ends: Seq<int>) -> Seq<Seq<u8>> {
    Seq::new(ends.len(), |i: int| bytes.subrange(piece_start(ends, i), ends[i]))
}

/// Where the piece that ends at `ends[i]` begins.
pub open spec fn piece_start(ends: Seq<int>, i: int) -> int {
    if i == 0 {
        0
    } else {
        ends[i - 1]
    }
}

/// The pieces that end at `ends` lie within `len` bytes.
pub open spec fn cuts_within(ends: Seq<int>, len: int) -> bool {
    forall|i: int|
        0 <= i < ends.len() ==> 0 <= #[trigger] piece_start(ends, i) <= ends[i] <= len
}

impl Scan {
    /// A reader at `position` that has read nothing yet.
    pub open spec fn at(position: Position) -> Scan {
        Scan { position, bytes: Seq::empty(), ends: Seq::empty() }
    }

    /// Reads one byte. A record that has ended stays as it is.
    pub open spec fn step(self, delimiter: u8, byte: u8) -> Scan {
        if self.position is RecordEnd {
            self
        } else {
            let (position, in_field) = transition(delimiter, self.position, byte);
            let bytes = if in_field {
                self.bytes.push(byte)
            } else {
                self.bytes
            };
            let ends = if position is FieldEnd || position is RecordEnd {
                self.ends.push(bytes.len() as int)
            } else {
                self.ends
            };
            Scan { position, bytes, ends }
        }
    }

    /// Reads `data`, byte by byte, up to the end of the record.
    pub open spec fn read(self, delimiter: u8, data: Seq<u8>) -> Scan
        decreases data.len(),
    {
        if data.len() == 0 {
            self
        } else {
            self.read(delimiter, data.drop_last()).step(delimiter, data.last())
        }
    }

    /// Learns that no data follows: a record that has begun ends here, and its last field
    /// with it.
    pub open spec fn finish(self) -> Scan {
        if self.position is RecordStart || self.position is RecordEnd {
            self
        } else {
            Scan {
                position: Position::RecordEnd,
                bytes: self.bytes,
                ends: self.ends.push(self.bytes.len() as int),
            }
        }
    }

    /// The fields that are finished.
    pub open spec fn fields(self) -> Seq<Seq<u8>> {
        cut(self.bytes, self.ends)
    }
}

/// `data` begins with the UTF-8 encoding of a byte order mark.
pub open spec fn starts_with_bom(data: Seq<u8>) -> bool {
    data.len() >= 3 && data[0] == 0xef && data[1] == 0xbb && data[2] == 0xbf
}

/// `data` without a leading byte order mark.
pub open spec fn strip_bom(data: Seq<u8>) -> Seq<u8> {
    if starts_with_bom(data) {
        data.skip(3)
    } else {
        data
    }
}

/// The fields of the first record of `input`, which `delimiter` separates; none if `input`
/// holds no record.
pub open spec fn first_record(delimiter: u8, input: Seq<u8>) -> Seq<Seq<u8>> {
    Scan::at(Position::RecordStart).read(delimiter, strip_bom(input)).finish().fields()
}

impl Scan {
    /// Reading two stretches of data one after the other is reading them as one.
    pub(crate) proof fn lemma_read_concat(self, delimiter: u8, a: Seq<u8>, b: Seq<u8>)
        ensures
            self.read(delimiter, a + b) == self.read(delimiter, a).read(delimiter, b),
        decreases b.len(),
    {
        if b.len() == 0 {
            assert(a + b =~= a);
        } else {
            assert((a + b).drop_last() =~= a + b.drop_last());
            self.lemma_read_concat(delimiter, a, b.drop_last());
        }
    }

    /// A record that has ended is not changed by the data that follows.
    pub(crate) proof fn lemma_read_after_end(self, delimiter: u8, data: Seq<u8>)
        requires
            self.position is RecordEnd,
        ensures
            self.read(delimiter, data) == self,
        decreases data.len(),
    {
        if data.len() > 0 {
            self.lemma_read_after_end(delimiter, data.drop_last());
        }
    }

    /// What was read before only comes in front of what is read now.
    pub(crate) proof fn lemma_read_shift(self, delimiter: u8, data: Seq<u8>)
        ensures
            ({
                let fresh = Scan::at(self.position).read(delimiter, data);
                let whole = self.read(delimiter, data);
                &&& whole.position == fresh.position
                &&& whole.bytes == self.bytes + fresh.bytes
                &&& whole.ends == self.ends + fresh.ends.map_values(
                    |end: int| self.bytes.len() + end,
                )
            }),
        decreases data.len(),
    {
        let shift = |end: int| self.bytes.len() + end;
        let fresh = Scan::at(self.position).read(delimiter, data);
        let whole = self.read(delimiter, data);
        if data.len() > 0 {
            self.lemma_read_shift(delimiter, data.drop_last());
            let fresh0 = Scan::at(self.position).read(delimiter, data.drop_last());
            assert(fresh == fresh0.step(delimiter, data.last()));
            if fresh.ends.len() > fresh0.ends.len() {
                assert(fresh.ends.map_values(shift) =~= fresh0.ends.map_values(shift).push(
                    shift(fresh.bytes.len() as int),
                ));
            }
            assert(whole.bytes =~= self.bytes + fresh.bytes);
            assert(whole.ends =~= self.ends + fresh.ends.map_values(shift));
        } else {
            assert(whole.bytes =~= self.bytes + fresh.bytes);
            assert(whole.ends =~= self.ends + fresh.ends.map_values(shift));
        }
    }

    /// Each byte adds a byte to the fields, or a field end, or neither.
    pub(crate) proof fn lemma_read_bounds(self, delimiter: u8, data: Seq<u8>)
        ensures
            self.read(delimiter, data).bytes.len() + self.read(delimiter, data).ends.len()
                <= self.bytes.len() + self.ends.len() + data.len(),
        decreases data.len(),
    {
        if data.len() > 0 {
            self.lemma_read_bounds(delimiter, data.drop_last());
        }
    }

    /// The field ends that a reader finds are in order and within the bytes of the fields.
    pub(crate) proof fn lemma_read_cuts(self, delimiter: u8, data: Seq<u8>)
        requires
            cuts_within(self.ends, self.bytes.len() as int),
        ensures
            cuts_within(
                self.read(delimiter, data).ends,
                self.read(delimiter, data).bytes.len() as int,
            ),
        decreases data.len(),
    {
        if data.len() > 0 {
            self.lemma_read_cuts(delimiter, data.drop_last());
            let before = self.read(delimiter, data.drop_last());
            let after = self.read(delimiter, data);
            assert forall|i: int| 0 <= i < after.ends.len() implies 0 <= #[trigger] piece_start(
                after.ends,
                i,
            ) <= after.ends[i] <= after.bytes.len() by {
                if i < before.ends.len() {
                    assert(piece_start(before.ends, i) == piece_start(after.ends, i));
                } else if i > 0 {
                    assert(piece_start(before.ends, i - 1) <= before.ends[i - 1]);
                }
            }
        }
    }

    /// The end of the data leaves the field ends in order.
    pub(crate) proof fn lemma_finish_cuts(self)
        requires
            cuts_within(self.ends, self.bytes.len() as int),
        ensures
            cuts_within(self.finish().ends, self.finish().bytes.len() as int),
    {
        let after = self.finish();
        assert forall|i: int| 0 <= i < after.ends.len() implies 0 <= #[trigger] piece_start(
            after.ends,
            i,
        ) <= after.ends[i] <= after.bytes.len() by {
            if i < self.ends.len() {
                assert(piece_start(self.ends, i) == piece_start(after.ends, i));
            } else if i > 0 {
                assert(piece_start(self.ends, i - 1) <= self.ends[i - 1]);
            }
        }
    }
}

/// A reader that is still before the first byte of a record has seen newlines only, and has
/// written nothing; a reader that is not, has seen something else.
pub(crate) proof fn lemma_before_record(delimiter: u8, data: Seq<u8>)
    ensures
        ({
            let scan = Scan::at(Position::RecordStart).read(delimiter, data);
            &&& scan.position is RecordStart <==> is_blank(data)
            &&& scan.position is RecordStart ==> scan == Scan::at(Position::RecordStart)
        }),
    decreases data.len(),
{
    if data.len() > 0 {
        let head = data.drop_last();
        lemma_before_record(delimiter, head);
        if is_blank(data) {
            assert(is_newline(data[data.len() - 1]));
            assert forall|i: int| 0 <= i < head.len() implies is_newline(#[trigger] head[i]) by {
                assert(is_newline(data[i]));
            }
        } else if is_blank(head) {
            assert(!is_newline(data.last())) by {
                if is_newline(data.last()) {
                    assert forall|i: int| 0 <= i < data.len() implies is_newline(
                        #[trigger] data[i],
                    ) by {
                        if i < head.len() {
                            assert(is_newline(head[i]));
                        }
                    }
                }
            }
        }
    }
}

} // verus!
