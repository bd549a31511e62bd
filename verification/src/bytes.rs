//! Byte strings.

use vstd::prelude::*;

verus! {

/// A byte string.
#[derive(Debug, PartialEq, Eq)]
pub struct Bytes {
    data: Vec<u8>,
}

impl View for Bytes {
    type V = Seq<u8>;

    closed spec fn view(&self) -> Seq<u8> {
        self.data@
    }
}

impl Bytes {
    /// No byte string is longer than the longest object in memory.
    #[verifier::type_invariant]
    spec fn fits(self) -> bool {
        self.data@.len() <= isize::MAX
    }

    /// A byte string that holds a copy of `data`.
    pub fn copy_from_slice(data: &[u8]) -> (bytes: Bytes)
        requires
            data@.len() <= isize::MAX,
        ensures
            bytes@ == data@,
    {
        let mut copy: Vec<u8> = Vec::with_capacity(data.len());
        copy.extend_from_slice(data);
        assert(copy@ =~= data@);
        Bytes { data: copy }
    }

    /// The number of bytes.
    pub fn len(&self) -> (len: usize)
        ensures
            len == self@.len(),
            len <= isize::MAX,
    {
        proof {
            use_type_invariant(self);
        }
        self.data.len()
    }

    /// The bytes.
    pub fn as_slice(&self) -> (data: &[u8])
        ensures
            data@ == self@,
            data@.len() <= isize::MAX,
    {
        proof {
            use_type_invariant(self);
        }
        self.data.as_slice()
    }
}

impl Clone for Bytes {
    fn clone(&self) -> (bytes: Bytes)
        ensures
            bytes@ == self@,
    {
        Bytes::copy_from_slice(self.as_slice())
    }
}

} // verus!
