//! The kinds of values that expressions take and give.

use vstd::prelude::*;

use crate::value::Value;

verus! {

/// A position in an array.
#[derive(Clone, Copy, Debug, PartialEq, Eq, Structural)]
pub struct Index(pub usize);

/// A kind of values.
#[derive(Debug, PartialEq, Eq)]
pub enum Kind {
    /// Any value.
    Any,
    /// A byte string.
    Bytes,
    /// An array.
    Array(Box<Collection<Index>>),
}

/// The kinds of the values in a collection: of those at the places `known`, and of those at
/// all other places.
#[derive(Debug, PartialEq, Eq)]
pub struct Collection<T> {
    pub known: Vec<(T, Kind)>,
    pub unknown: Kind,
}

impl Kind {
    /// Byte strings.
    pub fn bytes() -> (kind: Kind)
        ensures
            kind == Kind::Bytes,
    {
        Kind::Bytes
    }

    /// `value` is of this kind.
    pub open spec fn admits(self, value: Value) -> bool
        decreases value,
    {
        match self {
            Kind::Any => true,
            Kind::Bytes => value is Bytes,
            Kind::Array(collection) => match value {
                Value::Array(items) => {
                    forall|i: int|
                        0 <= i < items@.len() ==> collection.kind_at(i).admits(
                            #[trigger] items@[i],
                        )
                },
                _ => false,
            },
        }
    }
}

impl Collection<Index> {
    /// The kind of the value at position `i`: that of the entry for it, if it is known.
    pub open spec fn kind_at(self, i: int) -> Kind {
        if exists|j: int| 0 <= j < self.known@.len() && (#[trigger] self.known@[j]).0.0 == i {
            let j = choose|j: int|
                0 <= j < self.known@.len() && (#[trigger] self.known@[j]).0.0 == i;
            self.known@[j].1
        } else {
            self.unknown
        }
    }
}

impl<T> Collection<T> {
    /// A collection of any values.
    pub fn any() -> (collection: Collection<T>)
        ensures
            collection.known@.len() == 0,
            collection.unknown == Kind::Any,
    {
        Collection { known: Vec::new(), unknown: Kind::Any }
    }

    /// Sets the kind of the values at the places that are not known.
    pub fn set_unknown(&mut self, kind: Kind)
        ensures
            final(self).known == old(self).known,
            final(self).unknown == kind,
    {
        self.unknown = kind;
    }
}

/// What is known of an expression before it is resolved.
#[derive(Debug, PartialEq, Eq)]
pub struct TypeDef {
    /// The kind of the value that it resolves to.
    pub kind: Kind,
    /// Whether it can fail.
    pub fallible: bool,
}

impl TypeDef {
    /// An expression that resolves to an array, and cannot fail.
    pub fn array(collection: Collection<Index>) -> (type_def: TypeDef)
        ensures
            type_def.kind == Kind::Array(Box::new(collection)),
            !type_def.fallible,
    {
        TypeDef { kind: Kind::Array(Box::new(collection)), fallible: false }
    }

    /// The same, but for an expression that can fail.
    pub fn fallible(self) -> (type_def: TypeDef)
        ensures
            type_def.kind == self.kind,
            type_def.fallible,
    {
        TypeDef { kind: self.kind, fallible: true }
    }
}

} // verus!
