//! The plain value types a query and its results are made of.

use vstd::prelude::*;

verus! {

/// Dense local document identifier within a segment.
pub type DocId = u32;

/// An immutable byte-string key, used only for dictionary lookup.
pub struct Term {
    data: Vec<u8>,
}

impl View for Term {
    type V = Seq<u8>;

    closed spec fn view(&self) -> Seq<u8> {
        self.data@
    }
}

impl Term {
    pub fn from_bytes(data: Vec<u8>) -> (r: Term)
        ensures
            r@ == data@,
    {
        Term { data }
    }

    pub fn bytes(&self) -> (r: &Vec<u8>)
        ensures
            r@ == self@,
    {
        &self.data
    }
}

/// Identifies one per-document numeric column.
#[derive(Clone, Copy, Debug, PartialEq, Eq, Structural)]
pub struct U32Field(pub u32);

/// A document's stored payload, as the store recorded it.
pub struct Document {
    pub data: Vec<u8>,
}

} // verus!
