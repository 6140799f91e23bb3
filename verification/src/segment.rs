//! A segment: a named set of immutable byte regions, read-only for the
//! reader's whole lifetime, plus an opaque identifier.

use vstd::prelude::*;

use crate::error::IndexError;

verus! {

/// Opaque identifier, unique per segment; used for debugging and equality
/// only.
#[derive(Clone, Copy, Debug, PartialEq, Eq, Structural)]
pub struct SegmentId(pub u64);

/// The five named regions a sealed segment is made of.
#[derive(Clone, Copy, Debug, PartialEq, Eq, Structural)]
pub enum SegmentComponent {
    Info,
    Terms,
    Store,
    Postings,
    FastFields,
}

/// An immutable segment held in memory: each region is present or missing.
pub struct Segment {
    id: SegmentId,
    info: Option<Vec<u8>>,
    terms: Option<Vec<u8>>,
    store: Option<Vec<u8>>,
    postings: Option<Vec<u8>>,
    fast_fields: Option<Vec<u8>>,
}

impl Segment {
    /// The bytes of the named region, if the segment has it.
    pub closed spec fn region(self, component: SegmentComponent) -> Option<Seq<u8>> {
        let held = match component {
            SegmentComponent::Info => self.info,
            SegmentComponent::Terms => self.terms,
            SegmentComponent::Store => self.store,
            SegmentComponent::Postings => self.postings,
            SegmentComponent::FastFields => self.fast_fields,
        };
        match held {
            Some(v) => Some(v@),
            None => None,
        }
    }

    pub closed spec fn id_spec(self) -> SegmentId {
        self.id
    }

    /// Assembles a segment from its identifier and regions.
    pub fn new(
        id: SegmentId,
        info: Option<Vec<u8>>,
        terms: Option<Vec<u8>>,
        store: Option<Vec<u8>>,
        postings: Option<Vec<u8>>,
        fast_fields: Option<Vec<u8>>,
    ) -> (r: Segment)
        ensures
            r.id_spec() == id,
            r.region(SegmentComponent::Info) == match info {
                Some(v) => Some::<Seq<u8>>(v@),
                None => None::<Seq<u8>>,
            },
            r.region(SegmentComponent::Terms) == match terms {
                Some(v) => Some::<Seq<u8>>(v@),
                None => None::<Seq<u8>>,
            },
            r.region(SegmentComponent::Store) == match store {
                Some(v) => Some::<Seq<u8>>(v@),
                None => None::<Seq<u8>>,
            },
            r.region(SegmentComponent::Postings) == match postings {
                Some(v) => Some::<Seq<u8>>(v@),
                None => None::<Seq<u8>>,
            },
            r.region(SegmentComponent::FastFields) == match fast_fields {
                Some(v) => Some::<Seq<u8>>(v@),
                None => None::<Seq<u8>>,
            },
    {
        Segment { id, info, terms, store, postings, fast_fields }
    }

    /// The segment's identifier.
    pub fn id(&self) -> (r: SegmentId)
        ensures
            r == self.id_spec(),
    {
        self.id
    }

    /// Hands out the named immutable byte region, or reports it missing.
    pub fn open_read(&self, component: SegmentComponent) -> (r: Result<&Vec<u8>, IndexError>)
        ensures
            match r {
                Ok(v) => self.region(component) == Some(v@),
                Err(e) => {
                    &&& e == IndexError::Io
                    &&& self.region(component) is None
                },
            },
    {
        let held = match component {
            SegmentComponent::Info => &self.info,
            SegmentComponent::Terms => &self.terms,
            SegmentComponent::Store => &self.store,
            SegmentComponent::Postings => &self.postings,
            SegmentComponent::FastFields => &self.fast_fields,
        };
        match held {
            Some(v) => Ok(v),
            None => Err(IndexError::Io),
        }
    }
}

} // verus!
