//! Read path of an immutable, segment-oriented full-text index: a sorted-key
//! term dictionary, a delta codec for posting lists, forward cursors with
//! skip-to, an N-way sorted intersection, and the segment reader facade that
//! ties the five on-disk regions together.

pub mod bytes;
pub mod codec;
pub mod dictionary;
pub mod error;
pub mod fastfield;
pub mod info;
pub mod postings;
pub mod reader;
pub mod schema;
pub mod segment;
pub mod store;

pub use error::IndexError;
pub use postings::IntersectionPostings;
pub use postings::SegmentPostings;
pub use postings::TermInfo;
pub use reader::SegmentReader;
pub use schema::DocId;
pub use schema::Term;
