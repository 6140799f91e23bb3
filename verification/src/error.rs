use vstd::prelude::*;

verus! {

/// Why an operation on a segment failed.
///
/// Open-time failures are fatal to that open attempt; a decode failure seen
/// after a successful open indicates corrupted on-disk data and is handed to
/// the caller unchanged. A term that is merely absent from the dictionary is
/// not an error: it folds into the intersection as an empty cursor.
#[derive(Clone, Copy, Debug, PartialEq, Eq, Structural)]
pub enum IndexError {
    /// A named region of the segment was missing or unreadable.
    Io,
    /// A region, a record, or a posting blob was malformed.
    Decode,
}

} // verus!
