//! The document store: row-oriented storage of each document's payload,
//! looked up lazily by id. The region is a plain concatenation of records,
//! each a little-endian length followed by that many payload bytes; the
//! record for id `k` is the `k`-th one.

use vstd::prelude::*;

use crate::bytes::copy_range;
use crate::bytes::le32_spec;
use crate::bytes::read_u32_le;
use crate::error::IndexError;
use crate::schema::DocId;
use crate::schema::Document;

verus! {

/// The payload stored for document `id`, reading records from `off`, or
/// nothing if the region runs out first.
pub open spec fn store_get_spec(d: Seq<u8>, off: int, id: int) -> Option<Seq<u8>>
    decreases id,
{
    if off < 0 || off + 4 > d.len() {
        None
    } else {
        let l = le32_spec(d, off) as int;
        if off + 4 + l > d.len() {
            None
        } else if id <= 0 {
            Some(d.subrange(off + 4, off + 4 + l))
        } else {
            store_get_spec(d, off + 4 + l, id - 1)
        }
    }
}

/// Reader over the STORE region; the region is kept raw and records are
/// walked per lookup.
#[derive(Debug)]
pub struct StoreReader {
    data: Vec<u8>,
}

impl StoreReader {
    /// The raw region bytes.
    pub closed spec fn bytes(self) -> Seq<u8> {
        self.data@
    }

    /// Wraps the STORE region; nothing is validated until a document is
    /// asked for.
    pub fn new(data: Vec<u8>) -> (r: StoreReader)
        ensures
            r.bytes() == data@,
    {
        StoreReader { data }
    }

    /// Fetches the payload stored for `doc_id`. This walks the region record
    /// by record: the slow path, not meant to be called per candidate inside
    /// a hot loop. A region too short for the id is corrupt or the id is out
    /// of range: both are reported.
    pub fn get(&self, doc_id: &DocId) -> (r: Result<Document, IndexError>)
        ensures
            match r {
                Ok(doc) => store_get_spec(self.bytes(), 0, *doc_id as int) == Some(doc.data@),
                Err(e) => {
                    &&& e == IndexError::Decode
                    &&& store_get_spec(self.bytes(), 0, *doc_id as int) is None
                },
            },
    {
        let d = &self.data;
        let mut off: usize = 0;
        let mut left: u32 = *doc_id;
        while left > 0
            invariant
                d@ == self.bytes(),
                off <= d@.len(),
                store_get_spec(d@, 0, *doc_id as int) == store_get_spec(d@, off as int, left as int),
            decreases left,
        {
            if d.len() - off < 4 {
                return Err(IndexError::Decode);
            }
            let l = read_u32_le(d, off);
            if (l as u64) + 4 > (d.len() - off) as u64 {
                return Err(IndexError::Decode);
            }
            off = off + 4 + l as usize;
            left = left - 1;
        }
        if d.len() - off < 4 {
            return Err(IndexError::Decode);
        }
        let l = read_u32_le(d, off);
        if (l as u64) + 4 > (d.len() - off) as u64 {
            return Err(IndexError::Decode);
        }
        let data = copy_range(d, off + 4, l as usize);
        Ok(Document { data })
    }
}

} // verus!
