//! Fast fields: densely packed per-document `u32` columns, parsed eagerly at
//! open. The region holds a little-endian column count, then one column per
//! field: field identifier, value count, and that many little-endian values.

use vstd::prelude::*;

use crate::bytes::le32_spec;
use crate::bytes::read_u32_le;
use crate::error::IndexError;
use crate::schema::DocId;
use crate::schema::U32Field;

verus! {

/// The values of the column starting at `off` with `n` entries.
pub open spec fn column_spec(d: Seq<u8>, off: int, n: int) -> Seq<u32> {
    Seq::new(n as nat, |k: int| le32_spec(d, off + 4 * k))
}

/// One parsing step over the FASTFIELDS region: reads `m` more columns from
/// `off`; the region must end exactly where the last column does.
pub open spec fn parse_columns(
    d: Seq<u8>,
    off: int,
    m: int,
    ids: Seq<u32>,
    cols: Seq<Seq<u32>>,
) -> Option<(Seq<u32>, Seq<Seq<u32>>)>
    decreases m,
{
    if m <= 0 {
        if off == d.len() {
            Some((ids, cols))
        } else {
            None
        }
    } else if off + 8 > d.len() {
        None
    } else {
        let fid = le32_spec(d, off);
        let n = le32_spec(d, off + 4) as int;
        if off + 8 + 4 * n > d.len() {
            None
        } else {
            parse_columns(
                d,
                off + 8 + 4 * n,
                m - 1,
                ids.push(fid),
                cols.push(column_spec(d, off + 8, n)),
            )
        }
    }
}

/// What the FASTFIELDS region holds: field identifiers and their columns, in
/// stored order, or nothing if a column is truncated or bytes trail the last.
pub open spec fn parse_fast_fields(d: Seq<u8>) -> Option<(Seq<u32>, Seq<Seq<u32>>)> {
    if d.len() < 4 {
        None
    } else {
        parse_columns(d, 4, le32_spec(d, 0) as int, Seq::empty(), Seq::empty())
    }
}

/// One field's column, ready for per-document access.
pub struct U32FastFieldReader {
    values: Vec<u32>,
}

impl U32FastFieldReader {
    /// The column's values, indexed by document id.
    pub closed spec fn values_seq(self) -> Seq<u32> {
        self.values@
    }

    /// The value recorded for `doc`, or nothing past the column's end.
    pub fn get(&self, doc: DocId) -> (r: Option<u32>)
        ensures
            r == if (doc as int) < self.values_seq().len() {
                Some(self.values_seq()[doc as int])
            } else {
                None::<u32>
            },
    {
        if (doc as usize) < self.values.len() {
            Some(self.values[doc as usize])
        } else {
            None
        }
    }

    /// How many documents the column covers.
    pub fn len(&self) -> (r: usize)
        ensures
            r == self.values_seq().len(),
    {
        self.values.len()
    }
}

/// All of a segment's `u32` columns, parsed once at open.
#[derive(Debug)]
pub struct U32FastFieldsReader {
    fields: Vec<u32>,
    columns: Vec<Vec<u32>>,
}

impl U32FastFieldsReader {
    /// The stored field identifiers, in order.
    pub closed spec fn fields_seq(self) -> Seq<u32> {
        self.fields@
    }

    /// The stored columns, in the same order.
    pub closed spec fn columns_seq(self) -> Seq<Seq<u32>> {
        Seq::new(self.columns@.len(), |i: int| self.columns@[i]@)
    }

    pub open spec fn wf(self) -> bool {
        self.fields_seq().len() == self.columns_seq().len()
    }

    /// Parses the FASTFIELDS region, failing on a truncated or overlong one.
    pub fn open(data: &Vec<u8>) -> (r: Result<U32FastFieldsReader, IndexError>)
        ensures
            match r {
                Ok(ff) => {
                    &&& ff.wf()
                    &&& parse_fast_fields(data@) == Some((ff.fields_seq(), ff.columns_seq()))
                },
                Err(e) => {
                    &&& e == IndexError::Decode
                    &&& parse_fast_fields(data@) is None
                },
            },
    {
        let d = data;
        if d.len() < 4 {
            return Err(IndexError::Decode);
        }
        let m = read_u32_le(d, 0);
        let mut fields: Vec<u32> = Vec::new();
        let mut columns: Vec<Vec<u32>> = Vec::new();
        let mut off: usize = 4;
        let mut rem: u32 = m;
        let ghost mut gcols: Seq<Seq<u32>> = Seq::empty();
        proof {
            assert(gcols =~= Seq::new(columns@.len(), |i: int| columns@[i]@));
        }
        while rem > 0
            invariant
                d@ == data@,
                off <= d@.len(),
                fields@.len() == columns@.len(),
                gcols == Seq::new(columns@.len(), |i: int| columns@[i]@),
                parse_fast_fields(d@) == parse_columns(d@, off as int, rem as int, fields@, gcols),
            decreases rem,
        {
            if d.len() - off < 8 {
                return Err(IndexError::Decode);
            }
            let fid = read_u32_le(d, off);
            let n = read_u32_le(d, off + 4);
            if (n as u64) * 4 + 8 > (d.len() - off) as u64 {
                return Err(IndexError::Decode);
            }
            let base = off + 8;
            let mut vals: Vec<u32> = Vec::new();
            let mut k: u32 = 0;
            while k < n
                invariant
                    k <= n,
                    base == off + 8,
                    base + 4 * (n as int) <= d@.len(),
                    base + 4 * (n as int) <= usize::MAX,
                    vals@.len() == k as int,
                    forall|j: int| 0 <= j < k as int ==> vals@[j] == le32_spec(d@, base + 4 * j),
                decreases n - k,
            {
                let v = read_u32_le(d, base + 4 * (k as usize));
                vals.push(v);
                k = k + 1;
            }
            proof {
                assert(vals@ =~= column_spec(d@, base as int, n as int));
            }
            let ghost gcols2 = gcols.push(vals@);
            fields.push(fid);
            columns.push(vals);
            off = off + 8 + 4 * (n as usize);
            rem = rem - 1;
            proof {
                gcols = gcols2;
                assert(gcols =~= Seq::new(columns@.len(), |i: int| columns@[i]@));
            }
        }
        if off != d.len() {
            return Err(IndexError::Decode);
        }
        let ff = U32FastFieldsReader { fields, columns };
        proof {
            assert(ff.columns_seq() =~= gcols);
        }
        Ok(ff)
    }

    /// Hands out the column recorded for `field`: the first column bearing
    /// its identifier, or a missing-region report when no column does.
    pub fn get_field(&self, field: &U32Field) -> (r: Result<U32FastFieldReader, IndexError>)
        requires
            self.wf(),
        ensures
            match r {
                Ok(ff) => exists|i: int|
                    {
                        &&& 0 <= i < self.fields_seq().len()
                        &&& #[trigger] self.fields_seq()[i] == field.0
                        &&& (forall|j: int| 0 <= j < i ==> self.fields_seq()[j] != field.0)
                        &&& ff.values_seq() == self.columns_seq()[i]
                    },
                Err(e) => {
                    &&& e == IndexError::Io
                    &&& forall|i: int|
                        0 <= i < self.fields_seq().len() ==> #[trigger] self.fields_seq()[i]
                            != field.0
                },
            },
    {
        let mut i: usize = 0;
        while i < self.fields.len()
            invariant
                self.wf(),
                i <= self.fields_seq().len(),
                forall|j: int| 0 <= j < i ==> #[trigger] self.fields_seq()[j] != field.0,
            decreases self.fields_seq().len() - i,
        {
            if self.fields[i] == field.0 {
                let col = &self.columns[i];
                let mut vals: Vec<u32> = Vec::new();
                let mut k: usize = 0;
                while k < col.len()
                    invariant
                        k <= col@.len(),
                        vals@.len() == k,
                        forall|j: int| 0 <= j < k ==> vals@[j] == col@[j],
                    decreases col@.len() - k,
                {
                    vals.push(col[k]);
                    k = k + 1;
                }
                proof {
                    assert(vals@ =~= col@);
                    assert(self.columns_seq()[i as int] == self.columns@[i as int]@);
                }
                return Ok(U32FastFieldReader { values: vals });
            }
            i = i + 1;
        }
        Err(IndexError::Io)
    }
}

} // verus!
