//! The INFO region: a self-describing record holding the segment's document
//! count, written in its canonical textual form `{"max_doc":N}` with `N` an
//! unsigned decimal that fits in 32 bits. Anything else is malformed and
//! fails at open time.

use vstd::prelude::*;

use crate::error::IndexError;
use crate::schema::DocId;

verus! {

/// Immutable metadata of a sealed segment.
#[derive(Clone, Copy, Debug, PartialEq, Eq, Structural)]
pub struct SegmentInfo {
    /// Exclusive upper bound of the segment's document ids.
    pub max_doc: DocId,
}

/// The eleven bytes every INFO region must start with: `{"max_doc":`.
pub open spec fn info_prefix() -> Seq<u8> {
    seq![123u8, 34u8, 109u8, 97u8, 120u8, 95u8, 100u8, 111u8, 99u8, 34u8, 58u8]
}

/// An ASCII decimal digit.
pub open spec fn is_digit(b: u8) -> bool {
    48 <= b <= 57
}

/// Folds decimal digits from `i` to the closing brace, which must be the last
/// byte; fails on a stray byte, a missing brace, or a value over 32 bits.
pub open spec fn parse_digits(d: Seq<u8>, i: int, acc: int) -> Option<int>
    decreases d.len() - i,
{
    if i < 0 || i >= d.len() {
        None
    } else if d[i] == 125 {
        if i == d.len() - 1 {
            Some(acc)
        } else {
            None
        }
    } else if is_digit(d[i]) {
        let acc2 = acc * 10 + (d[i] - 48);
        if acc2 > u32::MAX {
            None
        } else {
            parse_digits(d, i + 1, acc2)
        }
    } else {
        None
    }
}

/// What the INFO region holds: the document count, or nothing if the region
/// is not of the canonical form.
pub open spec fn parse_info(d: Seq<u8>) -> Option<u32> {
    if d.len() >= 13 && d.subrange(0, 11) == info_prefix() && is_digit(d[11]) {
        match parse_digits(d, 11, 0) {
            Some(v) => Some(v as u32),
            None => None,
        }
    } else {
        None
    }
}

/// The byte the canonical prefix holds at `j`.
fn info_prefix_byte(j: usize) -> (r: u8)
    requires
        j < 11,
    ensures
        r == info_prefix()[j as int],
{
    if j == 0 {
        123
    } else if j == 1 || j == 9 {
        34
    } else if j == 2 {
        109
    } else if j == 3 {
        97
    } else if j == 4 {
        120
    } else if j == 5 {
        95
    } else if j == 6 {
        100
    } else if j == 7 {
        111
    } else if j == 8 {
        99
    } else {
        58
    }
}

/// Decodes the INFO region, failing on any departure from the canonical form.
pub fn parse_segment_info(d: &Vec<u8>) -> (r: Result<SegmentInfo, IndexError>)
    ensures
        match r {
            Ok(si) => parse_info(d@) == Some(si.max_doc),
            Err(e) => {
                &&& e == IndexError::Decode
                &&& parse_info(d@) is None
            },
        },
{
    if d.len() < 13 {
        return Err(IndexError::Decode);
    }
    let mut j: usize = 0;
    while j < 11
        invariant
            j <= 11,
            d@.len() >= 13,
            forall|k: int| 0 <= k < j ==> d@[k] == info_prefix()[k],
        decreases 11 - j,
    {
        if d[j] != info_prefix_byte(j) {
            proof {
                assert(d@.subrange(0, 11)[j as int] != info_prefix()[j as int]);
            }
            return Err(IndexError::Decode);
        }
        j = j + 1;
    }
    proof {
        assert(d@.subrange(0, 11) =~= info_prefix());
    }
    let first = d[11];
    if first < 48 || first > 57 {
        return Err(IndexError::Decode);
    }
    let mut i: usize = 11;
    let mut acc: u32 = 0;
    while i < d.len()
        invariant
            11 <= i <= d@.len(),
            13 <= d@.len(),
            d@.subrange(0, 11) == info_prefix(),
            is_digit(d@[11]),
            parse_digits(d@, 11, 0) == parse_digits(d@, i as int, acc as int),
        decreases d@.len() - i,
    {
        let b = d[i];
        if b == 125 {
            if i == d.len() - 1 {
                return Ok(SegmentInfo { max_doc: acc });
            } else {
                return Err(IndexError::Decode);
            }
        }
        if b < 48 || b > 57 {
            return Err(IndexError::Decode);
        }
        let wide: u64 = (acc as u64) * 10 + ((b - 48) as u64);
        if wide > 0xFFFF_FFFFu64 {
            return Err(IndexError::Decode);
        }
        acc = wide as u32;
        i = i + 1;
    }
    Err(IndexError::Decode)
}

} // verus!
