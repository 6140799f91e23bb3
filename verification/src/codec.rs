//! Postings codec: a sorted, duplicate-free id list is stored as a
//! little-endian count followed by one little-endian delta word per id — the
//! first word is the first id, every later word is the gap to the previous id
//! minus one. A successfully decoded list is therefore strictly increasing by
//! construction, and encoding then decoding recovers the original list
//! exactly.

use vstd::prelude::*;

use crate::bytes::le32_bytes;
use crate::bytes::le32_spec;
use crate::bytes::lemma_le32_roundtrip;
use crate::bytes::push_u32_le;
use crate::bytes::read_u32_le;
use crate::error::IndexError;

verus! {

/// A sequence of ids in strictly ascending order, hence duplicate-free.
pub open spec fn strictly_increasing(s: Seq<u32>) -> bool {
    forall|i: int, j: int| 0 <= i < j < s.len() ==> s[i] < s[j]
}

/// The count stored at the head of the blob at `off`.
pub open spec fn blob_count(d: Seq<u8>, off: int) -> int {
    le32_spec(d, off) as int
}

/// The `k`-th delta word of the blob at `off`.
pub open spec fn blob_word(d: Seq<u8>, off: int, k: int) -> u32 {
    le32_spec(d, off + 4 + 4 * k)
}

/// The `k`-th decoded id, as an unbounded integer: the first word, then one
/// more than each following word added on.
pub open spec fn blob_val(d: Seq<u8>, off: int, k: int) -> int
    decreases k,
{
    if k <= 0 {
        blob_word(d, off, 0) as int
    } else {
        blob_val(d, off, k - 1) + blob_word(d, off, k) as int + 1
    }
}

/// The blob at `off` is complete and decodes without overflow into at most
/// `hint` ids.
pub open spec fn blob_wf(d: Seq<u8>, off: int, hint: int) -> bool {
    &&& 0 <= off
    &&& off + 4 <= d.len()
    &&& blob_count(d, off) <= hint
    &&& off + 4 + 4 * blob_count(d, off) <= d.len()
    &&& (blob_count(d, off) == 0 || blob_val(d, off, blob_count(d, off) - 1) <= u32::MAX)
}

/// The id list held by the blob at `off`.
pub open spec fn blob_ids(d: Seq<u8>, off: int) -> Seq<u32> {
    Seq::new(blob_count(d, off) as nat, |k: int| blob_val(d, off, k) as u32)
}

/// Decoded values grow by at least one per step.
pub proof fn lemma_blob_val_increases(d: Seq<u8>, off: int, j: int, k: int)
    requires
        0 <= j <= k,
    ensures
        blob_val(d, off, j) + (k - j) <= blob_val(d, off, k),
    decreases k - j,
{
    if j < k {
        lemma_blob_val_increases(d, off, j, k - 1);
    }
}

/// A well-formed blob holds a strictly increasing id list whose ids all fit
/// in 32 bits.
pub proof fn lemma_blob_ids_sorted(d: Seq<u8>, off: int, hint: int)
    requires
        blob_wf(d, off, hint),
    ensures
        strictly_increasing(blob_ids(d, off)),
        forall|k: int|
            0 <= k < blob_count(d, off) ==> blob_ids(d, off)[k] == blob_val(d, off, k),
{
    let n = blob_count(d, off);
    assert forall|k: int| 0 <= k < n implies 0 <= #[trigger] blob_val(d, off, k) <= u32::MAX by {
        lemma_blob_val_increases(d, off, 0, k);
        lemma_blob_val_increases(d, off, k, n - 1);
    }
    assert forall|i: int, j: int|
        0 <= i < j < blob_ids(d, off).len() implies blob_ids(d, off)[i] < blob_ids(
        d,
        off,
    )[j] by {
        lemma_blob_val_increases(d, off, 0, i);
        lemma_blob_val_increases(d, off, i, j);
        lemma_blob_val_increases(d, off, j, n - 1);
    }
}

/// Decodes the blob at `off` against the expected count `doc_freq`; the count
/// stored in the blob governs, and may be smaller than the expectation.
pub fn decode(d: &Vec<u8>, off: usize, doc_freq: u32) -> (r: Result<Vec<u32>, IndexError>)
    ensures
        match r {
            Ok(ids) => {
                &&& blob_wf(d@, off as int, doc_freq as int)
                &&& ids@ == blob_ids(d@, off as int)
                &&& strictly_increasing(ids@)
            },
            Err(e) => {
                &&& e == IndexError::Decode
                &&& !blob_wf(d@, off as int, doc_freq as int)
            },
        },
{
    if off > d.len() || d.len() - off < 4 {
        return Err(IndexError::Decode);
    }
    let n = read_u32_le(d, off);
    if n > doc_freq {
        return Err(IndexError::Decode);
    }
    let room: usize = d.len() - off - 4;
    if (n as u64) * 4 > room as u64 {
        return Err(IndexError::Decode);
    }
    let ghost offi = off as int;
    let mut ids: Vec<u32> = Vec::new();
    let mut prev: u32 = 0;
    let mut k: u32 = 0;
    while k < n
        invariant
            0 <= k <= n,
            off + 4 + 4 * (n as int) <= d@.len(),
            off + 4 + 4 * (n as int) <= usize::MAX,
            n <= doc_freq,
            offi == off as int,
            n == blob_count(d@, offi),
            ids@.len() == k as int,
            forall|j: int| 0 <= j < k as int ==> ids@[j] == blob_val(d@, offi, j),
            forall|j: int| 0 <= j < k as int ==> 0 <= #[trigger] blob_val(d@, offi, j) <= u32::MAX,
            k > 0 ==> prev as int == blob_val(d@, offi, k as int - 1),
        decreases n - k,
    {
        let w = read_u32_le(d, off + 4 + 4 * (k as usize));
        proof {
            assert(le32_spec(d@, offi + 4 + 4 * (k as int)) == blob_word(d@, offi, k as int));
        }
        let v64: u64 = if k == 0 {
            w as u64
        } else {
            prev as u64 + w as u64 + 1
        };
        proof {
            assert(v64 as int == blob_val(d@, offi, k as int));
        }
        if v64 > 0xFFFF_FFFFu64 {
            proof {
                lemma_blob_val_increases(d@, offi, k as int, n as int - 1);
            }
            return Err(IndexError::Decode);
        }
        let v = v64 as u32;
        ids.push(v);
        prev = v;
        k = k + 1;
    }
    proof {
        assert(blob_wf(d@, offi, doc_freq as int));
        lemma_blob_ids_sorted(d@, offi, doc_freq as int);
        assert(ids@ =~= blob_ids(d@, offi));
    }
    Ok(ids)
}

/// The delta word the encoder stores for position `k` of `ids`.
pub open spec fn delta_word(ids: Seq<u32>, k: int) -> int {
    if k == 0 {
        ids[0] as int
    } else {
        ids[k] as int - ids[k - 1] as int - 1
    }
}

/// When every stored word matches the deltas of `ids`, the decoded values are
/// the original ids.
proof fn lemma_vals_from_deltas(d: Seq<u8>, off: int, ids: Seq<u32>, k: int)
    requires
        0 <= k < ids.len(),
        strictly_increasing(ids),
        forall|j: int| 0 <= j < ids.len() ==> blob_word(d, off, j) as int == delta_word(ids, j),
    ensures
        blob_val(d, off, k) == ids[k],
    decreases k,
{
    if k == 0 {
        assert(blob_val(d, off, 0) == blob_word(d, off, 0) as int);
        assert(blob_word(d, off, 0) as int == delta_word(ids, 0));
    } else {
        lemma_vals_from_deltas(d, off, ids, k - 1);
        assert(blob_val(d, off, k) == blob_val(d, off, k - 1) + blob_word(d, off, k) as int + 1);
        assert(blob_word(d, off, k) as int == delta_word(ids, k));
    }
}

/// Encodes a strictly increasing id list; decoding the result against any
/// expectation of at least its length recovers the list exactly. This is the
/// codec round-trip law.
pub fn encode(ids: &Vec<u32>) -> (r: Vec<u8>)
    requires
        strictly_increasing(ids@),
        ids@.len() <= u32::MAX,
    ensures
        r@.len() == 4 + 4 * ids@.len(),
        forall|hint: int| ids@.len() <= hint ==> blob_wf(r@, 0, hint),
        blob_ids(r@, 0) == ids@,
{
    let n: u32 = ids.len() as u32;
    let mut out: Vec<u8> = Vec::new();
    push_u32_le(&mut out, n);
    proof {
        lemma_le32_roundtrip(n);
        assert(out@ =~= le32_bytes(n));
    }
    let mut i: usize = 0;
    while i < ids.len()
        invariant
            0 <= i <= ids@.len(),
            n as int == ids@.len(),
            strictly_increasing(ids@),
            out@.len() == 4 + 4 * i,
            le32_spec(out@, 0) == n,
            forall|j: int| 0 <= j < i ==> blob_word(out@, 0, j) as int == delta_word(ids@, j),
        decreases ids@.len() - i,
    {
        let w: u32 = if i == 0 {
            ids[0]
        } else {
            ids[i] - ids[i - 1] - 1
        };
        let ghost before = out@;
        push_u32_le(&mut out, w);
        proof {
            lemma_le32_roundtrip(w);
            assert forall|j: int| 0 <= j < i + 1 implies blob_word(out@, 0, j) as int
                == delta_word(ids@, j) by {
                if j < i {
                    assert(blob_word(out@, 0, j) == blob_word(before, 0, j)) by {
                        assert(forall|b: int|
                            0 <= b < before.len() ==> out@[b] == before[b]);
                    }
                } else {
                    assert(blob_word(out@, 0, j) == le32_spec(out@, 4 + 4 * i));
                    assert(forall|b: int|
                        0 <= b < 4 ==> out@[4 + 4 * i + b] == le32_bytes(w)[b]);
                    assert(le32_spec(out@, 4 + 4 * i) == le32_spec(le32_bytes(w), 0)) by {
                        crate::bytes::lemma_le32_stable(
                            out@.subrange(4 + 4 * i, 8 + 4 * i),
                            le32_bytes(w),
                            0,
                        );
                        assert(le32_spec(out@, 4 + 4 * i) == le32_spec(
                            out@.subrange(4 + 4 * i, 8 + 4 * i),
                            0,
                        ));
                    }
                }
            }
            assert(le32_spec(out@, 0) == le32_spec(before, 0)) by {
                assert(forall|b: int| 0 <= b < before.len() ==> out@[b] == before[b]);
            }
        }
        i = i + 1;
    }
    proof {
        assert(blob_count(out@, 0) == ids@.len());
        assert forall|k: int| 0 <= k < ids@.len() implies blob_val(out@, 0, k) == ids@[k] by {
            lemma_vals_from_deltas(out@, 0, ids@, k);
        }
        assert(blob_ids(out@, 0) =~= ids@);
        assert forall|hint: int| ids@.len() <= hint implies blob_wf(out@, 0, hint) by {
            if ids@.len() > 0 {
                assert(blob_val(out@, 0, ids@.len() - 1) == ids@[ids@.len() - 1]);
            }
        }
    }
    out
}

} // verus!
