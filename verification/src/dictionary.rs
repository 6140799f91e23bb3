//! The term dictionary: an ordered map from term bytes to a fixed-size
//! [`TermInfo`] record, built once at open from the TERMS region and looked up
//! by binary search.
//!
//! The region holds a little-endian entry count, then one record per term in
//! strictly ascending key order: key length, key bytes, postings offset,
//! document frequency. A region whose records are truncated, or whose keys are
//! out of order, is rejected at open time; lookup itself cannot fail.

use vstd::prelude::*;

use crate::bytes::copy_range;
use crate::bytes::le32_spec;
use crate::bytes::read_u32_le;
use crate::error::IndexError;
use crate::postings::TermInfo;

verus! {

/// `a` sorts strictly before `b` in byte-wise lexicographic order: they agree
/// on a prefix of length `i`, after which `a` ends or holds the smaller byte.
pub open spec fn lex_lt_at(a: Seq<u8>, b: Seq<u8>, i: int) -> bool {
    &&& 0 <= i <= a.len()
    &&& i <= b.len()
    &&& (forall|j: int| 0 <= j < i ==> a[j] == b[j])
    &&& ((i == a.len() && i < b.len()) || (i < a.len() && i < b.len() && a[i] < b[i]))
}

/// Byte-wise lexicographic order on keys.
pub open spec fn lex_lt(a: Seq<u8>, b: Seq<u8>) -> bool {
    exists|i: int| lex_lt_at(a, b, i)
}

/// The order is asymmetric, and strictly smaller keys are different keys.
pub proof fn lemma_lex_lt_asym(a: Seq<u8>, b: Seq<u8>)
    requires
        lex_lt(a, b),
    ensures
        !lex_lt(b, a),
        a != b,
{
    let i1 = choose|i: int| lex_lt_at(a, b, i);
    if a == b {
        assert(!((i1 == a.len() && i1 < b.len()) || (i1 < a.len() && i1 < b.len() && a[i1]
            < b[i1])));
    }
    if lex_lt(b, a) {
        let i2 = choose|i: int| lex_lt_at(b, a, i);
        if i1 < i2 {
            assert(b[i1] == a[i1]);
        } else if i2 < i1 {
            assert(a[i2] == b[i2]);
        }
        assert(false);
    }
}

/// The order is transitive.
pub proof fn lemma_lex_lt_trans(a: Seq<u8>, b: Seq<u8>, c: Seq<u8>)
    requires
        lex_lt(a, b),
        lex_lt(b, c),
    ensures
        lex_lt(a, c),
{
    let i1 = choose|i: int| lex_lt_at(a, b, i);
    let i2 = choose|i: int| lex_lt_at(b, c, i);
    if i1 < i2 {
        assert(b[i1] == c[i1]);
        assert(lex_lt_at(a, c, i1));
    } else if i2 < i1 {
        assert(a[i2] == b[i2]);
        assert(lex_lt_at(a, c, i2));
    } else {
        if i1 == a.len() {
            assert(lex_lt_at(a, c, i1));
        } else {
            assert(a[i1] < b[i1] || i1 == b.len());
            assert(lex_lt_at(a, c, i1));
        }
    }
}

/// The three-way outcome of a byte-wise key comparison.
pub enum KeyOrder {
    Less,
    Equal,
    Greater,
}

/// Compares two keys byte-wise.
pub fn cmp_bytes(a: &Vec<u8>, b: &Vec<u8>) -> (r: KeyOrder)
    ensures
        match r {
            KeyOrder::Less => lex_lt(a@, b@),
            KeyOrder::Equal => a@ == b@,
            KeyOrder::Greater => lex_lt(b@, a@),
        },
{
    let mut i: usize = 0;
    while i < a.len() && i < b.len()
        invariant
            i <= a@.len(),
            i <= b@.len(),
            forall|j: int| 0 <= j < i ==> a@[j] == b@[j],
        decreases a@.len() - i,
    {
        let x = a[i];
        let y = b[i];
        if x < y {
            proof {
                assert(lex_lt_at(a@, b@, i as int));
            }
            return KeyOrder::Less;
        }
        if x > y {
            proof {
                assert(lex_lt_at(b@, a@, i as int));
            }
            return KeyOrder::Greater;
        }
        i = i + 1;
    }
    if a.len() == b.len() {
        proof {
            assert(a@ =~= b@);
        }
        KeyOrder::Equal
    } else if a.len() < b.len() {
        proof {
            assert(lex_lt_at(a@, b@, a@.len() as int));
        }
        KeyOrder::Less
    } else {
        proof {
            assert(lex_lt_at(b@, a@, b@.len() as int));
        }
        KeyOrder::Greater
    }
}

/// One parsing step over the TERMS region: reads `n` more records starting at
/// `off` and appends them to the accumulators; the region must end exactly
/// where the last record does.
pub open spec fn parse_entries(
    d: Seq<u8>,
    off: int,
    n: int,
    keys: Seq<Seq<u8>>,
    infos: Seq<TermInfo>,
) -> Option<(Seq<Seq<u8>>, Seq<TermInfo>)>
    decreases n,
{
    if n <= 0 {
        if off == d.len() {
            Some((keys, infos))
        } else {
            None
        }
    } else if off + 4 > d.len() {
        None
    } else {
        let kl = le32_spec(d, off) as int;
        if off + 12 + kl > d.len() {
            None
        } else {
            let key = d.subrange(off + 4, off + 4 + kl);
            let info = TermInfo {
                postings_offset: le32_spec(d, off + 4 + kl),
                doc_freq: le32_spec(d, off + 8 + kl),
            };
            parse_entries(d, off + 12 + kl, n - 1, keys.push(key), infos.push(info))
        }
    }
}

/// What the TERMS region holds: its keys and records, in stored order, or
/// nothing if a record is truncated or bytes trail the last one.
pub open spec fn parse_dict(d: Seq<u8>) -> Option<(Seq<Seq<u8>>, Seq<TermInfo>)> {
    if d.len() < 4 {
        None
    } else {
        parse_entries(d, 4, le32_spec(d, 0) as int, Seq::empty(), Seq::empty())
    }
}

/// Keys in strictly ascending lexicographic order, hence unique.
pub open spec fn sorted_keys(keys: Seq<Seq<u8>>) -> bool {
    forall|i: int, j: int| 0 <= i < j < keys.len() ==> lex_lt(keys[i], keys[j])
}

/// The ordered term-to-record map.
#[derive(Debug)]
pub struct TermDictionary {
    keys: Vec<Vec<u8>>,
    infos: Vec<TermInfo>,
}

impl TermDictionary {
    /// The stored keys, in order.
    pub closed spec fn keys_seq(self) -> Seq<Seq<u8>> {
        Seq::new(self.keys@.len(), |i: int| self.keys@[i]@)
    }

    /// The stored records, in key order.
    pub closed spec fn infos_seq(self) -> Seq<TermInfo> {
        self.infos@
    }

    pub open spec fn len_spec(self) -> int {
        self.keys_seq().len() as int
    }

    /// One record per key, keys strictly ascending.
    pub open spec fn wf(self) -> bool {
        &&& self.infos_seq().len() == self.keys_seq().len()
        &&& sorted_keys(self.keys_seq())
    }

    /// The dictionary holds `t`.
    pub open spec fn contains_term(self, t: Seq<u8>) -> bool {
        exists|i: int| 0 <= i < self.len_spec() && self.keys_seq()[i] == t
    }

    /// The record stored for `t`, if any.
    pub open spec fn spec_get(self, t: Seq<u8>) -> Option<TermInfo> {
        if self.contains_term(t) {
            let i = choose|i: int| 0 <= i < self.len_spec() && self.keys_seq()[i] == t;
            Some(self.infos_seq()[i])
        } else {
            None
        }
    }

    /// A sorted dictionary stores each key at one index only.
    proof fn lemma_key_unique(self, t: Seq<u8>, i: int, j: int)
        requires
            self.wf(),
            0 <= i < self.len_spec(),
            0 <= j < self.len_spec(),
            self.keys_seq()[i] == t,
            self.keys_seq()[j] == t,
        ensures
            i == j,
    {
        if i < j {
            lemma_lex_lt_asym(self.keys_seq()[i], self.keys_seq()[j]);
        }
        if j < i {
            lemma_lex_lt_asym(self.keys_seq()[j], self.keys_seq()[i]);
        }
    }

    /// Every term stored at build time is retrievable with its exact record,
    /// and a never-stored term comes back absent.
    pub fn get(&self, term: &Vec<u8>) -> (r: Option<TermInfo>)
        requires
            self.wf(),
        ensures
            r == self.spec_get(term@),
            r is Some <==> self.contains_term(term@),
    {
        let mut lo: usize = 0;
        let mut hi: usize = self.keys.len();
        while lo < hi
            invariant
                self.wf(),
                lo <= hi <= self.len_spec(),
                self.keys@.len() == self.len_spec(),
                forall|i: int|
                    0 <= i < self.len_spec() && #[trigger] self.keys_seq()[i] == term@ ==> lo
                        <= i < hi,
            decreases hi - lo,
        {
            let mid = lo + (hi - lo) / 2;
            proof {
                assert(self.keys_seq()[mid as int] == self.keys@[mid as int]@);
            }
            match cmp_bytes(&self.keys[mid], term) {
                KeyOrder::Equal => {
                    proof {
                        assert(self.contains_term(term@));
                        let w = choose|i: int|
                            0 <= i < self.len_spec() && self.keys_seq()[i] == term@;
                        self.lemma_key_unique(term@, w, mid as int);
                    }
                    return Some(self.infos[mid]);
                },
                KeyOrder::Less => {
                    proof {
                        assert forall|i: int|
                            0 <= i < self.len_spec() && #[trigger] self.keys_seq()[i] == term@
                                implies mid < i by {
                            if i < mid as int {
                                assert(lex_lt(self.keys_seq()[i], self.keys_seq()[mid as int]));
                                lemma_lex_lt_asym(self.keys_seq()[mid as int], term@);
                            }
                            if i == mid as int {
                                lemma_lex_lt_asym(self.keys_seq()[mid as int], term@);
                            }
                        }
                    }
                    lo = mid + 1;
                },
                KeyOrder::Greater => {
                    proof {
                        assert forall|i: int|
                            0 <= i < self.len_spec() && #[trigger] self.keys_seq()[i] == term@
                                implies i < mid by {
                            if i > mid as int {
                                assert(lex_lt(self.keys_seq()[mid as int], self.keys_seq()[i]));
                                lemma_lex_lt_asym(term@, self.keys_seq()[mid as int]);
                            }
                            if i == mid as int {
                                lemma_lex_lt_asym(term@, self.keys_seq()[mid as int]);
                            }
                        }
                    }
                    hi = mid;
                },
            }
        }
        proof {
            assert(!self.contains_term(term@));
        }
        None
    }

    /// How many terms the dictionary holds.
    pub fn len(&self) -> (r: usize)
        ensures
            r == self.len_spec(),
    {
        self.keys.len()
    }

    /// Builds the dictionary from the TERMS region. A truncated region,
    /// trailing bytes, or keys out of order are malformed: they fail here, at
    /// open time, so that lookup never fails later.
    pub fn from_bytes(d: &Vec<u8>) -> (r: Result<TermDictionary, IndexError>)
        ensures
            match r {
                Ok(dict) => {
                    &&& dict.wf()
                    &&& parse_dict(d@) == Some((dict.keys_seq(), dict.infos_seq()))
                },
                Err(e) => {
                    &&& e == IndexError::Decode
                    &&& (parse_dict(d@) is None || (parse_dict(d@) matches Some(entries)
                        && !sorted_keys(entries.0)))
                },
            },
    {
        if d.len() < 4 {
            return Err(IndexError::Decode);
        }
        let n = read_u32_le(d, 0);
        let mut keys: Vec<Vec<u8>> = Vec::new();
        let mut infos: Vec<TermInfo> = Vec::new();
        let mut off: usize = 4;
        let mut rem: u32 = n;
        let ghost mut gks: Seq<Seq<u8>> = Seq::empty();
        proof {
            assert(gks =~= Seq::new(keys@.len(), |i: int| keys@[i]@));
        }
        while rem > 0
            invariant
                off <= d@.len(),
                keys@.len() == infos@.len(),
                gks == Seq::new(keys@.len(), |i: int| keys@[i]@),
                parse_dict(d@) == parse_entries(d@, off as int, rem as int, gks, infos@),
                sorted_keys(gks),
                forall|i: int|
                    0 <= i < gks.len() - 1 ==> lex_lt(#[trigger] gks[i], gks[gks.len() - 1]),
            decreases rem,
        {
            if d.len() - off < 4 {
                return Err(IndexError::Decode);
            }
            let kl = read_u32_le(d, off);
            if (kl as u64) + 12 > (d.len() - off) as u64 {
                return Err(IndexError::Decode);
            }
            let key = copy_range(d, off + 4, kl as usize);
            let postings_offset = read_u32_le(d, off + 4 + kl as usize);
            let doc_freq = read_u32_le(d, off + 8 + kl as usize);
            let info = TermInfo { postings_offset, doc_freq };
            if keys.len() > 0 {
                let prev_last = keys.len() - 1;
                proof {
                    assert(gks[prev_last as int] == keys@[prev_last as int]@);
                }
                match cmp_bytes(&keys[prev_last], &key) {
                    KeyOrder::Less => {
                    },
                    KeyOrder::Equal => {
                        proof {
                            lemma_unsorted_entries_stay_unsorted(
                                d@,
                                off as int,
                                rem as int,
                                gks,
                                infos@,
                                key@,
                                info,
                            );
                        }
                        return Err(IndexError::Decode);
                    },
                    KeyOrder::Greater => {
                        proof {
                            lemma_lex_lt_asym(key@, gks[gks.len() - 1]);
                            lemma_unsorted_entries_stay_unsorted(
                                d@,
                                off as int,
                                rem as int,
                                gks,
                                infos@,
                                key@,
                                info,
                            );
                        }
                        return Err(IndexError::Decode);
                    },
                }
            }
            let ghost ks2 = gks.push(key@);
            proof {
                if gks.len() > 0 {
                    assert(lex_lt(gks[gks.len() - 1], key@));
                }
                assert forall|i: int| 0 <= i < ks2.len() - 1 implies lex_lt(
                    #[trigger] ks2[i],
                    ks2[ks2.len() - 1],
                ) by {
                    if i < gks.len() - 1 {
                        assert(lex_lt(gks[i], gks[gks.len() - 1]));
                        lemma_lex_lt_trans(ks2[i], gks[gks.len() - 1], key@);
                    }
                }
                assert forall|i: int, j: int| 0 <= i < j < ks2.len() implies lex_lt(
                    #[trigger] ks2[i],
                    #[trigger] ks2[j],
                ) by {
                    if j < gks.len() {
                        assert(lex_lt(gks[i], gks[j]));
                    }
                }
                assert(key@ == d@.subrange(off as int + 4, off as int + 4 + kl as int));
            }
            keys.push(key);
            infos.push(info);
            off = off + 12 + kl as usize;
            rem = rem - 1;
            proof {
                gks = ks2;
                assert(gks =~= Seq::new(keys@.len(), |i: int| keys@[i]@));
            }
        }
        if off != d.len() {
            return Err(IndexError::Decode);
        }
        let dict = TermDictionary { keys, infos };
        proof {
            assert(dict.keys_seq() =~= gks);
            assert(parse_dict(d@) == Some((dict.keys_seq(), dict.infos_seq())));
        }
        Ok(dict)
    }
}

/// Once two consecutive keys are out of order, no completion of the parse can
/// yield a sorted key sequence.
proof fn lemma_unsorted_entries_stay_unsorted(
    d: Seq<u8>,
    off: int,
    n: int,
    keys: Seq<Seq<u8>>,
    infos: Seq<TermInfo>,
    key: Seq<u8>,
    info: TermInfo,
)
    requires
        n > 0,
        off + 4 <= d.len(),
        off + 12 + le32_spec(d, off) as int <= d.len(),
        d.subrange(off + 4, off + 4 + le32_spec(d, off) as int) == key,
        keys.len() > 0,
        !lex_lt(keys[keys.len() - 1], key),
    ensures
        parse_entries(d, off, n, keys, infos) is None || (parse_entries(d, off, n, keys, infos)
            matches Some(entries) && !sorted_keys(entries.0)),
    decreases n,
{
    let kl = le32_spec(d, off) as int;
    let info2 = TermInfo {
        postings_offset: le32_spec(d, off + 4 + kl),
        doc_freq: le32_spec(d, off + 8 + kl),
    };
    let keys2 = keys.push(key);
    lemma_parse_entries_extends(d, off + 12 + kl, n - 1, keys2, infos.push(info2));
    match parse_entries(d, off + 12 + kl, n - 1, keys2, infos.push(info2)) {
        Some(entries) => {
            let bad = keys.len() - 1;
            assert(entries.0[bad] == keys2[bad]);
            assert(keys2[bad] == keys[bad]);
            assert(entries.0[bad + 1] == keys2[bad + 1]);
            assert(keys2[bad + 1] == key);
            if sorted_keys(entries.0) {
                assert(lex_lt(entries.0[bad], entries.0[bad + 1]));
            }
        },
        None => {
        },
    }
}

/// Parsing only appends: whatever comes out starts with the accumulators.
proof fn lemma_parse_entries_extends(
    d: Seq<u8>,
    off: int,
    n: int,
    keys: Seq<Seq<u8>>,
    infos: Seq<TermInfo>,
)
    ensures
        parse_entries(d, off, n, keys, infos) matches Some(entries) ==> {
            &&& entries.0.len() >= keys.len()
            &&& entries.1.len() >= infos.len()
            &&& (forall|i: int| 0 <= i < keys.len() ==> #[trigger] entries.0[i] == keys[i])
            &&& (forall|i: int| 0 <= i < infos.len() ==> #[trigger] entries.1[i] == infos[i])
        },
    decreases n,
{
    if n > 0 && off + 4 <= d.len() {
        let kl = le32_spec(d, off) as int;
        if off + 12 + kl <= d.len() {
            let key = d.subrange(off + 4, off + 4 + kl);
            let info = TermInfo {
                postings_offset: le32_spec(d, off + 4 + kl),
                doc_freq: le32_spec(d, off + 8 + kl),
            };
            let keys2 = keys.push(key);
            let infos2 = infos.push(info);
            lemma_parse_entries_extends(d, off + 12 + kl, n - 1, keys2, infos2);
            assert(parse_entries(d, off, n, keys, infos) == parse_entries(
                d,
                off + 12 + kl,
                n - 1,
                keys2,
                infos2,
            ));
            match parse_entries(d, off, n, keys, infos) {
                Some(entries) => {
                    assert forall|i: int| 0 <= i < keys.len() implies entries.0[i] == keys[i] by {
                        assert(entries.0[i] == keys2[i]);
                    }
                    assert forall|i: int| 0 <= i < infos.len() implies entries.1[i]
                        == infos[i] by {
                        assert(entries.1[i] == infos2[i]);
                    }
                },
                None => {
                },
            }
        }
    }
}

} // verus!
