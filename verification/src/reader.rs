//! The segment reader facade: opens the five regions of a sealed segment,
//! builds the term dictionary and the store and fast-field readers, keeps the
//! postings region raw, and answers multi-term AND queries by intersecting
//! lazily decoded posting lists.

use vstd::prelude::*;

use crate::bytes::clone_bytes;
use crate::codec::blob_ids;
use crate::codec::blob_wf;
use crate::dictionary::parse_dict;
use crate::dictionary::TermDictionary;
use crate::error::IndexError;
use crate::fastfield::parse_fast_fields;
use crate::fastfield::U32FastFieldReader;
use crate::fastfield::U32FastFieldsReader;
use crate::info::parse_info;
use crate::info::SegmentInfo;
use crate::postings::IntersectionPostings;
use crate::postings::SegmentPostings;
use crate::postings::TermInfo;
use crate::schema::DocId;
use crate::schema::Document;
use crate::schema::Term;
use crate::schema::U32Field;
use crate::segment::Segment;
use crate::segment::SegmentComponent;
use crate::segment::SegmentId;
use crate::store::store_get_spec;
use crate::store::StoreReader;

verus! {

/// The byte-string views of a query's terms, in order.
pub open spec fn views_of(terms: Seq<Term>) -> Seq<Seq<u8>> {
    Seq::new(terms.len(), |k: int| terms[k]@)
}

/// Read access to one sealed segment. Immutable once opened: the dictionary
/// and the region bytes never change, so a reader may be shared read-only
/// across concurrent queries, each query owning its own cursors.
#[derive(Debug)]
pub struct SegmentReader {
    segment_info: SegmentInfo,
    segment_id: SegmentId,
    term_infos: TermDictionary,
    postings_data: Vec<u8>,
    store_reader: StoreReader,
    fast_fields_reader: U32FastFieldsReader,
}

impl SegmentReader {
    pub closed spec fn max_doc_spec(self) -> u32 {
        self.segment_info.max_doc
    }

    pub closed spec fn dict(self) -> TermDictionary {
        self.term_infos
    }

    pub closed spec fn postings_bytes(self) -> Seq<u8> {
        self.postings_data@
    }

    pub closed spec fn store_spec(self) -> StoreReader {
        self.store_reader
    }

    pub closed spec fn fast_fields_spec(self) -> U32FastFieldsReader {
        self.fast_fields_reader
    }

    pub closed spec fn segment_id_spec(self) -> SegmentId {
        self.segment_id
    }

    pub open spec fn wf(self) -> bool {
        &&& self.dict().wf()
        &&& self.fast_fields_spec().wf()
    }

    /// The id list stored for the record `ti`, provided its blob decodes and
    /// stays below `max_doc`; corruption yields nothing.
    pub open spec fn term_list(self, ti: TermInfo) -> Option<Seq<u32>> {
        if blob_wf(self.postings_bytes(), ti.postings_offset as int, ti.doc_freq as int)
            && (forall|k: int|
            0 <= k < blob_ids(self.postings_bytes(), ti.postings_offset as int).len()
                ==> #[trigger] blob_ids(self.postings_bytes(), ti.postings_offset as int)[k]
                < self.max_doc_spec()) {
            Some(blob_ids(self.postings_bytes(), ti.postings_offset as int))
        } else {
            None
        }
    }

    /// The id list the segment associates with the term `t`: looked up in
    /// the dictionary, then decoded from the postings region.
    pub open spec fn term_ids(self, t: Seq<u8>) -> Option<Seq<u32>> {
        match self.dict().spec_get(t) {
            Some(ti) => self.term_list(ti),
            None => None,
        }
    }

    /// The index of the first queried term that is absent from the
    /// dictionary, scanning from `k`; the query length when every term hits.
    pub open spec fn first_miss_from(self, terms: Seq<Seq<u8>>, k: int) -> int
        decreases terms.len() - k,
    {
        if k < 0 || k >= terms.len() {
            terms.len() as int
        } else if self.dict().spec_get(terms[k]) is None {
            k
        } else {
            self.first_miss_from(terms, k + 1)
        }
    }

    /// Returns the highest document id ever attributed in this segment plus
    /// one; with no deletions this is also the number of documents held.
    pub fn max_doc(&self) -> (r: DocId)
        ensures
            r == self.max_doc_spec(),
    {
        self.segment_info.max_doc
    }

    pub fn get_store_reader(&self) -> (r: &StoreReader)
        ensures
            *r == self.store_spec(),
    {
        &self.store_reader
    }

    /// The term dictionary built at open.
    pub fn term_infos(&self) -> (r: &TermDictionary)
        ensures
            *r == self.dict(),
    {
        &self.term_infos
    }

    /// Opens a segment for reading: all five regions must be present, and
    /// the INFO, TERMS and FASTFIELDS regions well formed. The postings
    /// region is kept raw; decoding is lazy and per term.
    pub fn open(segment: &Segment) -> (r: Result<SegmentReader, IndexError>)
        ensures
            match r {
                Ok(rd) => {
                    &&& rd.wf()
                    &&& segment.region(SegmentComponent::Info) matches Some(ib) && parse_info(ib)
                        == Some(rd.max_doc_spec())
                    &&& segment.region(SegmentComponent::Terms) matches Some(tb) && parse_dict(tb)
                        == Some((rd.dict().keys_seq(), rd.dict().infos_seq()))
                    &&& segment.region(SegmentComponent::Store) matches Some(sb)
                        && rd.store_spec().bytes() == sb
                    &&& segment.region(SegmentComponent::Postings) matches Some(pb)
                        && rd.postings_bytes() == pb
                    &&& segment.region(SegmentComponent::FastFields) matches Some(fb)
                        && parse_fast_fields(fb) == Some(
                        (rd.fast_fields_spec().fields_seq(), rd.fast_fields_spec().columns_seq()),
                    )
                    &&& rd.segment_id_spec() == segment.id_spec()
                },
                Err(IndexError::Io) => {
                    ||| segment.region(SegmentComponent::Info) is None
                    ||| segment.region(SegmentComponent::Terms) is None
                    ||| segment.region(SegmentComponent::Store) is None
                    ||| segment.region(SegmentComponent::Postings) is None
                    ||| segment.region(SegmentComponent::FastFields) is None
                },
                Err(IndexError::Decode) => true,
            },
            // success is owed whenever every region is present and well formed
            (segment.region(SegmentComponent::Info) matches Some(ib) && parse_info(ib) is Some)
                && (segment.region(SegmentComponent::Terms) matches Some(tb) && (parse_dict(tb)
                matches Some(e) && crate::dictionary::sorted_keys(e.0))) && segment.region(
                SegmentComponent::Store,
            ) is Some && segment.region(SegmentComponent::Postings) is Some && (segment.region(
                SegmentComponent::FastFields,
            ) matches Some(fb) && parse_fast_fields(fb) is Some) ==> r is Ok,
    {
        let info_data = match segment.open_read(SegmentComponent::Info) {
            Ok(v) => v,
            Err(e) => { return Err(e); },
        };
        let segment_info = match crate::info::parse_segment_info(info_data) {
            Ok(si) => si,
            Err(e) => { return Err(e); },
        };
        let terms_data = match segment.open_read(SegmentComponent::Terms) {
            Ok(v) => v,
            Err(e) => { return Err(e); },
        };
        let term_infos = match TermDictionary::from_bytes(terms_data) {
            Ok(dict) => dict,
            Err(e) => { return Err(e); },
        };
        let store_data = match segment.open_read(SegmentComponent::Store) {
            Ok(v) => v,
            Err(e) => { return Err(e); },
        };
        let store_reader = StoreReader::new(clone_bytes(store_data));
        let postings_src = match segment.open_read(SegmentComponent::Postings) {
            Ok(v) => v,
            Err(e) => { return Err(e); },
        };
        let postings_data = clone_bytes(postings_src);
        let ff_data = match segment.open_read(SegmentComponent::FastFields) {
            Ok(v) => v,
            Err(e) => { return Err(e); },
        };
        let fast_fields_reader = match U32FastFieldsReader::open(ff_data) {
            Ok(ff) => ff,
            Err(e) => { return Err(e); },
        };
        Ok(
            SegmentReader {
                segment_info,
                postings_data,
                term_infos,
                segment_id: segment.id(),
                store_reader,
                fast_fields_reader,
            },
        )
    }

    /// Fetches the stored document bearing `doc_id` from the store
    /// collaborator. The slow path: unsuitable inside a per-candidate loop.
    pub fn doc(&self, doc_id: &DocId) -> (r: Result<Document, IndexError>)
        ensures
            match r {
                Ok(doc) => store_get_spec(self.store_spec().bytes(), 0, *doc_id as int) == Some(
                    doc.data@,
                ),
                Err(e) => {
                    &&& e == IndexError::Decode
                    &&& store_get_spec(self.store_spec().bytes(), 0, *doc_id as int) is None
                },
            },
    {
        self.store_reader.get(doc_id)
    }

    /// Hands out the fast-field column for `u32_field`.
    pub fn get_fast_field_reader(&self, u32_field: &U32Field) -> (r: Result<
        U32FastFieldReader,
        IndexError,
    >)
        requires
            self.wf(),
        ensures
            match r {
                Ok(ff) => exists|i: int|
                    {
                        &&& 0 <= i < self.fast_fields_spec().fields_seq().len()
                        &&& #[trigger] self.fast_fields_spec().fields_seq()[i] == u32_field.0
                        &&& (forall|j: int|
                            0 <= j < i ==> self.fast_fields_spec().fields_seq()[j] != u32_field.0)
                        &&& ff.values_seq() == self.fast_fields_spec().columns_seq()[i]
                    },
                Err(e) => {
                    &&& e == IndexError::Io
                    &&& forall|i: int|
                        0 <= i < self.fast_fields_spec().fields_seq().len()
                            ==> #[trigger] self.fast_fields_spec().fields_seq()[i] != u32_field.0
                },
            },
    {
        self.fast_fields_reader.get_field(u32_field)
    }

    /// Decodes the posting list located by `term_info` from the postings
    /// region: a pure function of the record and the region. A blob that is
    /// truncated, overlong, or holds ids at or over `max_doc` is corrupt.
    pub fn read_postings(&self, term_info: &TermInfo) -> (r: Result<SegmentPostings, IndexError>)
        ensures
            match r {
                Ok(p) => {
                    &&& p.wf()
                    &&& p.pos() == 0
                    &&& self.term_list(*term_info) == Some(p.all_ids())
                },
                Err(e) => {
                    &&& e == IndexError::Decode
                    &&& self.term_list(*term_info) is None
                },
            },
    {
        let offset = term_info.postings_offset as usize;
        let cursor = match SegmentPostings::from_data(
            term_info.doc_freq,
            &self.postings_data,
            offset,
        ) {
            Ok(p) => p,
            Err(e) => { return Err(e); },
        };
        if cursor.all_below(self.segment_info.max_doc) {
            Ok(cursor)
        } else {
            Err(IndexError::Decode)
        }
    }

    /// Looks the term up in the dictionary: a pure, deterministic function
    /// of the term bytes.
    pub fn get_term(&self, term: &Term) -> (r: Option<TermInfo>)
        requires
            self.wf(),
        ensures
            r == self.dict().spec_get(term@),
    {
        self.term_infos.get(term.bytes())
    }

    /// Answers a boolean AND query: a cursor over exactly the ids that carry
    /// every queried term, ascending and duplicate-free. A term absent from
    /// the dictionary short-circuits the remaining lookups and forces an
    /// empty intersection; a corrupt posting blob met before that point is a
    /// hard error. Zero terms yield an empty result by definition.
    pub fn search(&self, terms: &Vec<Term>) -> (r: Result<IntersectionPostings, IndexError>)
        requires
            self.wf(),
        ensures
            r is Ok <==> (forall|j: int|
                0 <= j < self.first_miss_from(views_of(terms@), 0)
                    ==> #[trigger] self.term_ids(views_of(terms@)[j]) is Some),
            match r {
                Ok(ic) => {
                    &&& ic.wf()
                    // the mathematical intersection of the terms' lists
                    &&& forall|x: u32|
                        ic.pending(x) <==> (terms@.len() > 0 && forall|k: int|
                            0 <= k < terms@.len() ==> (#[trigger] self.term_ids(terms@[k]@)
                                matches Some(l) && l.contains(x)))
                    // a missing term forces an empty intersection
                    &&& (exists|k: int|
                        0 <= k < terms@.len() && self.dict().spec_get(
                            #[trigger] terms@[k]@,
                        ) is None) ==> forall|x: u32| !ic.pending(x)
                    // every produced id lies below max_doc
                    &&& forall|x: u32| ic.pending(x) ==> x < self.max_doc_spec()
                },
                Err(e) => e == IndexError::Decode,
            },
    {
        let ghost tviews = views_of(terms@);
        let mut segment_postings: Vec<SegmentPostings> = Vec::new();
        let mut i: usize = 0;
        while i < terms.len()
            invariant
                self.wf(),
                i <= terms@.len(),
                tviews == views_of(terms@),
                tviews.len() == terms@.len(),
                forall|k: int| 0 <= k < terms@.len() ==> tviews[k] == #[trigger] terms@[k]@,
                segment_postings@.len() == i,
                forall|k: int|
                    0 <= k < i ==> (#[trigger] self.term_ids(tviews[k]) matches Some(l)
                        && segment_postings@[k].all_ids() == l),
                forall|k: int| 0 <= k < i ==> (#[trigger] segment_postings@[k]).wf()
                    && segment_postings@[k].pos() == 0,
                self.first_miss_from(tviews, 0) == self.first_miss_from(tviews, i as int),
            decreases terms@.len() - i,
        {
            match self.get_term(&terms[i]) {
                Some(term_info) => {
                    let posting = match self.read_postings(&term_info) {
                        Ok(p) => p,
                        Err(e) => {
                            proof {
                                lemma_first_miss_at_least(self, tviews, i as int + 1);
                                assert(self.first_miss_from(tviews, i as int)
                                    == self.first_miss_from(tviews, i as int + 1));
                                assert((i as int) < self.first_miss_from(tviews, 0));
                                assert(self.term_ids(tviews[i as int]) is None);
                            }
                            return Err(e);
                        },
                    };
                    segment_postings.push(posting);
                },
                None => {
                    proof {
                        assert(self.first_miss_from(tviews, i as int) == i as int);
                        assert(self.term_ids(tviews[i as int]) is None);
                    }
                    let mut only_empty: Vec<SegmentPostings> = Vec::new();
                    only_empty.push(SegmentPostings::empty());
                    let ic = IntersectionPostings::from_postings(only_empty);
                    proof {
                        assert(ic.rem(0).len() == 0);
                        assert forall|x: u32| !ic.pending(x) by {
                            if ic.pending(x) {
                                assert(ic.rem(0).contains(x));
                            }
                        }
                        assert forall|j: int|
                            0 <= j < self.first_miss_from(tviews, 0)
                                implies #[trigger] self.term_ids(tviews[j]) is Some by {
                            lemma_first_miss_hits(self, tviews, 0, j);
                            assert(self.dict().spec_get(tviews[j]) is Some);
                            assert(j < i as int);
                        }
                    }
                    return Ok(ic);
                },
            }
            i = i + 1;
            proof {
                assert(self.first_miss_from(tviews, i - 1) == self.first_miss_from(
                    tviews,
                    i as int,
                ));
            }
        }
        let ic = IntersectionPostings::from_postings(segment_postings);
        proof {
            assert(self.first_miss_from(tviews, i as int) == tviews.len());
            assert forall|k: int|
                0 <= k < terms@.len() implies self.dict().spec_get(
                #[trigger] terms@[k]@,
            ) is Some by {
                assert(tviews[k] == terms@[k]@);
                assert(self.term_ids(tviews[k]) is Some);
            }
            assert forall|j: int|
                0 <= j < self.first_miss_from(tviews, 0) implies #[trigger] self.term_ids(
                tviews[j],
            ) is Some by {}
            assert forall|x: u32|
                ic.pending(x) <==> (terms@.len() > 0 && forall|k: int|
                    0 <= k < terms@.len() ==> (#[trigger] self.term_ids(terms@[k]@)
                        matches Some(l) && l.contains(x))) by {
                if ic.pending(x) {
                    assert forall|k: int|
                        0 <= k < terms@.len() implies (#[trigger] self.term_ids(terms@[k]@)
                            matches Some(l) && l.contains(x)) by {
                        assert(ic.rem(k).contains(x));
                        assert(ic.rem(k) == segment_postings@[k].rem());
                        assert(segment_postings@[k].rem() =~= segment_postings@[k].all_ids());
                        assert(tviews[k] == terms@[k]@);
                    }
                }
                if terms@.len() > 0 && (forall|k: int|
                    0 <= k < terms@.len() ==> (#[trigger] self.term_ids(terms@[k]@)
                        matches Some(l) && l.contains(x))) {
                    assert forall|k: int| 0 <= k < ic.n() implies #[trigger] ic.rem(k).contains(
                        x,
                    ) by {
                        assert(self.term_ids(terms@[k]@) matches Some(l) && l.contains(x));
                        assert(tviews[k] == terms@[k]@);
                        assert(segment_postings@[k].all_ids().contains(x));
                        assert(segment_postings@[k].rem() =~= segment_postings@[k].all_ids());
                        assert(ic.rem(k) == segment_postings@[k].rem());
                    }
                }
            }
            assert forall|x: u32| ic.pending(x) implies x < self.max_doc_spec() by {
                assert(terms@.len() > 0);
                assert(ic.rem(0).contains(x));
                assert(ic.rem(0) == segment_postings@[0].rem());
                assert(segment_postings@[0].rem() =~= segment_postings@[0].all_ids());
                assert(self.term_ids(tviews[0]) matches Some(l2)
                    && segment_postings@[0].all_ids() == l2);
                let tio = self.dict().spec_get(tviews[0]);
                let ti = tio.unwrap();
                assert(self.term_list(ti) is Some);
                let l = blob_ids(self.postings_bytes(), ti.postings_offset as int);
                assert(l.contains(x));
                let k = choose|k: int| 0 <= k < l.len() && l[k] == x;
                assert(l[k] < self.max_doc_spec());
            }
        }
        Ok(ic)
    }
}

/// Before the first miss, every term hits the dictionary.
proof fn lemma_first_miss_hits(rd: &SegmentReader, terms: Seq<Seq<u8>>, k: int, j: int)
    requires
        0 <= k <= j < rd.first_miss_from(terms, k),
    ensures
        rd.dict().spec_get(terms[j]) is Some,
    decreases j - k,
{
    if k < j {
        lemma_first_miss_hits(rd, terms, k + 1, j);
    }
}

/// The first miss never lies before the scan's start.
proof fn lemma_first_miss_at_least(rd: &SegmentReader, terms: Seq<Seq<u8>>, k: int)
    requires
        0 <= k <= terms.len(),
    ensures
        rd.first_miss_from(terms, k) >= k,
    decreases terms.len() - k,
{
    if k < terms.len() && !(rd.dict().spec_get(terms[k]) is None) {
        lemma_first_miss_at_least(rd, terms, k + 1);
    }
}

} // verus!
