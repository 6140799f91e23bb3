use segment_index::codec::encode;
use segment_index::schema::U32Field;
use segment_index::segment::Segment;
use segment_index::segment::SegmentComponent;
use segment_index::segment::SegmentId;
use segment_index::IndexError;
use segment_index::IntersectionPostings;
use segment_index::SegmentReader;
use segment_index::Term;

fn push_u32(out: &mut Vec<u8>, x: u32) {
    out.extend_from_slice(&x.to_le_bytes());
}

fn build_terms(entries: &[(&[u8], u32, u32)]) -> Vec<u8> {
    let mut out: Vec<u8> = Vec::new();
    push_u32(&mut out, entries.len() as u32);
    for (key, offset, freq) in entries {
        push_u32(&mut out, key.len() as u32);
        out.extend_from_slice(key);
        push_u32(&mut out, *offset);
        push_u32(&mut out, *freq);
    }
    out
}

fn build_store(docs: &[&[u8]]) -> Vec<u8> {
    let mut out: Vec<u8> = Vec::new();
    for doc in docs {
        push_u32(&mut out, doc.len() as u32);
        out.extend_from_slice(doc);
    }
    out
}

fn build_fast_fields(fields: &[(u32, &[u32])]) -> Vec<u8> {
    let mut out: Vec<u8> = Vec::new();
    push_u32(&mut out, fields.len() as u32);
    for (fid, values) in fields {
        push_u32(&mut out, *fid);
        push_u32(&mut out, values.len() as u32);
        for v in *values {
            push_u32(&mut out, *v);
        }
    }
    out
}

/// A segment with `max_doc = 5`, term "a" holding [0, 2, 4] and term "b"
/// holding [2, 4], five stored documents and one fast field.
fn sample_segment() -> Segment {
    let postings_a = encode(&vec![0, 2, 4]);
    let postings_b = encode(&vec![2, 4]);
    let mut postings = postings_a.clone();
    postings.extend_from_slice(&postings_b);
    let terms = build_terms(&[(b"a", 0, 3), (b"b", postings_a.len() as u32, 2)]);
    let store = build_store(&[b"doc0", b"doc1", b"doc2", b"doc3", b"doc4"]);
    let fast = build_fast_fields(&[(7, &[10, 20, 30, 40, 50])]);
    Segment::new(
        SegmentId(1),
        Some(b"{\"max_doc\":5}".to_vec()),
        Some(terms),
        Some(store),
        Some(postings),
        Some(fast),
    )
}

fn term(s: &[u8]) -> Term {
    Term::from_bytes(s.to_vec())
}

fn drain(mut ic: IntersectionPostings) -> Vec<u32> {
    let mut out: Vec<u32> = Vec::new();
    while let Some(d) = ic.next() {
        out.push(d);
    }
    out
}

#[test]
fn open_reads_the_segment_metadata() {
    let segment = sample_segment();
    let reader = SegmentReader::open(&segment).unwrap();
    assert_eq!(reader.max_doc(), 5);
}

#[test]
fn search_intersects_two_terms() {
    let segment = sample_segment();
    let reader = SegmentReader::open(&segment).unwrap();
    let hits = drain(reader.search(&vec![term(b"a"), term(b"b")]).unwrap());
    assert_eq!(hits, vec![2, 4]);
}

#[test]
fn search_with_absent_term_is_empty() {
    let segment = sample_segment();
    let reader = SegmentReader::open(&segment).unwrap();
    let hits = drain(reader.search(&vec![term(b"a"), term(b"c")]).unwrap());
    assert_eq!(hits, Vec::<u32>::new());
    let hits = drain(reader.search(&vec![term(b"c"), term(b"a")]).unwrap());
    assert_eq!(hits, Vec::<u32>::new());
}

#[test]
fn search_single_term_yields_its_whole_list() {
    let segment = sample_segment();
    let reader = SegmentReader::open(&segment).unwrap();
    let hits = drain(reader.search(&vec![term(b"a")]).unwrap());
    assert_eq!(hits, vec![0, 2, 4]);
}

#[test]
fn search_zero_terms_is_empty() {
    let segment = sample_segment();
    let reader = SegmentReader::open(&segment).unwrap();
    let hits = drain(reader.search(&Vec::new()).unwrap());
    assert_eq!(hits, Vec::<u32>::new());
}

#[test]
fn search_results_stay_below_max_doc() {
    let segment = sample_segment();
    let reader = SegmentReader::open(&segment).unwrap();
    let max_doc = reader.max_doc();
    for terms in [vec![term(b"a")], vec![term(b"b")], vec![term(b"a"), term(b"b")]] {
        for id in drain(reader.search(&terms).unwrap()) {
            assert!(id < max_doc);
        }
    }
}

#[test]
fn dictionary_lookup_through_reader_is_exact() {
    let segment = sample_segment();
    let reader = SegmentReader::open(&segment).unwrap();
    let info = reader.get_term(&term(b"a")).unwrap();
    assert_eq!(info.postings_offset, 0);
    assert_eq!(info.doc_freq, 3);
    assert_eq!(reader.get_term(&term(b"c")), None);
    let via_dict = reader.term_infos().get(&b"b".to_vec()).unwrap();
    assert_eq!(via_dict.doc_freq, 2);
}

#[test]
fn read_postings_is_a_pure_function_of_record_and_region() {
    let segment = sample_segment();
    let reader = SegmentReader::open(&segment).unwrap();
    let info = reader.get_term(&term(b"b")).unwrap();
    let mut first = reader.read_postings(&info).unwrap();
    let mut second = reader.read_postings(&info).unwrap();
    assert_eq!(first.next(), Some(2));
    assert_eq!(second.next(), Some(2));
    assert_eq!(first.next(), Some(4));
    assert_eq!(first.next(), None);
}

#[test]
fn doc_fetches_the_stored_payload() {
    let segment = sample_segment();
    let reader = SegmentReader::open(&segment).unwrap();
    assert_eq!(reader.doc(&0).unwrap().data, b"doc0".to_vec());
    assert_eq!(reader.doc(&4).unwrap().data, b"doc4".to_vec());
    assert!(matches!(reader.doc(&5), Err(IndexError::Decode)));
}

#[test]
fn fast_field_reader_through_facade() {
    let segment = sample_segment();
    let reader = SegmentReader::open(&segment).unwrap();
    let col = reader.get_fast_field_reader(&U32Field(7)).unwrap();
    assert_eq!(col.get(1), Some(20));
    assert!(matches!(
        reader.get_fast_field_reader(&U32Field(8)),
        Err(IndexError::Io)
    ));
}

#[test]
fn missing_region_fails_open_with_io() {
    let postings = encode(&vec![0]);
    let segment = Segment::new(
        SegmentId(2),
        Some(b"{\"max_doc\":1}".to_vec()),
        None,
        Some(Vec::new()),
        Some(postings),
        Some(build_fast_fields(&[])),
    );
    assert!(matches!(SegmentReader::open(&segment), Err(IndexError::Io)));
}

#[test]
fn malformed_info_fails_open_with_decode() {
    let segment = Segment::new(
        SegmentId(3),
        Some(b"{\"max_doc\":oops}".to_vec()),
        Some(build_terms(&[])),
        Some(Vec::new()),
        Some(Vec::new()),
        Some(build_fast_fields(&[])),
    );
    assert!(matches!(
        SegmentReader::open(&segment),
        Err(IndexError::Decode)
    ));
}

#[test]
fn corrupt_postings_surface_at_search_time() {
    // the term record points past the postings region
    let terms = build_terms(&[(b"a", 100, 3)]);
    let segment = Segment::new(
        SegmentId(4),
        Some(b"{\"max_doc\":5}".to_vec()),
        Some(terms),
        Some(Vec::new()),
        Some(encode(&vec![0, 2, 4])),
        Some(build_fast_fields(&[])),
    );
    let reader = SegmentReader::open(&segment).unwrap();
    assert!(matches!(
        reader.search(&vec![term(b"a")]),
        Err(IndexError::Decode)
    ));
}

#[test]
fn postings_with_ids_at_max_doc_are_corrupt() {
    // an id equal to max_doc violates the segment invariant
    let terms = build_terms(&[(b"a", 0, 3)]);
    let segment = Segment::new(
        SegmentId(5),
        Some(b"{\"max_doc\":4}".to_vec()),
        Some(terms),
        Some(Vec::new()),
        Some(encode(&vec![0, 2, 4])),
        Some(build_fast_fields(&[])),
    );
    let reader = SegmentReader::open(&segment).unwrap();
    assert!(matches!(
        reader.search(&vec![term(b"a")]),
        Err(IndexError::Decode)
    ));
}

#[test]
fn open_read_hands_out_regions() {
    let segment = sample_segment();
    assert_eq!(segment.id(), SegmentId(1));
    assert!(segment.open_read(SegmentComponent::Info).is_ok());
    assert!(segment.open_read(SegmentComponent::Postings).is_ok());
    let bare = Segment::new(SegmentId(9), None, None, None, None, None);
    assert!(matches!(
        bare.open_read(SegmentComponent::Terms),
        Err(IndexError::Io)
    ));
}

#[test]
fn three_way_intersection() {
    let pa = encode(&vec![0, 1, 2, 3, 4]);
    let pb = encode(&vec![1, 3, 4]);
    let pc = encode(&vec![0, 3, 4]);
    let mut postings = pa.clone();
    postings.extend_from_slice(&pb);
    postings.extend_from_slice(&pc);
    let terms = build_terms(&[
        (b"x", 0, 5),
        (b"y", pa.len() as u32, 3),
        (b"z", (pa.len() + pb.len()) as u32, 3),
    ]);
    let segment = Segment::new(
        SegmentId(6),
        Some(b"{\"max_doc\":5}".to_vec()),
        Some(terms),
        Some(Vec::new()),
        Some(postings),
        Some(build_fast_fields(&[])),
    );
    let reader = SegmentReader::open(&segment).unwrap();
    let hits = drain(reader.search(&vec![term(b"x"), term(b"y"), term(b"z")]).unwrap());
    assert_eq!(hits, vec![3, 4]);
    let disjoint = drain(reader.search(&vec![term(b"y"), term(b"z")]).unwrap());
    assert_eq!(disjoint, vec![3, 4]);
}

#[test]
fn intersection_of_disjoint_lists_is_empty() {
    let pa = encode(&vec![0, 2]);
    let pb = encode(&vec![1, 3]);
    let mut postings = pa.clone();
    postings.extend_from_slice(&pb);
    let terms = build_terms(&[(b"even", 0, 2), (b"odd", pa.len() as u32, 2)]);
    let segment = Segment::new(
        SegmentId(7),
        Some(b"{\"max_doc\":4}".to_vec()),
        Some(terms),
        Some(Vec::new()),
        Some(postings),
        Some(build_fast_fields(&[])),
    );
    let reader = SegmentReader::open(&segment).unwrap();
    let hits = drain(reader.search(&vec![term(b"even"), term(b"odd")]).unwrap());
    assert_eq!(hits, Vec::<u32>::new());
}
