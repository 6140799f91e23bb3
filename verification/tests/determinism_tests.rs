use segment_index::codec::encode;
use segment_index::segment::Segment;
use segment_index::segment::SegmentId;
use segment_index::IntersectionPostings;
use segment_index::SegmentReader;
use segment_index::Term;

fn push_u32(out: &mut Vec<u8>, x: u32) {
    out.extend_from_slice(&x.to_le_bytes());
}

fn build_terms(entries: &[(&[u8], u32, u32)]) -> Vec<u8> {
    let mut out: Vec<u8> = Vec::new();
    push_u32(&mut out, entries.len() as u32);
    for (key, offset, freq) in entries {
        push_u32(&mut out, key.len() as u32);
        out.extend_from_slice(key);
        push_u32(&mut out, *offset);
        push_u32(&mut out, *freq);
    }
    out
}

fn build_fast_fields(fields: &[(u32, &[u32])]) -> Vec<u8> {
    let mut out: Vec<u8> = Vec::new();
    push_u32(&mut out, fields.len() as u32);
    for (fid, values) in fields {
        push_u32(&mut out, *fid);
        push_u32(&mut out, values.len() as u32);
        for v in *values {
            push_u32(&mut out, *v);
        }
    }
    out
}

fn drain(mut ic: IntersectionPostings) -> Vec<u32> {
    let mut out: Vec<u32> = Vec::new();
    while let Some(d) = ic.next() {
        out.push(d);
    }
    out
}

fn sample_reader() -> SegmentReader {
    let pa = encode(&vec![0, 2, 4]);
    let pb = encode(&vec![2, 4]);
    let mut postings = pa.clone();
    postings.extend_from_slice(&pb);
    let terms = build_terms(&[(b"a", 0, 3), (b"b", pa.len() as u32, 2)]);
    let segment = Segment::new(
        SegmentId(1),
        Some(b"{\"max_doc\":5}".to_vec()),
        Some(terms),
        Some(Vec::new()),
        Some(postings),
        Some(build_fast_fields(&[])),
    );
    SegmentReader::open(&segment).unwrap()
}

fn query() -> Vec<Term> {
    vec![Term::from_bytes(b"a".to_vec()), Term::from_bytes(b"b".to_vec())]
}

#[test]
fn independent_searches_on_one_reader_agree() {
    // two queries against the same opened reader, each owning its own
    // cursors; the reader is never mutated, so the results must agree
    let reader = sample_reader();
    let first = drain(reader.search(&query()).unwrap());
    let mut interleaved_a = reader.search(&query()).unwrap();
    let mut interleaved_b = reader.search(&query()).unwrap();
    assert_eq!(interleaved_a.next(), Some(2));
    assert_eq!(interleaved_b.next(), Some(2));
    assert_eq!(interleaved_a.next(), Some(4));
    assert_eq!(interleaved_b.next(), Some(4));
    assert_eq!(interleaved_a.next(), None);
    assert_eq!(interleaved_b.next(), None);
    assert_eq!(first, vec![2, 4]);
}

#[test]
fn repeated_searches_on_one_reader_agree() {
    let reader = sample_reader();
    let first = drain(reader.search(&query()).unwrap());
    let second = drain(reader.search(&query()).unwrap());
    assert_eq!(first, second);
    assert_eq!(first, vec![2, 4]);
}
