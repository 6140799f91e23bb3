use segment_index::dictionary::TermDictionary;
use segment_index::fastfield::U32FastFieldsReader;
use segment_index::info::parse_segment_info;
use segment_index::schema::U32Field;
use segment_index::store::StoreReader;
use segment_index::IndexError;
use segment_index::TermInfo;

fn push_u32(out: &mut Vec<u8>, x: u32) {
    out.extend_from_slice(&x.to_le_bytes());
}

fn build_terms(entries: &[(&[u8], u32, u32)]) -> Vec<u8> {
    let mut out: Vec<u8> = Vec::new();
    push_u32(&mut out, entries.len() as u32);
    for (key, offset, freq) in entries {
        push_u32(&mut out, key.len() as u32);
        out.extend_from_slice(key);
        push_u32(&mut out, *offset);
        push_u32(&mut out, *freq);
    }
    out
}

fn build_store(docs: &[&[u8]]) -> Vec<u8> {
    let mut out: Vec<u8> = Vec::new();
    for doc in docs {
        push_u32(&mut out, doc.len() as u32);
        out.extend_from_slice(doc);
    }
    out
}

fn build_fast_fields(fields: &[(u32, &[u32])]) -> Vec<u8> {
    let mut out: Vec<u8> = Vec::new();
    push_u32(&mut out, fields.len() as u32);
    for (fid, values) in fields {
        push_u32(&mut out, *fid);
        push_u32(&mut out, values.len() as u32);
        for v in *values {
            push_u32(&mut out, *v);
        }
    }
    out
}

#[test]
fn dictionary_every_inserted_term_is_retrievable_exactly() {
    let data = build_terms(&[(b"alpha", 0, 3), (b"beta", 20, 2), (b"gamma", 36, 7)]);
    let dict = TermDictionary::from_bytes(&data).unwrap();
    assert_eq!(dict.len(), 3);
    assert_eq!(
        dict.get(&b"alpha".to_vec()),
        Some(TermInfo { postings_offset: 0, doc_freq: 3 })
    );
    assert_eq!(
        dict.get(&b"beta".to_vec()),
        Some(TermInfo { postings_offset: 20, doc_freq: 2 })
    );
    assert_eq!(
        dict.get(&b"gamma".to_vec()),
        Some(TermInfo { postings_offset: 36, doc_freq: 7 })
    );
}

#[test]
fn dictionary_absent_terms_come_back_none() {
    let data = build_terms(&[(b"alpha", 0, 3), (b"gamma", 36, 7)]);
    let dict = TermDictionary::from_bytes(&data).unwrap();
    assert_eq!(dict.get(&b"beta".to_vec()), None);
    assert_eq!(dict.get(&b"".to_vec()), None);
    assert_eq!(dict.get(&b"alphaa".to_vec()), None);
    assert_eq!(dict.get(&b"alph".to_vec()), None);
    assert_eq!(dict.get(&b"zzz".to_vec()), None);
}

#[test]
fn dictionary_empty_region_is_fine() {
    let data = build_terms(&[]);
    let dict = TermDictionary::from_bytes(&data).unwrap();
    assert_eq!(dict.len(), 0);
    assert_eq!(dict.get(&b"a".to_vec()), None);
}

#[test]
fn dictionary_unsorted_keys_fail_at_open() {
    let data = build_terms(&[(b"beta", 0, 1), (b"alpha", 8, 1)]);
    assert!(matches!(
        TermDictionary::from_bytes(&data),
        Err(IndexError::Decode)
    ));
}

#[test]
fn dictionary_duplicate_keys_fail_at_open() {
    let data = build_terms(&[(b"alpha", 0, 1), (b"alpha", 8, 1)]);
    assert!(matches!(
        TermDictionary::from_bytes(&data),
        Err(IndexError::Decode)
    ));
}

#[test]
fn dictionary_truncated_region_fails_at_open() {
    let mut data = build_terms(&[(b"alpha", 0, 3)]);
    data.truncate(data.len() - 2);
    assert!(matches!(
        TermDictionary::from_bytes(&data),
        Err(IndexError::Decode)
    ));
}

#[test]
fn dictionary_trailing_bytes_fail_at_open() {
    let mut data = build_terms(&[(b"alpha", 0, 3)]);
    data.push(0);
    assert!(matches!(
        TermDictionary::from_bytes(&data),
        Err(IndexError::Decode)
    ));
}

#[test]
fn info_parses_canonical_record() {
    let si = parse_segment_info(&b"{\"max_doc\":5}".to_vec()).unwrap();
    assert_eq!(si.max_doc, 5);
    let si = parse_segment_info(&b"{\"max_doc\":0}".to_vec()).unwrap();
    assert_eq!(si.max_doc, 0);
    let si = parse_segment_info(&b"{\"max_doc\":4294967295}".to_vec()).unwrap();
    assert_eq!(si.max_doc, u32::MAX);
}

#[test]
fn info_rejects_malformed_records() {
    for bad in [
        &b"{\"max_doc\":4294967296}"[..], // over 32 bits
        b"{\"max_doc\":}",
        b"{\"max_doc\":5",
        b"{\"max_doc\":5} ",
        b"{\"max_doc\":5x}",
        b"{\"maxdoc\":5}",
        b"",
        b"{}",
    ] {
        assert_eq!(
            parse_segment_info(&bad.to_vec()),
            Err(IndexError::Decode),
            "accepted: {:?}",
            bad
        );
    }
}

#[test]
fn store_hands_back_each_document() {
    let data = build_store(&[b"first", b"", b"third"]);
    let store = StoreReader::new(data);
    assert_eq!(store.get(&0).unwrap().data, b"first".to_vec());
    assert_eq!(store.get(&1).unwrap().data, b"".to_vec());
    assert_eq!(store.get(&2).unwrap().data, b"third".to_vec());
}

#[test]
fn store_rejects_out_of_range_and_truncated() {
    let data = build_store(&[b"only"]);
    let store = StoreReader::new(data);
    assert!(matches!(store.get(&1), Err(IndexError::Decode)));
    let mut cut = build_store(&[b"only"]);
    cut.truncate(cut.len() - 1);
    let store = StoreReader::new(cut);
    assert!(matches!(store.get(&0), Err(IndexError::Decode)));
}

#[test]
fn fast_fields_hand_back_columns() {
    let data = build_fast_fields(&[(7, &[10, 20, 30]), (9, &[5])]);
    let ff = U32FastFieldsReader::open(&data).unwrap();
    let col = ff.get_field(&U32Field(7)).unwrap();
    assert_eq!(col.len(), 3);
    assert_eq!(col.get(0), Some(10));
    assert_eq!(col.get(2), Some(30));
    assert_eq!(col.get(3), None);
    let col9 = ff.get_field(&U32Field(9)).unwrap();
    assert_eq!(col9.get(0), Some(5));
}

#[test]
fn fast_fields_missing_field_is_reported() {
    let data = build_fast_fields(&[(7, &[10])]);
    let ff = U32FastFieldsReader::open(&data).unwrap();
    assert!(matches!(ff.get_field(&U32Field(8)), Err(IndexError::Io)));
}

#[test]
fn fast_fields_truncated_region_fails_at_open() {
    let mut data = build_fast_fields(&[(7, &[10, 20])]);
    data.truncate(data.len() - 3);
    assert!(matches!(
        U32FastFieldsReader::open(&data),
        Err(IndexError::Decode)
    ));
    let mut long = build_fast_fields(&[(7, &[10, 20])]);
    long.push(0);
    assert!(matches!(
        U32FastFieldsReader::open(&long),
        Err(IndexError::Decode)
    ));
}
