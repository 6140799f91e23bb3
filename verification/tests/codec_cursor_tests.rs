use segment_index::codec::decode;
use segment_index::codec::encode;
use segment_index::IndexError;
use segment_index::SegmentPostings;

fn round_trip(ids: &[u32]) {
    let input: Vec<u32> = ids.to_vec();
    let blob = encode(&input);
    let out = decode(&blob, 0, ids.len() as u32).expect("well-formed blob must decode");
    assert_eq!(out, input);
}

#[test]
fn round_trip_empty() {
    round_trip(&[]);
}

#[test]
fn round_trip_single() {
    round_trip(&[42]);
}

#[test]
fn round_trip_two() {
    round_trip(&[3, 17]);
}

#[test]
fn round_trip_adjacent() {
    round_trip(&[0, 1, 2, 3, 4]);
}

#[test]
fn round_trip_extremes() {
    round_trip(&[0, 5, u32::MAX]);
}

#[test]
fn round_trip_large() {
    // strictly increasing with pseudo-random gaps
    let mut ids: Vec<u32> = Vec::new();
    let mut x: u32 = 7;
    let mut seed: u64 = 0x2545F4914F6CDD1D;
    for _ in 0..5000 {
        ids.push(x);
        seed = seed.wrapping_mul(6364136223846793005).wrapping_add(1442695040888963407);
        x = x.wrapping_add((seed >> 33) as u32 % 977 + 1);
        if ids.last() == Some(&x) || *ids.last().unwrap() > x {
            break;
        }
    }
    let mut sorted = ids.clone();
    sorted.sort_unstable();
    sorted.dedup();
    round_trip(&sorted);
}

#[test]
fn decode_with_larger_hint_truncates_to_stored_count() {
    let blob = encode(&vec![4, 9]);
    let out = decode(&blob, 0, 10).expect("count below hint is fine");
    assert_eq!(out, vec![4, 9]);
}

#[test]
fn decode_count_over_hint_fails() {
    let blob = encode(&vec![4, 9]);
    assert_eq!(decode(&blob, 0, 1), Err(IndexError::Decode));
}

#[test]
fn decode_truncated_fails() {
    let mut blob = encode(&vec![4, 9, 20]);
    blob.truncate(blob.len() - 1);
    assert_eq!(decode(&blob, 0, 3), Err(IndexError::Decode));
}

#[test]
fn decode_short_header_fails() {
    assert_eq!(decode(&vec![1, 0], 0, 1), Err(IndexError::Decode));
}

#[test]
fn decode_overflow_fails() {
    // two words: u32::MAX then 5 — the second id would not fit in 32 bits
    let mut blob: Vec<u8> = Vec::new();
    blob.extend_from_slice(&2u32.to_le_bytes());
    blob.extend_from_slice(&u32::MAX.to_le_bytes());
    blob.extend_from_slice(&5u32.to_le_bytes());
    assert_eq!(decode(&blob, 0, 2), Err(IndexError::Decode));
}

#[test]
fn decode_at_offset() {
    let blob_a = encode(&vec![1, 2]);
    let blob_b = encode(&vec![8, 13]);
    let mut region = blob_a.clone();
    region.extend_from_slice(&blob_b);
    assert_eq!(decode(&region, 0, 2).unwrap(), vec![1, 2]);
    assert_eq!(decode(&region, blob_a.len(), 2).unwrap(), vec![8, 13]);
}

#[test]
fn cursor_next_walks_ascending() {
    let blob = encode(&vec![2, 5, 9]);
    let mut cur = SegmentPostings::from_data(3, &blob, 0).unwrap();
    assert_eq!(cur.next(), Some(2));
    assert_eq!(cur.next(), Some(5));
    assert_eq!(cur.next(), Some(9));
    assert_eq!(cur.next(), None);
    assert_eq!(cur.next(), None);
}

#[test]
fn cursor_empty_yields_nothing() {
    let mut cur = SegmentPostings::empty();
    assert_eq!(cur.next(), None);
    assert_eq!(cur.skip_next(0), None);
}

#[test]
fn skip_next_lands_on_first_at_or_above_target() {
    let blob = encode(&vec![1, 4, 6, 10]);
    let mut cur = SegmentPostings::from_data(4, &blob, 0).unwrap();
    assert_eq!(cur.skip_next(5), Some(6));
    assert_eq!(cur.skip_next(6), Some(10));
    assert_eq!(cur.skip_next(11), None);
}

#[test]
fn skip_next_exact_hit_consumes_it() {
    let blob = encode(&vec![3, 7, 12]);
    let mut cur = SegmentPostings::from_data(3, &blob, 0).unwrap();
    assert_eq!(cur.skip_next(7), Some(7));
    assert_eq!(cur.next(), Some(12));
}

#[test]
fn skip_next_monotonic_targets_never_revisit() {
    // non-decreasing targets: each returned id is strictly above the last
    let blob = encode(&vec![0, 2, 4, 6, 8, 10, 12]);
    let mut cur = SegmentPostings::from_data(7, &blob, 0).unwrap();
    let targets = [0u32, 0, 3, 3, 9, 12];
    let mut last: Option<u32> = None;
    for t in targets {
        match cur.skip_next(t) {
            Some(v) => {
                assert!(v >= t);
                if let Some(prev) = last {
                    assert!(v > prev, "revisited an id already passed");
                }
                last = Some(v);
            }
            None => break,
        }
    }
}
