use asset_delta::errors::PatchError;
use asset_delta::generic::{
    encode_segments, generic_diff, insert_only_stream, patch_file, replay_stream, select_delta,
    Segment,
};

fn sample(len: usize, seed: u32) -> Vec<u8> {
    let mut state = seed;
    (0..len)
        .map(|_| {
            state = state.wrapping_mul(1664525).wrapping_add(1013904223);
            (state >> 24) as u8
        })
        .collect()
}

#[test]
fn generic_round_trip_on_an_edit() {
    let old = sample(20_000, 7);
    let mut new = old.clone();
    for i in 5_000..5_040 {
        new[i] = new[i].wrapping_add(1);
    }
    new.extend_from_slice(b"appended tail");
    let patch = generic_diff(&old, &new);
    assert_eq!(replay_stream(&old, &patch), Some(new.clone()));
    assert_eq!(patch_file(&old, &patch), Ok(new));
}

#[test]
fn generic_delta_of_an_edit_is_compressible_and_bounded() {
    let old = sample(20_000, 7);
    let mut new = old.clone();
    new[100] ^= 0xff;
    let patch = generic_diff(&old, &new);
    assert!(patch.len() <= new.len() + 24);
    let zeros = patch.iter().filter(|b| **b == 0).count();
    assert!(zeros > 19_000);
    assert_ne!(patch, insert_only_stream(&new));
}

#[test]
fn generic_delta_of_equal_contents() {
    let data = sample(4_096, 3);
    let patch = generic_diff(&data, &data);
    assert!(patch.len() <= data.len() + 24);
    assert_eq!(replay_stream(&data, &patch), Some(data));
}

#[test]
fn generic_delta_of_unlike_contents_is_bounded() {
    let old = sample(3_000, 1);
    let new = sample(3_000, 2);
    let patch = generic_diff(&old, &new);
    assert!(patch.len() <= new.len() + 24);
    assert_eq!(replay_stream(&old, &patch), Some(new));
}

#[test]
fn generic_delta_from_an_empty_file() {
    let new = b"fresh content".to_vec();
    let patch = generic_diff(&[], &new);
    assert_eq!(patch, insert_only_stream(&new));
    assert_eq!(replay_stream(&[], &patch), Some(new));
}

#[test]
fn generic_delta_to_an_empty_file() {
    let old = b"old content".to_vec();
    let patch = generic_diff(&old, &[]);
    assert!(patch.len() <= 24);
    assert_eq!(replay_stream(&old, &patch), Some(Vec::new()));
}

#[test]
fn generic_delta_between_empty_files() {
    let patch = generic_diff(&[], &[]);
    assert_eq!(replay_stream(&[], &patch), Some(Vec::new()));
}

#[test]
fn insert_only_stream_layout() {
    let stream = insert_only_stream(b"hi");
    let mut expected = vec![0u8; 24];
    expected[8] = 2;
    expected.extend_from_slice(b"hi");
    assert_eq!(stream, expected);
}

#[test]
fn patcher_reads_an_insert_only_stream_alike() {
    let new = sample(1_000, 9);
    let stream = insert_only_stream(&new);
    let mut out = Vec::new();
    bsdiff::patch(b"whatever", &mut stream.as_slice(), &mut out).unwrap();
    assert_eq!(out, new);
    assert_eq!(replay_stream(b"whatever", &stream), Some(new));
}

#[test]
fn segment_layout() {
    let segments = vec![
        Segment { add: vec![1, 2], copy: vec![9], seek: -3 },
        Segment { add: vec![], copy: vec![], seek: 5 },
    ];
    let stream = encode_segments(&segments).unwrap();
    let mut expected: Vec<u8> = Vec::new();
    expected.extend_from_slice(&2u64.to_le_bytes());
    expected.extend_from_slice(&1u64.to_le_bytes());
    expected.extend_from_slice(&(3u64 | (1u64 << 63)).to_le_bytes());
    expected.extend_from_slice(&[1, 2, 9]);
    expected.extend_from_slice(&0u64.to_le_bytes());
    expected.extend_from_slice(&0u64.to_le_bytes());
    expected.extend_from_slice(&5u64.to_le_bytes());
    assert_eq!(stream, expected);
}

#[test]
fn segments_replay_through_the_patcher() {
    let old = vec![10u8, 20, 30, 40, 50];
    let segments = vec![
        Segment { add: vec![1, 1], copy: vec![7], seek: 1 },
        Segment { add: vec![0, 2], copy: vec![], seek: 0 },
    ];
    let stream = encode_segments(&segments).unwrap();
    assert_eq!(replay_stream(&old, &stream), Some(vec![11, 21, 7, 40, 52]));
}

#[test]
fn seek_without_magnitude_is_refused() {
    let segments = vec![Segment { add: vec![], copy: vec![], seek: i64::MIN }];
    assert_eq!(encode_segments(&segments), None);
}

#[test]
fn truncated_stream_is_corrupt() {
    let old = sample(100, 4);
    let new = sample(120, 5);
    let mut patch = generic_diff(&old, &new);
    patch.truncate(patch.len() - 1);
    assert_eq!(patch_file(&old, &patch), Err(PatchError::CorruptPackage));
}

#[test]
fn the_matched_stream_is_kept_when_it_rebuilds_the_new_content() {
    let new = b"new content".to_vec();
    let matched = vec![7u8; 20];
    assert_eq!(select_delta(Some(matched.clone()), Some(new.clone()), &new), matched);
    let longest = vec![7u8; new.len() + 24];
    assert_eq!(select_delta(Some(longest.clone()), Some(new.clone()), &new), longest);
}

#[test]
fn the_copying_segment_is_taken_when_the_matched_stream_rebuilds_something_else() {
    let new = b"new content".to_vec();
    let literal = insert_only_stream(&new);
    assert_eq!(select_delta(Some(vec![7u8; 20]), Some(b"other".to_vec()), &new), literal);
    assert_eq!(select_delta(Some(vec![7u8; 20]), None, &new), literal);
}

#[test]
fn the_copying_segment_is_taken_when_the_matched_stream_is_longer() {
    let new = b"new content".to_vec();
    let too_long = vec![7u8; new.len() + 25];
    assert_eq!(select_delta(Some(too_long), Some(new.clone()), &new), insert_only_stream(&new));
}

#[test]
fn the_copying_segment_is_taken_when_nothing_was_matched() {
    let new = b"new content".to_vec();
    assert_eq!(select_delta(None, None, &new), insert_only_stream(&new));
    assert_eq!(select_delta(None, Some(new.clone()), &new), insert_only_stream(&new));
}
