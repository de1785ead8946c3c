use pgm_index::pgm::{PGMIndex, PGMIndexError};

#[test]
fn test_build_and_search() {
    let keys: Vec<u64> = (0..1000).step_by(5).collect();
    let epsilon = 8;
    let pgm = PGMIndex::build(&keys, epsilon).unwrap();

    let key = 500;
    let (lo, hi) = pgm.search(key);
    assert!(
        keys[lo..=hi].binary_search(&key).is_ok(),
        "Key should be found within predicted range"
    );

    let key = 503;
    let (lo, hi) = pgm.search(key);
    assert!(
        keys[lo..=hi].binary_search(&key).is_err(),
        "Non-existent key should not be found, but range should still be valid"
    );
}

#[test]
fn test_unsorted_input_fails() {
    let unsorted_keys = vec![1, 3, 2, 4];
    let result = PGMIndex::build(&unsorted_keys, 4);
    assert!(matches!(result, Err(PGMIndexError::KeysNotSorted)));
}

#[test]
fn test_build_rejects_distant_inversion() {
    // The inversion is not between adjacent keys only: any i < j with
    // keys[i] > keys[j] must be caught.
    let keys = vec![1, 2, 3, 4, 5, 6, 7, 3];
    let result = PGMIndex::build(&keys, 2);
    assert!(matches!(result, Err(PGMIndexError::KeysNotSorted)));
}

#[test]
fn test_build_accepts_duplicates() {
    let keys = vec![1, 1, 1, 2, 2, 3];
    let pgm = PGMIndex::build(&keys, 1).unwrap();
    let (lo, hi) = pgm.search(2);
    assert!(lo <= hi);
    assert!(keys[lo..=hi].binary_search(&2).is_ok());
}

#[test]
fn test_single_key() {
    let keys = vec![42];
    let pgm = PGMIndex::build(&keys, 4).unwrap();
    assert_eq!(pgm.segments.len(), 1);
    assert!(pgm.top_level.is_none());
    let seg = &pgm.segments[0];
    assert_eq!(seg.slope_num, 0);
    assert_eq!(seg.start_key, 42);
    assert_eq!(seg.end_key, 42);
    let (lo, hi) = pgm.search(42);
    assert!(lo <= hi);
}

#[test]
fn test_two_level_trigger() {
    // Four slope breaks with epsilon 0 yield more than two bottom segments,
    // so a top level must be present.
    let keys = vec![0, 1, 2, 10, 11, 12, 100, 101, 102, 1000, 1001, 1002];
    let pgm = PGMIndex::build(&keys, 0).unwrap();
    assert!(pgm.segments.len() > 2);
    assert!(pgm.top_level.is_some());
    for key in &keys {
        let (lo, hi) = pgm.search(*key);
        assert!(lo <= hi, "range must be well-formed for key {key}");
        assert!(hi < keys.len() + pgm.epsilon, "range far out of bounds");
    }
}

#[test]
fn test_single_level_when_few_segments() {
    // A perfectly linear key set fits one segment, so no top level exists and
    // the query binary-searches the bottom level directly.
    let keys: Vec<u64> = (0..100).map(|i| 3 * i).collect();
    let pgm = PGMIndex::build(&keys, 4).unwrap();
    assert!(pgm.segments.len() <= 2);
    assert!(pgm.top_level.is_none());
    let (lo, hi) = pgm.search(150);
    assert!(keys[lo..=hi].binary_search(&150).is_ok());
}

#[test]
fn test_search_exact_range() {
    // One exact linear segment: slope 1/5 anchored at position 0. The
    // prediction for 500 is exactly position 100, so the range is the
    // prediction widened by epsilon on both sides.
    let keys: Vec<u64> = (0..1000).step_by(5).collect();
    let pgm = PGMIndex::build(&keys, 8).unwrap();
    assert_eq!(pgm.search(500), (92, 108));
}

#[test]
fn test_wider_epsilon_never_narrows() {
    let keys: Vec<u64> = (0..1000).step_by(5).collect();
    let queries = [0u64, 3, 250, 500, 503, 995, 1800];
    let mut prev_widths: Option<Vec<usize>> = None;
    for epsilon in [0usize, 1, 2, 4, 8, 16, 32] {
        let pgm = PGMIndex::build(&keys, epsilon).unwrap();
        let widths: Vec<usize> = queries
            .iter()
            .map(|q| {
                let (lo, hi) = pgm.search(*q);
                hi - lo
            })
            .collect();
        if let Some(prev) = prev_widths {
            for (w_small, w_large) in prev.iter().zip(widths.iter()) {
                assert!(
                    w_large >= w_small,
                    "a larger epsilon shrank a candidate range"
                );
            }
        }
        prev_widths = Some(widths);
    }
}

#[test]
fn test_top_level_prediction_can_miss() {
    // The top level predicts a single bottom segment and the query commits to
    // it, so a prediction that is off by even one segment can produce a range
    // that misses a present key's position. With these keys and epsilon 0 the
    // query for key 1 lands in the second segment, whose line places the key
    // at position 2, while the key really sits at position 1.
    let keys = vec![0, 1, 2, 10, 11, 12, 100, 101, 102, 1000, 1001, 1002];
    let pgm = PGMIndex::build(&keys, 0).unwrap();
    assert!(pgm.top_level.is_some());
    let (lo, hi) = pgm.search(1);
    let pos = 1;
    assert!(
        pos < lo || pos > hi,
        "the candidate range unexpectedly covered the key; the two-level miss is load-bearing"
    );
}

#[test]
fn test_duplicate_keys_can_exceed_epsilon() {
    // Runs of equal keys never tighten the slope interval, so the realized
    // error at their later occurrences can exceed epsilon: here key 0 fills
    // positions 0 through 3, but the candidate range around the prediction
    // stops at position 1.
    let keys = vec![0, 0, 0, 0, 10];
    let pgm = PGMIndex::build(&keys, 1).unwrap();
    let (lo, hi) = pgm.search(0);
    assert_eq!((lo, hi), (0, 1));
    assert!(keys[3] == 0 && hi < 3);
}

#[test]
fn test_far_overshoot_returns_valid_range() {
    // The prediction for a key far beyond the last key overshoots the
    // position space by more than epsilon; the position is clamped before
    // widening, so the range stays well-formed.
    let keys = vec![0, 1];
    let pgm = PGMIndex::build(&keys, 0).unwrap();
    assert_eq!(pgm.search(100), (1, 1));
    let pgm = PGMIndex::build(&keys, 5).unwrap();
    let (lo, hi) = pgm.search(100);
    assert!(lo <= hi && hi <= 1);
}

#[test]
fn test_present_keys_covered() {
    let keys: Vec<u64> = (0..2000).step_by(5).collect();
    let pgm = PGMIndex::build(&keys, 8).unwrap();
    for (pos, key) in keys.iter().enumerate() {
        let (lo, hi) = pgm.search(*key);
        assert!(lo <= pos && pos <= hi, "position of {key} escaped its range");
    }
}
