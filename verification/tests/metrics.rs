use sai3_bench::constants::{BUCKET_BOUNDARIES, BUCKET_LABELS, NUM_BUCKETS};
use sai3_bench::metrics::bucket_index;

#[test]
fn test_bucket_boundaries_sorted() {
    for i in 1..BUCKET_BOUNDARIES.len() {
        assert!(BUCKET_BOUNDARIES[i] > BUCKET_BOUNDARIES[i - 1], "Bucket boundaries must be strictly increasing");
    }
}

#[test]
fn test_bucket_labels_match_boundaries() {
    assert_eq!(BUCKET_LABELS.len(), BUCKET_BOUNDARIES.len(), "Number of labels must match number of boundaries");
    assert_eq!(BUCKET_LABELS.len(), NUM_BUCKETS, "Number of labels must match NUM_BUCKETS");
}

#[test]
fn test_bucket_index() {
    assert_eq!(bucket_index(0), 0); // zero
    assert_eq!(bucket_index(1), 1); // 1B-8KiB
    assert_eq!(bucket_index(8 * 1024), 1); // 1B-8KiB
    assert_eq!(bucket_index(8 * 1024 + 1), 2); // 8KiB-64KiB
    assert_eq!(bucket_index(64 * 1024), 2); // 8KiB-64KiB
    assert_eq!(bucket_index(64 * 1024 + 1), 3); // 64KiB-512KiB
    assert_eq!(bucket_index(512 * 1024), 3); // 64KiB-512KiB
    assert_eq!(bucket_index(512 * 1024 + 1), 4); // 512KiB-4MiB
    assert_eq!(bucket_index(4 * 1024 * 1024), 4); // 512KiB-4MiB
    assert_eq!(bucket_index(4 * 1024 * 1024 + 1), 5); // 4MiB-32MiB
    assert_eq!(bucket_index(32 * 1024 * 1024), 5); // 4MiB-32MiB
    assert_eq!(bucket_index(32 * 1024 * 1024 + 1), 6); // 32MiB-256MiB
    assert_eq!(bucket_index(256 * 1024 * 1024), 6); // 32MiB-256MiB
    assert_eq!(bucket_index(256 * 1024 * 1024 + 1), 7); // 256MiB-2GiB
    assert_eq!(bucket_index(2 * 1024 * 1024 * 1024), 7); // 256MiB-2GiB
    assert_eq!(bucket_index(2 * 1024 * 1024 * 1024 + 1), 8); // >2GiB
    assert_eq!(bucket_index(3 * 1024 * 1024 * 1024), 8); // >2GiB
}

#[test]
fn test_bucket_labels_count() {
    assert_eq!(BUCKET_LABELS.len(), NUM_BUCKETS);
    assert_eq!(BUCKET_LABELS.len(), 9);
}

#[test]
fn test_all_bucket_boundaries_comprehensive() {
    let boundaries: [(usize, usize, &str); 9] = [
        (0, 0, "zero"),
        (1, 8 * 1024, "1B-8KiB"),
        (8 * 1024 + 1, 64 * 1024, "8KiB-64KiB"),
        (64 * 1024 + 1, 512 * 1024, "64KiB-512KiB"),
        (512 * 1024 + 1, 4 * 1024 * 1024, "512KiB-4MiB"),
        (4 * 1024 * 1024 + 1, 32 * 1024 * 1024, "4MiB-32MiB"),
        (32 * 1024 * 1024 + 1, 256 * 1024 * 1024, "32MiB-256MiB"),
        (256 * 1024 * 1024 + 1, 2 * 1024 * 1024 * 1024, "256MiB-2GiB"),
        (2 * 1024 * 1024 * 1024 + 1, usize::MAX, ">2GiB"),
    ];
    for (expected_bucket, (_, _, label)) in boundaries.iter().enumerate() {
        assert_eq!(BUCKET_LABELS[expected_bucket], *label, "Bucket {} label mismatch", expected_bucket);
    }
    for (expected_bucket, (lower, _, _)) in boundaries.iter().enumerate() {
        if expected_bucket == 0 {
            assert_eq!(bucket_index(0), 0, "Zero should be in bucket 0");
        } else {
            assert_eq!(bucket_index(*lower), expected_bucket, "Lower bound {} should be in bucket {}", lower, expected_bucket);
        }
    }
    for (expected_bucket, (_, upper, _)) in boundaries.iter().enumerate() {
        if expected_bucket == 8 {
            assert_eq!(bucket_index(10 * 1024 * 1024 * 1024), 8, "Very large values should be in bucket 8");
        } else if expected_bucket == 0 {
            continue;
        } else {
            assert_eq!(bucket_index(*upper), expected_bucket, "Upper bound {} should be in bucket {}", upper, expected_bucket);
        }
    }
    for (expected_bucket, (_, upper, _)) in boundaries.iter().enumerate() {
        if expected_bucket == 0 {
            assert_eq!(bucket_index(1), 1, "1 byte should be in bucket 1");
        } else if expected_bucket < 8 {
            let next_bucket = expected_bucket + 1;
            assert_eq!(bucket_index(*upper + 1), next_bucket);
        }
    }
    assert_eq!(bucket_index(usize::MAX), 8, "usize::MAX should be in bucket 8");
    assert_eq!(bucket_index(4 * 1024), 1);
    assert_eq!(bucket_index(32 * 1024), 2);
    assert_eq!(bucket_index(256 * 1024), 3);
    assert_eq!(bucket_index(2 * 1024 * 1024), 4);
    assert_eq!(bucket_index(16 * 1024 * 1024), 5);
    assert_eq!(bucket_index(128 * 1024 * 1024), 6);
    assert_eq!(bucket_index(1024 * 1024 * 1024), 7);
    assert_eq!(bucket_index(5 * 1024 * 1024 * 1024), 8);
}

#[test]
fn bucket_index_agrees_with_boundaries() {
    let samples: [usize; 12] = [0, 1, 8191, 8192, 8193, 65536, 65537, 524288, 4194305, 33554432, 268435457, 2147483648];
    for &n in samples.iter() {
        let k = bucket_index(n);
        assert!((n as u64) <= BUCKET_BOUNDARIES[k]);
        if k > 0 {
            assert!((n as u64) > BUCKET_BOUNDARIES[k - 1]);
        }
    }
}
