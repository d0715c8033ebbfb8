use sai3_bench::metadata_cache::{
    compute_config_hash, endpoints_share_storage, extract_file_index_from_path, CheckpointCoverage,
    FlushPolicy, ObjectEntry, ObjectState, WriteCounter,
};

fn v(xs: &[&str]) -> Vec<String> {
    xs.iter().map(|s| s.to_string()).collect()
}

#[test]
fn test_object_state_conversions() {
    assert_eq!(ObjectState::from_u8(0), Some(ObjectState::DirectoryNonExistent));
    assert_eq!(ObjectState::from_u8(1), Some(ObjectState::Planned));
    assert_eq!(ObjectState::from_u8(2), Some(ObjectState::Creating));
    assert_eq!(ObjectState::from_u8(3), Some(ObjectState::Created));
    assert_eq!(ObjectState::from_u8(4), Some(ObjectState::Failed));
    assert_eq!(ObjectState::from_u8(5), Some(ObjectState::Deleted));
    assert_eq!(ObjectState::from_u8(99), None);

    assert_eq!(ObjectState::DirectoryNonExistent.to_u8(), 0);
    assert_eq!(ObjectState::Planned.to_u8(), 1);
    assert_eq!(ObjectState::Creating.to_u8(), 2);
    assert_eq!(ObjectState::Created.to_u8(), 3);
    assert_eq!(ObjectState::Failed.to_u8(), 4);
    assert_eq!(ObjectState::Deleted.to_u8(), 5);
}

#[test]
fn test_object_state_queries() {
    assert!(ObjectState::Created.is_created());
    assert!(!ObjectState::Planned.is_created());
    assert!(!ObjectState::Creating.is_created());

    assert!(ObjectState::Failed.is_failed());
    assert!(!ObjectState::Created.is_failed());
    assert!(!ObjectState::Planned.is_failed());

    assert!(ObjectState::Planned.needs_creation());
    assert!(ObjectState::Failed.needs_creation());
    assert!(!ObjectState::Created.needs_creation());
    assert!(!ObjectState::Creating.needs_creation());
    assert!(!ObjectState::DirectoryNonExistent.needs_creation());
}

#[test]
fn test_object_state_ordering() {
    assert!(ObjectState::DirectoryNonExistent < ObjectState::Planned);
    assert!(ObjectState::Planned < ObjectState::Creating);
    assert!(ObjectState::Creating < ObjectState::Created);
    assert!(ObjectState::Created < ObjectState::Failed);
    assert!(ObjectState::Failed < ObjectState::Deleted);
}

#[test]
fn test_compute_config_hash_deterministic() {
    let endpoints = vec!["file:///tmp/a".to_string(), "s3://bucket/b".to_string()];
    let hash1 = compute_config_hash(1000, Some("{\"depth\":3}"), &endpoints);
    let hash2 = compute_config_hash(1000, Some("{\"depth\":3}"), &endpoints);
    assert_eq!(hash1, hash2, "Hash should be deterministic");
}

#[test]
fn test_compute_config_hash_changes() {
    let endpoints = vec!["file:///tmp/a".to_string()];
    let hash1 = compute_config_hash(1000, None, &endpoints);
    let hash2 = compute_config_hash(2000, None, &endpoints);
    assert_ne!(hash1, hash2, "Hash should change with different config");

    let hash3 = compute_config_hash(1000, Some("{\"depth\":3}"), &endpoints);
    assert_ne!(hash1, hash3, "Hash should change with different directory config");

    let endpoints2 = vec!["file:///tmp/a".to_string(), "file:///tmp/b".to_string()];
    let hash4 = compute_config_hash(1000, None, &endpoints2);
    assert_ne!(hash1, hash4, "Hash should change with different endpoints");
}

#[test]
fn compute_config_hash_is_seahash_of_text() {
    let endpoints = v(&["file:///tmp/a", "s3://b/c"]);
    let h = compute_config_hash(7, Some("cfg"), &endpoints);
    let expected = format!("{:016x}", seahash::hash(b"files:7,dir:cfg,endpoints:file:///tmp/a,s3://b/c"));
    assert_eq!(h, expected);
    assert_eq!(h.len(), 16);
    let h0 = compute_config_hash(0, None, &[]);
    assert_eq!(h0, format!("{:016x}", seahash::hash(b"files:0,endpoints:")));
}

#[test]
fn test_flush_policy_default() {
    let policy = FlushPolicy::default();
    assert_eq!(policy, FlushPolicy::AsyncInterval(30));
}

#[test]
fn test_flush_policy_batch_creation() {
    let policy = FlushPolicy::batch(0);
    assert_eq!(policy, FlushPolicy::Immediate);
    let policy = FlushPolicy::batch(1000);
    assert_eq!(policy, FlushPolicy::BatchSize(1000));
    let policy = FlushPolicy::batch(10000);
    assert_eq!(policy, FlushPolicy::BatchSize(10000));
}

#[test]
fn test_flush_policy_equality() {
    assert_eq!(FlushPolicy::Immediate, FlushPolicy::Immediate);
    assert_eq!(FlushPolicy::BatchSize(100), FlushPolicy::BatchSize(100));
    assert_eq!(FlushPolicy::AsyncInterval(30), FlushPolicy::AsyncInterval(30));
    assert_ne!(FlushPolicy::Immediate, FlushPolicy::BatchSize(1));
    assert_ne!(FlushPolicy::BatchSize(100), FlushPolicy::BatchSize(200));
    assert_ne!(FlushPolicy::AsyncInterval(30), FlushPolicy::AsyncInterval(60));
}

#[test]
fn test_shared_storage_detection_same_bucket_different_ips() {
    let endpoints = v(&["s3://10.9.0.21:9000/my-bucket/prefix1/", "s3://10.9.0.25:9000/my-bucket/prefix1/"]);
    assert!(endpoints_share_storage(&endpoints));
}

#[test]
fn test_shared_storage_detection_same_bucket_different_prefixes() {
    let endpoints = v(&["s3://storage.example.com/bucket1/path-a/", "s3://storage.example.com/bucket1/path-b/"]);
    assert!(endpoints_share_storage(&endpoints));
}

#[test]
fn test_shared_storage_detection_different_hostnames_same_bucket() {
    let endpoints = v(&[
        "s3://storage1.example.com:9000/shared-bucket/data/",
        "s3://storage2.example.com:9000/shared-bucket/data/",
        "s3://storage3.example.com:9000/shared-bucket/data/",
    ]);
    assert!(endpoints_share_storage(&endpoints));
}

#[test]
fn test_shared_storage_detection_mixed_ips_and_hostnames() {
    let endpoints = v(&[
        "s3://10.9.0.21:9000/my-bucket/",
        "s3://storage.example.com:9000/my-bucket/",
        "s3://192.168.1.100:9000/my-bucket/",
    ]);
    assert!(endpoints_share_storage(&endpoints));
}

#[test]
fn test_independent_storage_detection_different_buckets() {
    let endpoints = v(&["s3://10.9.0.21:9000/bucket1/", "s3://10.9.0.21:9000/bucket2/"]);
    assert!(!endpoints_share_storage(&endpoints));
}

#[test]
fn test_independent_storage_detection_different_hostnames_different_buckets() {
    let endpoints = v(&[
        "s3://region1.cloud.com:9000/bucket-us-east/",
        "s3://region2.cloud.com:9000/bucket-us-west/",
        "s3://region3.cloud.com:9000/bucket-eu-central/",
    ]);
    assert!(!endpoints_share_storage(&endpoints));
}

#[test]
fn test_independent_storage_detection_different_file_paths() {
    let endpoints = v(&["file:///mnt/nvme1/data/", "file:///mnt/nvme2/data/"]);
    assert!(!endpoints_share_storage(&endpoints));
}

#[test]
fn test_shared_storage_detection_same_file_path() {
    let endpoints = v(&["file:///mnt/data/testdata/", "file:///mnt/data/testdata/"]);
    assert!(endpoints_share_storage(&endpoints));
}

#[test]
fn test_azure_shared_storage_detection() {
    let endpoints = v(&[
        "az://account1.blob.core.windows.net/container1/prefix-a/",
        "az://account1.blob.core.windows.net/container1/prefix-b/",
    ]);
    assert!(endpoints_share_storage(&endpoints));
}

#[test]
fn test_azure_independent_storage_detection() {
    let endpoints = v(&[
        "az://account1.blob.core.windows.net/container1/",
        "az://account1.blob.core.windows.net/container2/",
    ]);
    assert!(!endpoints_share_storage(&endpoints));
}

#[test]
fn test_gcs_shared_storage_detection() {
    let endpoints = v(&["gs://my-bucket/path1/", "gs://my-bucket/path2/"]);
    assert!(endpoints_share_storage(&endpoints));
}

#[test]
fn test_single_endpoint_not_considered_shared() {
    let endpoints = v(&["s3://bucket/path/"]);
    assert!(!endpoints_share_storage(&endpoints));
}

#[test]
fn test_mixed_schemes_considered_independent() {
    let endpoints = v(&["s3://bucket1/", "file:///mnt/data/"]);
    assert!(!endpoints_share_storage(&endpoints));
}

#[test]
fn test_direct_uri_shared_storage() {
    let endpoints = v(&["direct:///dev/dax0.0", "direct:///dev/dax0.0"]);
    assert!(endpoints_share_storage(&endpoints));
}

#[test]
fn test_direct_uri_independent_storage() {
    let endpoints = v(&["direct:///dev/dax0.0", "direct:///dev/dax0.1"]);
    assert!(!endpoints_share_storage(&endpoints));
}

// ---------------------------------------------------------------------------
// Further cases.
// ---------------------------------------------------------------------------

#[test]
fn unparsable_uris_are_not_shared() {
    assert!(!endpoints_share_storage(&v(&["not a uri", "not a uri"])));
    assert!(!endpoints_share_storage(&v(&["s3://host/", "s3://host/"])));
    assert!(!endpoints_share_storage(&[]));
}

#[test]
fn file_index_extraction() {
    assert_eq!(extract_file_index_from_path("d1_w2/file_00000123.dat"), Some(123));
    assert_eq!(extract_file_index_from_path("prepared-00000042.dat"), Some(42));
    assert_eq!(extract_file_index_from_path("file_00000000.dat"), Some(0));
    assert_eq!(extract_file_index_from_path("noindex.dat"), None);
    assert_eq!(extract_file_index_from_path("file_abc.dat"), None);
    assert_eq!(extract_file_index_from_path("a/b/obj_7"), Some(7));
}

#[test]
fn planned_entry() {
    let e = ObjectEntry::new_planned("d1/f.dat".to_string(), 42, 3);
    assert_eq!(e.path, "d1/f.dat");
    assert_eq!(e.size, 42);
    assert_eq!(e.state, ObjectState::Planned);
    assert_eq!(e.endpoint_idx, 3);
    assert_eq!(e.created_at, None);
    assert_eq!(e.checksum, None);
}

#[test]
fn coverage_from_counts() {
    let counts = vec![1, 2, 3, 10, 4, 5];
    let bytes = vec![0u64, 0, 0, 100, 0, 0];
    let c = CheckpointCoverage::from_state_counts(counts, bytes, 10);
    assert_eq!(c.created_count, 10);
    assert_eq!(c.planned_count, 2);
    assert_eq!(c.failed_count, 4);
    assert_eq!(c.total_tracked, 25);
    assert!(c.covers_all);
    let c2 = CheckpointCoverage::from_state_counts(vec![0; 6], vec![0; 6], 0);
    assert!(!c2.covers_all);
    let c3 = CheckpointCoverage::from_state_counts(vec![0, 0, 0, 9, 0, 0], vec![0; 6], 10);
    assert!(!c3.covers_all);
}

#[test]
fn flush_policy_write_accounting() {
    assert_eq!(FlushPolicy::Immediate.on_write(7), (7, true));
    assert_eq!(FlushPolicy::BatchSize(3).on_write(0), (1, false));
    assert_eq!(FlushPolicy::BatchSize(3).on_write(1), (2, false));
    assert_eq!(FlushPolicy::BatchSize(3).on_write(2), (0, true));
    assert_eq!(FlushPolicy::BatchSize(0).on_write(0), (0, true));
    assert_eq!(FlushPolicy::AsyncInterval(30).on_write(5), (6, false));
    assert_eq!(FlushPolicy::AsyncInterval(30).on_write(u64::MAX), (0, false));
}

#[test]
fn aggregate_coverage() {
    let mut totals = vec![0usize; 6];
    sai3_bench::metadata_cache::add_state_counts(&mut totals, &[0, 1, 0, 5, 0, 0]);
    sai3_bench::metadata_cache::add_state_counts(&mut totals, &[0, 0, 0, 4, 2, 0]);
    assert_eq!(totals, vec![0, 1, 0, 9, 2, 0]);
    let c = CheckpointCoverage::from_aggregate(totals, vec![0; 6], 9).unwrap();
    assert!(c.covers_all);
    assert_eq!(c.total_tracked, 12);
    assert!(CheckpointCoverage::from_aggregate(vec![0; 6], vec![0; 6], 9).is_none());
}

#[test]
fn batch_flush_cadence() {
    let policy = FlushPolicy::BatchSize(3);
    let mut pending = 0u64;
    let mut persists = 0;
    for _ in 0..7 {
        let (p, persist) = policy.on_write(pending);
        pending = p;
        if persist {
            persists += 1;
        }
    }
    assert_eq!((pending, persists), (1, 2));
    let mut pending = 9u64;
    let mut persists = 0;
    for _ in 0..5 {
        let (p, persist) = FlushPolicy::AsyncInterval(30).on_write(pending);
        pending = p;
        persists += persist as u32;
    }
    assert_eq!((pending, persists), (14, 0));
}

#[test]
fn test_write_counter_batch_threshold() {
    let mut c = WriteCounter::new(FlushPolicy::default());
    c.set_policy(FlushPolicy::BatchSize(10));
    for _ in 0..9 {
        assert!(!c.record_write());
    }
    assert_eq!(c.pending(), 9);
    assert!(c.record_write());
    assert_eq!(c.pending(), 0);
    for _ in 0..5 {
        c.record_write();
    }
    assert_eq!(c.pending(), 5);
}

#[test]
fn test_write_counter_async_and_force_flush() {
    let mut c = WriteCounter::new(FlushPolicy::AsyncInterval(30));
    for _ in 0..1000 {
        assert!(!c.record_write());
    }
    assert_eq!(c.pending(), 1000);
    assert_eq!(c.take_pending(), 1000);
    assert_eq!(c.pending(), 0);
    c.set_policy(FlushPolicy::Immediate);
    assert!(c.record_write());
    assert_eq!(c.pending(), 0);
    c.set_policy(FlushPolicy::BatchSize(0));
    assert!(c.record_write());
    assert_eq!(c.pending(), 0);
}

#[test]
fn coverage_summed_over_endpoints() {
    let per_counts = vec![vec![0usize, 1, 0, 5, 0, 0], vec![0, 0, 0, 4, 2, 0], vec![0, 0, 1, 0, 0, 3]];
    let per_bytes = vec![vec![0u64, 10, 0, 500, 0, 0], vec![0, 0, 0, 400, 20, 0], vec![0, 0, 7, 0, 0, 30]];
    let c = sai3_bench::metadata_cache::coverage_over_endpoints(&per_counts, &per_bytes, 9).unwrap();
    assert_eq!(c.state_counts, vec![0, 1, 1, 9, 2, 3]);
    assert_eq!(c.bytes_by_state, vec![0, 10, 7, 900, 20, 30]);
    assert_eq!(c.total_tracked, 16);
    assert_eq!(c.created_count, 9);
    assert_eq!(c.planned_count, 1);
    assert_eq!(c.failed_count, 2);
    assert!(c.covers_all);
    let short = sai3_bench::metadata_cache::coverage_over_endpoints(&per_counts, &per_bytes, 10).unwrap();
    assert!(!short.covers_all);
    let empty = vec![vec![0usize; 6], vec![0usize; 6]];
    let empty_bytes = vec![vec![0u64; 6], vec![0u64; 6]];
    assert!(sai3_bench::metadata_cache::coverage_over_endpoints(&empty, &empty_bytes, 1).is_none());
    assert!(sai3_bench::metadata_cache::coverage_over_endpoints(&Vec::new(), &Vec::new(), 1).is_none());
}

#[test]
fn test_write_counter_pending_after_k_writes() {
    for k in 0u64..40 {
        for (policy, expected) in [
            (FlushPolicy::Immediate, 0),
            (FlushPolicy::BatchSize(0), 0),
            (FlushPolicy::BatchSize(7), k % 7),
            (FlushPolicy::AsyncInterval(5), k),
        ] {
            let mut c = WriteCounter::new(FlushPolicy::AsyncInterval(1));
            c.record_write();
            c.set_policy(policy);
            for _ in 0..k {
                c.record_write();
            }
            assert_eq!(c.pending(), expected);
            c.take_pending();
            assert_eq!(c.pending(), 0);
        }
    }
}
