use sai3_bench::fs_metadata::{path_join, strip_local_scheme, FileMetadataOps};
use sai3_bench::metadata_prefetch::{MetadataPrefetchConfig, MetadataPrefetcher, ObjectMetadata};
use sai3_bench::oplog_merge::worker_oplog_path;

#[test]
fn base_path_from_uri() {
    let ops = FileMetadataOps::new("file:///tmp/test/").unwrap();
    assert_eq!(ops.base_path(), "/tmp/test/");
    let ops = FileMetadataOps::new("direct:///mnt/data").unwrap();
    assert_eq!(ops.base_path(), "/mnt/data");
    let ops = FileMetadataOps::new("relative/dir").unwrap();
    assert_eq!(ops.base_path(), "relative/dir");
}

#[test]
fn resolve_paths_like_path_join() {
    let ops = FileMetadataOps::new("file:///tmp/test").unwrap();
    assert_eq!(ops.resolve_path(""), "/tmp/test");
    assert_eq!(ops.resolve_path("a/b"), "/tmp/test/a/b");
    assert_eq!(ops.resolve_path("/a"), "/tmp/test/a");
    assert_eq!(ops.resolve_path("//abs"), "/abs");
    assert_eq!(ops.resolve_path("/"), "/tmp/test/");
    for (b, p) in [("/tmp", "x"), ("/tmp/", "x"), ("", "x"), ("/tmp", "/y"), ("/tmp", "")] {
        let expected = std::path::Path::new(b).join(p);
        assert_eq!(path_join(b, p), expected.to_str().unwrap());
    }
}

#[test]
fn local_scheme_stripping() {
    assert_eq!(strip_local_scheme("file:///a"), Some("/a"));
    assert_eq!(strip_local_scheme("direct:///dev/x"), Some("/dev/x"));
    assert_eq!(strip_local_scheme("s3://b/k"), None);
}

#[test]
fn prefetch_configuration() {
    let d = MetadataPrefetchConfig::default();
    assert_eq!(d.num_workers, 8);
    assert_eq!(d.buffer_size, 64);
    let p = MetadataPrefetcher::with_default_config();
    assert_eq!(p.config().num_workers, 8);
    assert_eq!(p.config().buffer_size, 64);
    let p = MetadataPrefetcher::new(MetadataPrefetchConfig { num_workers: 2, buffer_size: 3 });
    assert_eq!(p.config().num_workers, 2);
    let m = ObjectMetadata::for_uri("file:///x", Some(5));
    assert!(m.is_local);
    assert_eq!(m.size, Some(5));
    let m = ObjectMetadata::for_uri("gs://b/k", None);
    assert!(!m.is_local);
    assert_eq!(m.uri, "gs://b/k");
}

#[test]
fn worker_log_paths() {
    assert_eq!(worker_oplog_path("/tmp/test.tsv", 0), "/tmp/test-worker-0.tsv");
    assert_eq!(worker_oplog_path("/tmp/test.tsv", 12), "/tmp/test-worker-12.tsv");
    assert_eq!(worker_oplog_path("log.tsv.zst", 1), "log.tsv-worker-1.zst");
    assert_eq!(worker_oplog_path("plain", 2), "plain-worker-2.tsv");
    assert_eq!(worker_oplog_path("/", 3), "./oplog-worker-3.tsv");
}
