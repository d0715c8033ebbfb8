use sai3_bench::endpoint_records::{
    add_state_bytes, cache_dir_name, checkpoint_name, checkpoint_retry_delay_ms, checkpoint_target,
    checkpoint_uri, checkpoint_write_timeout_secs, decode_endpoint_index, decode_seed,
    encode_endpoint_index, encode_seed, endpoint_for_file_index, file_index_from_key, indexed_key,
    key_in_scope,
    listing_key, mark_created_entry, named_key, object_key, owns_file, record_created_entry,
    select_by_state, tally_by_state, with_state, CheckpointTarget, CheckpointTargetError,
};
use sai3_bench::metadata_cache::{ObjectEntry, ObjectState};

fn entry(path: &str, size: u64, state: ObjectState) -> ObjectEntry {
    let mut e = ObjectEntry::new_planned(path.to_string(), size, 0);
    e.state = state;
    e
}

#[test]
fn test_endpoint_ownership() {
    // Endpoint 2 in a 4-endpoint setup
    assert!(owns_file(2, 2, 4));
    assert!(owns_file(2, 6, 4));
    assert!(owns_file(2, 10, 4));
    assert!(!owns_file(2, 0, 4));
    assert!(!owns_file(2, 1, 4));
    assert!(!owns_file(2, 3, 4));
}

#[test]
fn test_endpoint_for_file_index_round_robin() {
    assert_eq!(endpoint_for_file_index(0, 3), 0);
    assert_eq!(endpoint_for_file_index(7, 3), 1);
    for f in 0..20 {
        let e = endpoint_for_file_index(f, 4);
        assert!(owns_file(e, f, 4));
    }
}

#[test]
fn test_cache_key_formats() {
    assert_eq!(object_key("abc", 42), "abc:00000042");
    assert_eq!(object_key("h", 123456789), "h:123456789");
    assert_eq!(indexed_key("h", "round_robin", 7), "h:round_robin:00000007");
    assert_eq!(listing_key("h", 1700000000), "h:list_timestamp:1700000000");
    assert_eq!(named_key("h", "manifest"), "h:manifest");
    assert_eq!(object_key("abc", 42), format!("{}:{:08}", "abc", 42));
}

#[test]
fn test_file_index_from_key() {
    assert_eq!(file_index_from_key("abc:00000042", "abc"), Some(42));
    assert_eq!(file_index_from_key(&object_key("cfg", 99), "cfg"), Some(99));
    assert_eq!(file_index_from_key("abd:00000042", "abc"), None);
    assert_eq!(file_index_from_key("abc:x", "abc"), None);
    assert_eq!(file_index_from_key("abc:", "abc"), None);
    assert_eq!(file_index_from_key("abc:+7", "abc"), Some(7));
}

#[test]
fn test_state_transitions() {
    let e = entry("d/f.dat", 10, ObjectState::Planned);
    let c = with_state(e.clone(), ObjectState::Creating);
    assert_eq!(c.state, ObjectState::Creating);
    assert_eq!(c.path, "d/f.dat");
    let m = mark_created_entry(e.clone(), 77, Some(5));
    assert_eq!(m.state, ObjectState::Created);
    assert_eq!(m.created_at, Some(77));
    assert_eq!(m.checksum, Some(5));
    assert_eq!(m.size, 10);
}

#[test]
fn test_record_created_upsert() {
    let fresh = record_created_entry(None, "p.dat".to_string(), 9, 3, 100, None);
    assert_eq!(fresh.state, ObjectState::Created);
    assert_eq!(fresh.path, "p.dat");
    assert_eq!(fresh.size, 9);
    assert_eq!(fresh.endpoint_idx, 3);
    assert_eq!(fresh.created_at, Some(100));
    let old = entry("old.dat", 4, ObjectState::Failed);
    let up = record_created_entry(Some(old), "new.dat".to_string(), 9, 3, 200, Some(1));
    assert_eq!(up.path, "old.dat");
    assert_eq!(up.size, 4);
    assert_eq!(up.state, ObjectState::Created);
    assert_eq!(up.created_at, Some(200));
    assert_eq!(up.checksum, Some(1));
}

fn sample() -> Vec<(String, ObjectEntry)> {
    vec![
        (object_key("h", 0), entry("a", 10, ObjectState::Created)),
        (object_key("h", 1), entry("b", 20, ObjectState::Planned)),
        (object_key("g", 2), entry("c", 40, ObjectState::Created)),
        (object_key("h", 3), entry("d", 80, ObjectState::Created)),
        ("h:bad".to_string(), entry("e", 160, ObjectState::Created)),
    ]
}

#[test]
fn test_tally_by_state() {
    let (counts, bytes) = tally_by_state(&sample(), "h");
    assert_eq!(counts, vec![0, 1, 0, 3, 0, 0]);
    assert_eq!(bytes, vec![0, 20, 0, 250, 0, 0]);
    let (counts, bytes) = tally_by_state(&sample(), "zzz");
    assert_eq!(counts, vec![0; 6]);
    assert_eq!(bytes, vec![0; 6]);
}

#[test]
fn test_select_by_state() {
    let got = select_by_state(sample(), "h", ObjectState::Created);
    let idx: Vec<usize> = got.iter().map(|(i, _)| *i).collect();
    assert_eq!(idx, vec![0, 3]);
    assert_eq!(got[1].1.path, "d");
    assert!(select_by_state(sample(), "h", ObjectState::Failed).is_empty());
}

#[test]
fn test_add_state_bytes() {
    let mut totals = vec![1u64, 2, 3];
    add_state_bytes(&mut totals, &[10, 20, 30]);
    assert_eq!(totals, vec![11, 22, 33]);
}

#[test]
fn test_value_framing_matches_le_bytes() {
    for v in [0usize, 1, 255, 256, 70000, 0xdead_beef] {
        assert_eq!(encode_endpoint_index(v), (v as u32).to_le_bytes().to_vec());
        assert_eq!(decode_endpoint_index(&(v as u32).to_le_bytes()), Some(v as u32 as usize));
    }
    assert_eq!(encode_endpoint_index(0x1_0000_0005), vec![5, 0, 0, 0]);
    assert_eq!(decode_endpoint_index(&[1, 2, 3]), None);
    for s in [0u64, 1, 0x0102_0304_0506_0708, u64::MAX] {
        assert_eq!(encode_seed(s), s.to_le_bytes().to_vec());
        assert_eq!(decode_seed(&s.to_le_bytes()), Some(s));
    }
    assert_eq!(decode_seed(&[0; 7]), None);
}

#[test]
fn test_cache_dir_name() {
    let uri = "file:///mnt/nvme1/";
    let h = seahash::hash(uri.as_bytes());
    assert_eq!(cache_dir_name(uri, Some(3)), format!("sai3-cache-agent-3-{:016x}", h));
    assert_eq!(cache_dir_name(uri, None), format!("sai3-cache-{:016x}", h));
    assert_ne!(cache_dir_name("s3://a/", None), cache_dir_name("s3://b/", None));
}

#[test]
fn test_checkpoint_names() {
    assert_eq!(checkpoint_name(Some(4)), ".sai3-cache-agent-4.tar.zst");
    assert_eq!(checkpoint_name(None), "sai3-kv-cache.tar.zst");
    assert_eq!(checkpoint_uri("s3://b/p/", "x.tar.zst"), "s3://b/p/x.tar.zst");
    assert_eq!(checkpoint_uri("s3://b/p", "x.tar.zst"), "s3://b/p/x.tar.zst");
}

#[test]
fn test_checkpoint_target() {
    match checkpoint_target("file:///tmp/data", "c.tar.zst") {
        Ok(CheckpointTarget::LocalFile(p)) => assert_eq!(p, "/tmp/data/c.tar.zst"),
        other => panic!("unexpected {:?}", other),
    }
    match checkpoint_target("file:///tmp/my%20data/", "c.tar.zst") {
        Ok(CheckpointTarget::LocalFile(p)) => assert_eq!(p, "/tmp/my data/c.tar.zst"),
        other => panic!("unexpected {:?}", other),
    }
    match checkpoint_target("direct:///mnt/d", "c.tar.zst") {
        Ok(CheckpointTarget::LocalFile(p)) => assert_eq!(p, "/mnt/d/c.tar.zst"),
        other => panic!("unexpected {:?}", other),
    }
    match checkpoint_target("s3://bucket/prefix/", "c.tar.zst") {
        Ok(CheckpointTarget::ObjectStore(u)) => assert_eq!(u, "s3://bucket/prefix/c.tar.zst"),
        other => panic!("unexpected {:?}", other),
    }
    assert!(matches!(
        checkpoint_target("ftp://x/", "c"),
        Err(CheckpointTargetError::UnsupportedScheme)
    ));
    assert!(matches!(
        checkpoint_target("file://remote-host/x", "c"),
        Err(CheckpointTargetError::InvalidFilePath)
    ));
    assert!(matches!(
        checkpoint_target("file://[bad/x", "c"),
        Err(CheckpointTargetError::UnparsableFileUri)
    ));
    assert_eq!(
        CheckpointTargetError::UnsupportedScheme.message("ftp://x/"),
        "Unsupported URI scheme for checkpointing: ftp://x/"
    );
}

#[test]
fn test_checkpoint_retry_schedule() {
    assert_eq!(checkpoint_retry_delay_ms(1), Some(1000));
    assert_eq!(checkpoint_retry_delay_ms(2), Some(2000));
    assert_eq!(checkpoint_retry_delay_ms(3), Some(4000));
    assert_eq!(checkpoint_retry_delay_ms(4), Some(8000));
    assert_eq!(checkpoint_retry_delay_ms(5), None);
}

#[test]
fn test_checkpoint_write_timeout() {
    assert_eq!(checkpoint_write_timeout_secs(0), 10);
    assert_eq!(checkpoint_write_timeout_secs(50_000_000), 10);
    assert_eq!(checkpoint_write_timeout_secs(64_000_000), 10);
    assert_eq!(checkpoint_write_timeout_secs(100_000_000), 14);
    assert_eq!(checkpoint_write_timeout_secs(1_000_000_000), 104);
}

#[test]
fn test_key_in_scope() {
    assert!(key_in_scope("abc:00000001", "abc"));
    assert!(!key_in_scope("abcd:00000001", "abc"));
    assert!(!key_in_scope("abc", "abc"));
    assert!(key_in_scope("abc:", "abc"));
}
