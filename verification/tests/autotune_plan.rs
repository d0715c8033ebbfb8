use sai3_bench::autotune::{
    build_sweep, channel_spec, get_trial_args, is_gcs_uri, put_trial_args, trial_env, trial_steps,
    ChannelSpec, TrialStep,
};
use sai3_bench::cli::{CliError, RapidModeArg, TuneCase, TuneOps};

fn case(ch: usize, cpt: Option<usize>) -> TuneCase {
    TuneCase {
        size_bytes: 1048576,
        threads: 32,
        channels: ch,
        channels_per_thread: cpt,
        range_enabled: true,
        range_threshold_mb: 64,
        gcs_write_chunk_size: 2097152,
    }
}

#[test]
fn test_is_gcs_uri() {
    assert!(is_gcs_uri("gs://bucket/p/"));
    assert!(is_gcs_uri("gcs://bucket/p/"));
    assert!(!is_gcs_uri("s3://bucket/p/"));
}

#[test]
fn test_channel_spec_selection() {
    match channel_spec(false, Some("1,2"), None).unwrap() {
        ChannelSpec::Absolute(v) => assert_eq!(v, vec![0]),
        other => panic!("unexpected {:?}", other),
    }
    match channel_spec(true, Some("1,2,4"), None).unwrap() {
        ChannelSpec::PerThread(v, d) => {
            assert_eq!(v, vec![1, 2, 4]);
            assert!(!d);
        }
        other => panic!("unexpected {:?}", other),
    }
    match channel_spec(true, None, Some("8,16")).unwrap() {
        ChannelSpec::Absolute(v) => assert_eq!(v, vec![8, 16]),
        other => panic!("unexpected {:?}", other),
    }
    match channel_spec(true, None, None).unwrap() {
        ChannelSpec::PerThread(v, d) => {
            assert_eq!(v, vec![1]);
            assert!(d);
        }
        other => panic!("unexpected {:?}", other),
    }
}

#[test]
fn test_channel_spec_rejects_zero_multiplier() {
    let err = channel_spec(true, Some("1,0,4"), None).unwrap_err();
    assert!(matches!(err, CliError::ZeroChannelMultiplier));
    assert_eq!(
        err.message(),
        "channels_per_thread: all values must be ≥ 1 (0 is not a valid channel multiplier)"
    );
    assert!(matches!(
        channel_spec(true, Some("1,x"), None),
        Err(CliError::InvalidInteger(t)) if t == "x"
    ));
}

#[test]
fn test_sweep_order_and_size() {
    let sizes = vec![100, 200];
    let threads = vec![1, 2];
    let spec = ChannelSpec::PerThread(vec![1, 3], false);
    let cases = build_sweep(&sizes, &threads, &spec, &vec![false, true], &vec![32], &vec![7]);
    assert_eq!(cases.len(), 2 * 2 * 2 * 2 * 1 * 1);
    let first = &cases[0];
    assert_eq!(
        (first.size_bytes, first.threads, first.channels, first.channels_per_thread, first.range_enabled),
        (100, 1, 1, Some(1), false)
    );
    let c = &cases[1];
    assert_eq!((c.size_bytes, c.threads, c.channels, c.range_enabled), (100, 1, 1, true));
    let c = &cases[2];
    assert_eq!((c.threads, c.channels, c.channels_per_thread), (1, 3, Some(3)));
    let c = &cases[6];
    assert_eq!((c.threads, c.channels, c.channels_per_thread), (2, 6, Some(3)));
    let c = &cases[8];
    assert_eq!((c.size_bytes, c.threads), (200, 1));
    for c in &cases {
        assert_eq!(c.channels, c.threads * c.channels_per_thread.unwrap());
        assert_eq!(c.range_threshold_mb, 32);
        assert_eq!(c.gcs_write_chunk_size, 7);
    }
}

#[test]
fn test_sweep_absolute_and_empty() {
    let abs = ChannelSpec::Absolute(vec![0]);
    let cases = build_sweep(&vec![1], &vec![16, 32, 64], &abs, &vec![false, true], &vec![32, 64], &vec![0]);
    assert_eq!(cases.len(), 3 * 2 * 2);
    assert!(cases.iter().all(|c| c.channels == 0 && c.channels_per_thread.is_none()));
    let none = build_sweep(&vec![], &vec![16], &abs, &vec![true], &vec![32], &vec![0]);
    assert!(none.is_empty());
}

#[test]
fn test_trial_env() {
    let c = case(64, Some(2));
    let env = trial_env(&c, false, RapidModeArg::On);
    assert_eq!(
        env,
        vec![
            ("S3DLIO_ENABLE_RANGE_OPTIMIZATION".to_string(), "1".to_string()),
            ("S3DLIO_RANGE_THRESHOLD_MB".to_string(), "64".to_string()),
        ]
    );
    let env = trial_env(&c, true, RapidModeArg::Off);
    assert_eq!(env.len(), 5);
    assert_eq!(env[2], ("S3DLIO_GCS_GRPC_CHANNELS".to_string(), "64".to_string()));
    assert_eq!(env[3], ("S3DLIO_GRPC_WRITE_CHUNK_SIZE".to_string(), "2097152".to_string()));
    assert_eq!(env[4], ("S3DLIO_GCS_RAPID".to_string(), "false".to_string()));
    assert_eq!(trial_env(&c, true, RapidModeArg::Auto).len(), 4);
}

#[test]
fn test_trial_args_and_steps() {
    let c = case(0, None);
    assert_eq!(
        put_trial_args("s3://b/t*", &c, 64),
        vec!["util", "put", "--uri", "s3://b/t*", "--object-size", "1048576", "--objects", "64", "--concurrency", "32"]
    );
    assert_eq!(get_trial_args("s3://b/t*", &c), vec!["util", "get", "--uri", "s3://b/t*", "--jobs", "32"]);
    assert_eq!(trial_steps(TuneOps::Put), vec![TrialStep::Put]);
    assert_eq!(trial_steps(TuneOps::Get), vec![TrialStep::SeedPut, TrialStep::Get]);
    assert_eq!(trial_steps(TuneOps::Both), vec![TrialStep::Put, TrialStep::Get]);
}
