use sai3_bench::cli::{
    check_run_flags, preflight_list_prefix, ListingOutcome, PreflightCheck, RunFlagConflict,
    build_trial_uri, fmt_commas, parse_csv_bool, parse_csv_usize, parse_optimize_for_str,
    parse_rapid_mode_str, parse_tune_ops_str, resolve_util_uri, validate_uri, CliError, OptimizeFor,
    RapidModeArg, TuneCase, TuneOps,
};

#[test]
fn test_resolve_util_uri_flag_only() {
    let result = resolve_util_uri(Some("s3://bucket/".to_string()), None).unwrap();
    assert_eq!(result, "s3://bucket/");
}

#[test]
fn test_resolve_util_uri_positional_only() {
    let result = resolve_util_uri(None, Some("gs://bucket/prefix/".to_string())).unwrap();
    assert_eq!(result, "gs://bucket/prefix/");
}

#[test]
fn test_resolve_util_uri_both_same_accepted() {
    let result = resolve_util_uri(Some("s3://bucket/".to_string()), Some("s3://bucket/".to_string())).unwrap();
    assert_eq!(result, "s3://bucket/");
}

#[test]
fn test_resolve_util_uri_both_different_errors() {
    let result = resolve_util_uri(Some("s3://bucket-a/".to_string()), Some("s3://bucket-b/".to_string()));
    assert!(result.is_err());
}

#[test]
fn test_resolve_util_uri_neither_errors() {
    let result = resolve_util_uri(None, None);
    assert!(result.is_err());
}

#[test]
fn test_parse_csv_usize_single() {
    assert_eq!(parse_csv_usize("16").unwrap(), vec![16]);
}

#[test]
fn test_parse_csv_usize_multi() {
    assert_eq!(parse_csv_usize("16,32,64").unwrap(), vec![16, 32, 64]);
}

#[test]
fn test_parse_csv_usize_spaces() {
    assert_eq!(parse_csv_usize(" 16 , 32 , 64 ").unwrap(), vec![16, 32, 64]);
}

#[test]
fn test_parse_csv_usize_empty_errors() {
    assert!(parse_csv_usize("").is_err());
    assert!(parse_csv_usize("   ").is_err());
}

#[test]
fn test_parse_csv_usize_invalid_errors() {
    assert!(parse_csv_usize("16,abc").is_err());
}

#[test]
fn test_parse_csv_bool_true_values() {
    for v in &["true", "1", "yes", "on"] {
        assert_eq!(parse_csv_bool(v).unwrap(), vec![true], "failed for '{}'", v);
    }
}

#[test]
fn test_parse_csv_bool_false_values() {
    for v in &["false", "0", "no", "off"] {
        assert_eq!(parse_csv_bool(v).unwrap(), vec![false], "failed for '{}'", v);
    }
}

#[test]
fn test_parse_csv_bool_multi() {
    assert_eq!(parse_csv_bool("false,true").unwrap(), vec![false, true]);
}

#[test]
fn test_parse_csv_bool_empty_errors() {
    assert!(parse_csv_bool("").is_err());
}

#[test]
fn test_parse_csv_bool_invalid_errors() {
    assert!(parse_csv_bool("maybe").is_err());
}

#[test]
fn test_build_trial_uri_with_glob() {
    assert_eq!(build_trial_uri("gs://bucket/prefix/*.dat", 0), "gs://bucket/prefix/trial000_*.dat");
}

#[test]
fn test_build_trial_uri_trailing_slash() {
    assert_eq!(build_trial_uri("gs://bucket/prefix/", 5), "gs://bucket/prefix/autotune/trial005/obj*.dat");
}

#[test]
fn test_build_trial_uri_bare() {
    assert_eq!(build_trial_uri("gs://bucket/prefix", 3), "gs://bucket/prefix.trial003.*");
}

#[test]
fn test_build_trial_uri_zero_padding() {
    let uri = build_trial_uri("s3://bucket/", 42);
    assert!(uri.contains("trial042"), "expected trial042 in '{}'", uri);
}

#[test]
fn test_parse_rapid_mode_str_all_variants() {
    assert!(matches!(parse_rapid_mode_str("auto").unwrap(), RapidModeArg::Auto));
    assert!(matches!(parse_rapid_mode_str("on").unwrap(), RapidModeArg::On));
    assert!(matches!(parse_rapid_mode_str("true").unwrap(), RapidModeArg::On));
    assert!(matches!(parse_rapid_mode_str("yes").unwrap(), RapidModeArg::On));
    assert!(matches!(parse_rapid_mode_str("1").unwrap(), RapidModeArg::On));
    assert!(matches!(parse_rapid_mode_str("off").unwrap(), RapidModeArg::Off));
    assert!(matches!(parse_rapid_mode_str("false").unwrap(), RapidModeArg::Off));
    assert!(matches!(parse_rapid_mode_str("no").unwrap(), RapidModeArg::Off));
    assert!(matches!(parse_rapid_mode_str("0").unwrap(), RapidModeArg::Off));
}

#[test]
fn test_parse_rapid_mode_str_invalid() {
    assert!(parse_rapid_mode_str("maybe").is_err());
    assert!(parse_rapid_mode_str("").is_err());
}

#[test]
fn test_parse_optimize_for_str() {
    assert!(matches!(parse_optimize_for_str("throughput").unwrap(), OptimizeFor::Throughput));
    assert!(matches!(parse_optimize_for_str("latency").unwrap(), OptimizeFor::Latency));
    assert!(parse_optimize_for_str("bandwidth").is_err());
}

#[test]
fn test_parse_tune_ops_str() {
    assert!(matches!(parse_tune_ops_str("put").unwrap(), TuneOps::Put));
    assert!(matches!(parse_tune_ops_str("get").unwrap(), TuneOps::Get));
    assert!(matches!(parse_tune_ops_str("both").unwrap(), TuneOps::Both));
    assert!(parse_tune_ops_str("all").is_err());
}

#[test]
fn test_channels_per_thread_effective_computation() {
    let cases = vec![(16, 1, 16), (32, 2, 64), (64, 4, 256), (8, 3, 24)];
    for (th, cpt, expected) in cases {
        assert_eq!(th * cpt, expected, "threads={} × cpt={}", th, cpt);
    }
}

#[test]
fn test_autotune_yaml_channels_per_thread_csv_parsing() {
    let parsed = parse_csv_usize("1,2,4,8").unwrap();
    assert_eq!(parsed, vec![1, 2, 4, 8]);
}

#[test]
fn test_autotune_yaml_channels_per_thread_single() {
    let parsed = parse_csv_usize("2").unwrap();
    assert_eq!(parsed, vec![2]);
}

#[test]
fn test_autotune_yaml_channels_per_thread_invalid() {
    assert!(parse_csv_usize("1,x,4").is_err());
}

#[test]
fn test_channels_per_thread_zero_rejected() {
    let csv = parse_csv_usize("0").unwrap();
    assert!(csv.iter().any(|&v| v == 0), "parsed 0 as usize");
    let cpts = parse_csv_usize("1,0,4").unwrap();
    assert!(cpts.iter().any(|&v| v == 0));
    let ok = parse_csv_usize("1,2,4").unwrap();
    assert!(!ok.iter().any(|&v| v == 0));
}

#[test]
fn test_tune_case_has_channels_per_thread_field() {
    let absolute = TuneCase {
        size_bytes: 1024,
        threads: 32,
        channels: 64,
        channels_per_thread: None,
        range_enabled: false,
        range_threshold_mb: 32,
        gcs_write_chunk_size: 2097152,
    };
    assert!(absolute.channels_per_thread.is_none());

    let per_thread = TuneCase {
        size_bytes: 1024,
        threads: 32,
        channels: 128,
        channels_per_thread: Some(4),
        range_enabled: false,
        range_threshold_mb: 32,
        gcs_write_chunk_size: 2097152,
    };
    assert_eq!(per_thread.channels_per_thread, Some(4));
    assert_eq!(per_thread.channels, per_thread.threads * per_thread.channels_per_thread.unwrap());
}

// ---------------------------------------------------------------------------
// Further cases.
// ---------------------------------------------------------------------------

#[test]
fn keywords_ignore_case_and_whitespace() {
    assert!(matches!(parse_rapid_mode_str("  AUTO \t").unwrap(), RapidModeArg::Auto));
    assert!(matches!(parse_optimize_for_str(" Latency ").unwrap(), OptimizeFor::Latency));
    assert!(matches!(parse_tune_ops_str("BOTH").unwrap(), TuneOps::Both));
}

#[test]
fn error_messages() {
    let e = parse_rapid_mode_str(" maybe ").unwrap_err();
    assert_eq!(e.message(), "Invalid gcs_rapid_mode ' maybe '. Use auto|on|off");
    let e = parse_optimize_for_str("bandwidth").unwrap_err();
    assert_eq!(e.message(), "Invalid optimize_for 'bandwidth'. Use throughput|latency");
    let e = parse_tune_ops_str("all").unwrap_err();
    assert_eq!(e.message(), "Invalid ops 'all'. Use put|get|both");
    let e = resolve_util_uri(Some("a".into()), Some("b".into())).unwrap_err();
    assert!(matches!(e, CliError::ConflictingUri));
    assert_eq!(e.message(), "Provide URI either as positional <URI> or --uri <URI>, not both");
    let e = resolve_util_uri(None, None).unwrap_err();
    assert!(matches!(e, CliError::MissingUri));
    assert_eq!(e.message(), "Missing URI: use positional <URI> or --uri <URI>");
    let e = parse_csv_usize("1, x ,y").unwrap_err();
    assert_eq!(e.message(), "Invalid integer: x");
    let e = parse_csv_usize(" , ").unwrap_err();
    assert_eq!(e.message(), "Expected at least one numeric value, got ' , '.");
    let e = parse_csv_bool("true,Maybe").unwrap_err();
    assert_eq!(e.message(), "Invalid bool 'Maybe'. Use true/false.");
    let e = parse_csv_bool(",,").unwrap_err();
    assert_eq!(e.message(), "Expected at least one bool value, got ',,'.");
}

#[test]
fn csv_edge_cases() {
    assert_eq!(parse_csv_usize("1,,2,").unwrap(), vec![1, 2]);
    assert_eq!(parse_csv_usize("+7").unwrap(), vec![7]);
    assert!(parse_csv_usize("18446744073709551616").is_err());
    assert!(parse_csv_usize("-1").is_err());
    assert_eq!(parse_csv_bool(" YES , Off ").unwrap(), vec![true, false]);
}

#[test]
fn trial_uri_replaces_first_glob_only() {
    assert_eq!(build_trial_uri("s3://b/*/x*", 7), "s3://b/trial007_*/x*");
    assert_eq!(build_trial_uri("s3://b/p", 1234), "s3://b/p.trial1234.*");
}

#[test]
fn commas_group_by_three() {
    assert_eq!(fmt_commas(0), "0");
    assert_eq!(fmt_commas(999), "999");
    assert_eq!(fmt_commas(1000), "1,000");
    assert_eq!(fmt_commas(1234567), "1,234,567");
    assert_eq!(fmt_commas(u64::MAX), "18,446,744,073,709,551,615");
}

#[test]
fn uri_validation() {
    assert_eq!(validate_uri("s3://bucket/prefix/").unwrap(), "s3://bucket/prefix/");
    assert_eq!(validate_uri("file:///tmp/x").unwrap(), "file:///tmp/x");
    assert_eq!(validate_uri("gcs://b/").unwrap(), "gcs://b/");
    let e = validate_uri("http://example.com/").unwrap_err();
    assert_eq!(e.message(), "Unsupported backend scheme 'http'. Supported schemes: file://, direct://, s3://, az://, gs://");
    let e = validate_uri("no scheme here").unwrap_err();
    assert!(matches!(e, CliError::InvalidUri));
    assert_eq!(e.message(), "Invalid URI format");
}

#[test]
fn test_run_flag_combinations() {
    assert_eq!(check_run_flags(false, false, false, false, false), Ok(()));
    assert_eq!(check_run_flags(true, false, false, false, true), Ok(()));
    assert_eq!(check_run_flags(false, false, true, false, true), Ok(()));
    assert_eq!(check_run_flags(true, false, true, false, false), Err(RunFlagConflict::PrepareOnlyWithVerify));
    assert_eq!(check_run_flags(true, true, true, true, true), Err(RunFlagConflict::PrepareOnlyWithVerify));
    assert_eq!(check_run_flags(true, true, false, false, false), Err(RunFlagConflict::PrepareOnlyWithCleanupOnly));
    assert_eq!(check_run_flags(false, true, false, true, false), Err(RunFlagConflict::CleanupOnlyWithSkipPrepare));
    assert_eq!(check_run_flags(false, true, false, false, true), Err(RunFlagConflict::CleanupOnlyWithNoCleanup));
    assert_eq!(check_run_flags(false, false, true, true, false), Err(RunFlagConflict::VerifyWithSkipPrepare));
    assert_eq!(
        RunFlagConflict::CleanupOnlyWithNoCleanup.message(),
        "Cannot use --cleanup-only with --no-cleanup"
    );
}

#[test]
fn test_preflight_list_prefix() {
    assert_eq!(preflight_list_prefix("s3://b/", "data/*"), "s3://b/data");
    assert_eq!(preflight_list_prefix("s3://b", "data/obj*"), "s3://b/data/obj");
    assert_eq!(preflight_list_prefix("file:///mnt/x/", "d1/**"), "file:///mnt/x/d1");
}

#[test]
fn test_preflight_check_stops_at_first_listing_with_objects() {
    let paths: Vec<String> = vec!["a/*".into(), "b/*".into(), "c/*".into(), "d/*".into()];
    let mut check = PreflightCheck::new("s3://bkt", &paths);
    assert_eq!(check.next_prefix().unwrap(), "s3://bkt/a");
    check.record(ListingOutcome::Listed(0));
    assert_eq!(check.next_prefix().unwrap(), "s3://bkt/b");
    check.record(ListingOutcome::Failed);
    assert_eq!(check.next_prefix().unwrap(), "s3://bkt/c");
    check.record(ListingOutcome::Listed(5));
    assert!(check.next_prefix().is_none());
    assert!(check.found());
    assert!(!check.warning_due());
    assert_eq!(check.checked(), &vec!["s3://bkt/a".to_string(), "s3://bkt/b".to_string()]);
}

#[test]
fn test_preflight_check_tries_at_most_three_paths() {
    let paths: Vec<String> = vec!["a/".into(), "b".into(), "c*".into(), "d".into()];
    let mut check = PreflightCheck::new("file:///x/", &paths);
    let mut tried = Vec::new();
    while let Some(p) = check.next_prefix() {
        tried.push(p.clone());
        check.record(ListingOutcome::Listed(0));
    }
    assert_eq!(tried, vec!["file:///x/a", "file:///x/b", "file:///x/c"]);
    assert!(!check.found());
    assert!(check.warning_due());
    assert_eq!(check.checked().len(), 3);

    let none = PreflightCheck::new("s3://bkt", &Vec::new());
    assert!(none.next_prefix().is_none());
    assert!(!none.warning_due());
}
