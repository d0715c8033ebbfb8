use sai3_bench::live_stats::{StageState, WorkloadStage};

#[test]
fn stage_numbers_round_trip() {
    let all = [
        WorkloadStage::Unknown,
        WorkloadStage::Prepare,
        WorkloadStage::Workload,
        WorkloadStage::Cleanup,
        WorkloadStage::Listing,
        WorkloadStage::Custom,
    ];
    let nums = [0, 1, 2, 3, 4, 10];
    for (s, n) in all.iter().zip(nums.iter()) {
        assert_eq!(s.to_proto_i32(), *n);
        assert_eq!(WorkloadStage::from_i32(*n), *s);
    }
    assert_eq!(WorkloadStage::from_i32(5), WorkloadStage::Unknown);
    assert_eq!(WorkloadStage::from_i32(-1), WorkloadStage::Unknown);
    assert_eq!(WorkloadStage::default(), WorkloadStage::Unknown);
}

#[test]
fn stage_names() {
    assert_eq!(WorkloadStage::Unknown.default_name(), "Unknown");
    assert_eq!(WorkloadStage::Prepare.default_name(), "Prepare");
    assert_eq!(WorkloadStage::Workload.default_name(), "Workload");
    assert_eq!(WorkloadStage::Cleanup.default_name(), "Cleanup");
    assert_eq!(WorkloadStage::Listing.default_name(), "Listing");
    assert_eq!(WorkloadStage::Custom.default_name(), "Custom");
}

#[test]
fn test_stage_tracking() {
    let mut st = StageState::new();

    // Initially in Unknown stage
    assert_eq!(st.current_stage(), WorkloadStage::Unknown);
    assert_eq!(st.progress(), (0, 0));

    // Set to Prepare stage with 100 total objects
    st.set_stage(WorkloadStage::Prepare, 100);
    assert_eq!(st.current_stage(), WorkloadStage::Prepare);
    assert_eq!(st.stage_name(), "Prepare");
    assert_eq!(st.progress(), (0, 100));
    assert!(st.prepare_progress().0);

    // Increment progress
    st.increment_stage_progress();
    st.increment_stage_progress();
    assert_eq!(st.progress().0, 2);

    // Transition to Workload stage (time-based, total=0)
    st.set_stage(WorkloadStage::Workload, 0);
    assert_eq!(st.current_stage(), WorkloadStage::Workload);
    assert_eq!(st.stage_name(), "Workload");
    assert_eq!(st.progress(), (0, 0));
    assert!(!st.prepare_progress().0);

    // Transition to Cleanup stage
    st.set_stage(WorkloadStage::Cleanup, 50);
    assert_eq!(st.current_stage(), WorkloadStage::Cleanup);
    assert_eq!(st.stage_name(), "Cleanup");
    assert_eq!(st.progress().1, 50);
}

#[test]
fn test_stage_state_prepare_mirror_and_reset() {
    let mut st = StageState::new();
    st.set_stage(WorkloadStage::Prepare, 100);
    st.set_prepare_progress(5, 10);
    assert_eq!(st.prepare_progress(), (true, 5, 10));
    st.set_stage_progress(7);
    assert_eq!(st.prepare_progress().1, 7);
    st.increment_stage_progress();
    assert_eq!((st.progress().0, st.prepare_progress().1), (8, 8));
    st.reset_for_stage("workload", WorkloadStage::Workload);
    assert_eq!(st.current_stage(), WorkloadStage::Workload);
    assert_eq!(st.stage_name(), "workload");
    assert_eq!(st.progress(), (0, 0));
    st.set_stage_progress(3);
    assert_eq!(st.prepare_progress().1, 8);
    st.set_prepare_complete();
    assert!(!st.prepare_progress().0);
}

#[test]
fn test_stage_state_get_stage_reports_listing() {
    let mut st = StageState::new();
    st.set_stage_with_name(WorkloadStage::Listing, "scan", 0);
    assert_eq!(st.current_stage(), WorkloadStage::Listing);
    assert_eq!(st.get_stage(), WorkloadStage::Listing);
    assert_eq!(st.stage_name(), "scan");
    st.set_stage(WorkloadStage::Custom, 1);
    assert_eq!(st.get_stage(), WorkloadStage::Custom);
}
