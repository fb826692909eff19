use labello::export::{
    omission_label, phase_label, profile_label, ExportAction, ExportOmissionReason, ExportCapabilities, ExportJob, ExportOptions,
    ExportPhase, ExportProfile, ExportReply, ExportSplit, ExportState,
};

const DATASET: u64 = 5;

fn options(classes: Vec<u64>) -> ExportOptions {
    ExportOptions {
        profile: ExportProfile::UltralyticsYoloPoseV1,
        classes,
        fallback_split: ExportSplit::Val,
        split_choices: vec![(3, ExportSplit::Test)],
    }
}

fn job(job_id: u64, created_at: i64, phase: ExportPhase) -> ExportJob {
    ExportJob { job_id, dataset_id: DATASET, created_at, phase, options: options(vec![job_id]) }
}

#[test]
fn the_first_load_lists_newest_first_and_selects_the_newest() {
    let mut state = ExportState::new();
    state.pending = Some((7, ExportAction::Load));
    let mut other = job(9, 50, ExportPhase::Ready);
    other.dataset_id = DATASET + 1;
    let reply = ExportReply::Loaded {
        capabilities: ExportCapabilities { available: true },
        jobs: vec![job(1, 10, ExportPhase::Succeeded), other, job(3, 30, ExportPhase::Failed), job(2, 30, ExportPhase::Ready)],
    };
    assert_eq!(state.accept_result(7, Ok(reply), DATASET), None);
    let ids: Vec<u64> = state.jobs.iter().map(|j| j.job_id).collect();
    assert_eq!(ids, vec![3, 2, 1]);
    assert_eq!(state.selected, Some(3));
    assert_eq!(state.options.classes, vec![3]);
    assert!(state.loaded && state.pending.is_none());
    assert_eq!(state.capabilities, Some(ExportCapabilities { available: true }));
    assert_eq!(state.selected_job().map(|j| j.job_id), Some(3));
    assert_eq!(state.retained_capture().map(|j| j.job_id), Some(2));
}

#[test]
fn later_loads_drop_a_selection_that_is_gone() {
    let mut state = ExportState::new();
    state.loaded = true;
    state.selected = Some(4);
    state.reviewed = true;
    state.pending = Some((1, ExportAction::Load));
    let reply = ExportReply::Loaded {
        capabilities: ExportCapabilities { available: false },
        jobs: vec![job(2, 20, ExportPhase::Cancelled)],
    };
    state.accept_result(1, Ok(reply), DATASET);
    assert_eq!(state.selected, None);
    assert!(!state.reviewed);
    assert_eq!(state.retained_capture().map(|j| j.job_id), None);
}

#[test]
fn stale_results_change_nothing_and_failures_keep_a_refresh_to_retry() {
    let mut state = ExportState::new();
    state.pending = Some((2, ExportAction::Start(8)));
    state.notice = Some("started".to_string());
    assert_eq!(state.accept_result(3, Err("late".to_string()), DATASET), None);
    assert!(state.pending.is_some());
    state.accept_result(2, Err("offline".to_string()), DATASET);
    assert!(state.pending.is_none());
    assert!(matches!(state.retry, Some(ExportAction::Load)));
    assert_eq!(state.error.as_deref(), Some("offline"));
    assert_eq!(state.notice, None);
    state.pending = Some((4, ExportAction::Poll(8)));
    state.request_failed("again".to_string());
    assert!(matches!(state.retry, Some(ExportAction::Poll(8))));
}

#[test]
fn a_preflight_job_is_selected_and_listed_first_and_updates_replace() {
    let mut state = ExportState::new();
    state.jobs = vec![job(1, 10, ExportPhase::Building)];
    state.reviewed = true;
    state.pending = Some((5, ExportAction::Preflight(options(Vec::new()))));
    state.accept_result(5, Ok(ExportReply::Job(job(6, 60, ExportPhase::Capturing))), DATASET);
    assert_eq!(state.jobs.iter().map(|j| j.job_id).collect::<Vec<_>>(), vec![6, 1]);
    assert_eq!(state.selected, Some(6));
    assert!(!state.reviewed);
    state.pending = Some((6, ExportAction::Poll(1)));
    state.accept_result(6, Ok(ExportReply::Job(job(1, 10, ExportPhase::Succeeded))), DATASET);
    assert_eq!(state.jobs[1].phase, ExportPhase::Succeeded);
    assert_eq!(state.selected, Some(6));
}

#[test]
fn downloads_hand_back_the_link_with_a_notice() {
    let mut state = ExportState::new();
    state.pending = Some((9, ExportAction::Download(1)));
    let url = state.accept_result(9, Ok(ExportReply::Download("https://example.test/a.zip".to_string())), DATASET);
    assert_eq!(url.as_deref(), Some("https://example.test/a.zip"));
    assert_eq!(
        state.notice.as_deref(),
        Some("Download requested. Check your browser's downloads for transfer status.")
    );
}

#[test]
fn selecting_an_unknown_job_changes_nothing() {
    let mut state = ExportState::new();
    state.jobs = vec![job(1, 10, ExportPhase::Ready)];
    state.select_job(2);
    assert_eq!(state.selected, None);
    state.select_job(1);
    assert_eq!(state.selected, Some(1));
    assert_eq!(state.options.profile, ExportProfile::UltralyticsYoloPoseV1);
    assert_eq!(state.options.split_choices, vec![(3, ExportSplit::Test)]);
}

#[test]
fn labels_name_profiles_and_phases() {
    assert_eq!(profile_label(ExportProfile::UltralyticsYoloDetectV1), "YOLO detect v1");
    assert_eq!(phase_label(ExportPhase::Succeeded), "Archive ready");
    assert_eq!(phase_label(ExportPhase::Capturing), "Capturing preflight");
}

#[test]
fn omissions_are_named() {
    assert_eq!(omission_label(ExportOmissionReason::UnresolvedMigration), "unresolved migration");
    assert_eq!(omission_label(ExportOmissionReason::ChangedReviewPolicy), "review policy changed");
}
