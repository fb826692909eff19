use labello::workspace::{
    marker_reason, review_next_label, review_primary_label, shortcut_button_label, workspace_bars_loading, BarInputs,
    BarScope, MarkerInputs,
    WorkflowMarkerReason, WorkflowUnavailableReason, WorkspaceBars,
};

fn idle() -> MarkerInputs {
    MarkerInputs {
        saving: false,
        image_loading: false,
        transition_pending: false,
        availability_current: true,
        availability_failed: false,
        shown_unavailable: false,
        reason: None,
        availability_loading: false,
    }
}

#[test]
fn markers_prefer_local_activity_then_the_availability_check() {
    let mut inputs = idle();
    assert_eq!(marker_reason(inputs), None);
    inputs.availability_loading = true;
    assert_eq!(marker_reason(inputs), Some(WorkflowMarkerReason::Checking));
    inputs.shown_unavailable = true;
    assert_eq!(
        marker_reason(inputs),
        Some(WorkflowMarkerReason::Unavailable(WorkflowUnavailableReason::Unavailable))
    );
    inputs.reason = Some(WorkflowUnavailableReason::BalanceLimit);
    assert_eq!(
        marker_reason(inputs).map(|r| r.label()),
        Some("Other workflows need to catch up")
    );
    inputs.availability_failed = true;
    assert_eq!(marker_reason(inputs), Some(WorkflowMarkerReason::CheckFailed));
    inputs.availability_current = false;
    assert_eq!(marker_reason(inputs), None);
    inputs.transition_pending = true;
    assert_eq!(marker_reason(inputs), Some(WorkflowMarkerReason::Transition));
    inputs.saving = true;
    assert_eq!(marker_reason(inputs).map(|r| r.label()), Some("Saving changes"));
}

#[test]
fn shortcut_buttons_fall_back_to_their_action_name() {
    assert_eq!(shortcut_button_label("", "Approve"), "Approve");
    assert_eq!(shortcut_button_label("Ctrl+Enter", "Approve"), "Ctrl+Enter");
}

fn scope(workspace_epoch: u64) -> BarScope {
    BarScope { auth_epoch: 1, workspace_epoch, view: 0, dataset: 3, task: Some(4) }
}

fn working() -> BarInputs {
    BarInputs {
        work_view: true,
        session_loading: false,
        dataset_loading: false,
        image_loading: false,
        logout_loading: false,
        availability_loading: false,
        load_after_resolution: false,
        api_available: true,
        has_assignment: true,
    }
}

fn loading_image() -> BarInputs {
    BarInputs { image_loading: true, ..working() }
}

#[test]
fn bars_keep_their_presentation_while_the_next_image_loads() {
    let mut bars: WorkspaceBars<String> = WorkspaceBars::new();
    assert!(bars.workspace_bars_blank(loading_image(), false));
    bars.sync_workspace_bars(scope(1), working(), Some("image one".to_string()));
    assert_eq!(bars.presentation(), Some(&"image one".to_string()));
    bars.sync_workspace_bars(scope(1), loading_image(), Some("ignored".to_string()));
    assert_eq!(bars.presentation(), Some(&"image one".to_string()));
    assert!(!bars.workspace_bars_blank(loading_image(), true));
    bars.sync_workspace_bars(scope(1), working(), Some("image two".to_string()));
    assert_eq!(bars.presentation(), Some(&"image two".to_string()));
}

#[test]
fn bars_are_cleared_by_a_new_scope_or_leaving_the_workspace() {
    let mut bars: WorkspaceBars<String> = WorkspaceBars::new();
    bars.sync_workspace_bars(scope(1), working(), Some("image one".to_string()));
    bars.sync_workspace_bars(scope(2), loading_image(), None);
    assert_eq!(bars.presentation(), None);
    assert!(bars.workspace_bars_blank(loading_image(), false));
    bars.sync_workspace_bars(scope(2), working(), Some("image two".to_string()));
    bars.sync_workspace_bars(scope(2), BarInputs { work_view: false, ..loading_image() }, None);
    assert_eq!(bars.presentation(), None);
    bars.sync_workspace_bars(scope(2), working(), None);
    assert_eq!(bars.presentation(), None);
}

#[test]
fn bars_show_the_image_only_with_an_assignment_when_a_server_is_used() {
    let mut bars: WorkspaceBars<String> = WorkspaceBars::new();
    bars.sync_workspace_bars(scope(1), BarInputs { has_assignment: false, ..working() }, Some("image".to_string()));
    assert_eq!(bars.presentation(), None);
    bars.sync_workspace_bars(
        scope(1),
        BarInputs { has_assignment: false, api_available: false, ..working() },
        Some("image".to_string()),
    );
    assert_eq!(bars.presentation(), Some(&"image".to_string()));
    let waiting = BarInputs { availability_loading: true, load_after_resolution: true, ..working() };
    assert!(workspace_bars_loading(waiting, false));
    assert!(!workspace_bars_loading(waiting, true));
}

#[test]
fn review_bar_buttons_follow_the_review_position() {
    assert_eq!(review_primary_label(true), "Submit correction");
    assert_eq!(review_primary_label(false), "Approve");
    assert_eq!(review_next_label(2, 3), "Overview");
    assert_eq!(review_next_label(1, 3), "Next object");
    assert_eq!(review_next_label(0, 0), "Next object");
}
