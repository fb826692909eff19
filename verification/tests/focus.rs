use chrono::NaiveDate;
use labello::contributors::{scoring_focus_due, Event, EventPayload};
use labello::focus::{FocusHistory, FOCUS_SECONDS};
use labello::stats::{focus_pending, ImageSummary, TaskDefinition, TaskImageState, TaskStatus};

const VERSION: u32 = 1;
const A: u64 = 1;
const B: u64 = 2;

fn at(hour: u32, minute: u32) -> i64 {
    NaiveDate::from_ymd_opt(2026, 1, 2).unwrap().and_hms_opt(hour, minute, 0).unwrap().and_utc().timestamp()
}

fn tasks() -> Vec<TaskDefinition> {
    vec![
        TaskDefinition { task_id: A, enabled: true, class_ids: vec![A] },
        TaskDefinition { task_id: B, enabled: true, class_ids: vec![B] },
    ]
}

fn image(a_status: Option<TaskStatus>) -> ImageSummary {
    let tasks = match a_status {
        Some(status) => vec![TaskImageState { task_id: A, status: Some(status), import_coverage: None, migration_targets: None }],
        None => Vec::new(),
    };
    ImageSummary { tasks, annotations: Vec::new(), review_times: Vec::new() }
}

#[test]
fn focus_is_persisted_across_restart_changes_only_at_boundary_and_rejects_corruption() {
    let timestamp = at(12, 3);
    let mut history = FocusHistory::new(VERSION);
    assert!(history.validate(VERSION));
    let pending = focus_pending(&tasks(), &vec![image(None)]);
    assert_eq!(pending, vec![(A, 1), (B, 1)]);
    assert!(history.advance(timestamp, &pending));
    let initial = history.windows.clone();
    assert_eq!(initial[0].task_id, Some(A));
    assert_eq!(initial[0].starts_at, timestamp);
    let boundary = at(12, 20);
    assert_eq!(initial[0].ends_at, boundary);
    let submitted_at = at(12, 5);
    let submission = Event {
        actor: 9,
        timestamp: submitted_at,
        payload: EventPayload::TaskStateChanged {
            task_id: A,
            status: TaskStatus::Submitted,
            outcome: None,
            completed_by: Some(9),
        },
    };
    assert_eq!(scoring_focus_due(&vec![submission]), Some(submitted_at));
    // Before the boundary nothing changes.
    assert!(!history.advance(submitted_at, &focus_pending(&tasks(), &vec![image(Some(TaskStatus::Submitted))])));
    assert_eq!(history.windows, initial);
    assert!(history.validate(VERSION));
    let pending = focus_pending(&tasks(), &vec![image(Some(TaskStatus::Submitted))]);
    assert_eq!(pending, vec![(A, 0), (B, 1)]);
    assert!(history.advance(boundary, &pending));
    assert_eq!(history.windows[1].task_id, Some(B));
    assert_eq!(history.windows[1].starts_at, boundary);
    assert_eq!(history.windows[1].ends_at, boundary + FOCUS_SECONDS);
    assert_eq!(history.windows[0], initial[0]);
    assert!(history.validate(VERSION));
    let corrupt = FocusHistory { version: 99, windows: Vec::new() };
    assert!(!corrupt.validate(VERSION));
}

#[test]
fn only_submissions_by_a_known_user_move_the_focus() {
    let progress = Event {
        actor: 9,
        timestamp: 5,
        payload: EventPayload::TaskStateChanged { task_id: A, status: TaskStatus::InProgress, outcome: None, completed_by: Some(9) },
    };
    let anonymous = Event {
        actor: 9,
        timestamp: 6,
        payload: EventPayload::TaskStateChanged { task_id: A, status: TaskStatus::Submitted, outcome: None, completed_by: None },
    };
    assert_eq!(scoring_focus_due(&vec![progress, anonymous]), None);
    assert_eq!(scoring_focus_due(&Vec::new()), None);
}
