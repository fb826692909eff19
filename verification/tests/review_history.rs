use labello::assignment::{Assignment, AssignmentKind, AssignmentStatus};
use labello::review_history::{
    commit_keys, HistoryError, ImageState, Observation, Projection, ReviewHistoryCache,
    ReviewHistoryCommit,
};

const REVIEW_USER: u64 = 7;
const TASK: u64 = 1;

fn assignment(
    image_id: u64,
    assignment_id: u64,
    task_id: u64,
    status: AssignmentStatus,
    updated_at: i64,
    expires_at: Option<i64>,
) -> Assignment {
    Assignment {
        assignment_id,
        image_id,
        task_id,
        assigned_to: REVIEW_USER,
        kind: AssignmentKind::Review,
        status,
        expires_at,
        created_at: updated_at,
        updated_at,
    }
}

fn observation(image_id: u64, sequence: u64, timestamp: i64) -> (u64, Observation) {
    let state = ImageState {
        image_id,
        current_sequence: sequence,
        assignments: vec![assignment(
            image_id,
            10_000 + sequence,
            TASK,
            AssignmentStatus::Completed,
            timestamp,
            None,
        )],
    };
    (image_id, Observation::from_state(&state))
}

#[test]
fn observation_excludes_expiry_cleanup_but_keeps_intentional_cancellation() {
    let base = 1_700_000_000;
    let task_completed = 1;
    let task_skipped = 2;
    let state = ImageState {
        image_id: 1,
        current_sequence: 0,
        assignments: vec![
            assignment(1, 1, task_completed, AssignmentStatus::Completed, base, None),
            assignment(
                1,
                2,
                task_completed,
                AssignmentStatus::Cancelled,
                base + 2,
                Some(base + 1),
            ),
            assignment(
                1,
                3,
                task_skipped,
                AssignmentStatus::Cancelled,
                base + 3,
                Some(base + 60),
            ),
        ],
    };

    let observed = Observation::from_state(&state);
    assert_eq!(observed.finished_for(REVIEW_USER, task_completed).unwrap().1, 1);
    assert_eq!(observed.finished_for(REVIEW_USER, task_skipped).unwrap().1, 3);
}

#[test]
fn projection_tracks_latest_two_images_and_allows_equal_timestamp_ties() {
    let base = 1_700_000_000;
    let mut projection = Projection::new();
    for index in 0..1_000u64 {
        let timestamp = base + index as i64;
        let (image, observed) = observation(index, index + 1, timestamp);
        projection.observe(image, observed);
    }

    let (first, second) = projection.latest_two(REVIEW_USER, TASK);
    assert_eq!(first.map(|entry| entry.1), Some(999));
    assert_eq!(second.map(|entry| entry.1), Some(998));

    let tie = base + 2_000;
    let (first_image, first_observation) = observation(5_001, 2_000, tie);
    let (second_image, second_observation) = observation(5_002, 2_001, tie);
    let mut tied = Projection::new();
    tied.observe(first_image, first_observation);
    tied.observe(second_image, second_observation);
    tied.observe(
        5_000,
        Observation {
            sequence: 2_002,
            finished: Vec::new(),
        },
    );
    let cache = ReviewHistoryCache {
        generation: 0,
        projection: Some(tied),
        pending: Vec::new(),
    };
    let source = assignment(5_000, 99, TASK, AssignmentStatus::Cancelled, tie, None);
    assert!(cache.check_previous(&source).is_ok());
}

#[test]
fn a_later_review_on_another_image_blocks_previous() {
    let mut projection = Projection::new();
    let (a, oa) = observation(1, 1, 100);
    let (b, ob) = observation(2, 1, 200);
    projection.observe(a, oa);
    projection.observe(b, ob);
    let source = assignment(1, 50, TASK, AssignmentStatus::Completed, 100, None);
    assert_eq!(
        projection.check_previous(&source),
        Err(HistoryError::NotImmediatelyPrevious)
    );
    // The latest review of the same image does not block it.
    let latest = assignment(2, 51, TASK, AssignmentStatus::Completed, 200, None);
    assert_eq!(projection.check_previous(&latest), Ok(()));
    let gone = assignment(3, 52, TASK, AssignmentStatus::Completed, 300, None);
    assert_eq!(projection.check_previous(&gone), Err(HistoryError::ImageRemoved));
}

#[test]
fn older_observations_never_replace_newer_ones() {
    let mut projection = Projection::new();
    let (a, newer) = observation(1, 5, 500);
    projection.observe(a, newer);
    let (_, older) = observation(1, 4, 900);
    projection.observe(a, older);
    let (first, second) = projection.latest_two(REVIEW_USER, TASK);
    assert_eq!(first.map(|entry| entry.0), Some(500));
    assert_eq!(second, None);
    // A newer observation with no finished review removes the image's entry.
    projection.observe(
        a,
        Observation {
            sequence: 6,
            finished: Vec::new(),
        },
    );
    assert_eq!(projection.latest_two(REVIEW_USER, TASK), (None, None));
    assert!(projection.contains_image(a));
}

#[test]
fn refreshing_history_refuses_previous_and_publishes_pending_observations() {
    let mut cache = ReviewHistoryCache::new();
    let source = assignment(1, 50, TASK, AssignmentStatus::Completed, 100, None);
    assert_eq!(cache.check_previous(&source), Err(HistoryError::Refreshing));
    let generation = cache.generation;
    // A commit lands while the scan runs.
    let (b, ob) = observation(2, 3, 300);
    cache.observe(b, ob);
    let (a, oa) = observation(1, 1, 100);
    let (_, stale_b) = observation(2, 2, 50);
    assert!(cache.publish(generation, &vec![1, 2], vec![(a, oa), (b, stale_b)]));
    assert_eq!(
        cache.check_previous(&source),
        Err(HistoryError::NotImmediatelyPrevious)
    );
    let projection = cache.projection.as_ref().unwrap();
    assert_eq!(projection.latest_two(REVIEW_USER, TASK).0.map(|e| e.0), Some(300));
}

#[test]
fn an_invalidated_scan_is_not_published() {
    let mut cache = ReviewHistoryCache::new();
    let generation = cache.generation;
    cache.invalidate();
    assert_eq!(cache.generation, generation + 1);
    let (a, oa) = observation(1, 1, 100);
    assert!(!cache.publish(generation, &vec![1], vec![(a, oa)]));
    assert!(cache.projection.is_none());
}

#[test]
fn commits_hold_changed_keys_and_abandoned_commits_invalidate() {
    let before = ImageState {
        image_id: 1,
        current_sequence: 1,
        assignments: vec![],
    };
    let after = ImageState {
        image_id: 1,
        current_sequence: 2,
        assignments: vec![assignment(1, 1, 3, AssignmentStatus::Completed, 10, None)],
    };
    let old = Observation::from_state(&before);
    let new = Observation::from_state(&after);
    let previous = assignment(9, 2, 1, AssignmentStatus::Completed, 5, None);
    assert_eq!(
        commit_keys(&old, &new, Some(&previous)),
        vec![(REVIEW_USER, 1), (REVIEW_USER, 3)]
    );
    assert_eq!(commit_keys(&old, &old, None), vec![]);

    let mut cache = ReviewHistoryCache::new();
    assert!(cache.publish(0, &vec![1], vec![(1, Observation::from_state(&before))]));
    let commit = ReviewHistoryCommit::prepare(&cache, 1, &before, &after, None).unwrap();
    commit.abandon(&mut cache);
    assert!(cache.projection.is_none());
    assert_eq!(cache.generation, 1);
}

#[test]
fn observed_commits_enter_the_history() {
    let before = ImageState {
        image_id: 1,
        current_sequence: 1,
        assignments: vec![],
    };
    let after = ImageState {
        image_id: 1,
        current_sequence: 2,
        assignments: vec![assignment(1, 1, TASK, AssignmentStatus::Completed, 10, None)],
    };
    let mut cache = ReviewHistoryCache::new();
    assert!(cache.publish(0, &vec![1], vec![(1, Observation::from_state(&before))]));
    let commit = ReviewHistoryCommit::prepare(&cache, 1, &before, &after, None).unwrap();
    commit.observe(&mut cache);
    let projection = cache.projection.as_ref().unwrap();
    assert_eq!(projection.latest_two(REVIEW_USER, TASK).0, Some((10, 1, 1)));
    // Resuming the latest review is allowed; an untracked image changes nothing.
    let stale = assignment(1, 1, TASK, AssignmentStatus::Completed, 10, None);
    let other_before = ImageState {
        image_id: 2,
        current_sequence: 1,
        assignments: vec![],
    };
    let mut cache2 = cache;
    cache2.observe(2, Observation::from_state(&other_before));
    assert!(ReviewHistoryCommit::prepare(&cache2, 1, &before, &after, Some(&stale)).is_ok());
}
