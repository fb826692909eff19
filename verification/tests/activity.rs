use labello::activity::{
    cached_counts, ActivityState, CachedActivity, CurrentUserActivity, DailyActivityCounts,
    UtcActivityWindow,
};

const DAY: i64 = 86_400_000;
const USER: u64 = 7;
const DATASET: u64 = 3;

fn counts(submitted: u64, reviews: u64) -> DailyActivityCounts {
    DailyActivityCounts { annotation_tasks_submitted: submitted, final_task_reviews: reviews }
}

fn reply(sampled_at: i64) -> CurrentUserActivity {
    CurrentUserActivity {
        dataset_id: DATASET,
        user_id: USER,
        window: UtcActivityWindow::containing(sampled_at),
        sampled_at,
        counts: counts(2, 1),
    }
}

fn polling(server: &str, request: u64) -> ActivityState {
    let mut state = ActivityState::new();
    state.identity = Some((server.to_string(), USER, DATASET));
    state.pending_request = Some(request);
    state
}

#[test]
fn windows_are_utc_days() {
    assert_eq!(UtcActivityWindow::containing(0), UtcActivityWindow { start: 0, end: DAY });
    assert_eq!(UtcActivityWindow::containing(DAY - 1), UtcActivityWindow { start: 0, end: DAY });
    assert_eq!(UtcActivityWindow::containing(-1), UtcActivityWindow { start: -DAY, end: 0 });
    assert!(UtcActivityWindow::containing(5 * DAY + 3).contains(5 * DAY));
    assert!(!UtcActivityWindow::containing(5 * DAY + 3).contains(6 * DAY));
}

#[test]
fn a_trusted_reply_sets_the_server_clock_with_the_round_trip() {
    let server = "https://labello.test".to_string();
    let mut state = polling(&server, 1);
    state.last_attempt = Some(1_000);
    state.refresh_after_load = true;
    let again = state.accept(1, Ok(reply(10 * DAY + 5_000)), &server, USER, DATASET, 1_400);
    assert!(again);
    assert!(!state.refresh_after_load);
    assert_eq!(state.value, Some(reply(10 * DAY + 5_000)));
    assert_eq!(state.server_clock, Some((10 * DAY + 5_400, 1_400)));
    assert_eq!(state.error, None);
    assert_eq!(state.expected_window(1_400 + DAY as u64), Some(UtcActivityWindow::containing(11 * DAY)));
}

#[test]
fn replies_that_would_arrive_after_midnight_are_not_trusted() {
    let server = "https://labello.test".to_string();
    let mut state = polling(&server, 1);
    state.last_attempt = Some(0);
    state.accept(1, Ok(reply(DAY - 100)), &server, USER, DATASET, 500);
    assert_eq!(state.value, None);
    assert_eq!(
        state.error.as_deref(),
        Some("Activity response did not match the current user, dataset or UTC day.")
    );
}

#[test]
fn replies_for_another_user_or_request_are_rejected_or_ignored() {
    let server = "https://labello.test".to_string();
    let mut state = polling(&server, 2);
    assert!(!state.accept(3, Err("late".to_string()), &server, USER, DATASET, 0));
    assert_eq!(state.pending_request, Some(2));
    let mut other = reply(5_000);
    other.user_id = USER + 1;
    state.accept(2, Ok(other), &server, USER, DATASET, 0);
    assert!(state.value.is_none());
    assert!(state.error.is_some());
}

#[test]
fn a_value_from_a_passed_day_expires() {
    let mut state = ActivityState::new();
    state.value = Some(reply(DAY + 10));
    state.server_clock = Some((DAY + 10, 0));
    state.last_attempt = Some(0);
    assert!(!state.expire_previous_day(1_000));
    assert!(state.expire_previous_day(DAY as u64));
    assert_eq!(state.value, None);
    assert_eq!(state.last_attempt, None);
}

#[test]
fn completed_work_refreshes_now_or_after_the_pending_request() {
    let mut state = ActivityState::new();
    assert!(state.work_completed());
    state.pending_request = Some(4);
    assert!(!state.work_completed());
    assert!(state.refresh_after_load);
}

#[test]
fn the_cache_adds_image_counts_per_user_and_answers_only_its_day_and_generation() {
    let window = UtcActivityWindow::containing(0);
    let mut cache = CachedActivity::new(4, window);
    cache.add_image(&vec![(1, counts(1, 0)), (2, counts(0, 1))]);
    cache.add_image(&vec![(1, counts(2, 3))]);
    assert_eq!(cache.counts(1), counts(3, 3));
    assert_eq!(cache.counts(2), counts(0, 1));
    assert_eq!(cache.counts(9), counts(0, 0));
    let cache = Some(cache);
    assert_eq!(cached_counts(&cache, 4, window, 1), Some(counts(3, 3)));
    assert_eq!(cached_counts(&cache, 4, window, 9), Some(counts(0, 0)));
    assert_eq!(cached_counts(&cache, 5, window, 1), None);
    assert_eq!(cached_counts(&cache, 4, UtcActivityWindow::containing(DAY), 1), None);
    assert_eq!(cached_counts(&None, 4, window, 1), None);
}
