use labello::image_quality::{ImageQuality, Representation};
use labello::presence::{connection_status, PresenceState, PresentUser, SaveStatus, ServerPresence, Tone};

fn user(user_id: u64, name: &str) -> PresentUser {
    PresentUser { user_id, name: name.to_string(), datasets: Vec::new() }
}

fn polling(server: &str, user_id: u64, request: u64) -> PresenceState {
    let mut state = PresenceState::new();
    state.identity = Some((server.to_string(), user_id));
    state.pending_request = Some(request);
    state
}

#[test]
fn data_saver_selects_the_data_saver_representation() {
    let mut quality = ImageQuality::new();
    assert_eq!(quality.policy(), Representation::Standard);
    quality.data_saver = true;
    assert_eq!(quality.policy(), Representation::DataSaver);
}

#[test]
fn presence_users_are_sorted_and_deduplicated() {
    let server = "https://labello.test".to_string();
    let mut state = polling(&server, 1, 4);
    state.failures = 2;
    let reply = ServerPresence { users: vec![user(9, "nine"), user(2, "two"), user(9, "again"), user(5, "five")] };
    state.accept(4, &server, 1, Ok(reply));
    let users = &state.value.as_ref().unwrap().users;
    let listed: Vec<(u64, &str)> = users.iter().map(|u| (u.user_id, u.name.as_str())).collect();
    assert_eq!(listed, vec![(2, "two"), (5, "five"), (9, "nine")]);
    assert_eq!(state.failures, 0);
    assert!(state.pending_request.is_none());
    assert_eq!(state.summary_label(), None);
}

#[test]
fn presence_replies_for_another_request_or_identity_are_ignored() {
    let server = "https://labello.test".to_string();
    let mut state = polling(&server, 1, 4);
    state.accept(5, &server, 1, Ok(ServerPresence { users: Vec::new() }));
    state.accept(4, &"https://other.test".to_string(), 1, Ok(ServerPresence { users: Vec::new() }));
    state.accept(4, &server, 2, Err("denied".to_string()));
    assert!(state.value.is_none());
    assert_eq!(state.pending_request, Some(4));
    assert_eq!(state.summary_label(), Some("Checking presence…"));
    state.accept(4, &server, 1, Ok(ServerPresence { users: Vec::new() }));
    assert_eq!(state.summary_label(), Some("No active labellers"));
}

#[test]
fn failures_saturate_and_mark_presence_unavailable() {
    let mut state = PresenceState::new();
    for _ in 0..3 {
        state.failed("offline".to_string());
    }
    assert_eq!(state.failures, 3);
    assert_eq!(state.summary_label(), Some("Presence unavailable"));
    state.failures = u32::MAX;
    state.failed("still offline".to_string());
    assert_eq!(state.failures, u32::MAX);
    assert_eq!(state.error.as_deref(), Some("still offline"));
}

#[test]
fn connection_status_lists_state_and_messages() {
    let mut state = PresenceState::new();
    let (tone, detail) = connection_status(&state, SaveStatus::Idle, &None, &None, &None);
    assert_eq!(tone, Tone::Warning);
    assert_eq!(detail, "Checking connection\nIdle");
    state.value = Some(ServerPresence { users: Vec::new() });
    let (tone, detail) = connection_status(&state, SaveStatus::Saved, &None, &None, &Some("Synced".to_string()));
    assert_eq!(tone, Tone::Success);
    assert_eq!(detail, "Connected\nSaved\nSynced");
    state.failures = 1;
    state.error = Some("timeout".to_string());
    let (tone, detail) =
        connection_status(&state, SaveStatus::Retry, &Some("disk full".to_string()), &None, &None);
    assert_eq!(tone, Tone::Danger);
    assert_eq!(detail, "Reconnecting\nSave failed. Retry saving.\ntimeout\ndisk full");
}

#[test]
fn data_saver_and_representation_requests() {
    let mut quality = ImageQuality::new();
    assert!(quality.set_data_saver(true));
    assert!(!quality.set_data_saver(true));
    assert_eq!(quality.policy(), Representation::DataSaver);
    assert_eq!(quality.request_representation(4, Representation::DataSaver), None);
    quality.error = Some("failed".to_string());
    assert_eq!(quality.request_representation(5, Representation::Original), Some(4));
    assert_eq!(quality.loading, Some(5));
    assert_eq!(quality.requested, Representation::Original);
    assert!(quality.error.is_none());
}
