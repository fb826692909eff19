use labello::build_information::{BuildIdentity, CopyFeedback, LabelloApp, UiCommand, UiMessage};

fn identity(tag: &str, commit: &str) -> BuildIdentity {
    BuildIdentity { release_tag: Some(tag.to_string()), source_commit: Some(commit.to_string()) }
}

fn app() -> LabelloApp<u8> {
    LabelloApp::new(identity("v1.2.0", "0123456789abcdef"), true)
}

#[test]
fn copying_queues_the_build_information_text() {
    let mut app = app();
    app.set_build_clipboard_writer(7);
    let started = app.copy_build_information();
    assert_eq!(started, Some(0));
    assert!(app.builds.copying);
    match &app.commands[0] {
        UiCommand::CopyBuildInformation { request_id, text } => {
            assert_eq!(*request_id, 0);
            assert_eq!(
                text,
                "Web app: v1.2.0; source commit: 0123456789abcdef\nServer: unavailable"
            );
        }
        _ => panic!("expected a copy command"),
    }
    assert_eq!(app.copy_build_information(), None);
    assert_eq!(app.commands.len(), 1);
}

#[test]
fn copying_without_a_clipboard_reveals_the_manual_copy() {
    let mut app = app();
    assert_eq!(app.copy_build_information(), None);
    assert!(app.builds.reveal_manual_copy);
    assert_eq!(app.builds.copy_feedback, Some(CopyFeedback::CopyUnavailable));
    assert!(app.commands.is_empty());
}

#[test]
fn loaded_identity_is_kept_only_for_the_pending_request() {
    let mut app = app();
    app.request_build_information();
    assert!(app.builds.loading);
    assert_eq!(app.build_information_text(), "Web app: v1.2.0; source commit: 0123456789abcdef\nServer: loading");
    let stale = app.reduce_build_message(UiMessage::BuildInformationLoaded {
        request_id: 9,
        result: Ok(identity("v9", "ffffffffffffffff")),
    });
    assert!(stale.is_none());
    assert!(app.builds.loading && app.builds.server.is_none());
    app.reduce_build_message(UiMessage::BuildInformationLoaded {
        request_id: 0,
        result: Ok(identity("v1.3.0", "abcdefabcdef12")),
    });
    assert!(!app.builds.loading && app.builds.checked);
    assert!(app.builds_differ());
    assert_eq!(
        app.build_information_text(),
        "Web app: v1.2.0; source commit: 0123456789abcdef\nServer: v1.3.0; source commit: abcdefabcdef12"
    );
}

#[test]
fn copy_result_sets_feedback() {
    let mut app = app();
    app.set_build_clipboard_writer(7);
    app.copy_build_information();
    app.reduce_build_message(UiMessage::BuildInformationCopied { request_id: 0, succeeded: false });
    assert!(!app.builds.copying);
    assert!(app.builds.reveal_manual_copy);
    assert_eq!(app.builds.copy_feedback, Some(CopyFeedback::CopyFailed));
    assert!(matches!(app.reduce_build_message(UiMessage::Other { kind: 3 }), Some(UiMessage::Other { kind: 3 })));
}
