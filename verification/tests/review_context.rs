use labello::contributors::ReviewDecision;
use labello::review_context::{
    decimal_text, displayed_review_bar, review_bar_content, review_phase, AnnotationType, CorrectionContext, ReviewContext, ReviewContextPhase, TargetKind,
};

fn object_review() -> ReviewContext {
    ReviewContext {
        workflow_name: "Boxes".to_string(),
        class_name: "Ball".to_string(),
        annotation_type: AnnotationType::BoundingBox,
        phase: ReviewContextPhase::Object {
            number: 2,
            total: 12,
            kind: TargetKind::AnnotationReview,
            annotation_version: Some(3),
            disposition_version: None,
        },
        decision: None,
        revision_mode: false,
        staged_decision: None,
        correction: None,
        preview_unavailable: false,
    }
}

#[test]
fn decimal_text_writes_numbers_without_leading_zeros() {
    assert_eq!(decimal_text(0), "0");
    assert_eq!(decimal_text(907), "907");
    assert_eq!(decimal_text(u64::MAX), u64::MAX.to_string());
}

#[test]
fn object_reviews_describe_position_version_and_decision() {
    let context = object_review();
    assert_eq!(context.type_label(), "Bounding boxes");
    assert_eq!(context.phase_label(), "Object 2 of 12");
    assert_eq!(
        context.details(),
        vec![
            "Workflow: Boxes",
            "Class: Ball · Type: Bounding boxes",
            "Review position: Object 2 of 12",
            "Persisted version 3",
            "Current decision: Not reviewed",
        ]
    );
    assert_eq!(
        context.accessible_summary(),
        "Workflow: Boxes. Class: Ball · Type: Bounding boxes. Review position: Object 2 of 12. Persisted version 3. Current decision: Not reviewed"
    );
}

#[test]
fn corrections_revisions_and_staged_decisions_are_listed() {
    let mut context = object_review();
    context.annotation_type = AnnotationType::Skeleton;
    context.phase = ReviewContextPhase::Object {
        number: 1,
        total: 1,
        kind: TargetKind::MigrationAnnotatedSkeleton,
        annotation_version: Some(4),
        disposition_version: Some(7),
    };
    context.correction = Some(CorrectionContext { base_version: 4, unsaved_input: true });
    context.revision_mode = true;
    context.decision = Some(ReviewDecision::Approved);
    context.staged_decision = Some(ReviewDecision::Rejected);
    assert_eq!(
        context.details(),
        vec![
            "Workflow: Boxes",
            "Class: Ball · Type: Skeletons",
            "Review position: Object 1 of 1",
            "Target: Migration: Annotated skeleton",
            "Base persisted version 4",
            "Disposition version 7",
            "Mode: Correction mode",
            "Unsaved correction input",
            "Decision revision mode",
            "Effective decision: Approved",
            "Staged decision: Rejected (not committed)",
        ]
    );
}

#[test]
fn full_image_checks_name_migration_confirmations() {
    let mut context = object_review();
    context.phase = ReviewContextPhase::FullImage { migration: true };
    assert_eq!(context.phase_label(), "Final check / Full image");
    assert_eq!(
        context.details(),
        vec![
            "Workflow: Boxes",
            "Class: Ball · Type: Bounding boxes",
            "Review position: Final check / Full image",
            "Migration full-image confirmation",
            "Current decision: Not reviewed",
        ]
    );
    context.phase = ReviewContextPhase::FullImage { migration: false };
    assert_eq!(context.details().len(), 4);
}

#[test]
fn review_bar_shows_position_identity_and_type() {
    let context = object_review();
    let bar = review_bar_content(Some(&context), 0, false, false, true);
    assert_eq!(bar.identity, "Item 2 / 12");
    assert_eq!(bar.type_and_phase, Some(("Boxes · Ball".to_string(), "Bounding boxes".to_string())));
    assert_eq!(bar.accessible, format!("Review details: {}. Toggle Inspector.", context.accessible_summary()));
    let mut revising = object_review();
    revising.revision_mode = true;
    revising.class_name = "Boxes".to_string();
    revising.phase = ReviewContextPhase::FullImage { migration: false };
    let bar = review_bar_content(Some(&revising), 1, false, false, true);
    assert_eq!(bar.identity, "Image overview · 1 correction");
    assert_eq!(bar.type_and_phase.unwrap().0, "Revising · Boxes");
    let bar = review_bar_content(Some(&object_review()), 3, false, false, true);
    assert_eq!(bar.identity, "Item 2 / 12 · 3 corrections");
}

#[test]
fn review_bar_without_a_review_says_why() {
    let bar = review_bar_content(None, 0, true, true, true);
    assert_eq!(bar.identity, "Opening previous review…");
    assert_eq!(bar.accessible, "Opening previous review…");
    assert!(bar.type_and_phase.is_none());
    assert_eq!(review_bar_content(None, 0, false, true, true).identity, "Loading review target…");
    assert_eq!(review_bar_content(None, 0, false, false, false).identity, "No active review assignment");
    assert_eq!(review_bar_content(None, 0, false, false, true).identity, "Review target unavailable");
}

#[test]
fn inspector_review_phase_counts_objects_then_the_full_image() {
    assert_eq!(
        review_phase(0, 3),
        ("Object review", "1 of 3".to_string(), "The active object is highlighted on the canvas.")
    );
    assert_eq!(
        review_phase(3, 3),
        ("Final check", "Full image".to_string(), "Check for missed objects before completing this review.")
    );
}

#[test]
fn displayed_review_bar_prefers_held_then_placeholder_then_live() {
    let live = review_bar_content(Some(&object_review()), 0, false, false, true);
    let held = review_bar_content(None, 0, false, true, true);
    let shown = displayed_review_bar(Some(held.clone()), true, live.clone());
    assert_eq!(shown.identity, held.identity);
    assert_eq!(shown.type_and_phase, None);
    let blank = displayed_review_bar(None, true, live.clone());
    assert_eq!(blank.identity, " ");
    assert_eq!(blank.type_and_phase, Some((" ".to_string(), " ".to_string())));
    assert_eq!(blank.accessible, "");
    let current = displayed_review_bar(None, false, live.clone());
    assert_eq!(current.identity, live.identity);
    assert_eq!(current.type_and_phase, live.type_and_phase);
    assert_eq!(current.accessible, live.accessible);
}
