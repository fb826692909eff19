use labello::contributors::{ReviewDecision, ReviewTarget};
use labello::review_revision::{ReviewPhase, ReviewRevision, RevisionStep};

const OBJECT: ReviewTarget = ReviewTarget::AnnotationVersion { annotation_id: 7, version: 2 };
const OTHER: ReviewTarget = ReviewTarget::AnnotationVersion { annotation_id: 8, version: 1 };
const IMAGE: ReviewTarget = ReviewTarget::Image;

#[test]
fn approving_an_object_moves_to_the_next_target() {
    let mut revision = ReviewRevision::new();
    let step = revision.stage_revision_review(OBJECT, ReviewDecision::Approved, ReviewPhase::Object, 1, 42, 1000, Some(3));
    assert!(matches!(step, RevisionStep::Staged));
    assert_eq!(revision.staged.len(), 1);
    assert_eq!(revision.staged[0].review_id, 1);
    assert_eq!(revision.staged[0].reviewer, 42);
    assert_eq!(revision.review_index, 1);
    assert_eq!(revision.migration_review_index, 1);
    assert!(!revision.rejected);
    assert!(revision.commit.is_none());
}

#[test]
fn rejecting_an_object_replaces_its_decision_and_goes_to_the_end() {
    let mut revision = ReviewRevision::new();
    revision.stage_revision_review(OBJECT, ReviewDecision::Approved, ReviewPhase::Object, 1, 42, 1000, Some(3));
    revision.stage_revision_review(OTHER, ReviewDecision::Approved, ReviewPhase::Object, 2, 42, 1001, Some(3));
    let step = revision.stage_revision_review(OBJECT, ReviewDecision::Rejected, ReviewPhase::Object, 3, 42, 1002, Some(3));
    assert!(matches!(step, RevisionStep::Staged));
    assert_eq!(revision.staged.len(), 2);
    assert_eq!(revision.staged[0].target, OTHER);
    assert_eq!(revision.staged[1].review_id, 3);
    assert!(revision.rejected);
    assert_eq!(revision.review_index, 2);
    assert_eq!(revision.migration_review_index, 2);
    revision.stage_revision_review(OTHER, ReviewDecision::Rejected, ReviewPhase::Object, 4, 42, 1003, None);
    assert_eq!(revision.review_index, 0);
    revision.stage_revision_review(OTHER, ReviewDecision::Rejected, ReviewPhase::Object, 5, 42, 1004, Some(0));
    assert_eq!(revision.review_index, 0);
}

#[test]
fn approving_the_image_with_a_rejected_object_is_refused() {
    let mut revision = ReviewRevision::new();
    revision.stage_revision_review(OBJECT, ReviewDecision::Rejected, ReviewPhase::Object, 1, 42, 1000, Some(2));
    revision.stage_revision_review(IMAGE, ReviewDecision::Rejected, ReviewPhase::FullImage, 9, 42, 999, Some(2));
    revision.commit = None;
    let step = revision.stage_revision_review(IMAGE, ReviewDecision::Approved, ReviewPhase::FullImage, 2, 42, 1001, Some(2));
    match step {
        RevisionStep::Refused(message) => {
            assert_eq!(message, "A staged object rejection requires sending this review back.")
        }
        _ => panic!("expected a refusal"),
    }
    assert_eq!(revision.staged.len(), 1);
    assert_eq!(revision.staged[0].target, OBJECT);
    assert!(revision.commit.is_none());
}

#[test]
fn deciding_the_image_sends_the_revision_and_only_that_decision_can_be_retried() {
    let mut revision = ReviewRevision::new();
    revision.stage_revision_review(OBJECT, ReviewDecision::Rejected, ReviewPhase::Object, 1, 42, 1000, Some(2));
    let step = revision.stage_revision_review(IMAGE, ReviewDecision::Rejected, ReviewPhase::FullImage, 2, 42, 1001, Some(2));
    match step {
        RevisionStep::Send { review, revision: sent } => {
            assert_eq!(review.review_id, 2);
            assert_eq!(sent.len(), 2);
            assert_eq!(sent[1], review);
        }
        _ => panic!("expected the revision to be sent"),
    }
    assert_eq!(revision.commit.as_ref().map(|c| c.len()), Some(2));
    let again = revision.stage_revision_review(IMAGE, ReviewDecision::Rejected, ReviewPhase::FullImage, 3, 42, 1002, Some(2));
    match again {
        RevisionStep::Send { review, revision: sent } => {
            assert_eq!(review.review_id, 2);
            assert_eq!(sent.len(), 2);
        }
        _ => panic!("expected the pending revision to be sent again"),
    }
    let changed = revision.stage_revision_review(IMAGE, ReviewDecision::Approved, ReviewPhase::FullImage, 4, 42, 1003, Some(2));
    match changed {
        RevisionStep::Refused(message) => assert_eq!(message, "Retry the pending revised decision before changing it."),
        _ => panic!("expected a refusal"),
    }
    assert_eq!(revision.staged.len(), 2);
}

#[test]
fn staged_decision_is_the_last_on_the_target_while_revising() {
    let mut revision = ReviewRevision::new();
    revision.stage_revision_review(OBJECT, ReviewDecision::Approved, ReviewPhase::Object, 1, 42, 1000, Some(2));
    assert_eq!(revision.staged_review_decision(true, OBJECT).map(|r| r.review_id), Some(1));
    assert_eq!(revision.staged_review_decision(false, OBJECT), None);
    assert_eq!(revision.staged_review_decision(true, OTHER), None);
}
