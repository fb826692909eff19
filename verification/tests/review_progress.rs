use labello::contributors::ReviewTarget;
use labello::review_progress::{review_can_approve, review_can_reject, ReviewProgress};

const A: ReviewTarget = ReviewTarget::AnnotationVersion { annotation_id: 1, version: 1 };
const B: ReviewTarget = ReviewTarget::AnnotationVersion { annotation_id: 2, version: 1 };
const C: ReviewTarget = ReviewTarget::AnnotationVersion { annotation_id: 3, version: 1 };

fn progress() -> ReviewProgress {
    ReviewProgress { targets: vec![A, B, C], reviewed: Vec::new(), needs_review: Vec::new(), position: 0 }
}

#[test]
fn finishing_an_object_moves_to_the_first_undecided() {
    let mut p = progress();
    let changed = vec![false, false, false];
    let prior = vec![false, true, false];
    assert_eq!(p.next_review_position(&changed, &prior), 0);
    p.needs_review = vec![A];
    p.finish_local_review_item(&changed, &prior);
    assert_eq!(p.reviewed, vec![A]);
    assert!(p.needs_review.is_empty());
    assert_eq!(p.position, 2);
    assert!(!p.all_review_items_decided(&changed, &prior));
    p.finish_local_review_item(&changed, &prior);
    assert_eq!(p.reviewed, vec![A, C]);
    assert_eq!(p.position, 3);
    assert!(p.review_overview());
    assert!(p.all_review_items_decided(&changed, &prior));
}

#[test]
fn marked_objects_and_changes_decide_over_prior_decisions() {
    let mut p = progress();
    p.reviewed = vec![A];
    p.needs_review = vec![A, B];
    let prior = vec![true, true, true];
    assert!(!p.review_target_decided(&vec![false, false, false], &prior, 0));
    assert!(p.review_target_decided(&vec![true, false, false], &prior, 0));
    assert!(p.review_target_decided(&vec![false, false, false], &prior, 2));
}

#[test]
fn resetting_marks_the_object_for_another_look() {
    let mut p = progress();
    p.reviewed = vec![B, A];
    p.position = 1;
    p.reset_review_target();
    assert_eq!(p.reviewed, vec![A]);
    assert_eq!(p.needs_review, vec![B]);
    p.reset_review_target();
    assert_eq!(p.needs_review, vec![B]);
}

#[test]
fn navigation_stops_at_both_ends() {
    let mut p = progress();
    p.cycle_review_item(-1);
    assert_eq!(p.position, 0);
    p.cycle_review_item(2);
    assert_eq!(p.position, 2);
    p.cycle_review_item(isize::MAX);
    assert_eq!(p.position, 3);
    p.navigate_review_item(1);
    assert_eq!(p.focused_review_target(), Some(B));
    p.navigate_review_item(9);
    assert_eq!(p.position, 3);
    assert_eq!(p.focused_review_target(), None);
}

#[test]
fn an_object_is_approved_or_rejected_never_both() {
    assert!(review_can_approve(false, true, false, false, false));
    assert!(!review_can_reject(false, true, false, false));
    assert!(review_can_reject(true, true, false, false));
    assert!(!review_can_approve(true, true, false, false, false));
    assert!(!review_can_approve(false, true, true, false, false));
    assert!(!review_can_approve(false, true, false, false, true));
    assert!(!review_can_reject(true, false, false, false));
}
