use labello::prelabel_review::{PrelabelObject, PrelabelPrimaryAction, PrelabelReview};

fn hint(suggestion_id: u64, data: &str, annotation_id: u64) -> PrelabelObject<String, String> {
    PrelabelObject {
        suggestion_id,
        suggestion: data.to_string(),
        annotation_id,
        annotation: format!("box-{annotation_id}"),
    }
}

fn started_review() -> PrelabelReview<String, String> {
    let mut review = PrelabelReview::new();
    let (selected, fit) = review.sync_prelabel_review(vec![hint(10, "a", 100), hint(20, "b", 200)], None);
    assert_eq!(selected, Some(100));
    assert!(!fit);
    review
}

#[test]
fn showing_hints_adds_objects_and_selects_the_first() {
    let review = started_review();
    assert_eq!(review.objects.len(), 2);
    assert!(review.started);
    assert!(!review.changed);
    assert_eq!(review.pending_prelabel_objects(&vec![10, 20]), vec![0, 1]);
    assert_eq!(review.pending_prelabel_objects(&vec![20]), vec![1]);
    assert_eq!(review.pending_prelabel_objects(&vec![30]), Vec::<usize>::new());
}

#[test]
fn showing_the_same_hints_again_adds_nothing_and_refreshes_data() {
    let mut review = started_review();
    let (selected, fit) = review.sync_prelabel_review(vec![hint(10, "a2", 300), hint(20, "b", 400)], Some(100));
    assert_eq!(selected, Some(100));
    assert!(!fit);
    assert_eq!(review.objects.len(), 2);
    assert_eq!(review.objects[0].suggestion, "a2");
    assert_eq!(review.objects[0].annotation_id, 100);
    assert_eq!(review.objects[0].annotation, "box-100");
}

#[test]
fn hidden_selected_suggestion_moves_selection_to_first_waiting() {
    let mut review = started_review();
    let (selected, fit) = review.sync_prelabel_review(vec![hint(20, "b", 400)], Some(100));
    assert_eq!(selected, Some(200));
    assert!(!fit);
    let (selected, fit) = review.sync_prelabel_review(Vec::new(), Some(200));
    assert_eq!(selected, None);
    assert!(fit);
}

#[test]
fn selection_outside_the_review_is_kept() {
    let mut review = started_review();
    let (selected, fit) = review.sync_prelabel_review(vec![hint(10, "a", 100)], Some(7));
    assert_eq!(selected, Some(7));
    assert!(!fit);
}

#[test]
fn primary_action_follows_selection_and_waiting_objects() {
    let review = started_review();
    assert_eq!(review.prelabel_primary_action(&vec![10, 20], Some(100)), PrelabelPrimaryAction::Confirm);
    assert_eq!(review.prelabel_primary_action(&vec![10, 20], None), PrelabelPrimaryAction::Focus);
    assert_eq!(review.prelabel_primary_action(&vec![10, 20], Some(7)), PrelabelPrimaryAction::Focus);
    assert_eq!(review.prelabel_primary_action(&Vec::new(), Some(100)), PrelabelPrimaryAction::Submit);
}

#[test]
fn cycling_wraps_around() {
    let review = started_review();
    let visible = vec![10, 20];
    assert_eq!(review.cycle_prelabel_object(&visible, Some(100), 1), Some(200));
    assert_eq!(review.cycle_prelabel_object(&visible, Some(200), 1), Some(100));
    assert_eq!(review.cycle_prelabel_object(&visible, Some(100), -1), Some(200));
    assert_eq!(review.cycle_prelabel_object(&visible, Some(100), 5), Some(200));
    assert_eq!(review.cycle_prelabel_object(&visible, Some(100), -4), Some(100));
    assert_eq!(review.cycle_prelabel_object(&visible, None, -1), Some(200));
    assert_eq!(review.cycle_prelabel_object(&visible, None, 1), Some(100));
    assert_eq!(review.cycle_prelabel_object(&Vec::new(), Some(7), 1), Some(7));
    let back = review.cycle_prelabel_object(&visible, review.cycle_prelabel_object(&visible, Some(200), 3), -3);
    assert_eq!(back, Some(200));
}

#[test]
fn dismissing_takes_the_selected_object_out() {
    let mut review = started_review();
    let step = review.delete_prelabel_object(&vec![10, 20], Some(100));
    assert!(step.handled);
    let object = step.object.unwrap();
    assert_eq!(object.suggestion_id, 10);
    assert_eq!(object.annotation, "box-100");
    assert_eq!(step.selected, Some(200));
    assert!(!step.fit_view);
    assert!(review.changed);
    assert_eq!(review.objects.len(), 1);
    assert_eq!(review.objects[0].suggestion_id, 20);
}

#[test]
fn dismissing_without_a_waiting_selection_does_nothing() {
    let mut review = started_review();
    let step = review.delete_prelabel_object(&vec![10, 20], None);
    assert!(!step.handled);
    assert!(step.object.is_none());
    assert_eq!(step.selected, None);
    assert!(!review.changed);
    assert_eq!(review.objects.len(), 2);
}

#[test]
fn confirming_the_last_object_fits_the_view() {
    let mut review = started_review();
    let step = review.confirm_prelabel_object(vec![hint(20, "b", 500)], Some(200));
    assert!(step.handled);
    assert_eq!(step.object.unwrap().annotation_id, 200);
    assert_eq!(step.selected, None);
    assert!(step.fit_view);
    assert!(review.changed);
    assert_eq!(review.objects.len(), 1);
    assert_eq!(review.objects[0].suggestion_id, 10);
}

#[test]
fn confirming_without_selection_focuses_the_first_waiting() {
    let mut review = started_review();
    let step = review.confirm_prelabel_object(vec![hint(10, "a", 300), hint(20, "b", 400)], Some(7));
    assert!(step.handled);
    assert!(step.object.is_none());
    assert_eq!(step.selected, Some(100));
    assert!(!review.changed);
    let mut empty: PrelabelReview<String, String> = PrelabelReview::new();
    let step = empty.confirm_prelabel_object(Vec::new(), None);
    assert!(!step.handled);
    assert_eq!(step.selected, None);
}

#[test]
fn progress_counts_objects() {
    let review = started_review();
    let visible = vec![10, 20];
    let annotations = vec![1, 2];
    assert_eq!(review.prelabel_progress(&visible, Some(200), true, &annotations), Some("Object 4 of 4".to_string()));
    assert_eq!(review.prelabel_progress(&visible, Some(1), true, &annotations), Some("Object 1 of 4".to_string()));
    assert_eq!(review.prelabel_progress(&visible, None, true, &annotations), Some("2 to confirm".to_string()));
    assert_eq!(review.prelabel_progress(&Vec::new(), None, true, &annotations), Some("Image overview".to_string()));
    assert_eq!(review.prelabel_progress(&visible, None, false, &annotations), None);
    let fresh: PrelabelReview<String, String> = PrelabelReview::new();
    assert_eq!(fresh.prelabel_progress(&visible, None, true, &annotations), None);
}

#[test]
fn editing_geometry_replaces_the_annotation() {
    let mut review = started_review();
    assert_eq!(review.position_of_annotation(200), Some(1));
    assert_eq!(review.position_of_annotation(7), None);
    review.replace_annotation(1, "moved".to_string());
    assert!(review.changed);
    assert_eq!(review.objects[1].annotation, "moved");
    assert_eq!(review.objects[1].suggestion_id, 20);
    assert_eq!(review.selected_prelabel_object(&vec![10, 20], Some(200)), Some(1));
}
