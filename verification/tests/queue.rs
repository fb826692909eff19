use labello::assignment::{Assignment, AssignmentKind, AssignmentStatus};
use labello::queue::{
    ImageQueue, ImageRecord, LoadedImage, QueuedImage, DEFAULT_RETRY_DELAY_MS,
    MAX_PRELOAD_QUEUE_SIZE,
};

fn queued(id: u64) -> QueuedImage {
    QueuedImage {
        image: ImageRecord {
            image_id: id,
            blake3: format!("{id}"),
            canonical_path: format!("images/{id}.png"),
            known_paths: vec![],
            duplicate_paths: vec![],
            file_name: format!("{id}.png"),
            byte_size: 4,
            width: 10,
            height: 10,
            media_type: "image/png".to_string(),
        },
        prelabels: vec![],
    }
}

fn loaded(assignment_id: u64, image_id: u64, prepared_until: Option<u64>) -> LoadedImage {
    LoadedImage {
        assignment: Assignment {
            assignment_id,
            image_id,
            task_id: 1,
            assigned_to: 7,
            kind: AssignmentKind::Annotation,
            status: AssignmentStatus::Active,
            expires_at: None,
            created_at: 0,
            updated_at: 0,
        },
        queued: queued(image_id),
        prepared_until,
    }
}

#[test]
fn keeps_configured_size() {
    let mut queue = ImageQueue::new(2);
    assert!(queue.push_if_room(queued(1)));
    assert!(queue.push_if_room(queued(2)));
    assert!(!queue.push_if_room(queued(3)));
    queue.set_queue_size(1);
    assert_eq!(queue.len(), 1);
    assert_eq!(ImageQueue::new(99).queue_size(), 99);
    assert_eq!(
        ImageQueue::new(usize::MAX).queue_size(),
        MAX_PRELOAD_QUEUE_SIZE
    );
}

#[test]
fn failed_refills_retry_after_a_short_delay() {
    let mut queue = ImageQueue::new(2);
    let now = 50_000;
    queue.mark_failed(now);
    assert!(queue.failed());
    assert!(!queue.retry_due(now));
    assert!(queue.retry_after(now).is_some());

    // One second later the refill is due.
    assert!(queue.retry_due(now + 1_000));
    queue.clear_failure();
    assert!(!queue.failed());
}

#[test]
fn empty_refills_can_use_a_longer_retry_delay() {
    let mut queue = ImageQueue::new(2);
    let now = 50_000;
    queue.mark_failed_after(now, 15_000);
    assert!(!queue.retry_due(now));
    assert!(queue.retry_after(now).is_some_and(|delay| delay > 14_000));

    assert!(queue.retry_due(now + 15_000));
}

#[test]
fn size_is_clamped_from_below() {
    assert_eq!(ImageQueue::new(0).queue_size(), 1);
    let mut queue = ImageQueue::new(3);
    queue.set_queue_size(0);
    assert_eq!(queue.queue_size(), 1);
}

#[test]
fn shrinking_releases_prepared_images_newest_first_before_dropping_queued_ones() {
    let mut queue = ImageQueue::new(4);
    assert!(queue.push_if_room(queued(1)));
    assert!(queue.push_prepared(loaded(10, 100, None)));
    assert!(queue.push_prepared(loaded(11, 101, None)));
    assert!(queue.push_if_room(queued(2)));
    assert!(!queue.push_prepared(loaded(12, 102, None)));
    let released = queue.set_queue_size(1);
    let ids: Vec<u64> = released.iter().map(|a| a.assignment_id).collect();
    assert_eq!(ids, vec![11, 10]);
    assert_eq!(queue.len(), 1);
    assert_eq!(queue.pop_next().map(|q| q.image.image_id), Some(1));
    assert!(queue.is_empty());
}

#[test]
fn prepared_images_are_found_removed_and_drained_in_order() {
    let mut queue = ImageQueue::new(5);
    assert!(queue.push_prepared(loaded(10, 100, Some(9_000))));
    assert!(queue.push_prepared(loaded(11, 101, Some(4_000))));
    assert!(queue.push_prepared(loaded(12, 102, None)));
    assert_eq!(queue.prepared_assignment_ids(), vec![10, 11, 12]);
    assert_eq!(queue.prepared_image_ids(), vec![100, 101, 102]);
    assert_eq!(queue.next_expiry(1_000), Some(3_000));
    assert_eq!(queue.next_expiry(5_000), Some(0));
    assert!(queue.contains_assignment(&loaded(11, 101, None).assignment));
    assert!(!queue.contains_assignment(&loaded(11, 102, None).assignment));
    let removed = queue.remove_prepared_image(101).unwrap();
    assert_eq!(removed.assignment.assignment_id, 11);
    assert!(queue.remove_prepared_image(101).is_none());
    assert_eq!(queue.pop_prepared().map(|l| l.assignment.assignment_id), Some(10));
    let drained: Vec<u64> = queue
        .drain_prepared_assignments()
        .iter()
        .map(|a| a.assignment_id)
        .collect();
    assert_eq!(drained, vec![12]);
    assert_eq!(queue.next_expiry(0), None);
}

#[test]
fn retaining_prepared_images_releases_the_rejected_ones_in_order() {
    let mut queue = ImageQueue::new(5);
    for (assignment, image) in [(10, 100), (11, 101), (12, 102), (13, 103)] {
        assert!(queue.push_prepared(loaded(assignment, image, None)));
    }
    let released = queue.retain_prepared(|l: &LoadedImage| l.assignment.image_id % 2 == 0);
    let ids: Vec<u64> = released.iter().map(|a| a.assignment_id).collect();
    assert_eq!(ids, vec![11, 13]);
    assert_eq!(queue.prepared_assignment_ids(), vec![10, 12]);
}

#[test]
fn clear_empties_the_queue_and_forgets_failures() {
    let mut queue = ImageQueue::new(3);
    assert!(queue.push_if_room(queued(1)));
    assert!(queue.push_prepared(loaded(10, 100, None)));
    queue.mark_failed_after(100, 30_000);
    queue.set_loading(true);
    queue.clear();
    assert!(queue.is_empty());
    assert!(!queue.failed());
    assert_eq!(queue.retry_after(0), None);
    assert!(queue.is_loading());
    queue.mark_failed(0);
    assert_eq!(queue.retry_after(0), Some(DEFAULT_RETRY_DELAY_MS));
    assert_eq!(queue.retry_after(400), Some(600));
    assert_eq!(queue.retry_after(5_000), Some(0));
}
