use labello::contributors::{
    AnnotationVersion, ContributorAggregation, DayCounts, Event, EventPayload, Review,
    ReviewDecision, ReviewTarget, TaskOutcome,
};
use labello::stats::TaskStatus;

const ALICE: u64 = 1;
const BOB: u64 = 2;
const CAROL: u64 = 3;
const BOXES: u64 = 10;
const EPOCH_DAY: i64 = 719_163;
const DAY: i64 = 86_400;

fn submitted(actor: u64, timestamp: i64, status: TaskStatus, outcome: Option<TaskOutcome>) -> Event {
    Event {
        actor,
        timestamp,
        payload: EventPayload::TaskStateChanged {
            task_id: BOXES,
            status,
            outcome,
            completed_by: Some(actor),
        },
    }
}

fn review(review_id: u64, reviewer: u64, target: ReviewTarget, decision: ReviewDecision, timestamp: i64) -> Review {
    Review { review_id, reviewer, target, decision, timestamp }
}

fn counts(labeled: u64, reviewed: u64, accepted: u64, rejected: u64) -> DayCounts {
    DayCounts { labeled, reviewed, accepted, rejected }
}

#[test]
fn submissions_count_once_per_task_and_user() {
    let mut aggregation = ContributorAggregation::new();
    let events = vec![
        submitted(ALICE, 5, TaskStatus::Submitted, None),
        submitted(ALICE, 6, TaskStatus::Submitted, None),
        submitted(BOB, DAY + 1, TaskStatus::Completed, Some(TaskOutcome::AnnotationCompleted)),
        submitted(CAROL, 7, TaskStatus::Completed, Some(TaskOutcome::Approved)),
        submitted(CAROL, 8, TaskStatus::InProgress, None),
    ];
    aggregation.record_contributors(&Vec::new(), &events);
    assert_eq!(aggregation.day(ALICE, EPOCH_DAY), counts(1, 0, 0, 0));
    assert_eq!(aggregation.day(BOB, EPOCH_DAY + 1), counts(1, 0, 0, 0));
    assert_eq!(aggregation.day(CAROL, EPOCH_DAY), counts(0, 0, 0, 0));
}

#[test]
fn task_reviews_credit_the_last_submitter_once_per_review() {
    let mut aggregation = ContributorAggregation::new();
    let approve = review(100, BOB, ReviewTarget::Task { task_id: BOXES }, ReviewDecision::Approved, 50);
    let events = vec![
        submitted(ALICE, 5, TaskStatus::Submitted, None),
        Event { actor: BOB, timestamp: 50, payload: EventPayload::ReviewRecorded(approve) },
        Event { actor: BOB, timestamp: 60, payload: EventPayload::ReviewerCorrectionRecorded(approve) },
        Event {
            actor: BOB,
            timestamp: 70,
            payload: EventPayload::ReviewRecorded(review(
                101,
                BOB,
                ReviewTarget::Image,
                ReviewDecision::Rejected,
                70,
            )),
        },
    ];
    aggregation.record_contributors(&Vec::new(), &events);
    assert_eq!(aggregation.day(ALICE, EPOCH_DAY), counts(1, 0, 1, 0));
    assert_eq!(aggregation.day(BOB, EPOCH_DAY), counts(0, 2, 0, 0));
}

#[test]
fn committed_revisions_count_at_the_commit_time() {
    let mut aggregation = ContributorAggregation::new();
    let versions = vec![
        AnnotationVersion { annotation_id: 7, version: 1, human: true, author: ALICE },
        AnnotationVersion { annotation_id: 7, version: 2, human: false, author: CAROL },
    ];
    let staged = vec![
        review(200, BOB, ReviewTarget::AnnotationVersion { annotation_id: 7, version: 1 }, ReviewDecision::Rejected, 5),
        review(201, BOB, ReviewTarget::AnnotationVersion { annotation_id: 7, version: 2 }, ReviewDecision::Approved, 5),
    ];
    let events = vec![Event {
        actor: BOB,
        timestamp: 2 * DAY,
        payload: EventPayload::ReviewRevisionCommitted(staged),
    }];
    aggregation.record_contributors(&versions, &events);
    assert_eq!(aggregation.day(BOB, EPOCH_DAY + 2), counts(0, 2, 0, 0));
    assert_eq!(aggregation.day(ALICE, EPOCH_DAY + 2), counts(0, 0, 0, 1));
    assert_eq!(aggregation.day(CAROL, EPOCH_DAY + 2), counts(0, 0, 0, 0));
    assert_eq!(aggregation.day(BOB, EPOCH_DAY), counts(0, 0, 0, 0));
}

#[test]
fn migration_reviews_credit_who_decided_or_confirmed() {
    let mut aggregation = ContributorAggregation::new();
    let events = vec![
        Event {
            actor: ALICE,
            timestamp: 1,
            payload: EventPayload::MigrationDispositionChanged {
                task_id: BOXES,
                object_group_id: 4,
                disposition_version: 2,
            },
        },
        Event {
            actor: BOB,
            timestamp: 2,
            payload: EventPayload::MigrationFullImageConfirmed { task_id: BOXES, confirmation: 9, actor: CAROL },
        },
        Event {
            actor: BOB,
            timestamp: 3,
            payload: EventPayload::ReviewRecorded(review(
                300,
                BOB,
                ReviewTarget::MigrationDisposition { task_id: BOXES, object_group_id: 4, disposition_version: 2 },
                ReviewDecision::Approved,
                3,
            )),
        },
        Event {
            actor: BOB,
            timestamp: 4,
            payload: EventPayload::ReviewRecorded(review(
                301,
                BOB,
                ReviewTarget::MigrationConfirmation { task_id: BOXES, confirmation: 9 },
                ReviewDecision::Rejected,
                4,
            )),
        },
        Event { actor: BOB, timestamp: 5, payload: EventPayload::Other },
    ];
    aggregation.record_contributors(&Vec::new(), &events);
    assert_eq!(aggregation.day(ALICE, EPOCH_DAY), counts(0, 0, 1, 0));
    assert_eq!(aggregation.day(CAROL, EPOCH_DAY), counts(0, 0, 0, 1));
    assert_eq!(aggregation.day(BOB, EPOCH_DAY), counts(0, 2, 0, 0));
}

#[test]
fn finish_lists_each_user_with_days_in_order() {
    let mut aggregation = ContributorAggregation::new();
    aggregation.record_contributors(
        &Vec::new(),
        &vec![
            submitted(BOB, 3 * DAY, TaskStatus::Submitted, None),
            submitted(ALICE, 2 * DAY, TaskStatus::Submitted, None),
        ],
    );
    // A second image: the scan starts afresh, so Alice labels again.
    aggregation.record_contributors(&Vec::new(), &vec![submitted(ALICE, 0, TaskStatus::Submitted, None)]);
    let histories = aggregation.finish();
    assert_eq!(
        histories,
        vec![
            (ALICE, vec![(EPOCH_DAY, counts(1, 0, 0, 0)), (EPOCH_DAY + 2, counts(1, 0, 0, 0))]),
            (BOB, vec![(EPOCH_DAY + 3, counts(1, 0, 0, 0))]),
        ]
    );
}
