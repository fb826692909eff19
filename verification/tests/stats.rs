use labello::stats::{
    status_label, statuses, ActiveAnnotation, ClassStats, ImageSummary, ImportCoverage, MigrationStatus, StatsAggregation,
    TaskDefinition, TaskImageState, TaskStatus, Throughput,
};

const BOXES: u64 = 1;
const DISABLED: u64 = 2;
const DAY_SECONDS: i64 = 86_400;
const EPOCH_DAY: i64 = 719_163;

fn task(task_id: u64, enabled: bool, class_ids: Vec<u64>) -> TaskDefinition {
    TaskDefinition { task_id, enabled, class_ids }
}

fn state(task_id: u64, status: Option<TaskStatus>) -> TaskImageState {
    TaskImageState { task_id, status, import_coverage: None, migration_targets: None }
}

fn image(tasks: Vec<TaskImageState>) -> ImageSummary {
    ImageSummary { tasks, annotations: Vec::new(), review_times: Vec::new() }
}

#[test]
fn task_counts_are_exclusive_and_preserve_the_completion_denominator() {
    let tasks = vec![task(BOXES, true, Vec::new()), task(DISABLED, false, Vec::new())];
    let mut aggregation = StatsAggregation::new(tasks, Vec::new(), 1);
    for status in [
        TaskStatus::Pending,
        TaskStatus::InProgress,
        TaskStatus::Submitted,
        TaskStatus::NeedsCorrection,
        TaskStatus::Completed,
        TaskStatus::Completed,
        TaskStatus::Completed,
    ] {
        aggregation.record_image(&image(vec![state(BOXES, Some(status))]));
    }
    // Missing state is pending; explicitly excluded import coverage contributes nothing.
    aggregation.record_image(&image(Vec::new()));
    let mut excluded = state(BOXES, None);
    excluded.import_coverage = Some(ImportCoverage::Excluded);
    aggregation.record_image(&image(vec![excluded]));
    assert_eq!(aggregation.task_ids().len(), 1);
    let stats = aggregation.finish();
    assert_eq!(stats.per_task.len(), 1);
    let task = stats.per_task[0].1;
    assert_eq!(stats.per_task[0].0, BOXES);
    assert_eq!(
        [
            task.counts.pending,
            task.counts.in_progress,
            task.counts.awaiting_review,
            task.counts.needs_correction,
            task.counts.completed
        ],
        [2, 1, 1, 1, 3]
    );
    assert_eq!(
        [
            stats.totals.pending,
            stats.totals.in_progress,
            stats.totals.awaiting_review,
            stats.totals.needs_correction,
            stats.totals.completed
        ],
        [2, 1, 1, 1, 3]
    );
    assert_eq!(
        task.counts.pending
            + task.counts.in_progress
            + task.counts.awaiting_review
            + task.counts.needs_correction
            + task.counts.completed,
        8
    );
}

#[test]
fn legacy_adjudication_counts_as_needing_correction() {
    let mut aggregation = StatsAggregation::new(vec![task(BOXES, true, Vec::new())], Vec::new(), 1);
    aggregation.record_image(&image(vec![state(BOXES, Some(TaskStatus::LegacyAdjudicationRequired))]));
    let totals = aggregation.status_totals();
    assert_eq!(totals.needs_correction, 1);
    assert_eq!(totals.pending, 0);
}

#[test]
fn import_coverage_is_counted_for_enabled_tasks_only() {
    let tasks = vec![task(BOXES, true, Vec::new()), task(DISABLED, false, Vec::new())];
    let mut aggregation = StatsAggregation::new(tasks, Vec::new(), 2);
    let mut complete = state(BOXES, Some(TaskStatus::Completed));
    complete.import_coverage = Some(ImportCoverage::Complete);
    let mut ignored = state(DISABLED, None);
    ignored.import_coverage = Some(ImportCoverage::Incomplete);
    aggregation.record_image(&image(vec![complete, ignored]));
    let mut empty = state(BOXES, None);
    empty.import_coverage = Some(ImportCoverage::VerifiedEmpty);
    aggregation.record_image(&image(vec![empty]));
    let coverage = aggregation.coverage_totals();
    assert_eq!(
        [coverage.complete, coverage.verified_empty, coverage.incomplete, coverage.excluded],
        [1, 1, 0, 0]
    );
    assert_eq!(aggregation.total_images(), 2);
    assert!(aggregation.task_stats(DISABLED).is_none());
}

#[test]
fn migration_targets_are_expected_and_partitioned() {
    let mut aggregation = StatsAggregation::new(vec![task(BOXES, true, Vec::new())], Vec::new(), 1);
    let mut migrating = state(BOXES, Some(TaskStatus::InProgress));
    migrating.migration_targets = Some(vec![
        MigrationStatus::Annotated,
        MigrationStatus::Pending,
        MigrationStatus::Pending,
        MigrationStatus::Excluded,
    ]);
    aggregation.record_image(&image(vec![migrating]));
    let totals = aggregation.migration_totals();
    assert_eq!([totals.expected, totals.annotated, totals.excluded, totals.pending], [4, 1, 1, 2]);
    let per_task = aggregation.task_stats(BOXES).unwrap().migration;
    assert_eq!(per_task, totals);
    assert_eq!(per_task.expected, per_task.annotated + per_task.excluded + per_task.pending);
}

#[test]
fn completed_tasks_count_toward_their_classes() {
    let tasks = vec![task(BOXES, true, vec![10, 11])];
    let mut aggregation = StatsAggregation::new(tasks, vec![10, 12], 2);
    aggregation.record_image(&image(vec![state(BOXES, Some(TaskStatus::Completed))]));
    aggregation.record_image(&image(vec![state(BOXES, Some(TaskStatus::Submitted))]));
    assert_eq!(aggregation.class_stats(10), Some(ClassStats { completed_tasks: 1, annotations: 0 }));
    assert_eq!(aggregation.class_stats(11), Some(ClassStats { completed_tasks: 1, annotations: 0 }));
    assert_eq!(aggregation.class_stats(12), Some(ClassStats { completed_tasks: 0, annotations: 0 }));
    assert_eq!(aggregation.class_stats(13), None);
}

#[test]
fn throughput_is_kept_per_utc_day_in_order() {
    let mut aggregation = StatsAggregation::new(vec![task(BOXES, true, Vec::new())], Vec::new(), 1);
    let day_two = 2 * DAY_SECONDS + 5;
    let day_zero = 17;
    let mut summary = image(Vec::new());
    summary.annotations = vec![
        ActiveAnnotation { task_id: 7, class_id: 20, human: true, created_at: day_two },
        ActiveAnnotation { task_id: BOXES, class_id: 20, human: false, created_at: day_zero },
        ActiveAnnotation { task_id: BOXES, class_id: 21, human: true, created_at: day_zero },
    ];
    summary.review_times = vec![day_two + 10, -1];
    aggregation.record_image(&summary);
    let throughput = aggregation.throughput();
    assert_eq!(
        throughput,
        vec![
            (EPOCH_DAY - 1, Throughput { annotations: 0, reviews: 1 }),
            (EPOCH_DAY, Throughput { annotations: 1, reviews: 0 }),
            (EPOCH_DAY + 2, Throughput { annotations: 1, reviews: 1 }),
        ]
    );
    assert_eq!(aggregation.class_stats(20), Some(ClassStats { completed_tasks: 0, annotations: 2 }));
    // An annotation of an unknown task gives that task (empty) statistics.
    let unknown = aggregation.task_stats(7).unwrap();
    assert_eq!(unknown.counts.pending + unknown.counts.completed, 0);
    assert_eq!(aggregation.task_ids().len(), 2);
}

#[test]
fn inspector_statuses_and_labels() {

    let labels: Vec<&str> = statuses().into_iter().map(status_label).collect();
    assert_eq!(labels, vec!["Pending", "In progress", "Submitted", "Needs correction", "Completed"]);
    assert_eq!(status_label(TaskStatus::LegacyAdjudicationRequired), "Historical status");
}

#[test]
fn balance_counts_cover_each_enabled_task_once() {
    let tasks = vec![task(7, true, Vec::new()), task(BOXES, true, Vec::new()), task(7, true, Vec::new()), task(DISABLED, false, Vec::new())];
    let mut aggregation = StatsAggregation::new(tasks, Vec::new(), 3);
    aggregation.record_image(&image(vec![state(BOXES, Some(TaskStatus::Completed)), state(7, Some(TaskStatus::Submitted))]));
    aggregation.record_image(&image(vec![state(BOXES, Some(TaskStatus::Submitted))]));
    // Task 7 is listed twice, so each image counts it twice.
    assert_eq!(aggregation.balance_counts(), vec![(BOXES, 2, 1), (7, 2, 0)]);
}

#[test]
fn assignment_balance_is_reported_only_with_an_imbalance_setting() {
    let mut aggregation = StatsAggregation::new(vec![task(BOXES, true, Vec::new())], Vec::new(), 1);
    aggregation.record_image(&image(vec![state(BOXES, Some(TaskStatus::Completed))]));
    assert!(aggregation.assignment_balance(None).is_none());
    let balance = aggregation.assignment_balance(Some(false)).unwrap();
    assert_eq!(balance.counts, vec![(BOXES, 1, 1)]);
    assert!(!balance.enforced);
    assert!(aggregation.assignment_balance(Some(true)).unwrap().enforced);
}
