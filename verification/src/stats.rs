//! Dataset statistics gathered image by image: task-status counts, import
//! coverage, migration progress, per-class totals and daily throughput.
use vstd::prelude::*;

use crate::assignment::{TaskId, Timestamp};
use crate::calendar::{utc_day, utc_day_of};
use crate::focus::{representable, tasks_sorted};
use crate::keyed::{
    find_key, has_key, keys_unique, lemma_lookup_at, lemma_lookup_insert, lemma_lookup_push,
    lemma_lookup_update, lookup,
};

verus! {

/// Identifies a label class of a dataset.
pub type ClassId = u64;

/// Where a task stands on one image.
#[derive(Clone, Copy, Debug, PartialEq, Eq, Structural)]
pub enum TaskStatus {
    Pending,
    InProgress,
    Submitted,
    NeedsCorrection,
    LegacyAdjudicationRequired,
    Completed,
}

/// How an import covered a task on an image.
#[derive(Clone, Copy, Debug, PartialEq, Eq, Structural)]
pub enum ImportCoverage {
    Complete,
    VerifiedEmpty,
    Incomplete,
    Excluded,
}

/// What became of one object that a task migration asks to carry over.
#[derive(Clone, Copy, Debug, PartialEq, Eq, Structural)]
pub enum MigrationStatus {
    Annotated,
    Excluded,
    Pending,
}

/// A task of the dataset, as the statistics read it.
#[derive(Clone, Debug)]
pub struct TaskDefinition {
    pub task_id: TaskId,
    pub enabled: bool,
    pub class_ids: Vec<ClassId>,
}

/// One task's state on one image.
#[derive(Clone, Debug)]
pub struct TaskImageState {
    pub task_id: TaskId,
    /// `None`: no state was recorded, which counts as pending.
    pub status: Option<TaskStatus>,
    pub import_coverage: Option<ImportCoverage>,
    /// The migration targets of the task on this image, if it has a target set.
    pub migration_targets: Option<Vec<MigrationStatus>>,
}

/// An annotation that is active on an image.
#[derive(Clone, Copy, Debug, PartialEq, Eq, Structural)]
pub struct ActiveAnnotation {
    pub task_id: TaskId,
    pub class_id: ClassId,
    /// Drawn by a person rather than by a model.
    pub human: bool,
    pub created_at: Timestamp,
}

/// What the statistics read of one image.
#[derive(Clone, Debug)]
pub struct ImageSummary {
    pub tasks: Vec<TaskImageState>,
    pub annotations: Vec<ActiveAnnotation>,
    pub review_times: Vec<Timestamp>,
}

/// The five exclusive groups that task states are counted in.
#[derive(Clone, Copy, Debug, PartialEq, Eq, Structural)]
pub enum Bucket {
    Pending,
    InProgress,
    AwaitingReview,
    NeedsCorrection,
    Completed,
}

/// The counters of migration progress.
#[derive(Clone, Copy, Debug, PartialEq, Eq, Structural)]
pub enum MigrationSlot {
    Expected,
    Annotated,
    Excluded,
    Pending,
}

/// Task states counted by group.
#[derive(Clone, Copy, Debug, PartialEq, Eq, Structural)]
pub struct StatusCounts {
    pub pending: u64,
    pub in_progress: u64,
    pub awaiting_review: u64,
    pub needs_correction: u64,
    pub completed: u64,
}

/// Import coverage counted by kind.
#[derive(Clone, Copy, Debug, PartialEq, Eq, Structural)]
pub struct CoverageCounts {
    pub complete: u64,
    pub verified_empty: u64,
    pub incomplete: u64,
    pub excluded: u64,
}

/// Migration targets: how many were expected and what became of them.
#[derive(Clone, Copy, Debug, PartialEq, Eq, Structural)]
pub struct MigrationCounts {
    pub expected: u64,
    pub annotated: u64,
    pub excluded: u64,
    pub pending: u64,
}

/// The statistics of one task.
#[derive(Clone, Copy, Debug, PartialEq, Eq, Structural)]
pub struct TaskStats {
    pub counts: StatusCounts,
    pub migration: MigrationCounts,
}

/// The statistics of one label class.
#[derive(Clone, Copy, Debug, PartialEq, Eq, Structural)]
pub struct ClassStats {
    /// Completed task states of tasks that use the class.
    pub completed_tasks: u64,
    /// Active annotations of the class.
    pub annotations: u64,
}

/// Work done on one UTC day.
#[derive(Clone, Copy, Debug, PartialEq, Eq, Structural)]
pub struct Throughput {
    /// Active annotations drawn by people that day.
    pub annotations: u64,
    pub reviews: u64,
}

/// Names each number that the statistics keep.
#[derive(Clone, Copy, Debug, PartialEq, Eq, Structural)]
pub enum Counter {
    StatusTotal(Bucket),
    TaskBucket(TaskId, Bucket),
    CoverageTotal(ImportCoverage),
    MigrationTotal(MigrationSlot),
    TaskMigration(TaskId, MigrationSlot),
    ClassCompleted(ClassId),
    ClassAnnotated(ClassId),
    DayAnnotations(i64),
    DayReviews(i64),
}

impl StatusCounts {
    /// The count of group `b`.
    pub open spec fn get(self, b: Bucket) -> nat {
        match b {
            Bucket::Pending => self.pending as nat,
            Bucket::InProgress => self.in_progress as nat,
            Bucket::AwaitingReview => self.awaiting_review as nat,
            Bucket::NeedsCorrection => self.needs_correction as nat,
            Bucket::Completed => self.completed as nat,
        }
    }

    /// The sum of the five groups.
    pub open spec fn sum(self) -> nat {
        (self.pending + self.in_progress + self.awaiting_review + self.needs_correction
            + self.completed) as nat
    }

    /// All groups empty.
    pub fn zero() -> (r: StatusCounts)
        ensures
            forall|b: Bucket| #[trigger] r.get(b) == 0,
    {
        StatusCounts { pending: 0, in_progress: 0, awaiting_review: 0, needs_correction: 0, completed: 0 }
    }

    /// Counts one more state in group `b`.
    pub fn bump(&mut self, b: Bucket)
        requires
            old(self).get(b) < u64::MAX,
        ensures
            forall|x: Bucket| #[trigger]
                final(self).get(x) == old(self).get(x) + if x == b {
                    1nat
                } else {
                    0nat
                },
    {
        match b {
            Bucket::Pending => self.pending = self.pending + 1,
            Bucket::InProgress => self.in_progress = self.in_progress + 1,
            Bucket::AwaitingReview => self.awaiting_review = self.awaiting_review + 1,
            Bucket::NeedsCorrection => self.needs_correction = self.needs_correction + 1,
            Bucket::Completed => self.completed = self.completed + 1,
        }
    }
}

impl CoverageCounts {
    /// The count of kind `k`.
    pub open spec fn get(self, k: ImportCoverage) -> nat {
        match k {
            ImportCoverage::Complete => self.complete as nat,
            ImportCoverage::VerifiedEmpty => self.verified_empty as nat,
            ImportCoverage::Incomplete => self.incomplete as nat,
            ImportCoverage::Excluded => self.excluded as nat,
        }
    }

    /// All kinds empty.
    pub fn zero() -> (r: CoverageCounts)
        ensures
            forall|k: ImportCoverage| #[trigger] r.get(k) == 0,
    {
        CoverageCounts { complete: 0, verified_empty: 0, incomplete: 0, excluded: 0 }
    }

    /// Counts one more coverage of kind `k`.
    pub fn bump(&mut self, k: ImportCoverage)
        requires
            old(self).get(k) < u64::MAX,
        ensures
            forall|x: ImportCoverage| #[trigger]
                final(self).get(x) == old(self).get(x) + if x == k {
                    1nat
                } else {
                    0nat
                },
    {
        match k {
            ImportCoverage::Complete => self.complete = self.complete + 1,
            ImportCoverage::VerifiedEmpty => self.verified_empty = self.verified_empty + 1,
            ImportCoverage::Incomplete => self.incomplete = self.incomplete + 1,
            ImportCoverage::Excluded => self.excluded = self.excluded + 1,
        }
    }
}

impl MigrationCounts {
    /// The counter `s`.
    pub open spec fn get(self, s: MigrationSlot) -> nat {
        match s {
            MigrationSlot::Expected => self.expected as nat,
            MigrationSlot::Annotated => self.annotated as nat,
            MigrationSlot::Excluded => self.excluded as nat,
            MigrationSlot::Pending => self.pending as nat,
        }
    }

    /// All counters zero.
    pub fn zero() -> (r: MigrationCounts)
        ensures
            forall|s: MigrationSlot| #[trigger] r.get(s) == 0,
    {
        MigrationCounts { expected: 0, annotated: 0, excluded: 0, pending: 0 }
    }

    /// Counts one more expected target, which ended as `m`.
    pub fn bump(&mut self, m: MigrationStatus)
        requires
            forall|s: MigrationSlot| old(self).get(s) + #[trigger] slot_hits(m, s) <= u64::MAX,
        ensures
            forall|s: MigrationSlot| #[trigger]
                final(self).get(s) == old(self).get(s) + slot_hits(m, s),
    {
        assert(slot_hits(m, MigrationSlot::Expected) == 1);
        self.expected = self.expected + 1;
        match m {
            MigrationStatus::Annotated => {
                assert(slot_hits(m, MigrationSlot::Annotated) == 1);
                self.annotated = self.annotated + 1;
            },
            MigrationStatus::Excluded => {
                assert(slot_hits(m, MigrationSlot::Excluded) == 1);
                self.excluded = self.excluded + 1;
            },
            MigrationStatus::Pending => {
                assert(slot_hits(m, MigrationSlot::Pending) == 1);
                self.pending = self.pending + 1;
            },
        }
    }
}

/// The group that a task status is counted in (no status counts as pending).
pub open spec fn bucket_of(s: Option<TaskStatus>) -> Bucket {
    match s {
        None => Bucket::Pending,
        Some(TaskStatus::Pending) => Bucket::Pending,
        Some(TaskStatus::InProgress) => Bucket::InProgress,
        Some(TaskStatus::Submitted) => Bucket::AwaitingReview,
        Some(TaskStatus::NeedsCorrection) => Bucket::NeedsCorrection,
        Some(TaskStatus::LegacyAdjudicationRequired) => Bucket::NeedsCorrection,
        Some(TaskStatus::Completed) => Bucket::Completed,
    }
}

/// `i` is the first position of task `t` in `s`.
pub open spec fn first_at(s: Seq<TaskImageState>, t: TaskId, i: int) -> bool {
    &&& 0 <= i < s.len()
    &&& s[i].task_id == t
    &&& forall|j: int| 0 <= j < i ==> #[trigger] s[j].task_id != t
}

/// The state of task `t` on an image whose task states are `s` (the first one
/// for `t`, if several are given).
pub open spec fn state_for(s: Seq<TaskImageState>, t: TaskId) -> Option<TaskImageState> {
    if exists|i: int| #[trigger] first_at(s, t, i) {
        Some(s[choose|i: int| #[trigger] first_at(s, t, i)])
    } else {
        None
    }
}

/// The task state `e` counts toward the completion denominator: the task was not
/// excluded from the image by its import.
pub open spec fn counted(e: Option<TaskImageState>) -> bool {
    !(e is Some && e->0.import_coverage == Some(ImportCoverage::Excluded))
}

/// The group that the task state `e` is counted in.
pub open spec fn bucket_in(e: Option<TaskImageState>) -> Bucket {
    match e {
        Some(x) => bucket_of(x.status),
        None => Bucket::Pending,
    }
}

/// How often `c` occurs in `s`.
pub open spec fn occurrences(s: Seq<ClassId>, c: ClassId) -> nat
    decreases s.len(),
{
    if s.len() == 0 {
        0
    } else {
        occurrences(s.drop_last(), c) + if s.last() == c {
            1nat
        } else {
            0nat
        }
    }
}

/// What one migration target that ended as `m` adds to counter `s`.
pub open spec fn slot_hits(m: MigrationStatus, s: MigrationSlot) -> nat {
    match s {
        MigrationSlot::Expected => 1,
        MigrationSlot::Annotated => if m == MigrationStatus::Annotated {
            1
        } else {
            0
        },
        MigrationSlot::Excluded => if m == MigrationStatus::Excluded {
            1
        } else {
            0
        },
        MigrationSlot::Pending => if m == MigrationStatus::Pending {
            1
        } else {
            0
        },
    }
}

/// Counter `s` over the migration targets `t`.
pub open spec fn slot_count(t: Seq<MigrationStatus>, s: MigrationSlot) -> nat
    decreases t.len(),
{
    if t.len() == 0 {
        0
    } else {
        slot_count(t.drop_last(), s) + slot_hits(t.last(), s)
    }
}

/// Counter `s` over the migration targets of the task state `e`.
pub open spec fn migration_of(e: Option<TaskImageState>, s: MigrationSlot) -> nat {
    match e {
        Some(x) => match x.migration_targets {
            Some(t) => slot_count(t@, s),
            None => 0,
        },
        None => 0,
    }
}

/// What recording the enabled task `d` on image `img` adds to counter `c`.
pub open spec fn task_contribution(img: ImageSummary, d: TaskDefinition, c: Counter) -> nat {
    let e = state_for(img.tasks@, d.task_id);
    match c {
        Counter::StatusTotal(b) => if counted(e) && bucket_in(e) == b {
            1
        } else {
            0
        },
        Counter::TaskBucket(t, b) => if t == d.task_id && counted(e) && bucket_in(e) == b {
            1
        } else {
            0
        },
        Counter::CoverageTotal(k) => if e is Some && e->0.import_coverage == Some(k) {
            1
        } else {
            0
        },
        Counter::MigrationTotal(s) => migration_of(e, s),
        Counter::TaskMigration(t, s) => if t == d.task_id {
            migration_of(e, s)
        } else {
            0
        },
        Counter::ClassCompleted(cl) => if counted(e) && bucket_in(e) == Bucket::Completed {
            occurrences(d.class_ids@, cl)
        } else {
            0
        },
        _ => 0,
    }
}

/// What the enabled tasks among `defs` add to counter `c` for image `img`.
pub open spec fn tasks_contribution(defs: Seq<TaskDefinition>, img: ImageSummary, c: Counter) -> nat
    decreases defs.len(),
{
    if defs.len() == 0 {
        0
    } else {
        tasks_contribution(defs.drop_last(), img, c) + if defs.last().enabled {
            task_contribution(img, defs.last(), c)
        } else {
            0
        }
    }
}

/// What the active annotations `a` of an image add to counter `c`.
pub open spec fn annotation_contribution(a: Seq<ActiveAnnotation>, c: Counter) -> nat
    decreases a.len(),
{
    if a.len() == 0 {
        0
    } else {
        annotation_contribution(a.drop_last(), c) + match c {
            Counter::ClassAnnotated(cl) => if a.last().class_id == cl {
                1nat
            } else {
                0nat
            },
            Counter::DayAnnotations(d) => if a.last().human && utc_day(a.last().created_at as int)
                == d {
                1nat
            } else {
                0nat
            },
            _ => 0nat,
        }
    }
}

/// What the reviews made at times `r` add to counter `c`.
pub open spec fn review_contribution(r: Seq<Timestamp>, c: Counter) -> nat
    decreases r.len(),
{
    if r.len() == 0 {
        0
    } else {
        review_contribution(r.drop_last(), c) + match c {
            Counter::DayReviews(d) => if utc_day(r.last() as int) == d {
                1nat
            } else {
                0nat
            },
            _ => 0nat,
        }
    }
}

/// What recording image `img` adds to counter `c`.
pub open spec fn image_contribution(defs: Seq<TaskDefinition>, img: ImageSummary, c: Counter) -> nat {
    tasks_contribution(defs, img, c) + annotation_contribution(img.annotations@, c)
        + review_contribution(img.review_times@, c)
}

/// Counter `c` after recording `images`, in order, for the dataset tasks `defs`.
pub open spec fn tally(defs: Seq<TaskDefinition>, images: Seq<ImageSummary>, c: Counter) -> nat
    decreases images.len(),
{
    if images.len() == 0 {
        0
    } else {
        tally(defs, images.drop_last(), c) + image_contribution(defs, images.last(), c)
    }
}

/// Some enabled task of `defs` has id `t`.
pub open spec fn enabled_task(defs: Seq<TaskDefinition>, t: TaskId) -> bool {
    exists|k: int| 0 <= k < defs.len() && #[trigger] defs[k].enabled && defs[k].task_id == t
}

/// Some active annotation of `images` belongs to task `t`.
pub open spec fn annotated_task(images: Seq<ImageSummary>, t: TaskId) -> bool {
    exists|i: int, j: int|
        0 <= i < images.len() && 0 <= j < images[i].annotations@.len()
            && #[trigger] images[i].annotations@[j].task_id == t
}

/// Every timestamp of `img` is representable.
pub open spec fn times_representable(img: ImageSummary) -> bool {
    &&& forall|j: int|
        0 <= j < img.annotations@.len() ==> representable(
            #[trigger] img.annotations@[j].created_at as int,
        )
    &&& forall|j: int|
        0 <= j < img.review_times@.len() ==> representable(#[trigger] img.review_times@[j] as int)
}

/// Every counter fits in a `u64` after recording `images`.
pub open spec fn tallies_fit(defs: Seq<TaskDefinition>, images: Seq<ImageSummary>) -> bool {
    forall|c: Counter| #[trigger] tally(defs, images, c) <= u64::MAX
}

/// Taking one more element of `s` adds that element's occurrence.
pub proof fn lemma_occurrences_step(s: Seq<ClassId>, j: int)
    requires
        0 <= j < s.len(),
    ensures
        forall|c: ClassId| #[trigger]
            occurrences(s.take(j + 1), c) == occurrences(s.take(j), c) + if s[j] == c {
                1nat
            } else {
                0nat
            },
{
    assert(s.take(j + 1).drop_last() =~= s.take(j));
}

/// A prefix of `s` holds no more occurrences than `s`.
pub proof fn lemma_occurrences_prefix(s: Seq<ClassId>, j: int, c: ClassId)
    requires
        0 <= j <= s.len(),
    ensures
        occurrences(s.take(j), c) <= occurrences(s, c),
    decreases s.len(),
{
    if j < s.len() {
        assert(s.drop_last().take(j) =~= s.take(j));
        lemma_occurrences_prefix(s.drop_last(), j, c);
    } else {
        assert(s.take(j) =~= s);
    }
}

/// Taking one more migration target adds what it hits.
pub proof fn lemma_slot_count_step(t: Seq<MigrationStatus>, j: int)
    requires
        0 <= j < t.len(),
    ensures
        forall|s: MigrationSlot| #[trigger]
            slot_count(t.take(j + 1), s) == slot_count(t.take(j), s) + slot_hits(t[j], s),
{
    assert(t.take(j + 1).drop_last() =~= t.take(j));
}

/// A prefix of `t` counts no more than `t`.
pub proof fn lemma_slot_count_prefix(t: Seq<MigrationStatus>, j: int, s: MigrationSlot)
    requires
        0 <= j <= t.len(),
    ensures
        slot_count(t.take(j), s) <= slot_count(t, s),
    decreases t.len(),
{
    if j < t.len() {
        assert(t.drop_last().take(j) =~= t.take(j));
        lemma_slot_count_prefix(t.drop_last(), j, s);
    } else {
        assert(t.take(j) =~= t);
    }
}

/// Taking one more task definition adds its contribution, if it is enabled.
pub proof fn lemma_tasks_step(defs: Seq<TaskDefinition>, k: int, img: ImageSummary)
    requires
        0 <= k < defs.len(),
    ensures
        forall|c: Counter| #[trigger]
            tasks_contribution(defs.take(k + 1), img, c) == tasks_contribution(defs.take(k), img, c)
                + if defs[k].enabled {
                task_contribution(img, defs[k], c)
            } else {
                0
            },
{
    assert(defs.take(k + 1).drop_last() =~= defs.take(k));
}

/// A prefix of the task definitions contributes no more than all of them.
pub proof fn lemma_tasks_prefix(defs: Seq<TaskDefinition>, k: int, img: ImageSummary, c: Counter)
    requires
        0 <= k <= defs.len(),
    ensures
        tasks_contribution(defs.take(k), img, c) <= tasks_contribution(defs, img, c),
    decreases defs.len(),
{
    if k < defs.len() {
        assert(defs.drop_last().take(k) =~= defs.take(k));
        lemma_tasks_prefix(defs.drop_last(), k, img, c);
    } else {
        assert(defs.take(k) =~= defs);
    }
}

/// Taking one more annotation adds what it counts.
pub proof fn lemma_annotations_step(a: Seq<ActiveAnnotation>, j: int)
    requires
        0 <= j < a.len(),
    ensures
        forall|c: Counter| #[trigger]
            annotation_contribution(a.take(j + 1), c) == annotation_contribution(a.take(j), c)
                + match c {
                Counter::ClassAnnotated(cl) => if a[j].class_id == cl {
                    1nat
                } else {
                    0nat
                },
                Counter::DayAnnotations(d) => if a[j].human && utc_day(a[j].created_at as int) == d {
                    1nat
                } else {
                    0nat
                },
                _ => 0nat,
            },
{
    assert(a.take(j + 1).drop_last() =~= a.take(j));
}

/// A prefix of the annotations counts no more than all of them.
pub proof fn lemma_annotations_prefix(a: Seq<ActiveAnnotation>, j: int, c: Counter)
    requires
        0 <= j <= a.len(),
    ensures
        annotation_contribution(a.take(j), c) <= annotation_contribution(a, c),
    decreases a.len(),
{
    if j < a.len() {
        assert(a.drop_last().take(j) =~= a.take(j));
        lemma_annotations_prefix(a.drop_last(), j, c);
    } else {
        assert(a.take(j) =~= a);
    }
}

/// Taking one more review adds what it counts.
pub proof fn lemma_reviews_step(r: Seq<Timestamp>, j: int)
    requires
        0 <= j < r.len(),
    ensures
        forall|c: Counter| #[trigger]
            review_contribution(r.take(j + 1), c) == review_contribution(r.take(j), c) + match c {
                Counter::DayReviews(d) => if utc_day(r[j] as int) == d {
                    1nat
                } else {
                    0nat
                },
                _ => 0nat,
            },
{
    assert(r.take(j + 1).drop_last() =~= r.take(j));
}

/// A prefix of the reviews counts no more than all of them.
pub proof fn lemma_reviews_prefix(r: Seq<Timestamp>, j: int, c: Counter)
    requires
        0 <= j <= r.len(),
    ensures
        review_contribution(r.take(j), c) <= review_contribution(r, c),
    decreases r.len(),
{
    if j < r.len() {
        assert(r.drop_last().take(j) =~= r.take(j));
        lemma_reviews_prefix(r.drop_last(), j, c);
    } else {
        assert(r.take(j) =~= r);
    }
}

/// Recording one more image adds its contribution to every counter.
pub proof fn lemma_tally_push(defs: Seq<TaskDefinition>, images: Seq<ImageSummary>, img: ImageSummary)
    ensures
        forall|c: Counter| #[trigger]
            tally(defs, images.push(img), c) == tally(defs, images, c) + image_contribution(defs, img, c),
{
    assert(images.push(img).drop_last() =~= images);
}

/// The position of the state of task `t` among `tasks`, as [`state_for`] picks it.
pub fn state_index(tasks: &Vec<TaskImageState>, t: TaskId) -> (r: Option<usize>)
    ensures
        match r {
            Some(i) => i < tasks@.len() && state_for(tasks@, t) == Some(tasks@[i as int]),
            None => state_for(tasks@, t) is None,
        },
{
    let mut i: usize = 0;
    while i < tasks.len()
        invariant
            i <= tasks@.len(),
            forall|j: int| 0 <= j < i ==> #[trigger] tasks@[j].task_id != t,
        decreases tasks@.len() - i,
    {
        if tasks[i].task_id == t {
            proof {
                let s = tasks@;
                assert(first_at(s, t, i as int));
                let f = choose|f: int| #[trigger] first_at(s, t, f);
                if f < i {
                    assert(s[f].task_id != t);
                } else if f > i {
                    assert(s[i as int].task_id != t);
                }
            }
            return Some(i);
        }
        i += 1;
    }
    proof {
        let s = tasks@;
        if exists|f: int| #[trigger] first_at(s, t, f) {
            let f = choose|f: int| #[trigger] first_at(s, t, f);
            assert(s[f].task_id != t);
        }
    }
    None
}

/// Completed task states counted for class `cl` in `s`.
pub open spec fn class_completed(s: Seq<(ClassId, ClassStats)>, cl: ClassId) -> nat {
    match lookup(s, cl) {
        Some(x) => x.completed_tasks as nat,
        None => 0,
    }
}

/// Active annotations counted for class `cl` in `s`.
pub open spec fn class_annotated(s: Seq<(ClassId, ClassStats)>, cl: ClassId) -> nat {
    match lookup(s, cl) {
        Some(x) => x.annotations as nat,
        None => 0,
    }
}

/// Annotations counted for day `d` in `s`.
pub open spec fn day_annotations(s: Seq<(i64, Throughput)>, d: i64) -> nat {
    match lookup(s, d) {
        Some(x) => x.annotations as nat,
        None => 0,
    }
}

/// Reviews counted for day `d` in `s`.
pub open spec fn day_reviews(s: Seq<(i64, Throughput)>, d: i64) -> nat {
    match lookup(s, d) {
        Some(x) => x.reviews as nat,
        None => 0,
    }
}

/// The group that a task status is counted in.
pub fn bucket_of_status(s: Option<TaskStatus>) -> (b: Bucket)
    ensures
        b == bucket_of(s),
{
    match s {
        None => Bucket::Pending,
        Some(TaskStatus::Pending) => Bucket::Pending,
        Some(TaskStatus::InProgress) => Bucket::InProgress,
        Some(TaskStatus::Submitted) => Bucket::AwaitingReview,
        Some(TaskStatus::NeedsCorrection) => Bucket::NeedsCorrection,
        Some(TaskStatus::LegacyAdjudicationRequired) => Bucket::NeedsCorrection,
        Some(TaskStatus::Completed) => Bucket::Completed,
    }
}

/// Counts one completed task state (`completed`) or one active annotation
/// (otherwise) for class `cl`, adding the class if it is new.
fn bump_class(per_class: &mut Vec<(ClassId, ClassStats)>, cl: ClassId, completed: bool)
    requires
        keys_unique(old(per_class)@),
        completed ==> class_completed(old(per_class)@, cl) < u64::MAX,
        !completed ==> class_annotated(old(per_class)@, cl) < u64::MAX,
    ensures
        keys_unique(final(per_class)@),
        forall|q: ClassId| #[trigger]
            class_completed(final(per_class)@, q) == class_completed(old(per_class)@, q) + if completed
                && q == cl {
                1nat
            } else {
                0nat
            },
        forall|q: ClassId| #[trigger]
            class_annotated(final(per_class)@, q) == class_annotated(old(per_class)@, q) + if !completed
                && q == cl {
                1nat
            } else {
                0nat
            },
        forall|q: ClassId| #[trigger]
            has_key(final(per_class)@, q) <==> (has_key(old(per_class)@, q) || q == cl),
{
    let ghost before = per_class@;
    match find_key(per_class, cl) {
        Some(i) => {
            proof {
                lemma_lookup_at(before, i as int);
            }
            let mut x = per_class[i].1;
            if completed {
                x.completed_tasks = x.completed_tasks + 1;
            } else {
                x.annotations = x.annotations + 1;
            }
            per_class.set(i, (cl, x));
            proof {
                lemma_lookup_update(before, i as int, x);
                assert forall|q: ClassId| #[trigger] has_key(per_class@, q) <==> (has_key(before, q) || q == cl) by {
                    if has_key(per_class@, q) {
                        let j = choose|j: int| 0 <= j < per_class@.len() && #[trigger] per_class@[j].0 == q;
                        assert(before[j].0 == q);
                    }
                    if has_key(before, q) {
                        let j = choose|j: int| 0 <= j < before.len() && #[trigger] before[j].0 == q;
                        assert(per_class@[j].0 == q);
                    }
                    if q == cl {
                        assert(per_class@[i as int].0 == q);
                    }
                }
            }
        },
        None => {
            let x = if completed {
                ClassStats { completed_tasks: 1, annotations: 0 }
            } else {
                ClassStats { completed_tasks: 0, annotations: 1 }
            };
            per_class.push((cl, x));
            proof {
                lemma_lookup_push(before, cl, x);
                assert forall|q: ClassId| #[trigger] has_key(per_class@, q) <==> (has_key(before, q) || q == cl) by {
                    if has_key(per_class@, q) {
                        let j = choose|j: int| 0 <= j < per_class@.len() && #[trigger] per_class@[j].0 == q;
                        if j < before.len() {
                            assert(before[j].0 == q);
                        }
                    }
                    if has_key(before, q) {
                        let j = choose|j: int| 0 <= j < before.len() && #[trigger] before[j].0 == q;
                        assert(per_class@[j].0 == q);
                    }
                    if q == cl {
                        assert(per_class@[before.len() as int].0 == q);
                    }
                }
            }
        },
    }
}

/// Counts one completed task state for each class of `class_ids`.
fn add_completions(per_class: &mut Vec<(ClassId, ClassStats)>, class_ids: &Vec<ClassId>)
    requires
        keys_unique(old(per_class)@),
        forall|q: ClassId| #[trigger]
            class_completed(old(per_class)@, q) + occurrences(class_ids@, q) <= u64::MAX,
    ensures
        keys_unique(final(per_class)@),
        forall|q: ClassId| #[trigger]
            class_completed(final(per_class)@, q) == class_completed(old(per_class)@, q)
                + occurrences(class_ids@, q),
        forall|q: ClassId| #[trigger]
            class_annotated(final(per_class)@, q) == class_annotated(old(per_class)@, q),
        forall|q: ClassId| #[trigger]
            has_key(final(per_class)@, q) <==> (has_key(old(per_class)@, q) || occurrences(
                class_ids@,
                q,
            ) > 0),
{
    let ghost start = per_class@;
    let mut j: usize = 0;
    while j < class_ids.len()
        invariant
            j <= class_ids@.len(),
            keys_unique(per_class@),
            forall|q: ClassId| #[trigger]
                class_completed(start, q) + occurrences(class_ids@, q) <= u64::MAX,
            forall|q: ClassId| #[trigger]
                class_completed(per_class@, q) == class_completed(start, q) + occurrences(
                    class_ids@.take(j as int),
                    q,
                ),
            forall|q: ClassId| #[trigger] class_annotated(per_class@, q) == class_annotated(start, q),
            forall|q: ClassId| #[trigger]
                has_key(per_class@, q) <==> (has_key(start, q) || occurrences(
                    class_ids@.take(j as int),
                    q,
                ) > 0),
        decreases class_ids@.len() - j,
    {
        let cl = class_ids[j];
        proof {
            lemma_occurrences_step(class_ids@, j as int);
            lemma_occurrences_prefix(class_ids@, j as int + 1, cl);
            assert(class_completed(per_class@, cl) == class_completed(start, cl) + occurrences(
                class_ids@.take(j as int), cl));
            assert(occurrences(class_ids@.take(j as int + 1), cl) == occurrences(class_ids@.take(j as int), cl) + 1);
        }
        bump_class(per_class, cl, true);
        j += 1;
    }
    assert(class_ids@.take(class_ids@.len() as int) =~= class_ids@);
}

/// Counts, for each target of `targets`, one expected target and what became of it,
/// both in `total` and in `task`.
fn add_targets(total: &mut MigrationCounts, task: &mut MigrationCounts, targets: &Vec<MigrationStatus>)
    requires
        forall|s: MigrationSlot| #[trigger] old(total).get(s) + slot_count(targets@, s) <= u64::MAX,
        forall|s: MigrationSlot| old(task).get(s) + #[trigger] slot_count(targets@, s) <= u64::MAX,
    ensures
        forall|s: MigrationSlot| #[trigger]
            final(total).get(s) == old(total).get(s) + slot_count(targets@, s),
        forall|s: MigrationSlot| #[trigger]
            final(task).get(s) == old(task).get(s) + slot_count(targets@, s),
{
    let ghost t0 = *total;
    let ghost k0 = *task;
    let mut j: usize = 0;
    while j < targets.len()
        invariant
            j <= targets@.len(),
            forall|s: MigrationSlot| #[trigger] t0.get(s) + slot_count(targets@, s) <= u64::MAX,
            forall|s: MigrationSlot| k0.get(s) + #[trigger] slot_count(targets@, s) <= u64::MAX,
            forall|s: MigrationSlot| #[trigger]
                total.get(s) == t0.get(s) + slot_count(targets@.take(j as int), s),
            forall|s: MigrationSlot| #[trigger]
                task.get(s) == k0.get(s) + slot_count(targets@.take(j as int), s),
        decreases targets@.len() - j,
    {
        let m = targets[j];
        proof {
            lemma_slot_count_step(targets@, j as int);
            assert forall|s: MigrationSlot| total.get(s) + #[trigger] slot_hits(m, s) <= u64::MAX by {
                lemma_slot_count_prefix(targets@, j as int + 1, s);
            }
            assert forall|s: MigrationSlot| task.get(s) + #[trigger] slot_hits(m, s) <= u64::MAX by {
                lemma_slot_count_prefix(targets@, j as int + 1, s);
            }
        }
        total.bump(m);
        task.bump(m);
        j += 1;
    }
    assert(targets@.take(targets@.len() as int) =~= targets@);
}

/// Counts one review (`review`) or one annotation (otherwise) on day `d`,
/// adding the day in order if it is new.
fn bump_day(throughput: &mut Vec<(i64, Throughput)>, d: i64, review: bool)
    requires
        keys_unique(old(throughput)@),
        days_increase(old(throughput)@),
        review ==> day_reviews(old(throughput)@, d) < u64::MAX,
        !review ==> day_annotations(old(throughput)@, d) < u64::MAX,
    ensures
        keys_unique(final(throughput)@),
        days_increase(final(throughput)@),
        forall|q: i64| #[trigger]
            day_annotations(final(throughput)@, q) == day_annotations(old(throughput)@, q) + if !review
                && q == d {
                1nat
            } else {
                0nat
            },
        forall|q: i64| #[trigger]
            day_reviews(final(throughput)@, q) == day_reviews(old(throughput)@, q) + if review && q
                == d {
                1nat
            } else {
                0nat
            },
        forall|q: i64| #[trigger]
            has_key(final(throughput)@, q) <==> (has_key(old(throughput)@, q) || q == d),
{
    let ghost before = throughput@;
    let mut p: usize = 0;
    while p < throughput.len() && throughput[p].0 < d
        invariant
            p <= throughput@.len(),
            throughput@ == before,
            forall|i: int| 0 <= i < p ==> #[trigger] throughput@[i].0 < d,
        decreases throughput@.len() - p,
    {
        p += 1;
    }
    if p < throughput.len() && throughput[p].0 == d {
        proof {
            lemma_lookup_at(before, p as int);
        }
        let mut x = throughput[p].1;
        if review {
            x.reviews = x.reviews + 1;
        } else {
            x.annotations = x.annotations + 1;
        }
        throughput.set(p, (d, x));
        proof {
            lemma_lookup_update(before, p as int, x);
            assert forall|q: i64| #[trigger] has_key(throughput@, q) <==> (has_key(before, q) || q == d) by {
                if has_key(throughput@, q) {
                    let j = choose|j: int| 0 <= j < throughput@.len() && #[trigger] throughput@[j].0 == q;
                    assert(before[j].0 == q);
                }
                if has_key(before, q) {
                    let j = choose|j: int| 0 <= j < before.len() && #[trigger] before[j].0 == q;
                    assert(throughput@[j].0 == q);
                }
                if q == d {
                    assert(throughput@[p as int].0 == q);
                }
            }
            assert forall|i: int, j: int| 0 <= i < j < throughput@.len() implies #[trigger] throughput@[i].0 < #[trigger] throughput@[j].0 by {
                assert(before[i].0 < before[j].0);
            }
        }
    } else {
        let x = if review {
            Throughput { annotations: 0, reviews: 1 }
        } else {
            Throughput { annotations: 1, reviews: 0 }
        };
        proof {
            assert forall|i: int| 0 <= i < before.len() implies #[trigger] before[i].0 != d by {
                if i >= p {
                    if i > p {
                        assert(before[p as int].0 < before[i].0);
                    }
                }
            }
        }
        throughput.insert(p, (d, x));
        proof {
            assert(!has_key(before, d));
            lemma_lookup_insert(before, p as int, d, x);
            assert(throughput@ == before.insert(p as int, (d, x)));
            assert forall|q: i64| #[trigger] has_key(throughput@, q) <==> (has_key(before, q) || q == d) by {
                if has_key(throughput@, q) {
                    let j = choose|j: int| 0 <= j < throughput@.len() && #[trigger] throughput@[j].0 == q;
                    if j < p {
                        assert(before[j].0 == q);
                    } else if j > p {
                        assert(before[j - 1].0 == q);
                    }
                }
                if has_key(before, q) {
                    let j = choose|j: int| 0 <= j < before.len() && #[trigger] before[j].0 == q;
                    if j < p {
                        assert(throughput@[j].0 == q);
                    } else {
                        assert(throughput@[j + 1].0 == q);
                    }
                }
                if q == d {
                    assert(throughput@[p as int].0 == q);
                }
            }
            assert forall|i: int, j: int| 0 <= i < j < throughput@.len() implies #[trigger] throughput@[i].0 < #[trigger] throughput@[j].0 by {
                if j < p {
                    assert(before[i].0 < before[j].0);
                } else if j == p {
                    assert(before[i].0 < d);
                } else if i < p {
                    assert(throughput@[j].0 == before[j - 1].0);
                    assert(before[i].0 < d);
                    assert(before[j - 1].0 >= before[p as int].0 || j - 1 == p);
                    if j - 1 > p {
                        assert(before[p as int].0 < before[j - 1].0);
                    }
                } else if i == p {
                    assert(throughput@[j].0 == before[j - 1].0);
                    if j - 1 > p {
                        assert(before[p as int].0 < before[j - 1].0);
                    }
                } else {
                    assert(before[i - 1].0 < before[j - 1].0);
                }
            }
        }
    }
}

/// `s` holds the statistics that recording `images` gives task `t`.
pub open spec fn task_stats_match(s: TaskStats, defs: Seq<TaskDefinition>, images: Seq<ImageSummary>, t: TaskId) -> bool {
    &&& forall|b: Bucket| #[trigger] s.counts.get(b) == tally(defs, images, Counter::TaskBucket(t, b))
    &&& forall|m: MigrationSlot| #[trigger]
        s.migration.get(m) == tally(defs, images, Counter::TaskMigration(t, m))
}

/// `s` holds the statistics that recording `images` gives class `cl`.
pub open spec fn class_stats_match(s: ClassStats, defs: Seq<TaskDefinition>, images: Seq<ImageSummary>, cl: ClassId) -> bool {
    &&& s.completed_tasks == tally(defs, images, Counter::ClassCompleted(cl))
    &&& s.annotations == tally(defs, images, Counter::ClassAnnotated(cl))
}

/// `s` is the daily throughput that recording `images` gives: one entry per day
/// with work, in order of the days.
pub open spec fn throughput_match(s: Seq<(i64, Throughput)>, defs: Seq<TaskDefinition>, images: Seq<ImageSummary>) -> bool {
    &&& days_increase(s)
    &&& forall|d: i64| #[trigger]
        has_key(s, d) <==> (tally(defs, images, Counter::DayAnnotations(d)) > 0 || tally(
            defs,
            images,
            Counter::DayReviews(d),
        ) > 0)
    &&& forall|i: int| 0 <= i < s.len() ==> {
        &&& (#[trigger] s[i]).1.annotations == tally(defs, images, Counter::DayAnnotations(s[i].0))
        &&& s[i].1.reviews == tally(defs, images, Counter::DayReviews(s[i].0))
    }
}

/// The statistics of a dataset once every image is recorded.
#[derive(Clone, Debug)]
pub struct DatasetStats {
    pub total_images: u64,
    pub totals: StatusCounts,
    pub coverage: CoverageCounts,
    pub migration: MigrationCounts,
    /// Per task, keyed by task id.
    pub per_task: Vec<(TaskId, TaskStats)>,
    /// Per label class, keyed by class id.
    pub per_class: Vec<(ClassId, ClassStats)>,
    /// Per UTC day with work, in order of the days.
    pub throughput: Vec<(i64, Throughput)>,
}

/// How evenly work is spread over the enabled tasks: per task, in id order,
/// the images annotated and the images reviewed, and whether the dataset's
/// imbalance setting is enforced (without it no task is blocked).
pub struct AssignmentBalance {
    pub counts: Vec<(TaskId, u64, u64)>,
    pub enforced: bool,
}

/// Statistics of a dataset, gathered image by image.
pub struct StatsAggregation {
    tasks: Vec<TaskDefinition>,
    label_classes: Ghost<Seq<ClassId>>,
    total_images: u64,
    totals: StatusCounts,
    coverage: CoverageCounts,
    migration: MigrationCounts,
    per_task: Vec<(TaskId, TaskStats)>,
    per_class: Vec<(ClassId, ClassStats)>,
    throughput: Vec<(i64, Throughput)>,
    images: Ghost<Seq<ImageSummary>>,
}

/// Task statistics with nothing counted.
pub open spec fn empty_task_stats(s: TaskStats) -> bool {
    &&& forall|b: Bucket| #[trigger] s.counts.get(b) == 0
    &&& forall|m: MigrationSlot| #[trigger] s.migration.get(m) == 0
}

/// The days of `s` strictly increase.
pub open spec fn days_increase(s: Seq<(i64, Throughput)>) -> bool {
    forall|i: int, j: int| 0 <= i < j < s.len() ==> #[trigger] s[i].0 < #[trigger] s[j].0
}

impl StatsAggregation {
    /// The dataset's tasks, in order.
    pub closed spec fn tasks(self) -> Seq<TaskDefinition> {
        self.tasks@
    }

    /// The images recorded so far, in order.
    pub closed spec fn recorded(self) -> Seq<ImageSummary> {
        self.images@
    }

    /// The dataset's label classes.
    pub closed spec fn label_classes(self) -> Seq<ClassId> {
        self.label_classes@
    }

    /// The number of images of the dataset.
    pub closed spec fn images_in_dataset(self) -> u64 {
        self.total_images
    }

    /// The number kept for counter `c`.
    pub closed spec fn value(self, c: Counter) -> nat {
        match c {
            Counter::StatusTotal(b) => self.totals.get(b),
            Counter::TaskBucket(t, b) => match lookup(self.per_task@, t) {
                Some(s) => s.counts.get(b),
                None => 0,
            },
            Counter::CoverageTotal(k) => self.coverage.get(k),
            Counter::MigrationTotal(m) => self.migration.get(m),
            Counter::TaskMigration(t, m) => match lookup(self.per_task@, t) {
                Some(s) => s.migration.get(m),
                None => 0,
            },
            Counter::ClassCompleted(cl) => class_completed(self.per_class@, cl),
            Counter::ClassAnnotated(cl) => class_annotated(self.per_class@, cl),
            Counter::DayAnnotations(d) => day_annotations(self.throughput@, d),
            Counter::DayReviews(d) => day_reviews(self.throughput@, d),
        }
    }

    /// The shape of the kept maps, whatever has been recorded.
    pub closed spec fn shape(self) -> bool {
        &&& keys_unique(self.per_task@)
        &&& keys_unique(self.per_class@)
        &&& keys_unique(self.throughput@)
        &&& days_increase(self.throughput@)
        &&& forall|k: int|
            0 <= k < self.tasks@.len() && #[trigger] self.tasks@[k].enabled ==> has_key(
                self.per_task@,
                self.tasks@[k].task_id,
            )
        &&& forall|cl: ClassId| #[trigger]
            has_key(self.per_class@, cl) <==> (self.label_classes@.contains(cl) || self.value(
                Counter::ClassCompleted(cl),
            ) > 0 || self.value(Counter::ClassAnnotated(cl)) > 0)
        &&& forall|d: i64| #[trigger]
            has_key(self.throughput@, d) <==> (self.value(Counter::DayAnnotations(d)) > 0
                || self.value(Counter::DayReviews(d)) > 0)
    }

    /// Every kept number is the tally of the recorded images.
    pub closed spec fn wf(self) -> bool {
        &&& self.shape()
        &&& forall|c: Counter|
            #![trigger self.value(c)]
            #![trigger tally(self.tasks@, self.images@, c)]
            self.value(c) == tally(self.tasks@, self.images@, c)
        &&& forall|t: TaskId| #[trigger]
            has_key(self.per_task@, t) <==> (enabled_task(self.tasks@, t) || annotated_task(
                self.images@,
                t,
            ))
    }

    /// Starts the statistics of a dataset with tasks `tasks`, label classes
    /// `label_classes` and `total_images` images; nothing is recorded yet.
    pub fn new(tasks: Vec<TaskDefinition>, label_classes: Vec<ClassId>, total_images: u64) -> (r:
        StatsAggregation)
        ensures
            r.wf(),
            r.tasks() == tasks@,
            r.recorded() == Seq::<ImageSummary>::empty(),
            r.label_classes() == label_classes@,
            r.images_in_dataset() == total_images,
    {
        let mut per_task: Vec<(TaskId, TaskStats)> = Vec::new();
        let mut k: usize = 0;
        while k < tasks.len()
            invariant
                k <= tasks@.len(),
                keys_unique(per_task@),
                forall|i: int| 0 <= i < per_task@.len() ==> empty_task_stats(#[trigger] per_task@[i].1),
                forall|t: TaskId| #[trigger]
                    has_key(per_task@, t) <==> enabled_task(tasks@.take(k as int), t),
            decreases tasks@.len() - k,
        {
            let ghost before = per_task@;
            let ghost d = tasks@[k as int];
            if tasks[k].enabled {
                let id = tasks[k].task_id;
                match find_key(&per_task, id) {
                    Some(_) => {},
                    None => {
                        let z = TaskStats { counts: StatusCounts::zero(), migration: MigrationCounts::zero() };
                        per_task.push((id, z));
                        proof {
                            lemma_lookup_push(before, id, z);
                            assert(per_task@ == before.push((id, z)));
                            assert forall|t: TaskId| #[trigger] has_key(per_task@, t) implies has_key(before, t) || t == id by {
                                let i = choose|i: int| 0 <= i < per_task@.len() && #[trigger] per_task@[i].0 == t;
                                if i < before.len() {
                                    assert(before[i].0 == t);
                                }
                            }
                            assert forall|t: TaskId| has_key(before, t) implies #[trigger] has_key(per_task@, t) by {
                                let i = choose|i: int| 0 <= i < before.len() && #[trigger] before[i].0 == t;
                                assert(per_task@[i].0 == t);
                            }
                            assert(per_task@[before.len() as int].0 == id);
                        }
                    },
                }
            }
            proof {
                let s = tasks@.take(k as int);
                let s1 = tasks@.take(k as int + 1);
                assert forall|t: TaskId| enabled_task(s1, t) <==> (enabled_task(s, t) || (d.enabled && d.task_id == t)) by {
                    if enabled_task(s, t) {
                        let q = choose|q: int| 0 <= q < s.len() && #[trigger] s[q].enabled && s[q].task_id == t;
                        assert(s1[q] == s[q]);
                    }
                    if d.enabled && d.task_id == t {
                        assert(s1[k as int] == d);
                    }
                    if enabled_task(s1, t) {
                        let q = choose|q: int| 0 <= q < s1.len() && #[trigger] s1[q].enabled && s1[q].task_id == t;
                        if q < k {
                            assert(s[q] == s1[q]);
                        }
                    }
                }
            }
            k += 1;
        }
        assert(tasks@.take(tasks@.len() as int) =~= tasks@);
        let mut per_class: Vec<(ClassId, ClassStats)> = Vec::new();
        let mut j: usize = 0;
        while j < label_classes.len()
            invariant
                j <= label_classes@.len(),
                keys_unique(per_class@),
                forall|i: int| 0 <= i < per_class@.len() ==> #[trigger] per_class@[i].1 == (ClassStats { completed_tasks: 0, annotations: 0 }),
                forall|cl: ClassId| #[trigger]
                    has_key(per_class@, cl) <==> label_classes@.take(j as int).contains(cl),
            decreases label_classes@.len() - j,
        {
            let ghost before = per_class@;
            let cl = label_classes[j];
            let z = ClassStats { completed_tasks: 0, annotations: 0 };
            match find_key(&per_class, cl) {
                Some(_) => {},
                None => {
                    per_class.push((cl, z));
                    proof {
                        lemma_lookup_push(before, cl, z);
                        assert forall|q: ClassId| #[trigger] has_key(per_class@, q) implies has_key(before, q) || q == cl by {
                            let i = choose|i: int| 0 <= i < per_class@.len() && #[trigger] per_class@[i].0 == q;
                            if i < before.len() {
                                assert(before[i].0 == q);
                            }
                        }
                        assert forall|q: ClassId| has_key(before, q) implies #[trigger] has_key(per_class@, q) by {
                            let i = choose|i: int| 0 <= i < before.len() && #[trigger] before[i].0 == q;
                            assert(per_class@[i].0 == q);
                        }
                        assert(per_class@[before.len() as int].0 == cl);
                    }
                },
            }
            proof {
                let s = label_classes@.take(j as int);
                let s1 = label_classes@.take(j as int + 1);
                assert(s1 =~= s.push(cl));
                assert forall|q: ClassId| s1.contains(q) <==> (s.contains(q) || q == cl) by {
                    if s.contains(q) {
                        let i = choose|i: int| 0 <= i < s.len() && s[i] == q;
                        assert(s1[i] == q);
                    }
                    if q == cl {
                        assert(s1[j as int] == q);
                    }
                }
            }
            j += 1;
        }
        assert(label_classes@.take(label_classes@.len() as int) =~= label_classes@);
        let r = StatsAggregation {
            tasks,
            label_classes: Ghost(label_classes@),
            total_images,
            totals: StatusCounts::zero(),
            coverage: CoverageCounts::zero(),
            migration: MigrationCounts::zero(),
            per_task,
            per_class,
            throughput: Vec::new(),
            images: Ghost(Seq::empty()),
        };
        proof {
            assert forall|c: Counter| r.value(c) == tally(r.tasks@, r.images@, c) by {
                match c {
                    Counter::TaskBucket(t, b) => {
                        if has_key(r.per_task@, t) {
                            let i = choose|i: int| 0 <= i < r.per_task@.len() && #[trigger] r.per_task@[i].0 == t;
                            lemma_lookup_at(r.per_task@, i);
                            assert(empty_task_stats(r.per_task@[i].1));
                        }
                    },
                    Counter::TaskMigration(t, m) => {
                        if has_key(r.per_task@, t) {
                            let i = choose|i: int| 0 <= i < r.per_task@.len() && #[trigger] r.per_task@[i].0 == t;
                            lemma_lookup_at(r.per_task@, i);
                            assert(empty_task_stats(r.per_task@[i].1));
                        }
                    },
                    Counter::ClassCompleted(cl) => {
                        if has_key(r.per_class@, cl) {
                            let i = choose|i: int| 0 <= i < r.per_class@.len() && #[trigger] r.per_class@[i].0 == cl;
                            lemma_lookup_at(r.per_class@, i);
                        }
                    },
                    Counter::ClassAnnotated(cl) => {
                        if has_key(r.per_class@, cl) {
                            let i = choose|i: int| 0 <= i < r.per_class@.len() && #[trigger] r.per_class@[i].0 == cl;
                            lemma_lookup_at(r.per_class@, i);
                        }
                    },
                    _ => {},
                }
            }
            assert forall|k: int|
                0 <= k < r.tasks@.len() && #[trigger] r.tasks@[k].enabled implies has_key(r.per_task@, r.tasks@[k].task_id) by {
                assert(enabled_task(r.tasks@, r.tasks@[k].task_id));
            }
            assert forall|cl: ClassId| #[trigger] has_key(r.per_class@, cl) <==> (r.label_classes@.contains(cl) || r.value(Counter::ClassCompleted(cl)) > 0 || r.value(Counter::ClassAnnotated(cl)) > 0) by {
                if has_key(r.per_class@, cl) {
                    let i = choose|i: int| 0 <= i < r.per_class@.len() && #[trigger] r.per_class@[i].0 == cl;
                    lemma_lookup_at(r.per_class@, i);
                }
            }
        }
        r
    }

    /// Records enabled task `k` of the dataset on image `img`.
    fn record_task(&mut self, k: usize, img: &ImageSummary)
        requires
            old(self).shape(),
            k < old(self).tasks@.len(),
            old(self).tasks@[k as int].enabled,
            forall|c: Counter|
                #![trigger old(self).value(c)]
                old(self).value(c) + task_contribution(*img, old(self).tasks@[k as int], c) <= u64::MAX,
        ensures
            final(self).shape(),
            final(self).tasks@ == old(self).tasks@,
            final(self).images@ == old(self).images@,
            final(self).label_classes@ == old(self).label_classes@,
            final(self).total_images == old(self).total_images,
            forall|t: TaskId| #[trigger] has_key(final(self).per_task@, t) == has_key(old(self).per_task@, t),
            forall|c: Counter| #[trigger]
                final(self).value(c) == old(self).value(c) + task_contribution(
                    *img,
                    old(self).tasks@[k as int],
                    c,
                ),
    {
        let ghost s0 = *self;
        let ghost d = self.tasks@[k as int];
        let ghost e = state_for(img.tasks@, d.task_id);
        let id = self.tasks[k].task_id;
        assert(has_key(self.per_task@, id));
        let idx = find_key(&self.per_task, id).unwrap();
        proof {
            lemma_lookup_at(s0.per_task@, idx as int);
        }
        let mut ts = self.per_task[idx].1;
        let mut counted_here = true;
        let mut bucket = Bucket::Pending;
        let pos = state_index(&img.tasks, id);
        match pos {
            Some(p) => {
                let st = &img.tasks[p];
                match st.import_coverage {
                    Some(kind) => {
                        assert(s0.value(Counter::CoverageTotal(kind)) + task_contribution(*img, d, Counter::CoverageTotal(kind)) <= u64::MAX);
                        self.coverage.bump(kind);
                        match kind {
                            ImportCoverage::Excluded => {
                                counted_here = false;
                            },
                            _ => {},
                        }
                    },
                    None => {},
                }
                match &st.migration_targets {
                    Some(targets) => {
                        proof {
                            assert forall|m: MigrationSlot| #[trigger] s0.migration.get(m) + slot_count(targets@, m) <= u64::MAX by {
                                assert(s0.value(Counter::MigrationTotal(m)) + task_contribution(*img, d, Counter::MigrationTotal(m)) <= u64::MAX);
                            }
                            assert forall|m: MigrationSlot| ts.migration.get(m) + #[trigger] slot_count(targets@, m) <= u64::MAX by {
                                assert(s0.value(Counter::TaskMigration(id, m)) + task_contribution(*img, d, Counter::TaskMigration(id, m)) <= u64::MAX);
                            }
                        }
                        add_targets(&mut self.migration, &mut ts.migration, targets);
                    },
                    None => {},
                }
                bucket = bucket_of_status(st.status);
            },
            None => {},
        }
        assert(counted_here == counted(e));
        assert(bucket == bucket_in(e));
        if counted_here {
            assert(s0.value(Counter::StatusTotal(bucket)) + task_contribution(*img, d, Counter::StatusTotal(bucket)) <= u64::MAX);
            assert(s0.value(Counter::TaskBucket(id, bucket)) + task_contribution(*img, d, Counter::TaskBucket(id, bucket)) <= u64::MAX);
            self.totals.bump(bucket);
            ts.counts.bump(bucket);
            match bucket {
                Bucket::Completed => {
                    let class_ids = &self.tasks[k].class_ids;
                    proof {
                        assert forall|q: ClassId| #[trigger] class_completed(s0.per_class@, q) + occurrences(d.class_ids@, q) <= u64::MAX by {
                            assert(s0.value(Counter::ClassCompleted(q)) + task_contribution(*img, d, Counter::ClassCompleted(q)) <= u64::MAX);
                        }
                    }
                    add_completions(&mut self.per_class, class_ids);
                },
                _ => {},
            }
        }
        self.per_task.set(idx, (id, ts));
        proof {
            lemma_lookup_update(s0.per_task@, idx as int, ts);
            assert forall|t: TaskId| #[trigger] has_key(self.per_task@, t) == has_key(s0.per_task@, t) by {
                if has_key(self.per_task@, t) {
                    let j = choose|j: int| 0 <= j < self.per_task@.len() && #[trigger] self.per_task@[j].0 == t;
                    assert(s0.per_task@[j].0 == t);
                }
                if has_key(s0.per_task@, t) {
                    let j = choose|j: int| 0 <= j < s0.per_task@.len() && #[trigger] s0.per_task@[j].0 == t;
                    assert(self.per_task@[j].0 == t);
                }
            }
            assert forall|c: Counter| #[trigger] self.value(c) == s0.value(c) + task_contribution(*img, d, c) by {
                match c {
                    Counter::TaskBucket(t, b) => {
                        if t == id {
                        } else {
                        }
                    },
                    _ => {},
                }
            }
            assert forall|q: ClassId| #[trigger] has_key(self.per_class@, q) <==> (self.label_classes@.contains(q) || self.value(Counter::ClassCompleted(q)) > 0 || self.value(Counter::ClassAnnotated(q)) > 0) by {
                assert(self.value(Counter::ClassCompleted(q)) == s0.value(Counter::ClassCompleted(q)) + task_contribution(*img, d, Counter::ClassCompleted(q)));
                assert(self.value(Counter::ClassAnnotated(q)) == s0.value(Counter::ClassAnnotated(q)) + task_contribution(*img, d, Counter::ClassAnnotated(q)));
                assert(s0.value(Counter::ClassCompleted(q)) > 0 ==> has_key(s0.per_class@, q));
            }
            assert forall|dd: i64| #[trigger] has_key(self.throughput@, dd) <==> (self.value(Counter::DayAnnotations(dd)) > 0 || self.value(Counter::DayReviews(dd)) > 0) by {
                assert(self.value(Counter::DayAnnotations(dd)) == s0.value(Counter::DayAnnotations(dd)) + task_contribution(*img, d, Counter::DayAnnotations(dd)));
                assert(self.value(Counter::DayReviews(dd)) == s0.value(Counter::DayReviews(dd)) + task_contribution(*img, d, Counter::DayReviews(dd)));
            }
            assert forall|kk: int|
                0 <= kk < self.tasks@.len() && #[trigger] self.tasks@[kk].enabled implies has_key(self.per_task@, self.tasks@[kk].task_id) by {
                assert(has_key(s0.per_task@, s0.tasks@[kk].task_id));
            }
        }
    }

    /// Records one image: the state of each enabled task on it, its active
    /// annotations and its reviews.
    pub fn record_image(&mut self, img: &ImageSummary)
        requires
            old(self).wf(),
            times_representable(*img),
            tallies_fit(old(self).tasks(), old(self).recorded().push(*img)),
        ensures
            final(self).wf(),
            final(self).tasks() == old(self).tasks(),
            final(self).recorded() == old(self).recorded().push(*img),
            final(self).label_classes() == old(self).label_classes(),
            final(self).images_in_dataset() == old(self).images_in_dataset(),
    {
        let ghost s0 = *self;
        let ghost defs = self.tasks@;
        let ghost old_images = s0.images@;
        let ghost anns = img.annotations@;
        let ghost revs = img.review_times@;
        proof {
            lemma_tally_push(defs, old_images, *img);
        }
        let mut k: usize = 0;
        while k < self.tasks.len()
            invariant
                self.shape(),
                self.tasks@ == defs,
                self.images@ == old_images,
                self.label_classes@ == s0.label_classes@,
                self.total_images == s0.total_images,
                k <= defs.len(),
                tallies_fit(defs, old_images.push(*img)),
                forall|c: Counter| #[trigger]
                    tally(defs, old_images.push(*img), c) == tally(defs, old_images, c)
                        + image_contribution(defs, *img, c),
                forall|c: Counter|
                    #![trigger self.value(c)]
                    self.value(c) == tally(defs, old_images, c) + tasks_contribution(
                        defs.take(k as int),
                        *img,
                        c,
                    ),
                forall|t: TaskId| #[trigger] has_key(self.per_task@, t) == has_key(s0.per_task@, t),
            decreases defs.len() - k,
        {
            proof {
                lemma_tasks_step(defs, k as int, *img);
            }
            if self.tasks[k].enabled {
                proof {
                    assert forall|c: Counter|
                        #![trigger self.value(c)]
                        self.value(c) + task_contribution(*img, defs[k as int], c) <= u64::MAX by {
                        lemma_tasks_prefix(defs, k as int + 1, *img, c);
                        assert(tally(defs, old_images.push(*img), c) <= u64::MAX);
                    }
                }
                self.record_task(k, img);
            }
            k += 1;
        }
        assert(defs.take(defs.len() as int) =~= defs);
        let mut j: usize = 0;
        while j < img.annotations.len()
            invariant
                self.shape(),
                self.tasks@ == defs,
                self.images@ == old_images,
                self.label_classes@ == s0.label_classes@,
                self.total_images == s0.total_images,
                j <= anns.len(),
                anns == img.annotations@,
                times_representable(*img),
                tallies_fit(defs, old_images.push(*img)),
                forall|c: Counter| #[trigger]
                    tally(defs, old_images.push(*img), c) == tally(defs, old_images, c)
                        + image_contribution(defs, *img, c),
                forall|c: Counter|
                    #![trigger self.value(c)]
                    self.value(c) == tally(defs, old_images, c) + tasks_contribution(defs, *img, c)
                        + annotation_contribution(anns.take(j as int), c),
                forall|t: TaskId| #[trigger]
                    has_key(self.per_task@, t) <==> (has_key(s0.per_task@, t) || exists|q: int|
                        0 <= q < j && #[trigger] anns[q].task_id == t),
            decreases anns.len() - j,
        {
            let a = img.annotations[j];
            let ghost s1 = *self;
            proof {
                lemma_annotations_step(anns, j as int);
                lemma_annotations_prefix(anns, j as int + 1, Counter::ClassAnnotated(a.class_id));
                assert(tally(defs, old_images.push(*img), Counter::ClassAnnotated(a.class_id)) <= u64::MAX);
                assert(s1.value(Counter::ClassAnnotated(a.class_id)) < u64::MAX);
            }
            match find_key(&self.per_task, a.task_id) {
                Some(_) => {},
                None => {
                    let z = TaskStats { counts: StatusCounts::zero(), migration: MigrationCounts::zero() };
                    self.per_task.push((a.task_id, z));
                    proof {
                        lemma_lookup_push(s1.per_task@, a.task_id, z);
                        assert forall|t: TaskId| #[trigger] has_key(self.per_task@, t) <==> (has_key(s1.per_task@, t) || t == a.task_id) by {
                            if has_key(self.per_task@, t) {
                                let i = choose|i: int| 0 <= i < self.per_task@.len() && #[trigger] self.per_task@[i].0 == t;
                                if i < s1.per_task@.len() {
                                    assert(s1.per_task@[i].0 == t);
                                }
                            }
                            if has_key(s1.per_task@, t) {
                                let i = choose|i: int| 0 <= i < s1.per_task@.len() && #[trigger] s1.per_task@[i].0 == t;
                                assert(self.per_task@[i].0 == t);
                            }
                            if t == a.task_id {
                                assert(self.per_task@[s1.per_task@.len() as int].0 == t);
                            }
                        }
                        assert forall|kk: int|
                            0 <= kk < self.tasks@.len() && #[trigger] self.tasks@[kk].enabled implies has_key(self.per_task@, self.tasks@[kk].task_id) by {
                            assert(has_key(s1.per_task@, s1.tasks@[kk].task_id));
                        }
                    }
                },
            }
            let ghost s2 = *self;
            bump_class(&mut self.per_class, a.class_id, false);
            if a.human {
                assert(representable(anns[j as int].created_at as int));
                let day = utc_day_of(a.created_at);
                proof {
                    lemma_annotations_prefix(anns, j as int + 1, Counter::DayAnnotations(day));
                    assert(tally(defs, old_images.push(*img), Counter::DayAnnotations(day)) <= u64::MAX);
                    assert(s1.value(Counter::DayAnnotations(day)) < u64::MAX);
                }
                bump_day(&mut self.throughput, day, false);
            }
            proof {
                assert forall|c: Counter| #![trigger self.value(c)] self.value(c) == s1.value(c) + match c {
                    Counter::ClassAnnotated(cl) => if a.class_id == cl {
                        1nat
                    } else {
                        0nat
                    },
                    Counter::DayAnnotations(dd) => if a.human && utc_day(a.created_at as int) == dd {
                        1nat
                    } else {
                        0nat
                    },
                    _ => 0nat,
                } by {
                    match c {
                        Counter::TaskBucket(t, b) => {
                            if t == a.task_id && !has_key(s1.per_task@, t) {
                                lemma_lookup_at(self.per_task@, s1.per_task@.len() as int);
                            }
                        },
                        Counter::TaskMigration(t, m) => {
                            if t == a.task_id && !has_key(s1.per_task@, t) {
                                lemma_lookup_at(self.per_task@, s1.per_task@.len() as int);
                            }
                        },
                        _ => {},
                    }
                }
                assert forall|t: TaskId| #[trigger]
                    has_key(self.per_task@, t) <==> (has_key(s0.per_task@, t) || exists|q: int|
                        0 <= q < j + 1 && #[trigger] anns[q].task_id == t) by {
                    if exists|q: int| 0 <= q < j + 1 && #[trigger] anns[q].task_id == t {
                        let q = choose|q: int| 0 <= q < j + 1 && #[trigger] anns[q].task_id == t;
                        if q < j {
                            assert(exists|q2: int| 0 <= q2 < j && #[trigger] anns[q2].task_id == t);
                        }
                    }
                    if exists|q: int| 0 <= q < j && #[trigger] anns[q].task_id == t {
                        let q = choose|q: int| 0 <= q < j && #[trigger] anns[q].task_id == t;
                        assert(0 <= q < j + 1 && anns[q].task_id == t);
                    }
                    if t == a.task_id {
                        assert(anns[j as int].task_id == t);
                    }
                }
                assert forall|q: ClassId| #[trigger] has_key(self.per_class@, q) <==> (self.label_classes@.contains(q) || self.value(Counter::ClassCompleted(q)) > 0 || self.value(Counter::ClassAnnotated(q)) > 0) by {
                    assert(self.value(Counter::ClassCompleted(q)) == s1.value(Counter::ClassCompleted(q)));
                    assert(has_key(s1.per_class@, q) <==> (s1.label_classes@.contains(q) || s1.value(Counter::ClassCompleted(q)) > 0 || s1.value(Counter::ClassAnnotated(q)) > 0));
                }
                assert forall|dd: i64| #[trigger] has_key(self.throughput@, dd) <==> (self.value(Counter::DayAnnotations(dd)) > 0 || self.value(Counter::DayReviews(dd)) > 0) by {
                    assert(self.value(Counter::DayReviews(dd)) == s1.value(Counter::DayReviews(dd)));
                    assert(has_key(s1.throughput@, dd) <==> (s1.value(Counter::DayAnnotations(dd)) > 0 || s1.value(Counter::DayReviews(dd)) > 0));
                }
            }
            j += 1;
        }
        assert(anns.take(anns.len() as int) =~= anns);
        let mut j: usize = 0;
        while j < img.review_times.len()
            invariant
                self.shape(),
                self.tasks@ == defs,
                self.images@ == old_images,
                self.label_classes@ == s0.label_classes@,
                self.total_images == s0.total_images,
                j <= revs.len(),
                revs == img.review_times@,
                anns == img.annotations@,
                times_representable(*img),
                tallies_fit(defs, old_images.push(*img)),
                forall|c: Counter| #[trigger]
                    tally(defs, old_images.push(*img), c) == tally(defs, old_images, c)
                        + image_contribution(defs, *img, c),
                forall|c: Counter|
                    #![trigger self.value(c)]
                    self.value(c) == tally(defs, old_images, c) + tasks_contribution(defs, *img, c)
                        + annotation_contribution(anns, c) + review_contribution(revs.take(j as int), c),
                forall|t: TaskId| #[trigger]
                    has_key(self.per_task@, t) <==> (has_key(s0.per_task@, t) || exists|q: int|
                        0 <= q < anns.len() && #[trigger] anns[q].task_id == t),
            decreases revs.len() - j,
        {
            let ghost s1 = *self;
            assert(representable(revs[j as int] as int));
            let day = utc_day_of(img.review_times[j]);
            proof {
                let c = Counter::DayReviews(day);
                lemma_reviews_step(revs, j as int);
                lemma_reviews_prefix(revs, j as int + 1, c);
                assert(review_contribution(revs.take(j as int + 1), c) == review_contribution(revs.take(j as int), c) + 1);
                assert(image_contribution(defs, *img, c) == tasks_contribution(defs, *img, c) + annotation_contribution(anns, c) + review_contribution(revs, c));
                assert(tally(defs, old_images.push(*img), c) <= u64::MAX);
                assert(s1.value(c) == tally(defs, old_images, c) + tasks_contribution(defs, *img, c)
                        + annotation_contribution(anns, c) + review_contribution(revs.take(j as int), c));
                assert(s1.value(c) < u64::MAX);
            }
            bump_day(&mut self.throughput, day, true);
            proof {
                assert forall|c: Counter| #![trigger self.value(c)] self.value(c) == s1.value(c) + match c {
                    Counter::DayReviews(dd) => if utc_day(revs[j as int] as int) == dd {
                        1nat
                    } else {
                        0nat
                    },
                    _ => 0nat,
                } by {}
                assert forall|dd: i64| #[trigger] has_key(self.throughput@, dd) <==> (self.value(Counter::DayAnnotations(dd)) > 0 || self.value(Counter::DayReviews(dd)) > 0) by {
                    assert(self.value(Counter::DayAnnotations(dd)) == s1.value(Counter::DayAnnotations(dd)));
                    assert(has_key(s1.throughput@, dd) <==> (s1.value(Counter::DayAnnotations(dd)) > 0 || s1.value(Counter::DayReviews(dd)) > 0));
                }
                assert forall|q: ClassId| #[trigger] has_key(self.per_class@, q) <==> (self.label_classes@.contains(q) || self.value(Counter::ClassCompleted(q)) > 0 || self.value(Counter::ClassAnnotated(q)) > 0) by {
                    assert(self.value(Counter::ClassCompleted(q)) == s1.value(Counter::ClassCompleted(q)));
                    assert(self.value(Counter::ClassAnnotated(q)) == s1.value(Counter::ClassAnnotated(q)));
                }
            }
            j += 1;
        }
        assert(revs.take(revs.len() as int) =~= revs);
        let ghost s3 = *self;
        self.images = Ghost(old_images.push(*img));
        proof {
            let ni = old_images.push(*img);
            assert forall|c: Counter|
                #![trigger self.value(c)]
                #![trigger tally(self.tasks@, self.images@, c)]
                self.value(c) == tally(self.tasks@, self.images@, c) by {
                assert(self.value(c) == s3.value(c));
                assert(s3.value(c) == tally(defs, old_images, c) + tasks_contribution(defs, *img, c)
                        + annotation_contribution(anns, c) + review_contribution(revs.take(revs.len() as int), c));
                assert(tally(defs, ni, c) == tally(defs, old_images, c) + image_contribution(defs, *img, c));
            }
            assert forall|t: TaskId| #[trigger]
                has_key(self.per_task@, t) <==> (enabled_task(self.tasks@, t) || annotated_task(self.images@, t)) by {
                assert(has_key(s0.per_task@, t) <==> (enabled_task(defs, t) || annotated_task(old_images, t)));
                if annotated_task(old_images, t) {
                    let (i, q) = choose|i: int, q: int|
                        0 <= i < old_images.len() && 0 <= q < old_images[i].annotations@.len()
                            && #[trigger] old_images[i].annotations@[q].task_id == t;
                    assert(ni[i] == old_images[i]);
                    assert(ni[i].annotations@[q].task_id == t);
                }
                if exists|q: int| 0 <= q < anns.len() && #[trigger] anns[q].task_id == t {
                    let q = choose|q: int| 0 <= q < anns.len() && #[trigger] anns[q].task_id == t;
                    assert(ni[old_images.len() as int] == *img);
                    assert(ni[old_images.len() as int].annotations@[q].task_id == t);
                }
                if annotated_task(ni, t) {
                    let (i, q) = choose|i: int, q: int|
                        0 <= i < ni.len() && 0 <= q < ni[i].annotations@.len()
                            && #[trigger] ni[i].annotations@[q].task_id == t;
                    if i < old_images.len() {
                        assert(old_images[i].annotations@[q].task_id == t);
                    } else {
                        assert(anns[q].task_id == t);
                    }
                }
            }
        }
    }

    /// The number of images of the dataset.
    pub fn total_images(&self) -> (r: u64)
        ensures
            r == self.images_in_dataset(),
    {
        self.total_images
    }

    /// Counted task states by group, over all enabled tasks.
    pub fn status_totals(&self) -> (r: StatusCounts)
        requires
            self.wf(),
        ensures
            forall|b: Bucket| #[trigger]
                r.get(b) == tally(self.tasks(), self.recorded(), Counter::StatusTotal(b)),
    {
        proof {
            assert forall|b: Bucket| #[trigger]
                self.totals.get(b) == tally(self.tasks(), self.recorded(), Counter::StatusTotal(b)) by {
                assert(self.value(Counter::StatusTotal(b)) == self.totals.get(b));
            }
        }
        self.totals
    }

    /// Import coverage by kind, over all enabled tasks.
    pub fn coverage_totals(&self) -> (r: CoverageCounts)
        requires
            self.wf(),
        ensures
            forall|k: ImportCoverage| #[trigger]
                r.get(k) == tally(self.tasks(), self.recorded(), Counter::CoverageTotal(k)),
    {
        proof {
            assert forall|k: ImportCoverage| #[trigger]
                self.coverage.get(k) == tally(self.tasks(), self.recorded(), Counter::CoverageTotal(k)) by {
                assert(self.value(Counter::CoverageTotal(k)) == self.coverage.get(k));
            }
        }
        self.coverage
    }

    /// Migration progress, over all enabled tasks.
    pub fn migration_totals(&self) -> (r: MigrationCounts)
        requires
            self.wf(),
        ensures
            forall|m: MigrationSlot| #[trigger]
                r.get(m) == tally(self.tasks(), self.recorded(), Counter::MigrationTotal(m)),
    {
        proof {
            assert forall|m: MigrationSlot| #[trigger]
                self.migration.get(m) == tally(self.tasks(), self.recorded(), Counter::MigrationTotal(m)) by {
                assert(self.value(Counter::MigrationTotal(m)) == self.migration.get(m));
            }
        }
        self.migration
    }

    /// The statistics of task `t`: kept for the enabled tasks and for the tasks of
    /// recorded annotations.
    pub fn task_stats(&self, t: TaskId) -> (r: Option<TaskStats>)
        requires
            self.wf(),
        ensures
            r is Some <==> (enabled_task(self.tasks(), t) || annotated_task(self.recorded(), t)),
            r matches Some(s) ==> task_stats_match(s, self.tasks(), self.recorded(), t),
    {
        match find_key(&self.per_task, t) {
            Some(i) => {
                proof {
                    lemma_lookup_at(self.per_task@, i as int);
                    let s = self.per_task@[i as int].1;
                    assert forall|b: Bucket| #[trigger] s.counts.get(b) == tally(self.tasks(), self.recorded(), Counter::TaskBucket(t, b)) by {
                        assert(self.value(Counter::TaskBucket(t, b)) == s.counts.get(b));
                    }
                    assert forall|m: MigrationSlot| #[trigger] s.migration.get(m) == tally(self.tasks(), self.recorded(), Counter::TaskMigration(t, m)) by {
                        assert(self.value(Counter::TaskMigration(t, m)) == s.migration.get(m));
                    }
                }
                Some(self.per_task[i].1)
            },
            None => None,
        }
    }

    /// The ids of the tasks that have statistics, each once.
    pub fn task_ids(&self) -> (r: Vec<TaskId>)
        requires
            self.wf(),
        ensures
            forall|i: int, j: int| 0 <= i < j < r@.len() ==> r@[i] != r@[j],
            forall|t: TaskId| #[trigger]
                r@.contains(t) <==> (enabled_task(self.tasks(), t) || annotated_task(self.recorded(), t)),
    {
        let mut r: Vec<TaskId> = Vec::new();
        let mut i: usize = 0;
        while i < self.per_task.len()
            invariant
                i <= self.per_task@.len(),
                r@.len() == i,
                forall|j: int| 0 <= j < i ==> #[trigger] r@[j] == self.per_task@[j].0,
            decreases self.per_task@.len() - i,
        {
            r.push(self.per_task[i].0);
            i += 1;
        }
        proof {
            assert forall|a: int, b: int| 0 <= a < b < r@.len() implies r@[a] != r@[b] by {
                assert(self.per_task@[a].0 != self.per_task@[b].0);
            }
            assert forall|t: TaskId| #[trigger] r@.contains(t) <==> has_key(self.per_task@, t) by {
                if r@.contains(t) {
                    let j = choose|j: int| 0 <= j < r@.len() && r@[j] == t;
                    assert(self.per_task@[j].0 == t);
                }
                if has_key(self.per_task@, t) {
                    let j = choose|j: int| 0 <= j < self.per_task@.len() && #[trigger] self.per_task@[j].0 == t;
                    assert(r@[j] == t);
                }
            }
        }
        r
    }

    /// The statistics of class `cl`: kept for the dataset's label classes and for
    /// every class with a completed task state or an active annotation.
    pub fn class_stats(&self, cl: ClassId) -> (r: Option<ClassStats>)
        requires
            self.wf(),
        ensures
            r is Some <==> (self.label_classes().contains(cl) || tally(
                self.tasks(),
                self.recorded(),
                Counter::ClassCompleted(cl),
            ) > 0 || tally(self.tasks(), self.recorded(), Counter::ClassAnnotated(cl)) > 0),
            r matches Some(s) ==> class_stats_match(s, self.tasks(), self.recorded(), cl),
    {
        proof {
            assert(self.value(Counter::ClassCompleted(cl)) == tally(self.tasks(), self.recorded(), Counter::ClassCompleted(cl)));
            assert(self.value(Counter::ClassAnnotated(cl)) == tally(self.tasks(), self.recorded(), Counter::ClassAnnotated(cl)));
        }
        match find_key(&self.per_class, cl) {
            Some(i) => {
                proof {
                    lemma_lookup_at(self.per_class@, i as int);
                }
                Some(self.per_class[i].1)
            },
            None => None,
        }
    }

    /// Work per UTC day, one entry per day with work, in order of the days.
    pub fn throughput(&self) -> (r: Vec<(i64, Throughput)>)
        requires
            self.wf(),
        ensures
            throughput_match(r@, self.tasks(), self.recorded()),
    {
        let mut r: Vec<(i64, Throughput)> = Vec::new();
        let mut i: usize = 0;
        while i < self.throughput.len()
            invariant
                i <= self.throughput@.len(),
                r@ == self.throughput@.take(i as int),
            decreases self.throughput@.len() - i,
        {
            r.push(self.throughput[i]);
            proof {
                assert(self.throughput@.take(i as int + 1) =~= self.throughput@.take(i as int).push(self.throughput@[i as int]));
            }
            i += 1;
        }
        proof {
            assert(self.throughput@.take(self.throughput@.len() as int) =~= self.throughput@);
            self.lemma_throughput_match();
        }
        r
    }

    proof fn lemma_throughput_match(&self)
        requires
            self.wf(),
        ensures
            throughput_match(self.throughput@, self.tasks(), self.recorded()),
    {
        let s = self.throughput@;
        assert forall|d: i64| #[trigger]
            has_key(s, d) <==> (tally(self.tasks(), self.recorded(), Counter::DayAnnotations(d)) > 0 || tally(
                self.tasks(),
                self.recorded(),
                Counter::DayReviews(d),
            ) > 0) by {
            assert(self.value(Counter::DayAnnotations(d)) == tally(self.tasks(), self.recorded(), Counter::DayAnnotations(d)));
            assert(self.value(Counter::DayReviews(d)) == tally(self.tasks(), self.recorded(), Counter::DayReviews(d)));
        }
        assert forall|i: int| 0 <= i < s.len() implies {
            &&& (#[trigger] s[i]).1.annotations == tally(self.tasks(), self.recorded(), Counter::DayAnnotations(s[i].0))
            &&& s[i].1.reviews == tally(self.tasks(), self.recorded(), Counter::DayReviews(s[i].0))
        } by {
            lemma_lookup_at(s, i);
            assert(self.value(Counter::DayAnnotations(s[i].0)) == tally(self.tasks(), self.recorded(), Counter::DayAnnotations(s[i].0)));
            assert(self.value(Counter::DayReviews(s[i].0)) == tally(self.tasks(), self.recorded(), Counter::DayReviews(s[i].0)));
        }
    }

    /// Per enabled task, each once in increasing id order, the work that counts for
    /// assignment balance: annotations (completed or awaiting review) and reviews
    /// (completed).
    pub fn balance_counts(&self) -> (r: Vec<(TaskId, u64, u64)>)
        requires
            self.wf(),
            forall|t: TaskId| #[trigger]
                tally(self.tasks(), self.recorded(), Counter::TaskBucket(t, Bucket::Completed)) + tally(
                    self.tasks(),
                    self.recorded(),
                    Counter::TaskBucket(t, Bucket::AwaitingReview),
                ) <= u64::MAX,
        ensures
            forall|a: int, b: int| 0 <= a < b < r@.len() ==> r@[a].0 < r@[b].0,
            forall|t: TaskId| (exists|i: int| 0 <= i < r@.len() && #[trigger] r@[i].0 == t) <==> enabled_task(self.tasks(), t),
            forall|i: int|
                0 <= i < r@.len() ==> {
                    &&& (#[trigger] r@[i]).1 == tally(self.tasks(), self.recorded(), Counter::TaskBucket(r@[i].0, Bucket::Completed))
                        + tally(self.tasks(), self.recorded(), Counter::TaskBucket(r@[i].0, Bucket::AwaitingReview))
                    &&& r@[i].2 == tally(self.tasks(), self.recorded(), Counter::TaskBucket(r@[i].0, Bucket::Completed))
                },
    {
        let ids = enabled_ids(&self.tasks);
        let mut r: Vec<(TaskId, u64, u64)> = Vec::new();
        let mut j: usize = 0;
        while j < ids.len()
            invariant
                self.wf(),
                forall|t: TaskId| #[trigger]
                    tally(self.tasks(), self.recorded(), Counter::TaskBucket(t, Bucket::Completed)) + tally(
                        self.tasks(),
                        self.recorded(),
                        Counter::TaskBucket(t, Bucket::AwaitingReview),
                    ) <= u64::MAX,
                j <= ids@.len(),
                r@.len() == j,
                forall|a: int, b: int| 0 <= a < b < ids@.len() ==> ids@[a] < ids@[b],
                forall|t: TaskId| #[trigger] ids@.contains(t) <==> enabled_task(self.tasks@, t),
                forall|i: int|
                    0 <= i < j ==> {
                        &&& (#[trigger] r@[i]).0 == ids@[i]
                        &&& r@[i].1 == tally(self.tasks(), self.recorded(), Counter::TaskBucket(ids@[i], Bucket::Completed))
                            + tally(self.tasks(), self.recorded(), Counter::TaskBucket(ids@[i], Bucket::AwaitingReview))
                        &&& r@[i].2 == tally(self.tasks(), self.recorded(), Counter::TaskBucket(ids@[i], Bucket::Completed))
                    },
            decreases ids@.len() - j,
        {
            let t = ids[j];
            proof {
                assert(ids@.contains(t));
                assert(enabled_task(self.tasks@, t));
                let k = choose|k: int| 0 <= k < self.tasks@.len() && #[trigger] self.tasks@[k].enabled && self.tasks@[k].task_id == t;
                assert(has_key(self.per_task@, self.tasks@[k].task_id));
            }
            let i = find_key(&self.per_task, t).unwrap();
            proof {
                lemma_lookup_at(self.per_task@, i as int);
                assert(self.value(Counter::TaskBucket(t, Bucket::Completed)) == tally(self.tasks(), self.recorded(), Counter::TaskBucket(t, Bucket::Completed)));
                assert(self.value(Counter::TaskBucket(t, Bucket::AwaitingReview)) == tally(self.tasks(), self.recorded(), Counter::TaskBucket(t, Bucket::AwaitingReview)));
                assert(tally(self.tasks(), self.recorded(), Counter::TaskBucket(t, Bucket::Completed)) + tally(
                    self.tasks(),
                    self.recorded(),
                    Counter::TaskBucket(t, Bucket::AwaitingReview),
                ) <= u64::MAX);
            }
            let counts = self.per_task[i].1.counts;
            r.push((t, counts.completed + counts.awaiting_review, counts.completed));
            j += 1;
        }
        proof {
            assert forall|t: TaskId| (exists|i: int| 0 <= i < r@.len() && #[trigger] r@[i].0 == t) <==> enabled_task(self.tasks(), t) by {
                if exists|i: int| 0 <= i < r@.len() && #[trigger] r@[i].0 == t {
                    let i = choose|i: int| 0 <= i < r@.len() && #[trigger] r@[i].0 == t;
                    assert(ids@[i] == t);
                    assert(ids@.contains(t));
                }
                if enabled_task(self.tasks(), t) {
                    assert(ids@.contains(t));
                    let i = choose|i: int| 0 <= i < ids@.len() && ids@[i] == t;
                    assert(r@[i].0 == t);
                }
            }
        }
        r
    }

    /// The assignment balance, reported only where the dataset has an
    /// imbalance setting (`imbalance_enforced` is `Some` of whether it is
    /// enforced): for every enabled task, in id order, the images annotated
    /// (completed or awaiting review) and reviewed (completed). When the
    /// setting is not enforced no task is blocked; when it is, the blocked
    /// tasks follow from these counts by the setting's own rule.
    pub fn assignment_balance(&self, imbalance_enforced: Option<bool>) -> (r: Option<AssignmentBalance>)
        requires
            self.wf(),
            forall|t: TaskId| #[trigger]
                tally(self.tasks(), self.recorded(), Counter::TaskBucket(t, Bucket::Completed)) + tally(
                    self.tasks(),
                    self.recorded(),
                    Counter::TaskBucket(t, Bucket::AwaitingReview),
                ) <= u64::MAX,
        ensures
            imbalance_enforced is None <==> r is None,
            r matches Some(b) ==> {
                &&& Some(b.enforced) == imbalance_enforced
                &&& forall|a: int, c: int| 0 <= a < c < b.counts@.len() ==> b.counts@[a].0 < b.counts@[c].0
                &&& forall|t: TaskId| (exists|i: int| 0 <= i < b.counts@.len() && #[trigger] b.counts@[i].0 == t)
                    <==> enabled_task(self.tasks(), t)
                &&& forall|i: int|
                    0 <= i < b.counts@.len() ==> {
                        &&& (#[trigger] b.counts@[i]).1 == tally(self.tasks(), self.recorded(), Counter::TaskBucket(b.counts@[i].0, Bucket::Completed))
                            + tally(self.tasks(), self.recorded(), Counter::TaskBucket(b.counts@[i].0, Bucket::AwaitingReview))
                        &&& b.counts@[i].2 == tally(self.tasks(), self.recorded(), Counter::TaskBucket(b.counts@[i].0, Bucket::Completed))
                    }
            },
    {
        match imbalance_enforced {
            None => None,
            Some(enforced) => Some(AssignmentBalance { counts: self.balance_counts(), enforced }),
        }
    }

    /// Ends the aggregation: the statistics of every recorded image.
    pub fn finish(self) -> (r: DatasetStats)
        requires
            self.wf(),
        ensures
            r.total_images == self.images_in_dataset(),
            forall|b: Bucket| #[trigger]
                r.totals.get(b) == tally(self.tasks(), self.recorded(), Counter::StatusTotal(b)),
            forall|k: ImportCoverage| #[trigger]
                r.coverage.get(k) == tally(self.tasks(), self.recorded(), Counter::CoverageTotal(k)),
            forall|m: MigrationSlot| #[trigger]
                r.migration.get(m) == tally(self.tasks(), self.recorded(), Counter::MigrationTotal(m)),
            keys_unique(r.per_task@),
            forall|t: TaskId| #[trigger]
                has_key(r.per_task@, t) <==> (enabled_task(self.tasks(), t) || annotated_task(
                    self.recorded(),
                    t,
                )),
            forall|i: int|
                0 <= i < r.per_task@.len() ==> task_stats_match(
                    (#[trigger] r.per_task@[i]).1,
                    self.tasks(),
                    self.recorded(),
                    r.per_task@[i].0,
                ),
            keys_unique(r.per_class@),
            forall|cl: ClassId| #[trigger]
                has_key(r.per_class@, cl) <==> (self.label_classes().contains(cl) || tally(
                    self.tasks(),
                    self.recorded(),
                    Counter::ClassCompleted(cl),
                ) > 0 || tally(self.tasks(), self.recorded(), Counter::ClassAnnotated(cl)) > 0),
            forall|i: int|
                0 <= i < r.per_class@.len() ==> class_stats_match(
                    (#[trigger] r.per_class@[i]).1,
                    self.tasks(),
                    self.recorded(),
                    r.per_class@[i].0,
                ),
            throughput_match(r.throughput@, self.tasks(), self.recorded()),
    {
        let totals = self.status_totals();
        let coverage = self.coverage_totals();
        let migration = self.migration_totals();
        proof {
            self.lemma_throughput_match();
            assert forall|i: int|
                0 <= i < self.per_task@.len() implies task_stats_match(
                    (#[trigger] self.per_task@[i]).1,
                    self.tasks(),
                    self.recorded(),
                    self.per_task@[i].0,
                ) by {
                let t = self.per_task@[i].0;
                let s = self.per_task@[i].1;
                lemma_lookup_at(self.per_task@, i);
                assert forall|b: Bucket| #[trigger] s.counts.get(b) == tally(self.tasks(), self.recorded(), Counter::TaskBucket(t, b)) by {
                    assert(self.value(Counter::TaskBucket(t, b)) == s.counts.get(b));
                }
                assert forall|m: MigrationSlot| #[trigger] s.migration.get(m) == tally(self.tasks(), self.recorded(), Counter::TaskMigration(t, m)) by {
                    assert(self.value(Counter::TaskMigration(t, m)) == s.migration.get(m));
                }
            }
            assert forall|i: int|
                0 <= i < self.per_class@.len() implies class_stats_match(
                    (#[trigger] self.per_class@[i]).1,
                    self.tasks(),
                    self.recorded(),
                    self.per_class@[i].0,
                ) by {
                let cl = self.per_class@[i].0;
                lemma_lookup_at(self.per_class@, i);
                assert(self.value(Counter::ClassCompleted(cl)) == tally(self.tasks(), self.recorded(), Counter::ClassCompleted(cl)));
                assert(self.value(Counter::ClassAnnotated(cl)) == tally(self.tasks(), self.recorded(), Counter::ClassAnnotated(cl)));
            }
            assert forall|cl: ClassId| #[trigger]
                has_key(self.per_class@, cl) <==> (self.label_classes().contains(cl) || tally(
                    self.tasks(),
                    self.recorded(),
                    Counter::ClassCompleted(cl),
                ) > 0 || tally(self.tasks(), self.recorded(), Counter::ClassAnnotated(cl)) > 0) by {
                assert(self.value(Counter::ClassCompleted(cl)) == tally(self.tasks(), self.recorded(), Counter::ClassCompleted(cl)));
                assert(self.value(Counter::ClassAnnotated(cl)) == tally(self.tasks(), self.recorded(), Counter::ClassAnnotated(cl)));
            }
        }
        DatasetStats {
            total_images: self.total_images,
            totals,
            coverage,
            migration,
            per_task: self.per_task,
            per_class: self.per_class,
            throughput: self.throughput,
        }
    }
}

/// The number of enabled tasks among `defs` with id `t`.
pub open spec fn enabled_copies(defs: Seq<TaskDefinition>, t: TaskId) -> nat
    decreases defs.len(),
{
    if defs.len() == 0 {
        0
    } else {
        enabled_copies(defs.drop_last(), t) + if defs.last().enabled && defs.last().task_id == t {
            1nat
        } else {
            0nat
        }
    }
}

/// The completion denominator of task `t` over `images`: every image on which the
/// state of `t` counts adds one for each enabled task with id `t`.
pub open spec fn completion_denominator(defs: Seq<TaskDefinition>, images: Seq<ImageSummary>, t: TaskId) -> nat
    decreases images.len(),
{
    if images.len() == 0 {
        0
    } else {
        completion_denominator(defs, images.drop_last(), t) + if counted(
            state_for(images.last().tasks@, t),
        ) {
            enabled_copies(defs, t)
        } else {
            0
        }
    }
}

/// The enabled tasks among `defs` whose state on `img` counts.
pub open spec fn counted_tasks(defs: Seq<TaskDefinition>, img: ImageSummary) -> nat
    decreases defs.len(),
{
    if defs.len() == 0 {
        0
    } else {
        counted_tasks(defs.drop_last(), img) + if defs.last().enabled && counted(
            state_for(img.tasks@, defs.last().task_id),
        ) {
            1nat
        } else {
            0nat
        }
    }
}

/// The completion denominator over all enabled tasks and `images`.
pub open spec fn total_denominator(defs: Seq<TaskDefinition>, images: Seq<ImageSummary>) -> nat
    decreases images.len(),
{
    if images.len() == 0 {
        0
    } else {
        total_denominator(defs, images.drop_last()) + counted_tasks(defs, images.last())
    }
}

/// The five groups of task `t`, added up.
pub open spec fn task_bucket_sum(defs: Seq<TaskDefinition>, images: Seq<ImageSummary>, t: TaskId) -> nat {
    tally(defs, images, Counter::TaskBucket(t, Bucket::Pending)) + tally(
        defs,
        images,
        Counter::TaskBucket(t, Bucket::InProgress),
    ) + tally(defs, images, Counter::TaskBucket(t, Bucket::AwaitingReview)) + tally(
        defs,
        images,
        Counter::TaskBucket(t, Bucket::NeedsCorrection),
    ) + tally(defs, images, Counter::TaskBucket(t, Bucket::Completed))
}

/// The five groups over all tasks, added up.
pub open spec fn status_total_sum(defs: Seq<TaskDefinition>, images: Seq<ImageSummary>) -> nat {
    tally(defs, images, Counter::StatusTotal(Bucket::Pending)) + tally(
        defs,
        images,
        Counter::StatusTotal(Bucket::InProgress),
    ) + tally(defs, images, Counter::StatusTotal(Bucket::AwaitingReview)) + tally(
        defs,
        images,
        Counter::StatusTotal(Bucket::NeedsCorrection),
    ) + tally(defs, images, Counter::StatusTotal(Bucket::Completed))
}

/// Annotations count only toward the per-class and per-day annotation counters.
pub proof fn lemma_annotations_count_only_annotations(a: Seq<ActiveAnnotation>, c: Counter)
    requires
        !(c is ClassAnnotated),
        !(c is DayAnnotations),
    ensures
        annotation_contribution(a, c) == 0,
    decreases a.len(),
{
    if a.len() > 0 {
        lemma_annotations_count_only_annotations(a.drop_last(), c);
    }
}

/// Reviews count only toward the per-day review counters.
pub proof fn lemma_reviews_count_only_reviews(r: Seq<Timestamp>, c: Counter)
    requires
        !(c is DayReviews),
    ensures
        review_contribution(r, c) == 0,
    decreases r.len(),
{
    if r.len() > 0 {
        lemma_reviews_count_only_reviews(r.drop_last(), c);
    }
}

proof fn lemma_image_task_buckets(defs: Seq<TaskDefinition>, img: ImageSummary, t: TaskId)
    ensures
        tasks_contribution(defs, img, Counter::TaskBucket(t, Bucket::Pending)) + tasks_contribution(
            defs,
            img,
            Counter::TaskBucket(t, Bucket::InProgress),
        ) + tasks_contribution(defs, img, Counter::TaskBucket(t, Bucket::AwaitingReview))
            + tasks_contribution(defs, img, Counter::TaskBucket(t, Bucket::NeedsCorrection))
            + tasks_contribution(defs, img, Counter::TaskBucket(t, Bucket::Completed)) == if counted(
            state_for(img.tasks@, t),
        ) {
            enabled_copies(defs, t)
        } else {
            0
        },
    decreases defs.len(),
{
    if defs.len() > 0 {
        lemma_image_task_buckets(defs.drop_last(), img, t);
    }
}

proof fn lemma_image_status_totals(defs: Seq<TaskDefinition>, img: ImageSummary)
    ensures
        tasks_contribution(defs, img, Counter::StatusTotal(Bucket::Pending)) + tasks_contribution(
            defs,
            img,
            Counter::StatusTotal(Bucket::InProgress),
        ) + tasks_contribution(defs, img, Counter::StatusTotal(Bucket::AwaitingReview))
            + tasks_contribution(defs, img, Counter::StatusTotal(Bucket::NeedsCorrection))
            + tasks_contribution(defs, img, Counter::StatusTotal(Bucket::Completed)) == counted_tasks(
            defs,
            img,
        ),
    decreases defs.len(),
{
    if defs.len() > 0 {
        lemma_image_status_totals(defs.drop_last(), img);
    }
}

/// Task counts are exclusive and preserve the completion denominator: for every
/// task, each counted image lands in exactly one of the five groups, so the groups
/// add up to the task's completion denominator.
pub proof fn task_counts_cover_denominator(defs: Seq<TaskDefinition>, images: Seq<ImageSummary>, t: TaskId)
    ensures
        task_bucket_sum(defs, images, t) == completion_denominator(defs, images, t),
    decreases images.len(),
{
    if images.len() > 0 {
        let img = images.last();
        task_counts_cover_denominator(defs, images.drop_last(), t);
        lemma_image_task_buckets(defs, img, t);
        assert forall|b: Bucket| #[trigger] image_contribution(defs, img, Counter::TaskBucket(t, b))
            == tasks_contribution(defs, img, Counter::TaskBucket(t, b)) by {
            lemma_annotations_count_only_annotations(img.annotations@, Counter::TaskBucket(t, b));
            lemma_reviews_count_only_reviews(img.review_times@, Counter::TaskBucket(t, b));
        }
        assert(image_contribution(defs, img, Counter::TaskBucket(t, Bucket::Pending)) == tasks_contribution(defs, img, Counter::TaskBucket(t, Bucket::Pending)));
        assert(image_contribution(defs, img, Counter::TaskBucket(t, Bucket::InProgress)) == tasks_contribution(defs, img, Counter::TaskBucket(t, Bucket::InProgress)));
        assert(image_contribution(defs, img, Counter::TaskBucket(t, Bucket::AwaitingReview)) == tasks_contribution(defs, img, Counter::TaskBucket(t, Bucket::AwaitingReview)));
        assert(image_contribution(defs, img, Counter::TaskBucket(t, Bucket::NeedsCorrection)) == tasks_contribution(defs, img, Counter::TaskBucket(t, Bucket::NeedsCorrection)));
        assert(image_contribution(defs, img, Counter::TaskBucket(t, Bucket::Completed)) == tasks_contribution(defs, img, Counter::TaskBucket(t, Bucket::Completed)));
    }
}

/// The totals are exclusive too: over all enabled tasks, the five groups add up to
/// the number of (image, enabled task) pairs whose state counts.
pub proof fn status_totals_cover_denominator(defs: Seq<TaskDefinition>, images: Seq<ImageSummary>)
    ensures
        status_total_sum(defs, images) == total_denominator(defs, images),
    decreases images.len(),
{
    if images.len() > 0 {
        let img = images.last();
        status_totals_cover_denominator(defs, images.drop_last());
        lemma_image_status_totals(defs, img);
        assert forall|b: Bucket| #[trigger] image_contribution(defs, img, Counter::StatusTotal(b))
            == tasks_contribution(defs, img, Counter::StatusTotal(b)) by {
            lemma_annotations_count_only_annotations(img.annotations@, Counter::StatusTotal(b));
            lemma_reviews_count_only_reviews(img.review_times@, Counter::StatusTotal(b));
        }
        assert(image_contribution(defs, img, Counter::StatusTotal(Bucket::Pending)) == tasks_contribution(defs, img, Counter::StatusTotal(Bucket::Pending)));
        assert(image_contribution(defs, img, Counter::StatusTotal(Bucket::InProgress)) == tasks_contribution(defs, img, Counter::StatusTotal(Bucket::InProgress)));
        assert(image_contribution(defs, img, Counter::StatusTotal(Bucket::AwaitingReview)) == tasks_contribution(defs, img, Counter::StatusTotal(Bucket::AwaitingReview)));
        assert(image_contribution(defs, img, Counter::StatusTotal(Bucket::NeedsCorrection)) == tasks_contribution(defs, img, Counter::StatusTotal(Bucket::NeedsCorrection)));
        assert(image_contribution(defs, img, Counter::StatusTotal(Bucket::Completed)) == tasks_contribution(defs, img, Counter::StatusTotal(Bucket::Completed)));
    }
}

proof fn lemma_slots_partition(t: Seq<MigrationStatus>)
    ensures
        slot_count(t, MigrationSlot::Expected) == slot_count(t, MigrationSlot::Annotated) + slot_count(
            t,
            MigrationSlot::Excluded,
        ) + slot_count(t, MigrationSlot::Pending),
    decreases t.len(),
{
    if t.len() > 0 {
        lemma_slots_partition(t.drop_last());
    }
}

proof fn lemma_image_migration_partition(defs: Seq<TaskDefinition>, img: ImageSummary, t: Option<TaskId>)
    ensures
        ({
            let c = |m: MigrationSlot| match t {
                Some(id) => Counter::TaskMigration(id, m),
                None => Counter::MigrationTotal(m),
            };
            image_contribution(defs, img, c(MigrationSlot::Expected)) == image_contribution(
                defs,
                img,
                c(MigrationSlot::Annotated),
            ) + image_contribution(defs, img, c(MigrationSlot::Excluded)) + image_contribution(
                defs,
                img,
                c(MigrationSlot::Pending),
            )
        }),
    decreases defs.len(),
{
    let c = |m: MigrationSlot| match t {
        Some(id) => Counter::TaskMigration(id, m),
        None => Counter::MigrationTotal(m),
    };
    lemma_annotations_count_only_annotations(img.annotations@, c(MigrationSlot::Expected));
    lemma_annotations_count_only_annotations(img.annotations@, c(MigrationSlot::Annotated));
    lemma_annotations_count_only_annotations(img.annotations@, c(MigrationSlot::Excluded));
    lemma_annotations_count_only_annotations(img.annotations@, c(MigrationSlot::Pending));
    lemma_reviews_count_only_reviews(img.review_times@, c(MigrationSlot::Expected));
    lemma_reviews_count_only_reviews(img.review_times@, c(MigrationSlot::Annotated));
    lemma_reviews_count_only_reviews(img.review_times@, c(MigrationSlot::Excluded));
    lemma_reviews_count_only_reviews(img.review_times@, c(MigrationSlot::Pending));
    if defs.len() > 0 {
        lemma_image_migration_partition(defs.drop_last(), img, t);
        let e = state_for(img.tasks@, defs.last().task_id);
        if e is Some && e->0.migration_targets is Some {
            lemma_slots_partition(e->0.migration_targets->0@);
        }
    }
}

/// Migration counts partition what is expected: every expected target is counted
/// as annotated, excluded or pending, over all tasks (`t` is `None`) and for each
/// task `t`.
pub proof fn migration_counts_partition(defs: Seq<TaskDefinition>, images: Seq<ImageSummary>, t: Option<TaskId>)
    ensures
        ({
            let c = |m: MigrationSlot| match t {
                Some(id) => Counter::TaskMigration(id, m),
                None => Counter::MigrationTotal(m),
            };
            tally(defs, images, c(MigrationSlot::Expected)) == tally(
                defs,
                images,
                c(MigrationSlot::Annotated),
            ) + tally(defs, images, c(MigrationSlot::Excluded)) + tally(
                defs,
                images,
                c(MigrationSlot::Pending),
            )
        }),
    decreases images.len(),
{
    if images.len() > 0 {
        migration_counts_partition(defs, images.drop_last(), t);
        lemma_image_migration_partition(defs, images.last(), t);
    }
}

/// Task `t` still has work pending on `img`: its state counts and it is neither
/// submitted nor completed.
pub open spec fn pending_on(img: ImageSummary, t: TaskId) -> bool {
    let e = state_for(img.tasks@, t);
    counted(e) && bucket_in(e) != Bucket::AwaitingReview && bucket_in(e) != Bucket::Completed
}

/// The images of `images` on which task `t` has work pending.
pub open spec fn pending_count(images: Seq<ImageSummary>, t: TaskId) -> nat
    decreases images.len(),
{
    if images.len() == 0 {
        0
    } else {
        pending_count(images.drop_last(), t) + if pending_on(images.last(), t) {
            1nat
        } else {
            0nat
        }
    }
}

/// Each task state on an image counts in its own group of that task: completed
/// as completed, submitted as awaiting review, in progress as in progress,
/// needing correction or legacy adjudication as needing correction, and
/// pending, or without a status or any state, as pending. A task that the
/// import excluded from the image counts in no group.
pub proof fn each_status_counts_in_its_group(img: ImageSummary, d: TaskDefinition, b: Bucket)
    ensures
        ({
            let e = state_for(img.tasks@, d.task_id);
            let n = task_contribution(img, d, Counter::TaskBucket(d.task_id, b));
            &&& n <= 1
            &&& e is None ==> (n == 1 <==> b == Bucket::Pending)
            &&& e is Some && e->0.import_coverage == Some(ImportCoverage::Excluded) ==> n == 0
            &&& e is Some && e->0.import_coverage != Some(ImportCoverage::Excluded) ==> {
                let s = e->0.status;
                &&& (s is None || s == Some(TaskStatus::Pending)) ==> (n == 1 <==> b == Bucket::Pending)
                &&& s == Some(TaskStatus::InProgress) ==> (n == 1 <==> b == Bucket::InProgress)
                &&& s == Some(TaskStatus::Submitted) ==> (n == 1 <==> b == Bucket::AwaitingReview)
                &&& (s == Some(TaskStatus::NeedsCorrection) || s == Some(TaskStatus::LegacyAdjudicationRequired)) ==> (n == 1
                    <==> b == Bucket::NeedsCorrection)
                &&& s == Some(TaskStatus::Completed) ==> (n == 1 <==> b == Bucket::Completed)
            }
        }),
{
}

/// Adding an image adds one to a task's pending work exactly when the task is
/// still open on it: it has no state there, or its state is neither excluded
/// by the import nor submitted nor completed (a missing status counts as
/// pending). An image where the task is submitted or completed adds nothing.
pub proof fn pending_grows_by_open_work(images: Seq<ImageSummary>, img: ImageSummary, t: TaskId)
    ensures
        pending_count(images.push(img), t) == pending_count(images, t) + match state_for(img.tasks@, t) {
            None => 1int,
            Some(e) => if e.import_coverage == Some(ImportCoverage::Excluded) || e.status == Some(TaskStatus::Submitted)
                || e.status == Some(TaskStatus::Completed) {
                0int
            } else {
                1int
            },
        },
        pending_count(images, t) <= images.len(),
{
    assert(images.push(img).drop_last() =~= images);
    lemma_pending_at_most(images, t);
}

/// No more images have work pending than there are images.
proof fn lemma_pending_at_most(images: Seq<ImageSummary>, t: TaskId)
    ensures
        pending_count(images, t) <= images.len(),
    decreases images.len(),
{
    if images.len() > 0 {
        lemma_pending_at_most(images.drop_last(), t);
    }
}

/// The enabled task ids of `defs`, each once, in increasing order.
fn enabled_ids(defs: &Vec<TaskDefinition>) -> (r: Vec<TaskId>)
    ensures
        forall|a: int, b: int| 0 <= a < b < r@.len() ==> r@[a] < r@[b],
        forall|t: TaskId| #[trigger] r@.contains(t) <==> enabled_task(defs@, t),
{
    let mut r: Vec<TaskId> = Vec::new();
    let mut k: usize = 0;
    while k < defs.len()
        invariant
            k <= defs@.len(),
            forall|a: int, b: int| 0 <= a < b < r@.len() ==> r@[a] < r@[b],
            forall|t: TaskId| #[trigger] r@.contains(t) <==> enabled_task(defs@.take(k as int), t),
        decreases defs@.len() - k,
    {
        let ghost before = r@;
        let ghost d = defs@[k as int];
        proof {
            let s = defs@.take(k as int);
            let s1 = defs@.take(k as int + 1);
            assert forall|t: TaskId| enabled_task(s1, t) <==> (enabled_task(s, t) || (d.enabled && d.task_id == t)) by {
                if enabled_task(s, t) {
                    let q = choose|q: int| 0 <= q < s.len() && #[trigger] s[q].enabled && s[q].task_id == t;
                    assert(s1[q] == s[q]);
                }
                if d.enabled && d.task_id == t {
                    assert(s1[k as int] == d);
                }
                if enabled_task(s1, t) {
                    let q = choose|q: int| 0 <= q < s1.len() && #[trigger] s1[q].enabled && s1[q].task_id == t;
                    if q < k {
                        assert(s[q] == s1[q]);
                    }
                }
            }
        }
        if defs[k].enabled {
            let id = defs[k].task_id;
            let mut p: usize = 0;
            while p < r.len() && r[p] < id
                invariant
                    p <= r@.len(),
                    r@ == before,
                    forall|q: int| 0 <= q < p ==> r@[q] < id,
                decreases r@.len() - p,
            {
                p += 1;
            }
            if !(p < r.len() && r[p] == id) {
                r.insert(p, id);
                proof {
                    assert(r@ == before.insert(p as int, id));
                    assert forall|a: int, b: int| 0 <= a < b < r@.len() implies r@[a] < r@[b] by {
                        if b < p {
                        } else if b == p {
                        } else if a < p {
                            assert(r@[b] == before[b - 1]);
                            if b - 1 > p {
                                assert(before[p as int] < before[b - 1]);
                            }
                        } else if a == p {
                            assert(r@[b] == before[b - 1]);
                            if b - 1 > p {
                                assert(before[p as int] < before[b - 1]);
                            }
                        } else {
                            assert(before[a - 1] < before[b - 1]);
                        }
                    }
                    assert forall|t: TaskId| #[trigger] r@.contains(t) <==> (before.contains(t) || t == id) by {
                        if r@.contains(t) {
                            let j = choose|j: int| 0 <= j < r@.len() && r@[j] == t;
                            if j < p {
                                assert(before[j] == t);
                            } else if j > p {
                                assert(before[j - 1] == t);
                            }
                        }
                        if before.contains(t) {
                            let j = choose|j: int| 0 <= j < before.len() && before[j] == t;
                            if j < p {
                                assert(r@[j] == t);
                            } else {
                                assert(r@[j + 1] == t);
                            }
                        }
                        if t == id {
                            assert(r@[p as int] == t);
                        }
                    }
                }
            } else {
                proof {
                    assert(r@[p as int] == id);
                }
            }
        }
        k += 1;
    }
    proof {
        assert(defs@.take(defs@.len() as int) =~= defs@);
    }
    r
}

/// The images of `images` on which task `t` has work pending.
fn count_pending(images: &Vec<ImageSummary>, t: TaskId) -> (n: u64)
    ensures
        n == pending_count(images@, t),
{
    let mut n: u64 = 0;
    let mut i: usize = 0;
    while i < images.len()
        invariant
            i <= images@.len(),
            n == pending_count(images@.take(i as int), t),
            n <= i,
        decreases images@.len() - i,
    {
        proof {
            assert(images@.take(i as int + 1).drop_last() =~= images@.take(i as int));
        }
        let img = &images[i];
        let pending = match state_index(&img.tasks, t) {
            Some(p) => {
                let st = &img.tasks[p];
                let excluded = match st.import_coverage {
                    Some(ImportCoverage::Excluded) => true,
                    _ => false,
                };
                let b = bucket_of_status(st.status);
                let done = match b {
                    Bucket::AwaitingReview | Bucket::Completed => true,
                    _ => false,
                };
                !excluded && !done
            },
            None => true,
        };
        if pending {
            n = n + 1;
        }
        i += 1;
    }
    proof {
        assert(images@.take(images@.len() as int) =~= images@);
    }
    n
}

/// The work pending per enabled task, for choosing the focus: each enabled task
/// once, in increasing id order, with the number of images on which its state
/// counts and is neither submitted nor completed.
pub fn focus_pending(defs: &Vec<TaskDefinition>, images: &Vec<ImageSummary>) -> (r: Vec<(TaskId, u64)>)
    ensures
        tasks_sorted(r@),
        forall|t: TaskId| (exists|i: int| 0 <= i < r@.len() && #[trigger] r@[i].0 == t) <==> enabled_task(defs@, t),
        forall|i: int| 0 <= i < r@.len() ==> (#[trigger] r@[i]).1 == pending_count(images@, r@[i].0),
{
    let ids = enabled_ids(defs);
    let mut r: Vec<(TaskId, u64)> = Vec::new();
    let mut j: usize = 0;
    while j < ids.len()
        invariant
            j <= ids@.len(),
            r@.len() == j,
            forall|a: int, b: int| 0 <= a < b < ids@.len() ==> ids@[a] < ids@[b],
            forall|t: TaskId| #[trigger] ids@.contains(t) <==> enabled_task(defs@, t),
            forall|i: int| 0 <= i < j ==> (#[trigger] r@[i]).0 == ids@[i] && r@[i].1 == pending_count(images@, ids@[i]),
        decreases ids@.len() - j,
    {
        let t = ids[j];
        let n = count_pending(images, t);
        r.push((t, n));
        j += 1;
    }
    proof {
        assert forall|t: TaskId| (exists|i: int| 0 <= i < r@.len() && #[trigger] r@[i].0 == t) <==> enabled_task(defs@, t) by {
            if exists|i: int| 0 <= i < r@.len() && #[trigger] r@[i].0 == t {
                let i = choose|i: int| 0 <= i < r@.len() && #[trigger] r@[i].0 == t;
                assert(ids@[i] == t);
                assert(ids@.contains(t));
            }
            if enabled_task(defs@, t) {
                assert(ids@.contains(t));
                let i = choose|i: int| 0 <= i < ids@.len() && ids@[i] == t;
                assert(r@[i].0 == t);
            }
        }
    }
    r
}

/// The statuses that the dataset inspector filters by, in order.
pub fn statuses() -> (r: Vec<TaskStatus>)
    ensures
        r@ == seq![
            TaskStatus::Pending,
            TaskStatus::InProgress,
            TaskStatus::Submitted,
            TaskStatus::NeedsCorrection,
            TaskStatus::Completed,
        ],
{
    let r = vec![
        TaskStatus::Pending,
        TaskStatus::InProgress,
        TaskStatus::Submitted,
        TaskStatus::NeedsCorrection,
        TaskStatus::Completed,
    ];
    assert(r@ =~= seq![
        TaskStatus::Pending,
        TaskStatus::InProgress,
        TaskStatus::Submitted,
        TaskStatus::NeedsCorrection,
        TaskStatus::Completed,
    ]);
    r
}

/// The label of status `s`; statuses no longer assigned are historical.
pub fn status_label(s: TaskStatus) -> (r: &'static str)
    ensures
        r@ == match s {
            TaskStatus::Pending => "Pending"@,
            TaskStatus::InProgress => "In progress"@,
            TaskStatus::Submitted => "Submitted"@,
            TaskStatus::NeedsCorrection => "Needs correction"@,
            TaskStatus::Completed => "Completed"@,
            TaskStatus::LegacyAdjudicationRequired => "Historical status"@,
        },
{
    match s {
        TaskStatus::Pending => "Pending",
        TaskStatus::InProgress => "In progress",
        TaskStatus::Submitted => "Submitted",
        TaskStatus::NeedsCorrection => "Needs correction",
        TaskStatus::Completed => "Completed",
        TaskStatus::LegacyAdjudicationRequired => "Historical status",
    }
}

} // verus!
