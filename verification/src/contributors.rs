//! Contributor activity per user and UTC day, read from an image's event log:
//! tasks labeled, reviews made, and reviews of one's work accepted or rejected.
use vstd::prelude::*;

use crate::assignment::{TaskId, Timestamp, UserId};
use crate::calendar::{utc_day, utc_day_of};
use crate::focus::representable;
use crate::keyed::{has_key, keys_unique, lemma_lookup_at, lemma_lookup_insert, lemma_lookup_push, lemma_lookup_update, lookup};
use crate::stats::TaskStatus;

verus! {

/// Identifies a review.
pub type ReviewId = u64;

/// Identifies an annotation (all of its versions).
pub type AnnotationId = u64;

/// How a completed task ended.
#[derive(Clone, Copy, Debug, PartialEq, Eq, Structural)]
pub enum TaskOutcome {
    Approved,
    ReviewerCorrected,
    AnnotationCompleted,
}

/// What a review decided.
#[derive(Clone, Copy, Debug, PartialEq, Eq, Structural)]
pub enum ReviewDecision {
    Approved,
    Rejected,
}

/// What a review is about.
#[derive(Clone, Copy, Debug, PartialEq, Eq, Structural)]
pub enum ReviewTarget {
    Task { task_id: TaskId },
    AnnotationVersion { annotation_id: AnnotationId, version: u64 },
    MigrationDisposition { task_id: TaskId, object_group_id: u64, disposition_version: u64 },
    MigrationConfirmation { task_id: TaskId, confirmation: u64 },
    Image,
}

/// A review decision.
#[derive(Clone, Copy, Debug, PartialEq, Eq, Structural)]
pub struct Review {
    pub review_id: ReviewId,
    pub reviewer: UserId,
    pub target: ReviewTarget,
    pub decision: ReviewDecision,
    pub timestamp: Timestamp,
}

/// What an event of an image's log records, as far as contributor activity reads it.
#[derive(Clone, Debug)]
pub enum EventPayload {
    TaskStateChanged {
        task_id: TaskId,
        status: TaskStatus,
        outcome: Option<TaskOutcome>,
        completed_by: Option<UserId>,
    },
    MigrationDispositionChanged { task_id: TaskId, object_group_id: u64, disposition_version: u64 },
    MigrationFullImageConfirmed { task_id: TaskId, confirmation: u64, actor: UserId },
    ReviewRecorded(Review),
    ReviewerCorrectionRecorded(Review),
    /// A committed review revision and the reviews that replace the staged ones.
    ReviewRevisionCommitted(Vec<Review>),
    Other,
}

/// One entry of an image's event log.
#[derive(Clone, Debug)]
pub struct Event {
    pub actor: UserId,
    pub timestamp: Timestamp,
    pub payload: EventPayload,
}

/// One version of an annotation of the image.
#[derive(Clone, Copy, Debug, PartialEq, Eq, Structural)]
pub struct AnnotationVersion {
    pub annotation_id: AnnotationId,
    pub version: u64,
    /// Drawn by a person rather than by a model.
    pub human: bool,
    pub author: UserId,
}

/// What one scan of an image's events remembers while it reads them.
#[derive(Clone, Copy, Debug, PartialEq, Eq, Structural)]
pub enum Scratch {
    /// Who last submitted the task.
    Submission(TaskId),
    /// The user was counted as having labeled the task.
    Labeled(TaskId, UserId),
    /// The review was counted.
    Reviewed(ReviewId),
    /// Who changed the migration disposition.
    Disposition(TaskId, u64, u64),
    /// Who confirmed the full-image migration.
    Confirmation(TaskId, u64),
}

/// A user and a UTC day (a day number).
#[derive(Clone, Copy, Debug, PartialEq, Eq, Structural)]
pub struct DayKey {
    pub user: UserId,
    pub day: i64,
}

/// The kinds of activity counted per user and day.
#[derive(Clone, Copy, Debug, PartialEq, Eq, Structural)]
pub enum Activity {
    Labeled,
    Reviewed,
    Accepted,
    Rejected,
}

/// A user's activity on one day.
#[derive(Clone, Copy, Debug, PartialEq, Eq, Structural)]
pub struct DayCounts {
    pub labeled: u64,
    pub reviewed: u64,
    pub accepted: u64,
    pub rejected: u64,
}

impl DayCounts {
    /// The count of activity `a`.
    pub open spec fn get(self, a: Activity) -> nat {
        match a {
            Activity::Labeled => self.labeled as nat,
            Activity::Reviewed => self.reviewed as nat,
            Activity::Accepted => self.accepted as nat,
            Activity::Rejected => self.rejected as nat,
        }
    }
}

/// The state of a scan: what it remembers, and the activity counted so far.
pub struct Scan {
    pub scratch: Map<Scratch, UserId>,
    pub days: Map<(DayKey, Activity), nat>,
}

/// The count of activity `a` for `k` in `m` (zero where nothing was counted).
pub open spec fn count_of(m: Map<(DayKey, Activity), nat>, k: DayKey, a: Activity) -> nat {
    if m.dom().contains((k, a)) {
        m[(k, a)]
    } else {
        0
    }
}

/// The day key of user `u` at time `t`.
pub open spec fn day_key(u: UserId, t: Timestamp) -> DayKey {
    DayKey { user: u, day: utc_day(t as int) as i64 }
}

/// Counts one activity `a` of user `u` at time `t`.
pub open spec fn bump(m: Map<(DayKey, Activity), nat>, u: UserId, t: Timestamp, a: Activity) -> Map<
    (DayKey, Activity),
    nat,
> {
    m.insert((day_key(u, t), a), count_of(m, day_key(u, t), a) + 1)
}

/// `i` is the first position of version `v` of annotation `id` in `s`.
pub open spec fn first_version_at(s: Seq<AnnotationVersion>, id: AnnotationId, v: u64, i: int) -> bool {
    &&& 0 <= i < s.len()
    &&& s[i].annotation_id == id && s[i].version == v
    &&& forall|j: int| 0 <= j < i ==> !(#[trigger] s[j].annotation_id == id && s[j].version == v)
}

/// The author of version `v` of annotation `id`, when a person drew it.
pub open spec fn human_author(s: Seq<AnnotationVersion>, id: AnnotationId, v: u64) -> Option<UserId> {
    if exists|i: int| #[trigger] first_version_at(s, id, v, i) {
        let a = s[choose|i: int| #[trigger] first_version_at(s, id, v, i)];
        if a.human {
            Some(a.author)
        } else {
            None
        }
    } else {
        None
    }
}

/// What `m` remembers under `k`.
pub open spec fn remembered(m: Map<Scratch, UserId>, k: Scratch) -> Option<UserId> {
    if m.dom().contains(k) {
        Some(m[k])
    } else {
        None
    }
}

/// Whose work a review with target `target` judged, if one contributor's.
pub open spec fn review_author(m: Map<Scratch, UserId>, versions: Seq<AnnotationVersion>, target: ReviewTarget) -> Option<UserId> {
    match target {
        ReviewTarget::Task { task_id } => remembered(m, Scratch::Submission(task_id)),
        ReviewTarget::AnnotationVersion { annotation_id, version } => human_author(
            versions,
            annotation_id,
            version,
        ),
        ReviewTarget::MigrationDisposition { task_id, object_group_id, disposition_version } =>
            remembered(m, Scratch::Disposition(task_id, object_group_id, disposition_version)),
        ReviewTarget::MigrationConfirmation { task_id, confirmation } => remembered(
            m,
            Scratch::Confirmation(task_id, confirmation),
        ),
        ReviewTarget::Image => None,
    }
}

/// The activity a decision counts for the judged contributor.
pub open spec fn judged(d: ReviewDecision) -> Activity {
    match d {
        ReviewDecision::Approved => Activity::Accepted,
        ReviewDecision::Rejected => Activity::Rejected,
    }
}

/// Reads one review made at time `t`: counted once per review id, for the user who
/// made it and, where the judged work is one contributor's, for that contributor.
pub open spec fn scan_review(s: Scan, versions: Seq<AnnotationVersion>, r: Review, t: Timestamp) -> Scan {
    if s.scratch.dom().contains(Scratch::Reviewed(r.review_id)) {
        s
    } else {
        let scratch = s.scratch.insert(Scratch::Reviewed(r.review_id), r.reviewer);
        let days = bump(s.days, r.reviewer, t, Activity::Reviewed);
        match review_author(s.scratch, versions, r.target) {
            Some(a) => Scan { scratch, days: bump(days, a, t, judged(r.decision)) },
            None => Scan { scratch, days },
        }
    }
}

/// Reads the reviews `rs`, in order, all made at time `t`.
pub open spec fn scan_reviews(s: Scan, versions: Seq<AnnotationVersion>, rs: Seq<Review>, t: Timestamp) -> Scan
    decreases rs.len(),
{
    if rs.len() == 0 {
        s
    } else {
        scan_review(scan_reviews(s, versions, rs.drop_last(), t), versions, rs.last(), t)
    }
}

/// A task state that records finished labeling work.
pub open spec fn submits(status: TaskStatus, outcome: Option<TaskOutcome>) -> bool {
    status == TaskStatus::Submitted || (status == TaskStatus::Completed && outcome == Some(
        TaskOutcome::AnnotationCompleted,
    ))
}

/// Reads one event.
pub open spec fn scan_event(s: Scan, versions: Seq<AnnotationVersion>, e: Event) -> Scan {
    match e.payload {
        EventPayload::TaskStateChanged { task_id, status, outcome, completed_by } => if submits(
            status,
            outcome,
        ) {
            match completed_by {
                Some(u) => {
                    let scratch = s.scratch.insert(Scratch::Submission(task_id), u);
                    if s.scratch.dom().contains(Scratch::Labeled(task_id, u)) {
                        Scan { scratch, days: s.days }
                    } else {
                        Scan {
                            scratch: scratch.insert(Scratch::Labeled(task_id, u), u),
                            days: bump(s.days, u, e.timestamp, Activity::Labeled),
                        }
                    }
                },
                None => s,
            }
        } else {
            s
        },
        EventPayload::MigrationDispositionChanged { task_id, object_group_id, disposition_version } =>
            Scan {
            scratch: s.scratch.insert(
                Scratch::Disposition(task_id, object_group_id, disposition_version),
                e.actor,
            ),
            days: s.days,
        },
        EventPayload::MigrationFullImageConfirmed { task_id, confirmation, actor } => Scan {
            scratch: s.scratch.insert(Scratch::Confirmation(task_id, confirmation), actor),
            days: s.days,
        },
        EventPayload::ReviewRecorded(r) => scan_review(s, versions, r, r.timestamp),
        EventPayload::ReviewerCorrectionRecorded(r) => scan_review(s, versions, r, r.timestamp),
        EventPayload::ReviewRevisionCommitted(rs) => scan_reviews(s, versions, rs@, e.timestamp),
        EventPayload::Other => s,
    }
}

/// Reads the events `es`, in order.
pub open spec fn scan_events(s: Scan, versions: Seq<AnnotationVersion>, es: Seq<Event>) -> Scan
    decreases es.len(),
{
    if es.len() == 0 {
        s
    } else {
        scan_event(scan_events(s, versions, es.drop_last()), versions, es.last())
    }
}

/// The activity counted after reading an image's events `es`, starting from `days`
/// (the scan remembers nothing from earlier images).
pub open spec fn image_activity(days: Map<(DayKey, Activity), nat>, versions: Seq<AnnotationVersion>, es: Seq<Event>) -> Map<(DayKey, Activity), nat> {
    scan_events(Scan { scratch: Map::empty(), days }, versions, es).days
}

/// Every time that the events `es` count activity at is representable.
pub open spec fn event_times_representable(es: Seq<Event>) -> bool {
    forall|i: int|
        0 <= i < es.len() ==> {
            &&& representable((#[trigger] es[i]).timestamp as int)
            &&& match es[i].payload {
                EventPayload::ReviewRecorded(r) => representable(r.timestamp as int),
                EventPayload::ReviewerCorrectionRecorded(r) => representable(r.timestamp as int),
                _ => true,
            }
        }
}

/// Every count of `m` fits in a `u64`.
pub open spec fn counts_fit(m: Map<(DayKey, Activity), nat>) -> bool {
    forall|k: DayKey, a: Activity| #[trigger] count_of(m, k, a) <= u64::MAX
}

/// Counting one activity raises that count by one and no other.
pub proof fn lemma_bump(m: Map<(DayKey, Activity), nat>, u: UserId, t: Timestamp, a: Activity)
    ensures
        forall|k: DayKey, b: Activity| #[trigger]
            count_of(bump(m, u, t, a), k, b) == count_of(m, k, b) + if k == day_key(u, t) && b == a {
                1nat
            } else {
                0nat
            },
{
}

/// No count falls while a review is read.
pub proof fn lemma_review_grows(s: Scan, versions: Seq<AnnotationVersion>, r: Review, t: Timestamp)
    ensures
        forall|k: DayKey, a: Activity| #[trigger]
            count_of(s.days, k, a) <= count_of(scan_review(s, versions, r, t).days, k, a),
{
    lemma_bump(s.days, r.reviewer, t, Activity::Reviewed);
    let days = bump(s.days, r.reviewer, t, Activity::Reviewed);
    match review_author(s.scratch, versions, r.target) {
        Some(au) => lemma_bump(days, au, t, judged(r.decision)),
        None => {},
    }
}

/// No count falls while reviews are read.
pub proof fn lemma_reviews_grow(s: Scan, versions: Seq<AnnotationVersion>, rs: Seq<Review>, t: Timestamp)
    ensures
        forall|k: DayKey, a: Activity| #[trigger]
            count_of(s.days, k, a) <= count_of(scan_reviews(s, versions, rs, t).days, k, a),
    decreases rs.len(),
{
    if rs.len() > 0 {
        lemma_reviews_grow(s, versions, rs.drop_last(), t);
        lemma_review_grows(scan_reviews(s, versions, rs.drop_last(), t), versions, rs.last(), t);
    }
}

/// Reading a prefix of the reviews counts no more than reading all of them.
pub proof fn lemma_reviews_prefix(s: Scan, versions: Seq<AnnotationVersion>, rs: Seq<Review>, t: Timestamp, j: int)
    requires
        0 <= j <= rs.len(),
    ensures
        forall|k: DayKey, a: Activity| #[trigger]
            count_of(scan_reviews(s, versions, rs.take(j), t).days, k, a) <= count_of(
                scan_reviews(s, versions, rs, t).days,
                k,
                a,
            ),
    decreases rs.len(),
{
    if j < rs.len() {
        assert(rs.drop_last().take(j) =~= rs.take(j));
        lemma_reviews_prefix(s, versions, rs.drop_last(), t, j);
        lemma_review_grows(scan_reviews(s, versions, rs.drop_last(), t), versions, rs.last(), t);
    } else {
        assert(rs.take(j) =~= rs);
    }
}

/// No count falls while an event is read.
pub proof fn lemma_event_grows(s: Scan, versions: Seq<AnnotationVersion>, e: Event)
    ensures
        forall|k: DayKey, a: Activity| #[trigger]
            count_of(s.days, k, a) <= count_of(scan_event(s, versions, e).days, k, a),
{
    match e.payload {
        EventPayload::TaskStateChanged { task_id, status, outcome, completed_by } => {
            if let Some(u) = completed_by {
                lemma_bump(s.days, u, e.timestamp, Activity::Labeled);
            }
        },
        EventPayload::ReviewRecorded(r) => lemma_review_grows(s, versions, r, r.timestamp),
        EventPayload::ReviewerCorrectionRecorded(r) => lemma_review_grows(s, versions, r, r.timestamp),
        EventPayload::ReviewRevisionCommitted(rs) => lemma_reviews_grow(s, versions, rs@, e.timestamp),
        _ => {},
    }
}

/// Reading a prefix of the events counts no more than reading all of them.
pub proof fn lemma_events_prefix(s: Scan, versions: Seq<AnnotationVersion>, es: Seq<Event>, j: int)
    requires
        0 <= j <= es.len(),
    ensures
        forall|k: DayKey, a: Activity| #[trigger]
            count_of(scan_events(s, versions, es.take(j)).days, k, a) <= count_of(
                scan_events(s, versions, es).days,
                k,
                a,
            ),
    decreases es.len(),
{
    if j < es.len() {
        assert(es.drop_last().take(j) =~= es.take(j));
        lemma_events_prefix(s, versions, es.drop_last(), j);
        lemma_event_grows(scan_events(s, versions, es.drop_last()), versions, es.last());
    } else {
        assert(es.take(j) =~= es);
    }
}

/// `v` holds exactly what `m` remembers.
pub open spec fn scratch_holds(v: Seq<(Scratch, UserId)>, m: Map<Scratch, UserId>) -> bool {
    &&& keys_unique(v)
    &&& forall|k: Scratch| #[trigger] lookup(v, k) == remembered(m, k)
}

/// The position of `k` in `v`, if it is there.
fn find_scratch(v: &Vec<(Scratch, UserId)>, k: Scratch) -> (r: Option<usize>)
    ensures
        match r {
            Some(i) => i < v@.len() && v@[i as int].0 == k,
            None => !has_key(v@, k),
        },
{
    let mut i: usize = 0;
    while i < v.len()
        invariant
            i <= v@.len(),
            forall|j: int| 0 <= j < i ==> #[trigger] v@[j].0 != k,
        decreases v@.len() - i,
    {
        if v[i].0 == k {
            return Some(i);
        }
        i += 1;
    }
    None
}

/// What `v` remembers under `k`.
fn recall(v: &Vec<(Scratch, UserId)>, k: Scratch) -> (r: Option<UserId>)
    requires
        keys_unique(v@),
    ensures
        r == lookup(v@, k),
{
    match find_scratch(v, k) {
        Some(i) => {
            proof {
                lemma_lookup_at(v@, i as int);
            }
            Some(v[i].1)
        },
        None => None,
    }
}

/// Remembers `u` under `k`, replacing what was remembered there.
fn remember(v: &mut Vec<(Scratch, UserId)>, k: Scratch, u: UserId)
    requires
        keys_unique(old(v)@),
    ensures
        keys_unique(final(v)@),
        forall|q: Scratch| #[trigger]
            lookup(final(v)@, q) == if q == k {
                Some(u)
            } else {
                lookup(old(v)@, q)
            },
{
    let ghost before = v@;
    match find_scratch(v, k) {
        Some(i) => {
            v.set(i, (k, u));
            proof {
                lemma_lookup_update(before, i as int, u);
            }
        },
        None => {
            v.push((k, u));
            proof {
                lemma_lookup_push(before, k, u);
            }
        },
    }
}

/// `a` comes before `b`: by user, then by day.
pub open spec fn key_lt(a: DayKey, b: DayKey) -> bool {
    a.user < b.user || (a.user == b.user && a.day < b.day)
}

/// The keys of `s` strictly increase.
pub open spec fn keys_increase(s: Seq<(DayKey, DayCounts)>) -> bool {
    forall|i: int, j: int| 0 <= i < j < s.len() ==> key_lt(#[trigger] s[i].0, #[trigger] s[j].0)
}

/// The count of activity `a` kept for `k` in `s`.
pub open spec fn day_count(s: Seq<(DayKey, DayCounts)>, k: DayKey, a: Activity) -> nat {
    match lookup(s, k) {
        Some(c) => c.get(a),
        None => 0,
    }
}

/// Some activity was counted in `c`.
pub open spec fn active(c: DayCounts) -> bool {
    c.labeled > 0 || c.reviewed > 0 || c.accepted > 0 || c.rejected > 0
}

fn key_before(a: DayKey, b: DayKey) -> (r: bool)
    ensures
        r == key_lt(a, b),
{
    a.user < b.user || (a.user == b.user && a.day < b.day)
}

/// Counts one activity `a` for `key`, adding the key in order if it is new.
fn bump_contributor(days: &mut Vec<(DayKey, DayCounts)>, key: DayKey, a: Activity)
    requires
        keys_unique(old(days)@),
        keys_increase(old(days)@),
        forall|i: int| 0 <= i < old(days)@.len() ==> active(#[trigger] old(days)@[i].1),
        day_count(old(days)@, key, a) < u64::MAX,
    ensures
        keys_unique(final(days)@),
        keys_increase(final(days)@),
        forall|i: int| 0 <= i < final(days)@.len() ==> active(#[trigger] final(days)@[i].1),
        forall|k: DayKey, b: Activity| #[trigger]
            day_count(final(days)@, k, b) == day_count(old(days)@, k, b) + if k == key && b == a {
                1nat
            } else {
                0nat
            },
{
    let ghost before = days@;
    let mut p: usize = 0;
    while p < days.len() && key_before(days[p].0, key)
        invariant
            p <= days@.len(),
            days@ == before,
            forall|i: int| 0 <= i < p ==> key_lt(#[trigger] days@[i].0, key),
        decreases days@.len() - p,
    {
        p += 1;
    }
    let hit = p < days.len() && days[p].0 == key;
    let mut c = if hit {
        days[p].1
    } else {
        DayCounts { labeled: 0, reviewed: 0, accepted: 0, rejected: 0 }
    };
    if hit {
        proof {
            lemma_lookup_at(before, p as int);
        }
    } else {
        proof {
            assert forall|i: int| 0 <= i < before.len() implies #[trigger] before[i].0 != key by {
                if i > p {
                    assert(key_lt(before[p as int].0, before[i].0));
                }
            }
        }
    }
    match a {
        Activity::Labeled => c.labeled = c.labeled + 1,
        Activity::Reviewed => c.reviewed = c.reviewed + 1,
        Activity::Accepted => c.accepted = c.accepted + 1,
        Activity::Rejected => c.rejected = c.rejected + 1,
    }
    if hit {
        days.set(p, (key, c));
        proof {
            lemma_lookup_update(before, p as int, c);
            assert forall|i: int, j: int| 0 <= i < j < days@.len() implies key_lt(#[trigger] days@[i].0, #[trigger] days@[j].0) by {
                assert(key_lt(before[i].0, before[j].0));
            }
        }
    } else {
        days.insert(p, (key, c));
        proof {
            assert(!has_key(before, key));
            lemma_lookup_insert(before, p as int, key, c);
            assert(days@ == before.insert(p as int, (key, c)));
            assert forall|i: int, j: int| 0 <= i < j < days@.len() implies key_lt(#[trigger] days@[i].0, #[trigger] days@[j].0) by {
                if j < p {
                    assert(key_lt(before[i].0, before[j].0));
                } else if j == p {
                    assert(key_lt(before[i].0, key));
                } else if i < p {
                    assert(days@[j].0 == before[j - 1].0);
                    assert(key_lt(before[i].0, key));
                    if j - 1 > p {
                        assert(key_lt(before[p as int].0, before[j - 1].0));
                    }
                } else if i == p {
                    assert(days@[j].0 == before[j - 1].0);
                    if j - 1 > p {
                        assert(key_lt(before[p as int].0, before[j - 1].0));
                    }
                } else {
                    assert(key_lt(before[i - 1].0, before[j - 1].0));
                }
            }
        }
    }
}

/// The author of version `version` of annotation `id`, when a person drew it.
fn find_human_author(versions: &Vec<AnnotationVersion>, id: AnnotationId, version: u64) -> (r: Option<UserId>)
    ensures
        r == human_author(versions@, id, version),
{
    let mut i: usize = 0;
    while i < versions.len()
        invariant
            i <= versions@.len(),
            forall|j: int| 0 <= j < i ==> !(#[trigger] versions@[j].annotation_id == id && versions@[j].version == version),
        decreases versions@.len() - i,
    {
        if versions[i].annotation_id == id && versions[i].version == version {
            proof {
                let s = versions@;
                assert(first_version_at(s, id, version, i as int));
                let f = choose|f: int| #[trigger] first_version_at(s, id, version, f);
                if f < i {
                    assert(!(s[f].annotation_id == id && s[f].version == version));
                } else if f > i {
                    assert(!(s[i as int].annotation_id == id && s[i as int].version == version));
                }
            }
            if versions[i].human {
                return Some(versions[i].author);
            } else {
                return None;
            }
        }
        i += 1;
    }
    proof {
        let s = versions@;
        if exists|f: int| #[trigger] first_version_at(s, id, version, f) {
            let f = choose|f: int| #[trigger] first_version_at(s, id, version, f);
            assert(!(s[f].annotation_id == id && s[f].version == version));
        }
    }
    None
}

/// The entries of per-user histories `r`, read back as (user and day, counts)
/// pairs in order.
pub open spec fn flatten(r: Seq<(UserId, Vec<(i64, DayCounts)>)>) -> Seq<(DayKey, DayCounts)>
    decreases r.len(),
{
    if r.len() == 0 {
        Seq::empty()
    } else {
        flatten(r.drop_last()) + r.last().1@.map_values(
            |e: (i64, DayCounts)| (DayKey { user: r.last().0, day: e.0 }, e.1),
        )
    }
}

/// `r` lists the activity of `m` per user: users in order, each with a nonempty
/// history; read back in order, the entries go by user then day, each with some
/// activity, and hold exactly the counts of `m`.
pub open spec fn histories_match(r: Seq<(UserId, Vec<(i64, DayCounts)>)>, m: Map<(DayKey, Activity), nat>) -> bool {
    &&& forall|g: int, h: int| 0 <= g < h < r.len() ==> #[trigger] r[g].0 < #[trigger] r[h].0
    &&& forall|g: int| 0 <= g < r.len() ==> (#[trigger] r[g]).1@.len() > 0
    &&& keys_increase(flatten(r))
    &&& forall|i: int| 0 <= i < flatten(r).len() ==> active(#[trigger] flatten(r)[i].1)
    &&& forall|k: DayKey, a: Activity| #[trigger] day_count(flatten(r), k, a) == count_of(m, k, a)
}

/// Contributor activity per user and UTC day, over every image recorded.
pub struct ContributorAggregation {
    days: Vec<(DayKey, DayCounts)>,
    counted: Ghost<Map<(DayKey, Activity), nat>>,
}

/// Reading reviews only adds to what a scan remembers, and remembers each of them.
pub proof fn lemma_reviews_remember(s: Scan, versions: Seq<AnnotationVersion>, rs: Seq<Review>, t: Timestamp)
    ensures
        forall|k: Scratch| #[trigger]
            s.scratch.dom().contains(k) ==> scan_reviews(s, versions, rs, t).scratch.dom().contains(k),
        forall|j: int|
            0 <= j < rs.len() ==> scan_reviews(s, versions, rs, t).scratch.dom().contains(
                Scratch::Reviewed(#[trigger] rs[j].review_id),
            ),
    decreases rs.len(),
{
    if rs.len() > 0 {
        lemma_reviews_remember(s, versions, rs.drop_last(), t);
        let p = scan_reviews(s, versions, rs.drop_last(), t);
        assert forall|j: int| 0 <= j < rs.len() implies scan_reviews(s, versions, rs, t).scratch.dom().contains(
            Scratch::Reviewed(#[trigger] rs[j].review_id),
        ) by {
            if j < rs.len() - 1 {
                assert(rs.drop_last()[j] == rs[j]);
                assert(p.scratch.dom().contains(Scratch::Reviewed(rs.drop_last()[j].review_id)));
            }
        }
    }
}

/// Reviews that a scan already remembers change nothing.
pub proof fn lemma_reviews_seen(s: Scan, versions: Seq<AnnotationVersion>, rs: Seq<Review>, t: Timestamp)
    requires
        forall|j: int|
            0 <= j < rs.len() ==> s.scratch.dom().contains(Scratch::Reviewed(#[trigger] rs[j].review_id)),
    ensures
        scan_reviews(s, versions, rs, t) == s,
    decreases rs.len(),
{
    if rs.len() > 0 {
        assert forall|j: int| 0 <= j < rs.drop_last().len() implies s.scratch.dom().contains(
            Scratch::Reviewed(#[trigger] rs.drop_last()[j].review_id),
        ) by {
            assert(rs.drop_last()[j] == rs[j]);
        }
        lemma_reviews_seen(s, versions, rs.drop_last(), t);
        assert(s.scratch.dom().contains(Scratch::Reviewed(rs[rs.len() - 1].review_id)));
    }
}

/// Reading an event of the log a second time counts nothing new: a review is
/// counted once per review id, and labeling once per task and user.
pub proof fn replayed_event_counts_nothing(s: Scan, versions: Seq<AnnotationVersion>, e: Event)
    ensures
        scan_event(scan_event(s, versions, e), versions, e).days == scan_event(s, versions, e).days,
{
    let s1 = scan_event(s, versions, e);
    match e.payload {
        EventPayload::ReviewRevisionCommitted(rs) => {
            lemma_reviews_remember(s, versions, rs@, e.timestamp);
            lemma_reviews_seen(s1, versions, rs@, e.timestamp);
        },
        _ => {},
    }
}

impl ContributorAggregation {
    /// Every activity counted so far.
    pub closed spec fn counted(self) -> Map<(DayKey, Activity), nat> {
        self.counted@
    }

    /// The kept days hold exactly the counted activity, in order of user and day.
    pub closed spec fn wf(self) -> bool {
        &&& keys_unique(self.days@)
        &&& keys_increase(self.days@)
        &&& forall|i: int| 0 <= i < self.days@.len() ==> active(#[trigger] self.days@[i].1)
        &&& forall|k: DayKey, a: Activity| #[trigger]
            day_count(self.days@, k, a) == count_of(self.counted@, k, a)
    }

    /// Nothing counted yet.
    pub fn new() -> (r: ContributorAggregation)
        ensures
            r.wf(),
            forall|k: DayKey, a: Activity| #[trigger] count_of(r.counted(), k, a) == 0,
    {
        ContributorAggregation { days: Vec::new(), counted: Ghost(Map::empty()) }
    }

    /// The activity counted for `user` on day `day`.
    pub fn day(&self, user: UserId, day: i64) -> (r: DayCounts)
        requires
            self.wf(),
        ensures
            forall|a: Activity| #[trigger]
                r.get(a) == count_of(self.counted(), DayKey { user, day }, a),
    {
        let k = DayKey { user, day };
        let mut i: usize = 0;
        while i < self.days.len()
            invariant
                self.wf(),
                k == (DayKey { user, day }),
                i <= self.days@.len(),
                forall|j: int| 0 <= j < i ==> #[trigger] self.days@[j].0 != k,
            decreases self.days@.len() - i,
        {
            if self.days[i].0 == k {
                proof {
                    lemma_lookup_at(self.days@, i as int);
                    assert(self.days@[i as int].0 == k);
                    assert(lookup(self.days@, k) == Some(self.days@[i as int].1));
                    assert forall|a: Activity| #[trigger] self.days@[i as int].1.get(a) == count_of(self.counted(), DayKey { user, day }, a) by {
                        assert(day_count(self.days@, k, a) == count_of(self.counted@, k, a));
                        assert(day_count(self.days@, k, a) == self.days@[i as int].1.get(a));
                        assert(k == DayKey { user, day });
                    }
                }
                let r = self.days[i].1;
                assert(r == self.days@[i as int].1);
                return r;
            }
            i += 1;
        }
        proof {
            assert forall|a: Activity| #[trigger] count_of(self.counted(), k, a) == 0 by {
                assert(day_count(self.days@, k, a) == count_of(self.counted@, k, a));
            }
        }
        DayCounts { labeled: 0, reviewed: 0, accepted: 0, rejected: 0 }
    }

    /// Counts one activity `a` of user `u` at time `t`.
    fn count(&mut self, u: UserId, t: Timestamp, a: Activity)
        requires
            old(self).wf(),
            representable(t as int),
            count_of(old(self).counted@, day_key(u, t), a) < u64::MAX,
        ensures
            final(self).wf(),
            final(self).counted@ == bump(old(self).counted@, u, t, a),
    {
        let d = utc_day_of(t);
        let key = DayKey { user: u, day: d };
        assert(key == day_key(u, t));
        assert(day_count(self.days@, key, a) == count_of(self.counted@, key, a));
        bump_contributor(&mut self.days, key, a);
        proof {
            lemma_bump(self.counted@, u, t, a);
            self.counted@ = bump(self.counted@, u, t, a);
        }
    }

    /// Reads one review made at time `t`.
    fn read_review(&mut self, scratch: &mut Vec<(Scratch, UserId)>, Ghost(s): Ghost<Scan>, versions: &Vec<AnnotationVersion>, r: &Review, t: Timestamp)
        requires
            old(self).wf(),
            scratch_holds(old(scratch)@, s.scratch),
            old(self).counted@ == s.days,
            representable(t as int),
            counts_fit(scan_review(s, versions@, *r, t).days),
        ensures
            final(self).wf(),
            scratch_holds(final(scratch)@, scan_review(s, versions@, *r, t).scratch),
            final(self).counted@ == scan_review(s, versions@, *r, t).days,
    {
        let seen = recall(scratch, Scratch::Reviewed(r.review_id));
        if seen.is_some() {
            return;
        }
        let author = match r.target {
            ReviewTarget::Task { task_id } => recall(scratch, Scratch::Submission(task_id)),
            ReviewTarget::AnnotationVersion { annotation_id, version } => find_human_author(versions, annotation_id, version),
            ReviewTarget::MigrationDisposition { task_id, object_group_id, disposition_version } =>
                recall(scratch, Scratch::Disposition(task_id, object_group_id, disposition_version)),
            ReviewTarget::MigrationConfirmation { task_id, confirmation } => recall(scratch, Scratch::Confirmation(task_id, confirmation)),
            ReviewTarget::Image => None,
        };
        assert(author == review_author(s.scratch, versions@, r.target));
        let ghost end = scan_review(s, versions@, *r, t);
        proof {
            lemma_bump(s.days, r.reviewer, t, Activity::Reviewed);
            let days = bump(s.days, r.reviewer, t, Activity::Reviewed);
            if let Some(au) = author {
                lemma_bump(days, au, t, judged(r.decision));
            }
            assert(count_of(end.days, day_key(r.reviewer, t), Activity::Reviewed) <= u64::MAX);
        }
        self.count(r.reviewer, t, Activity::Reviewed);
        remember(scratch, Scratch::Reviewed(r.review_id), r.reviewer);
        match author {
            Some(au) => {
                let a = match r.decision {
                    ReviewDecision::Approved => Activity::Accepted,
                    ReviewDecision::Rejected => Activity::Rejected,
                };
                assert(a == judged(r.decision));
                assert(count_of(end.days, day_key(au, t), a) <= u64::MAX);
                self.count(au, t, a);
            },
            None => {},
        }
    }

    /// Records the contributor activity of one image, read from its event log
    /// `events`; `versions` are the versions of the image's annotations.
    pub fn record_contributors(&mut self, versions: &Vec<AnnotationVersion>, events: &Vec<Event>)
        requires
            old(self).wf(),
            event_times_representable(events@),
            counts_fit(image_activity(old(self).counted(), versions@, events@)),
        ensures
            final(self).wf(),
            final(self).counted() == image_activity(old(self).counted(), versions@, events@),
    {
        let ghost s0 = Scan { scratch: Map::empty(), days: self.counted@ };
        let ghost vs = versions@;
        let ghost es = events@;
        let ghost fin = scan_events(s0, vs, es);
        let mut scratch: Vec<(Scratch, UserId)> = Vec::new();
        let ghost mut s = s0;
        let mut i: usize = 0;
        while i < events.len()
            invariant
                i <= es.len(),
                es == events@,
                vs == versions@,
                fin == scan_events(s0, vs, es),
                event_times_representable(es),
                counts_fit(fin.days),
                self.wf(),
                s == scan_events(s0, vs, es.take(i as int)),
                scratch_holds(scratch@, s.scratch),
                self.counted@ == s.days,
            decreases es.len() - i,
        {
            let ev = &events[i];
            let ghost next = scan_event(s, vs, *ev);
            proof {
                assert(es.take(i as int + 1).drop_last() =~= es.take(i as int));
                assert(scan_events(s0, vs, es.take(i as int + 1)) == next);
                lemma_events_prefix(s0, vs, es, i as int + 1);
                assert(representable(es[i as int].timestamp as int));
            }
            match &ev.payload {
                EventPayload::TaskStateChanged { task_id, status, outcome, completed_by } => {
                    let finished = match status {
                        TaskStatus::Submitted => true,
                        TaskStatus::Completed => match outcome {
                            Some(TaskOutcome::AnnotationCompleted) => true,
                            _ => false,
                        },
                        _ => false,
                    };
                    assert(finished == submits(*status, *outcome));
                    if finished {
                        match completed_by {
                            Some(u) => {
                                let already = recall(&scratch, Scratch::Labeled(*task_id, *u));
                                remember(&mut scratch, Scratch::Submission(*task_id), *u);
                                if already.is_none() {
                                    proof {
                                        lemma_bump(s.days, *u, ev.timestamp, Activity::Labeled);
                                        assert(count_of(next.days, day_key(*u, ev.timestamp), Activity::Labeled) <= u64::MAX);
                                    }
                                    remember(&mut scratch, Scratch::Labeled(*task_id, *u), *u);
                                    self.count(*u, ev.timestamp, Activity::Labeled);
                                }
                            },
                            None => {},
                        }
                    }
                },
                EventPayload::MigrationDispositionChanged { task_id, object_group_id, disposition_version } => {
                    remember(&mut scratch, Scratch::Disposition(*task_id, *object_group_id, *disposition_version), ev.actor);
                },
                EventPayload::MigrationFullImageConfirmed { task_id, confirmation, actor } => {
                    remember(&mut scratch, Scratch::Confirmation(*task_id, *confirmation), *actor);
                },
                EventPayload::ReviewRecorded(r) => {
                    self.read_review(&mut scratch, Ghost(s), versions, r, r.timestamp);
                },
                EventPayload::ReviewerCorrectionRecorded(r) => {
                    self.read_review(&mut scratch, Ghost(s), versions, r, r.timestamp);
                },
                EventPayload::ReviewRevisionCommitted(rs) => {
                    let ghost t0 = s;
                    let ghost mut x = s;
                    let mut j: usize = 0;
                    while j < rs.len()
                        invariant
                            j <= rs@.len(),
                            self.wf(),
                            representable(ev.timestamp as int),
                            next == scan_reviews(t0, vs, rs@, ev.timestamp),
                            counts_fit(next.days),
                            x == scan_reviews(t0, vs, rs@.take(j as int), ev.timestamp),
                            scratch_holds(scratch@, x.scratch),
                            self.counted@ == x.days,
                            vs == versions@,
                        decreases rs@.len() - j,
                    {
                        proof {
                            assert(rs@.take(j as int + 1).drop_last() =~= rs@.take(j as int));
                            lemma_reviews_prefix(t0, vs, rs@, ev.timestamp, j as int + 1);
                            let y = scan_review(x, vs, rs@[j as int], ev.timestamp);
                            assert(scan_reviews(t0, vs, rs@.take(j as int + 1), ev.timestamp) == y);
                            assert forall|k: DayKey, a: Activity| #[trigger] count_of(y.days, k, a) <= u64::MAX by {
                                assert(count_of(scan_reviews(t0, vs, rs@.take(j as int + 1), ev.timestamp).days, k, a) <= count_of(next.days, k, a));
                            }
                        }
                        self.read_review(&mut scratch, Ghost(x), versions, &rs[j], ev.timestamp);
                        proof {
                            x = scan_review(x, vs, rs@[j as int], ev.timestamp);
                        }
                        j += 1;
                    }
                    proof {
                        assert(rs@.take(rs@.len() as int) =~= rs@);
                    }
                },
                EventPayload::Other => {},
            }
            proof {
                s = next;
            }
            i += 1;
        }
        proof {
            assert(es.take(es.len() as int) =~= es);
        }
    }
}

impl ContributorAggregation {
    /// Ends the aggregation: each user's activity, day by day.
    pub fn finish(self) -> (r: Vec<(UserId, Vec<(i64, DayCounts)>)>)
        requires
            self.wf(),
        ensures
            histories_match(r@, self.counted()),
    {
        let days = &self.days;
        let mut r: Vec<(UserId, Vec<(i64, DayCounts)>)> = Vec::new();
        let mut i: usize = 0;
        while i < days.len()
            invariant
                self.wf(),
                days@ == self.days@,
                i <= days@.len(),
                flatten(r@) == days@.take(i as int),
                forall|g: int, h: int| 0 <= g < h < r@.len() ==> #[trigger] r@[g].0 < #[trigger] r@[h].0,
                forall|g: int| 0 <= g < r@.len() ==> (#[trigger] r@[g]).1@.len() > 0,
                i > 0 ==> r@.len() > 0 && r@.last().0 == days@[i - 1].0.user,
                i == 0 ==> r@.len() == 0,
            decreases days@.len() - i,
        {
            let key = days[i].0;
            let c = days[i].1;
            let ghost before = r@;
            let ghost f = |e: (i64, DayCounts)| (DayKey { user: key.user, day: e.0 }, e.1);
            proof {
                if i > 0 {
                    assert(key_lt(days@[i - 1].0, days@[i as int].0));
                }
                assert(days@.take(i as int + 1) =~= days@.take(i as int).push((key, c)));
            }
            let same_user = r.len() > 0 && r[r.len() - 1].0 == key.user;
            if same_user {
                let (u, mut h) = r.pop().unwrap();
                let ghost hb = h@;
                h.push((key.day, c));
                r.push((u, h));
                proof {
                    let n = before.len() - 1;
                    assert(r@.drop_last() =~= before.drop_last());
                    assert(hb.push((key.day, c)).map_values(f) =~= hb.map_values(f).push((key, c)));
                    assert(before.last().1@.map_values(f) =~= hb.map_values(f));
                    assert(flatten(r@) =~= flatten(before).push((key, c)));
                    assert forall|g: int| 0 <= g < r@.len() implies (#[trigger] r@[g]).1@.len() > 0 by {
                        if g < n {
                            assert(r@[g] == before[g]);
                        }
                    }
                    assert forall|g: int, hh: int| 0 <= g < hh < r@.len() implies #[trigger] r@[g].0 < #[trigger] r@[hh].0 by {
                        assert(before[g].0 < before[hh].0);
                    }
                }
            } else {
                let mut h: Vec<(i64, DayCounts)> = Vec::new();
                h.push((key.day, c));
                r.push((key.user, h));
                proof {
                    let n = before.len();
                    assert(r@.drop_last() =~= before);
                    assert(h@.map_values(f) =~= seq![(key, c)]);
                    assert(flatten(r@) =~= flatten(before).push((key, c)));
                    if i > 0 {
                        assert(before.last().0 < key.user);
                    }
                    assert forall|g: int, hh: int| 0 <= g < hh < r@.len() implies #[trigger] r@[g].0 < #[trigger] r@[hh].0 by {
                        if hh == n {
                            if g < n - 1 {
                                assert(before[g].0 < before[n - 1].0);
                            }
                        } else {
                            assert(before[g].0 < before[hh].0);
                        }
                    }
                    assert forall|g: int| 0 <= g < r@.len() implies (#[trigger] r@[g]).1@.len() > 0 by {
                        if g < n {
                            assert(r@[g] == before[g]);
                        }
                    }
                }
            }
            i += 1;
        }
        proof {
            assert(days@.take(days@.len() as int) =~= days@);
            assert forall|k: DayKey, a: Activity| #[trigger] day_count(flatten(r@), k, a) == count_of(self.counted(), k, a) by {
                assert(day_count(self.days@, k, a) == count_of(self.counted@, k, a));
            }
        }
        r
    }
}

/// The event records finished labeling work by a known user.
pub open spec fn records_submission(e: Event) -> bool {
    match e.payload {
        EventPayload::TaskStateChanged { status, outcome, completed_by, .. } => completed_by is Some
            && submits(status, outcome),
        _ => false,
    }
}

/// When a batch of committed events `events` moves the scoring focus: at the time
/// of its last event, when some event records finished labeling work by a known
/// user; otherwise the focus is left alone.
pub fn scoring_focus_due(events: &Vec<Event>) -> (r: Option<Timestamp>)
    ensures
        r == if exists|i: int| 0 <= i < events@.len() && #[trigger] records_submission(events@[i]) {
            Some(events@.last().timestamp)
        } else {
            None
        },
{
    let mut i: usize = 0;
    while i < events.len()
        invariant
            i <= events@.len(),
            forall|j: int| 0 <= j < i ==> !#[trigger] records_submission(events@[j]),
        decreases events@.len() - i,
    {
        let found = match &events[i].payload {
            EventPayload::TaskStateChanged { status, outcome, completed_by, .. } => completed_by.is_some() && match status {
                TaskStatus::Submitted => true,
                TaskStatus::Completed => match outcome {
                    Some(TaskOutcome::AnnotationCompleted) => true,
                    _ => false,
                },
                _ => false,
            },
            _ => false,
        };
        if found {
            assert(records_submission(events@[i as int]));
            return Some(events[events.len() - 1].timestamp);
        }
        i += 1;
    }
    None
}

} // verus!
