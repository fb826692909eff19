//! The dataset export flow: the known export jobs, the selected one, and the one
//! request in flight.
use vstd::prelude::*;

use crate::assignment::{ImageId, Timestamp};
use crate::stats::ClassId;

verus! {

/// Identifies an export job.
pub type JobId = u64;

/// Identifies a dataset.
pub type DatasetId = u64;

/// The format an export is written in.
#[derive(Clone, Copy, Debug, PartialEq, Eq, Structural)]
pub enum ExportProfile {
    UltralyticsYoloDetectV1,
    UltralyticsYoloPoseV1,
}

/// The split an image is exported into.
#[derive(Clone, Copy, Debug, PartialEq, Eq, Structural)]
pub enum ExportSplit {
    Train,
    Val,
    Test,
}

/// Where an export job stands.
#[derive(Clone, Copy, Debug, PartialEq, Eq, Structural)]
pub enum ExportPhase {
    Capturing,
    Ready,
    Blocked,
    Building,
    Cancelling,
    Cancelled,
    Failed,
    Succeeded,
}

/// What an export writes.
#[derive(Clone, Debug)]
pub struct ExportOptions {
    pub profile: ExportProfile,
    pub classes: Vec<ClassId>,
    pub fallback_split: ExportSplit,
    pub split_choices: Vec<(ImageId, ExportSplit)>,
}

/// An export job as the flow reads it.
#[derive(Clone, Debug)]
pub struct ExportJob {
    pub job_id: JobId,
    pub dataset_id: DatasetId,
    pub created_at: Timestamp,
    pub phase: ExportPhase,
    pub options: ExportOptions,
}

/// What the server offers for exports.
#[derive(Clone, Copy, Debug, PartialEq, Eq, Structural)]
pub struct ExportCapabilities {
    pub available: bool,
}

/// A request of the export flow.
#[derive(Clone, Debug)]
pub enum ExportAction {
    Load,
    Preflight(ExportOptions),
    Poll(JobId),
    Start(JobId),
    Cancel(JobId),
    Download(JobId),
}

/// What a successful request returned.
#[derive(Clone, Debug)]
pub enum ExportReply {
    Loaded { capabilities: ExportCapabilities, jobs: Vec<ExportJob> },
    Job(ExportJob),
    /// Where the archive can be downloaded.
    Download(String),
}

/// Job `a` is listed before job `b`: newer first, then the larger id first.
pub open spec fn listed_before(a: ExportJob, b: ExportJob) -> bool {
    a.created_at > b.created_at || (a.created_at == b.created_at && a.job_id > b.job_id)
}

/// No job of `s` is listed before an earlier one.
pub open spec fn newest_first(s: Seq<ExportJob>) -> bool {
    forall|i: int, j: int| 0 <= i < j < s.len() ==> !listed_before(#[trigger] s[j], #[trigger] s[i])
}

/// The jobs of `s` that belong to dataset `d`, in order.
pub open spec fn for_dataset(s: Seq<ExportJob>, d: DatasetId) -> Seq<ExportJob>
    decreases s.len(),
{
    if s.len() == 0 {
        Seq::empty()
    } else if s.last().dataset_id == d {
        for_dataset(s.drop_last(), d).push(s.last())
    } else {
        for_dataset(s.drop_last(), d)
    }
}

/// The jobs of `s` created at `key.0` with id `key.1`, in order.
pub open spec fn with_key(s: Seq<ExportJob>, key: (Timestamp, JobId)) -> Seq<ExportJob>
    decreases s.len(),
{
    if s.len() == 0 {
        s
    } else {
        let rest = with_key(s.drop_last(), key);
        if s.last().created_at == key.0 && s.last().job_id == key.1 {
            rest.push(s.last())
        } else {
            rest
        }
    }
}

/// The jobs listed for a dataset are exactly its jobs: a job is kept exactly
/// when it belongs to the dataset, and in a newest-first list an earlier job
/// was created no earlier than a later one.
pub proof fn dataset_jobs_are_its_own(s: Seq<ExportJob>, d: DatasetId, x: ExportJob)
    ensures
        for_dataset(s, d).contains(x) <==> s.contains(x) && x.dataset_id == d,
        newest_first(s) ==> forall|i: int, j: int| 0 <= i < j < s.len() ==> (#[trigger] s[i]).created_at >= (#[trigger] s[j]).created_at,
    decreases s.len(),
{
    if s.len() > 0 {
        let init = s.drop_last();
        dataset_jobs_are_its_own(init, d, x);
        let rest = for_dataset(init, d);
        let out = for_dataset(s, d);
        let last = s.last();
        if last.dataset_id == d {
            assert(out == rest.push(last));
        } else {
            assert(out == rest);
        }
        if rest.contains(x) {
            let k = choose|k: int| 0 <= k < rest.len() && rest[k] == x;
            assert(out[k] == x);
        }
        if init.contains(x) {
            let j = choose|j: int| 0 <= j < init.len() && init[j] == x;
            assert(s[j] == x);
        }
        if s.contains(x) && x.dataset_id == d {
            let i = choose|i: int| 0 <= i < s.len() && s[i] == x;
            if i < s.len() - 1 {
                assert(init[i] == x);
            } else {
                assert(out[rest.len() as int] == x);
            }
        }
        if out.contains(x) {
            let i = choose|i: int| 0 <= i < out.len() && out[i] == x;
            if i < rest.len() {
                assert(rest[i] == x);
            } else {
                assert(x == last);
                assert(s[s.len() - 1] == x);
            }
        }
    }
    if newest_first(s) {
        assert forall|i: int, j: int| 0 <= i < j < s.len() implies (#[trigger] s[i]).created_at >= (#[trigger] s[j]).created_at by {
            assert(!listed_before(s[j], s[i]));
        }
    }
}

proof fn lemma_with_key_concat(a: Seq<ExportJob>, b: Seq<ExportJob>, key: (Timestamp, JobId))
    ensures
        with_key(a + b, key) == with_key(a, key) + with_key(b, key),
    decreases b.len(),
{
    if b.len() == 0 {
        assert(a + b =~= a);
        assert(with_key(a, key) + with_key(b, key) =~= with_key(a, key));
    } else {
        lemma_with_key_concat(a, b.drop_last(), key);
        assert((a + b).drop_last() =~= a + b.drop_last());
        assert((a + b).last() == b.last());
        if b.last().created_at == key.0 && b.last().job_id == key.1 {
            assert(with_key(a, key) + with_key(b, key) =~= (with_key(a, key) + with_key(b.drop_last(), key)).push(b.last()));
        } else {
            assert(with_key(a, key) + with_key(b, key) =~= with_key(a, key) + with_key(b.drop_last(), key));
        }
    }
}

proof fn lemma_with_key_none(b: Seq<ExportJob>, key: (Timestamp, JobId))
    requires
        forall|i: int| 0 <= i < b.len() ==> !(#[trigger] b[i].created_at == key.0 && b[i].job_id == key.1),
    ensures
        with_key(b, key) == Seq::<ExportJob>::empty(),
    decreases b.len(),
{
    if b.len() > 0 {
        lemma_with_key_none(b.drop_last(), key);
        assert(!(b[b.len() - 1].created_at == key.0 && b[b.len() - 1].job_id == key.1));
    }
}

/// The jobs of dataset `d` among `jobs`, newest first (jobs listed alike keep
/// their order).
fn order_for_dataset(jobs: Vec<ExportJob>, d: DatasetId) -> (r: Vec<ExportJob>)
    ensures
        newest_first(r@),
        r@.to_multiset() == for_dataset(jobs@, d).to_multiset(),
        forall|key: (Timestamp, JobId)| #[trigger] with_key(r@, key) == with_key(for_dataset(jobs@, d), key),
{
    let mut r: Vec<ExportJob> = Vec::new();
    let mut i: usize = 0;
    let count = jobs.len();
    let ghost all = jobs@;
    let mut rest = jobs;
    assert(rest@ =~= all.subrange(0, all.len() as int));
    while rest.len() > 0
        invariant
            i + rest@.len() == all.len(),
            all.len() == count,
            rest@ == all.subrange(i as int, all.len() as int),
            newest_first(r@),
            r@.to_multiset() == for_dataset(all.take(i as int), d).to_multiset(),
            forall|key: (Timestamp, JobId)| #[trigger] with_key(r@, key) == with_key(for_dataset(all.take(i as int), d), key),
        decreases rest@.len(),
    {
        let ghost before = r@;
        let job = rest.remove(0);
        proof {
            assert(job == all[i as int]);
            assert(all.take(i as int + 1).drop_last() =~= all.take(i as int));
            assert(rest@ =~= all.subrange(i as int + 1, all.len() as int));
            assert(all.take(i as int + 1).last() == job);
            if job.dataset_id == d {
                assert(for_dataset(all.take(i as int + 1), d) == for_dataset(all.take(i as int), d).push(job));
            } else {
                assert(for_dataset(all.take(i as int + 1), d) == for_dataset(all.take(i as int), d));
            }
        }
        if job.dataset_id == d {
            let mut p: usize = 0;
            while p < r.len() && !(job.created_at > r[p].created_at || (job.created_at == r[p].created_at && job.job_id > r[p].job_id))
                invariant
                    p <= r@.len(),
                    r@ == before,
                    forall|q: int| 0 <= q < p ==> !listed_before(job, #[trigger] r@[q]),
                decreases r@.len() - p,
            {
                p += 1;
            }
            proof {
                assert forall|q: int| p <= q < before.len() implies listed_before(job, #[trigger] before[q]) by {
                    if q > p {
                        assert(!listed_before(before[q], before[p as int]));
                    }
                }
            }
            r.insert(p, job);
            proof {
                assert(r@ == before.insert(p as int, job));
                let f0 = for_dataset(all.take(i as int), d);
                assert(r@ =~= before.take(p as int) + seq![job] + before.skip(p as int));
                assert(before =~= before.take(p as int) + before.skip(p as int));
                assert forall|key: (Timestamp, JobId)| #[trigger] with_key(r@, key) == with_key(f0.push(job), key) by {
                    lemma_with_key_concat(before.take(p as int) + seq![job], before.skip(p as int), key);
                    lemma_with_key_concat(before.take(p as int), seq![job], key);
                    lemma_with_key_concat(before.take(p as int), before.skip(p as int), key);
                    assert(seq![job].drop_last() =~= Seq::<ExportJob>::empty());
                    assert(seq![job].last() == job);
                    assert(with_key(Seq::<ExportJob>::empty(), key) =~= Seq::<ExportJob>::empty());
                    if job.created_at == key.0 && job.job_id == key.1 {
                        assert(with_key(seq![job], key) =~= seq![job]);
                        assert forall|q: int| 0 <= q < before.skip(p as int).len() implies !(#[trigger] before.skip(p as int)[q].created_at == key.0
                            && before.skip(p as int)[q].job_id == key.1) by {
                            assert(before.skip(p as int)[q] == before[p + q]);
                            assert(listed_before(job, before[p + q]));
                        }
                        lemma_with_key_none(before.skip(p as int), key);
                        assert(f0.push(job).drop_last() =~= f0);
                        assert(with_key(r@, key) =~= with_key(before.take(p as int), key).push(job));
                    } else {
                        assert(with_key(seq![job], key) =~= Seq::<ExportJob>::empty());
                        assert(f0.push(job).drop_last() =~= f0);
                        assert(with_key(r@, key) =~= with_key(before.take(p as int), key) + with_key(before.skip(p as int), key));
                    }
                }
                vstd::seq_lib::to_multiset_insert(before, p as int, job);
                vstd::seq_lib::to_multiset_build(for_dataset(all.take(i as int), d), job);
                assert forall|a: int, b: int| 0 <= a < b < r@.len() implies !listed_before(#[trigger] r@[b], #[trigger] r@[a]) by {
                    if b < p {
                        assert(!listed_before(before[b], before[a]));
                    } else if b == p {
                        assert(!listed_before(job, before[a]));
                    } else if a < p {
                        assert(r@[b] == before[b - 1]);
                        assert(!listed_before(job, before[a]));
                        assert(!listed_before(before[b - 1], before[a]));
                    } else if a == p {
                        assert(r@[b] == before[b - 1]);
                        assert(listed_before(job, before[p as int]));
                        if b - 1 > p {
                            assert(!listed_before(before[b - 1], before[p as int]));
                        }
                    } else {
                        assert(!listed_before(before[b - 1], before[a - 1]));
                    }
                }
            }
        }
        i += 1;
    }
    proof {
        assert(all.take(all.len() as int) =~= all);
    }
    r
}

/// The state of the export flow.
pub struct ExportState {
    pub options: ExportOptions,
    pub capabilities: Option<ExportCapabilities>,
    pub jobs: Vec<ExportJob>,
    pub loaded: bool,
    pub selected: Option<JobId>,
    pub reviewed: bool,
    /// The request in flight: its id and what it asks.
    pub pending: Option<(u64, ExportAction)>,
    pub retry: Option<ExportAction>,
    pub error: Option<String>,
    pub notice: Option<String>,
    /// When the jobs were last polled, in milliseconds.
    pub last_poll: Option<u64>,
}

/// The notice shown once a download was requested.
pub open spec fn download_notice() -> Seq<char> {
    "Download requested. Check your browser's downloads for transfer status."@
}

/// `i` is the first position in `s` whose job satisfies `p`.
pub open spec fn is_first(s: Seq<ExportJob>, p: spec_fn(ExportJob) -> bool, i: int) -> bool {
    &&& 0 <= i < s.len()
    &&& p(s[i])
    &&& forall|j: int| 0 <= j < i ==> !p(#[trigger] s[j])
}

/// The first job of `s` that satisfies `p`.
pub open spec fn first_where(s: Seq<ExportJob>, p: spec_fn(ExportJob) -> bool) -> Option<ExportJob> {
    if exists|i: int| #[trigger] is_first(s, p, i) {
        Some(s[choose|i: int| #[trigger] is_first(s, p, i)])
    } else {
        None
    }
}

/// The job has id `id`.
pub open spec fn has_id(id: JobId) -> spec_fn(ExportJob) -> bool {
    |j: ExportJob| j.job_id == id
}

/// The job still holds a capture: the server keeps at most one such job.
pub open spec fn holds_capture(j: ExportJob) -> bool {
    match j.phase {
        ExportPhase::Capturing | ExportPhase::Ready | ExportPhase::Blocked | ExportPhase::Building
        | ExportPhase::Cancelling => true,
        _ => false,
    }
}

/// The request to retry after `a` failed: a refresh where `a` changed the server.
pub open spec fn retry_for(a: ExportAction) -> ExportAction {
    match a {
        ExportAction::Preflight(_) | ExportAction::Start(_) | ExportAction::Cancel(_) => ExportAction::Load,
        _ => a,
    }
}

/// The first position `i` in `s` whose job satisfies `p` is the position found.
proof fn lemma_first_found(s: Seq<ExportJob>, p: spec_fn(ExportJob) -> bool, i: int)
    requires
        is_first(s, p, i),
    ensures
        first_where(s, p) == Some(s[i]),
{
    let f = choose|f: int| #[trigger] is_first(s, p, f);
    if f < i {
        assert(!p(s[f]));
    } else if f > i {
        assert(!p(s[i]));
    }
}

/// No job of `s` satisfies `p`.
proof fn lemma_none_found(s: Seq<ExportJob>, p: spec_fn(ExportJob) -> bool)
    requires
        forall|j: int| 0 <= j < s.len() ==> !p(#[trigger] s[j]),
    ensures
        first_where(s, p) is None,
{
    if exists|i: int| #[trigger] is_first(s, p, i) {
        let f = choose|f: int| #[trigger] is_first(s, p, f);
        assert(!p(s[f]));
    }
}

/// The position of the first job with id `id`.
fn position_of(jobs: &Vec<ExportJob>, id: JobId) -> (r: Option<usize>)
    ensures
        match r {
            Some(i) => is_first(jobs@, has_id(id), i as int),
            None => forall|j: int| 0 <= j < jobs@.len() ==> !has_id(id)(#[trigger] jobs@[j]),
        },
{
    let mut i: usize = 0;
    while i < jobs.len()
        invariant
            i <= jobs@.len(),
            forall|j: int| 0 <= j < i ==> !has_id(id)(#[trigger] jobs@[j]),
        decreases jobs@.len() - i,
    {
        if jobs[i].job_id == id {
            return Some(i);
        }
        i += 1;
    }
    None
}

/// An exact copy of `v`.
fn copy_ids(v: &Vec<ClassId>) -> (r: Vec<ClassId>)
    ensures
        r@ == v@,
{
    let mut r: Vec<ClassId> = Vec::new();
    let mut i: usize = 0;
    while i < v.len()
        invariant
            i <= v@.len(),
            r@ == v@.take(i as int),
        decreases v@.len() - i,
    {
        r.push(v[i]);
        assert(v@.take(i as int + 1) =~= v@.take(i as int).push(v@[i as int]));
        i += 1;
    }
    assert(v@.take(v@.len() as int) =~= v@);
    r
}

/// An exact copy of `v`.
fn copy_choices(v: &Vec<(ImageId, ExportSplit)>) -> (r: Vec<(ImageId, ExportSplit)>)
    ensures
        r@ == v@,
{
    let mut r: Vec<(ImageId, ExportSplit)> = Vec::new();
    let mut i: usize = 0;
    while i < v.len()
        invariant
            i <= v@.len(),
            r@ == v@.take(i as int),
        decreases v@.len() - i,
    {
        r.push(v[i]);
        assert(v@.take(i as int + 1) =~= v@.take(i as int).push(v@[i as int]));
        i += 1;
    }
    assert(v@.take(v@.len() as int) =~= v@);
    r
}

impl ExportOptions {
    /// The same options: profile, classes, fallback split and split choices.
    pub open spec fn same_as(self, other: ExportOptions) -> bool {
        &&& self.profile == other.profile
        &&& self.classes@ == other.classes@
        &&& self.fallback_split == other.fallback_split
        &&& self.split_choices@ == other.split_choices@
    }

    /// A copy of the options.
    pub fn copy(&self) -> (r: ExportOptions)
        ensures
            r.same_as(*self),
    {
        ExportOptions {
            profile: self.profile,
            classes: copy_ids(&self.classes),
            fallback_split: self.fallback_split,
            split_choices: copy_choices(&self.split_choices),
        }
    }
}

/// The label of profile `p`.
pub fn profile_label(p: ExportProfile) -> (r: &'static str)
    ensures
        r@ == match p {
            ExportProfile::UltralyticsYoloDetectV1 => "YOLO detect v1"@,
            ExportProfile::UltralyticsYoloPoseV1 => "YOLO pose v1"@,
        },
{
    match p {
        ExportProfile::UltralyticsYoloDetectV1 => "YOLO detect v1",
        ExportProfile::UltralyticsYoloPoseV1 => "YOLO pose v1",
    }
}

/// The label of phase `p`.
pub fn phase_label(p: ExportPhase) -> (r: &'static str)
    ensures
        r@ == match p {
            ExportPhase::Capturing => "Capturing preflight"@,
            ExportPhase::Ready => "Ready for review"@,
            ExportPhase::Blocked => "Blocked"@,
            ExportPhase::Building => "Building archive"@,
            ExportPhase::Cancelling => "Cancelling"@,
            ExportPhase::Cancelled => "Cancelled"@,
            ExportPhase::Failed => "Failed"@,
            ExportPhase::Succeeded => "Archive ready"@,
        },
{
    match p {
        ExportPhase::Capturing => "Capturing preflight",
        ExportPhase::Ready => "Ready for review",
        ExportPhase::Blocked => "Blocked",
        ExportPhase::Building => "Building archive",
        ExportPhase::Cancelling => "Cancelling",
        ExportPhase::Cancelled => "Cancelled",
        ExportPhase::Failed => "Failed",
        ExportPhase::Succeeded => "Archive ready",
    }
}

impl ExportState {
    /// Nothing loaded and nothing selected: the default options (YOLO detect,
    /// no classes, images without a split go to training).
    pub fn new() -> (s: ExportState)
        ensures
            s.options.profile == ExportProfile::UltralyticsYoloDetectV1,
            s.options.classes@.len() == 0,
            s.options.fallback_split == ExportSplit::Train,
            s.options.split_choices@.len() == 0,
            s.capabilities is None,
            s.jobs@.len() == 0,
            !s.loaded,
            s.selected is None,
            !s.reviewed,
            s.pending is None,
            s.retry is None,
            s.error is None,
            s.notice is None,
            s.last_poll is None,
    {
        ExportState {
            options: ExportOptions {
                profile: ExportProfile::UltralyticsYoloDetectV1,
                classes: Vec::new(),
                fallback_split: ExportSplit::Train,
                split_choices: Vec::new(),
            },
            capabilities: None,
            jobs: Vec::new(),
            loaded: false,
            selected: None,
            reviewed: false,
            pending: None,
            retry: None,
            error: None,
            notice: None,
            last_poll: None,
        }
    }

    /// The selected job: the first known job with the selected id.
    pub fn selected_job(&self) -> (r: Option<&ExportJob>)
        ensures
            match self.selected {
                None => r is None,
                Some(id) => match r {
                    Some(j) => first_where(self.jobs@, has_id(id)) == Some(*j),
                    None => first_where(self.jobs@, has_id(id)) is None,
                },
            },
    {
        match self.selected {
            None => None,
            Some(id) => match position_of(&self.jobs, id) {
                Some(i) => {
                    proof {
                        lemma_first_found(self.jobs@, has_id(id), i as int);
                    }
                    Some(&self.jobs[i])
                },
                None => {
                    proof {
                        lemma_none_found(self.jobs@, has_id(id));
                    }
                    None
                },
            },
        }
    }

    /// The job that holds a capture, if any: the first known job that is
    /// capturing, ready, blocked, building or cancelling.
    pub fn retained_capture(&self) -> (r: Option<&ExportJob>)
        ensures
            match r {
                Some(j) => first_where(self.jobs@, |j: ExportJob| holds_capture(j)) == Some(*j),
                None => first_where(self.jobs@, |j: ExportJob| holds_capture(j)) is None,
            },
    {
        let ghost p = |j: ExportJob| holds_capture(j);
        let mut i: usize = 0;
        while i < self.jobs.len()
            invariant
                i <= self.jobs@.len(),
                p == (|j: ExportJob| holds_capture(j)),
                forall|j: int| 0 <= j < i ==> !p(#[trigger] self.jobs@[j]),
            decreases self.jobs@.len() - i,
        {
            let held = match self.jobs[i].phase {
                ExportPhase::Capturing | ExportPhase::Ready | ExportPhase::Blocked
                | ExportPhase::Building | ExportPhase::Cancelling => true,
                _ => false,
            };
            if held {
                proof {
                    lemma_first_found(self.jobs@, p, i as int);
                }
                return Some(&self.jobs[i]);
            }
            i += 1;
        }
        proof {
            lemma_none_found(self.jobs@, p);
        }
        None
    }

    /// The request in flight failed with `error`: it ends, its retry is kept (a
    /// refresh, where it changed the server), the error shown and the notice cleared.
    pub fn request_failed(&mut self, error: String)
        ensures
            final(self).pending is None,
            final(self).retry == match old(self).pending {
                Some((_, a)) => Some(retry_for(a)),
                None => None,
            },
            final(self).error == Some(error),
            final(self).notice is None,
            final(self).options == old(self).options,
            final(self).capabilities == old(self).capabilities,
            final(self).jobs == old(self).jobs,
            final(self).loaded == old(self).loaded,
            final(self).selected == old(self).selected,
            final(self).reviewed == old(self).reviewed,
            final(self).last_poll == old(self).last_poll,
    {
        let pending = self.pending.take();
        self.retry = match pending {
            Some((_, action)) => Some(
                match action {
                    ExportAction::Preflight(_) | ExportAction::Start(_) | ExportAction::Cancel(_) => ExportAction::Load,
                    action => action,
                },
            ),
            None => None,
        };
        self.error = Some(error);
        self.notice = None;
    }

    /// Selects the first known job with id `id`, taking over its options; nothing
    /// happens when no job has that id.
    pub fn select_job(&mut self, id: JobId)
        ensures
            match first_where(old(self).jobs@, has_id(id)) {
                Some(job) => {
                    &&& final(self).options.same_as(job.options)
                    &&& final(self).selected == Some(id)
                    &&& !final(self).reviewed
                    &&& final(self).notice is None
                },
                None => {
                    &&& final(self).options == old(self).options
                    &&& final(self).selected == old(self).selected
                    &&& final(self).reviewed == old(self).reviewed
                    &&& final(self).notice == old(self).notice
                },
            },
            final(self).capabilities == old(self).capabilities,
            final(self).jobs == old(self).jobs,
            final(self).loaded == old(self).loaded,
            final(self).pending == old(self).pending,
            final(self).retry == old(self).retry,
            final(self).error == old(self).error,
            final(self).last_poll == old(self).last_poll,
    {
        match position_of(&self.jobs, id) {
            Some(i) => {
                proof {
                    lemma_first_found(self.jobs@, has_id(id), i as int);
                }
                self.options = self.jobs[i].options.copy();
                self.selected = Some(id);
                self.reviewed = false;
                self.notice = None;
            },
            None => {
                proof {
                    lemma_none_found(self.jobs@, has_id(id));
                }
            },
        }
    }

    /// The id of the request in flight, if any.
    pub fn pending_request(&self) -> (r: Option<u64>)
        ensures
            r == match self.pending {
                Some((id, _)) => Some(id),
                None => None,
            },
    {
        match &self.pending {
            Some((id, _)) => Some(*id),
            None => None,
        }
    }

    /// Takes in the result of request `request_id` for dataset `dataset`. Results
    /// of other requests change nothing. A failure is kept for a retry. A list
    /// of jobs replaces the known jobs with those of the dataset, newest first: on
    /// the first load the newest is selected, later a selection that is gone is
    /// dropped. A job of the dataset replaces the known job with its id, or is
    /// listed first; a preflight selects it. A download link is handed back to
    /// be opened.
    pub fn accept_result(&mut self, request_id: u64, result: Result<ExportReply, String>, dataset: DatasetId) -> (open: Option<String>)
        ensures
            match old(self).pending {
                Some((id, action)) if id == request_id => {
                    &&& final(self).pending is None
                    &&& final(self).last_poll == old(self).last_poll
                    &&& match result {
                        Err(e) => {
                            &&& open is None
                            &&& final(self).retry == Some(retry_for(action))
                            &&& final(self).error == Some(e)
                            &&& final(self).notice is None
                            &&& final(self).options == old(self).options
                            &&& final(self).capabilities == old(self).capabilities
                            &&& final(self).jobs == old(self).jobs
                            &&& final(self).loaded == old(self).loaded
                            &&& final(self).selected == old(self).selected
                            &&& final(self).reviewed == old(self).reviewed
                        },
                        Ok(reply) => {
                            &&& final(self).retry is None
                            &&& final(self).error is None
                            &&& match reply {
                                ExportReply::Loaded { capabilities, jobs } => {
                                    &&& open is None
                                    &&& final(self).capabilities == Some(capabilities)
                                    &&& final(self).loaded
                                    &&& newest_first(final(self).jobs@)
                                    &&& final(self).jobs@.to_multiset() == for_dataset(jobs@, dataset).to_multiset()
                                    &&& forall|key: (Timestamp, JobId)| #[trigger] with_key(final(self).jobs@, key) == with_key(for_dataset(jobs@, dataset), key)
                                    &&& if !old(self).loaded && final(self).jobs@.len() > 0 {
                                        &&& final(self).options.same_as(final(self).jobs@[0].options)
                                        &&& final(self).selected == Some(final(self).jobs@[0].job_id)
                                        &&& !final(self).reviewed
                                        &&& final(self).notice is None
                                    } else if !old(self).loaded || (old(self).selected matches Some(id)
                                        && first_where(final(self).jobs@, has_id(id)) is Some) {
                                        &&& final(self).options == old(self).options
                                        &&& final(self).selected == old(self).selected
                                        &&& final(self).reviewed == old(self).reviewed
                                        &&& final(self).notice == old(self).notice
                                    } else {
                                        &&& final(self).options == old(self).options
                                        &&& final(self).selected is None
                                        &&& !final(self).reviewed
                                        &&& final(self).notice == old(self).notice
                                    }
                                },
                                ExportReply::Job(job) => {
                                    &&& open is None
                                    &&& final(self).options == old(self).options
                                    &&& final(self).capabilities == old(self).capabilities
                                    &&& final(self).loaded == old(self).loaded
                                    &&& final(self).notice == old(self).notice
                                    &&& if job.dataset_id != dataset {
                                        &&& final(self).jobs == old(self).jobs
                                        &&& final(self).selected == old(self).selected
                                        &&& final(self).reviewed == old(self).reviewed
                                    } else {
                                        &&& if action is Preflight {
                                            final(self).selected == Some(job.job_id) && !final(self).reviewed
                                        } else {
                                            final(self).selected == old(self).selected && final(self).reviewed
                                                == old(self).reviewed
                                        }
                                        &&& if exists|i: int| #[trigger] is_first(old(self).jobs@, has_id(job.job_id), i) {
                                            final(self).jobs@ == old(self).jobs@.update(
                                                choose|i: int| #[trigger] is_first(old(self).jobs@, has_id(job.job_id), i),
                                                job,
                                            )
                                        } else {
                                            final(self).jobs@ == old(self).jobs@.insert(0, job)
                                        }
                                    }
                                },
                                ExportReply::Download(url) => {
                                    &&& open == Some(url)
                                    &&& final(self).notice matches Some(n) && n@ == download_notice()
                                    &&& final(self).options == old(self).options
                                    &&& final(self).capabilities == old(self).capabilities
                                    &&& final(self).jobs == old(self).jobs
                                    &&& final(self).loaded == old(self).loaded
                                    &&& final(self).selected == old(self).selected
                                    &&& final(self).reviewed == old(self).reviewed
                                },
                            }
                        },
                    }
                },
                _ => *final(self) == *old(self) && open is None,
            },
    {
        let matches_pending = match &self.pending {
            Some((id, _)) => *id == request_id,
            None => false,
        };
        if !matches_pending {
            return None;
        }
        let reply = match result {
            Err(error) => {
                self.request_failed(error);
                return None;
            },
            Ok(reply) => reply,
        };
        let action = match self.pending.take() {
            Some((_, action)) => action,
            None => {
                return None;
            },
        };
        self.error = None;
        self.retry = None;
        match reply {
            ExportReply::Loaded { capabilities, jobs } => {
                let ordered = order_for_dataset(jobs, dataset);
                let restore = !self.loaded;
                self.capabilities = Some(capabilities);
                self.jobs = ordered;
                self.loaded = true;
                if restore {
                    if self.jobs.len() > 0 {
                        let first = self.jobs[0].job_id;
                        proof {
                            assert(is_first(self.jobs@, has_id(first), 0));
                            lemma_first_found(self.jobs@, has_id(first), 0);
                        }
                        self.select_job(first);
                    }
                } else {
                    let kept = match self.selected {
                        Some(id) => {
                            let found = position_of(&self.jobs, id);
                            proof {
                                match found {
                                    Some(i) => lemma_first_found(self.jobs@, has_id(id), i as int),
                                    None => lemma_none_found(self.jobs@, has_id(id)),
                                }
                            }
                            found.is_some()
                        },
                        None => false,
                    };
                    if !kept {
                        self.selected = None;
                        self.reviewed = false;
                    }
                }
                None
            },
            ExportReply::Job(job) => {
                if job.dataset_id != dataset {
                    return None;
                }
                match action {
                    ExportAction::Preflight(_) => {
                        self.selected = Some(job.job_id);
                        self.reviewed = false;
                    },
                    _ => {},
                }
                match position_of(&self.jobs, job.job_id) {
                    Some(i) => {
                        proof {
                            let f = choose|f: int| #[trigger] is_first(self.jobs@, has_id(job.job_id), f);
                            if f < i {
                                assert(!has_id(job.job_id)(self.jobs@[f]));
                            } else if f > i {
                                assert(!has_id(job.job_id)(self.jobs@[i as int]));
                            }
                        }
                        self.jobs.set(i, job);
                    },
                    None => {
                        proof {
                            if exists|f: int| #[trigger] is_first(self.jobs@, has_id(job.job_id), f) {
                                let f = choose|f: int| #[trigger] is_first(self.jobs@, has_id(job.job_id), f);
                                assert(!has_id(job.job_id)(self.jobs@[f]));
                            }
                        }
                        self.jobs.insert(0, job);
                    },
                }
                None
            },
            ExportReply::Download(url) => {
                self.notice = Some(String::from_str("Download requested. Check your browser's downloads for transfer status."));
                Some(url)
            },
        }
    }
}

/// Why an export leaves an image out.
#[derive(Clone, Copy, Debug, PartialEq, Eq, Structural)]
pub enum ExportOmissionReason {
    Unfinished,
    ExcludedCoverage,
    IncompleteCoverage,
    UnverifiedAnnotations,
    ChangedReviewPolicy,
    UnresolvedMigration,
}

/// The label of omission reason `r`.
pub fn omission_label(r: ExportOmissionReason) -> (l: &'static str)
    ensures
        l@ == match r {
            ExportOmissionReason::Unfinished => "unfinished task"@,
            ExportOmissionReason::ExcludedCoverage => "excluded coverage"@,
            ExportOmissionReason::IncompleteCoverage => "incomplete coverage"@,
            ExportOmissionReason::UnverifiedAnnotations => "unverified annotations"@,
            ExportOmissionReason::ChangedReviewPolicy => "review policy changed"@,
            ExportOmissionReason::UnresolvedMigration => "unresolved migration"@,
        },
{
    match r {
        ExportOmissionReason::Unfinished => "unfinished task",
        ExportOmissionReason::ExcludedCoverage => "excluded coverage",
        ExportOmissionReason::IncompleteCoverage => "incomplete coverage",
        ExportOmissionReason::UnverifiedAnnotations => "unverified annotations",
        ExportOmissionReason::ChangedReviewPolicy => "review policy changed",
        ExportOmissionReason::UnresolvedMigration => "unresolved migration",
    }
}

} // verus!
