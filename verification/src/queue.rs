//! The preload queue of images waiting to be annotated: queued assignments not
//! yet loaded, and prepared (loaded) images, bounded together by a configured size.
use std::collections::VecDeque;

use vstd::prelude::*;

use crate::assignment::{Assignment, AssignmentId, ImageId, TaskId};

verus! {

/// The largest configurable preload queue size.
pub const MAX_PRELOAD_QUEUE_SIZE: usize = 100;

/// Delay before a failed refill may be retried, unless a longer one is requested.
pub const DEFAULT_RETRY_DELAY_MS: u64 = 1000;

/// A point on the monotonic clock, in milliseconds since an arbitrary origin.
pub type Millis = u64;

/// An image of the dataset as the workspace lists it.
#[derive(Clone, Debug)]
pub struct ImageRecord {
    pub image_id: ImageId,
    pub blake3: String,
    pub canonical_path: String,
    pub known_paths: Vec<String>,
    pub duplicate_paths: Vec<String>,
    pub file_name: String,
    pub byte_size: u64,
    pub width: u32,
    pub height: u32,
    pub media_type: String,
}

/// A model suggestion offered for an image.
#[derive(Clone, Copy, Debug, PartialEq, Eq, Structural)]
pub struct PrelabelSuggestion {
    pub suggestion_id: u64,
    pub task_id: TaskId,
    pub class_id: u64,
}

/// An image waiting in the queue, with its suggestions.
#[derive(Clone, Debug)]
pub struct QueuedImage {
    pub image: ImageRecord,
    pub prelabels: Vec<PrelabelSuggestion>,
}

/// An image whose assignment is held and whose pixels are loaded.
#[derive(Clone, Debug)]
pub struct LoadedImage {
    pub assignment: Assignment,
    pub queued: QueuedImage,
    /// Until when the server holds the prepared assignment.
    pub prepared_until: Option<Millis>,
}

/// `x` clamped into `1..=MAX_PRELOAD_QUEUE_SIZE`.
pub open spec fn clamp_size(x: usize) -> usize {
    if x < 1 {
        1
    } else if x > MAX_PRELOAD_QUEUE_SIZE {
        MAX_PRELOAD_QUEUE_SIZE
    } else {
        x
    }
}

/// The assignments of `s`, in order.
pub open spec fn assignments_of(s: Seq<LoadedImage>) -> Seq<Assignment> {
    s.map_values(|l: LoadedImage| l.assignment)
}

/// The smallest deadline among the prepared images, if any has one.
pub open spec fn earliest_deadline(s: Seq<LoadedImage>, d: Option<Millis>) -> bool {
    match d {
        None => forall|i: int| 0 <= i < s.len() ==> (#[trigger] s[i]).prepared_until is None,
        Some(m) => (exists|i: int| 0 <= i < s.len() && s[i].prepared_until == Some(m)) && forall|
            i: int,
        |
            0 <= i < s.len() && (#[trigger] s[i]).prepared_until is Some ==> m
                <= s[i].prepared_until->0,
    }
}

/// The preload queue.
pub struct ImageQueue {
    queue_size: usize,
    loading: bool,
    failed_at: Option<Millis>,
    retry_delay: u64,
    items: VecDeque<QueuedImage>,
    prepared: VecDeque<LoadedImage>,
}

impl ImageQueue {
    /// The configured size, clamped.
    pub closed spec fn size(self) -> usize {
        self.queue_size
    }

    /// Queued images not yet loaded, oldest first.
    pub closed spec fn items(self) -> Seq<QueuedImage> {
        self.items@
    }

    /// Prepared images, oldest first.
    pub closed spec fn prepared(self) -> Seq<LoadedImage> {
        self.prepared@
    }

    /// Whether a refill is in flight.
    pub closed spec fn loading_flag(self) -> bool {
        self.loading
    }

    /// When the last refill failed, if it did.
    pub closed spec fn failed_at(self) -> Option<Millis> {
        self.failed_at
    }

    /// How long to wait after a failure before retrying.
    pub closed spec fn retry_delay(self) -> u64 {
        self.retry_delay
    }

    /// Size, refill flag and failure state.
    closed spec fn settings(self) -> (usize, bool, Option<Millis>, u64) {
        (self.queue_size, self.loading, self.failed_at, self.retry_delay)
    }

    /// The size is within bounds and the queue never holds more than its size.
    pub closed spec fn wf(self) -> bool {
        &&& 1 <= self.queue_size <= MAX_PRELOAD_QUEUE_SIZE
        &&& self.items@.len() + self.prepared@.len() <= self.queue_size
    }

    /// Queued and prepared images together.
    pub open spec fn count(self) -> nat {
        self.items().len() + self.prepared().len()
    }

    /// An empty queue of the given size, clamped into `1..=MAX_PRELOAD_QUEUE_SIZE`.
    pub fn new(queue_size: usize) -> (q: ImageQueue)
        ensures
            q.wf(),
            q.size() == clamp_size(queue_size),
            q.items().len() == 0,
            q.prepared().len() == 0,
            !q.loading_flag(),
            q.failed_at() is None,
            q.retry_delay() == DEFAULT_RETRY_DELAY_MS,
    {
        ImageQueue {
            queue_size: clamp(queue_size),
            loading: false,
            failed_at: None,
            retry_delay: DEFAULT_RETRY_DELAY_MS,
            items: VecDeque::new(),
            prepared: VecDeque::new(),
        }
    }

    /// The configured size.
    pub fn queue_size(&self) -> (n: usize)
        ensures
            n == self.size(),
    {
        self.queue_size
    }

    /// Changes the size. When the queue is now too long, prepared images are
    /// released newest first (their assignments are returned, newest first)
    /// before queued images are dropped, newest first.
    pub fn set_queue_size(&mut self, queue_size: usize) -> (released: Vec<Assignment>)
        requires
            old(self).wf(),
        ensures
            final(self).wf(),
            final(self).size() == clamp_size(queue_size),
            ({
                let excess: int = if old(self).count() > clamp_size(queue_size) {
                    old(self).count() - clamp_size(queue_size)
                } else {
                    0
                };
                let p: int = old(self).prepared().len() as int;
                let r: int = if excess < p {
                    excess
                } else {
                    p
                };
                &&& final(self).prepared() == old(self).prepared().take(p - r)
                &&& final(self).items() == old(self).items().take(old(self).items().len() - (excess
                    - r))
                &&& released@ == assignments_of(old(self).prepared().skip(p - r)).reverse()
            }),
            final(self).loading_flag() == old(self).loading_flag(),
            final(self).failed_at() == old(self).failed_at(),
            final(self).retry_delay() == old(self).retry_delay(),
    {
        let size = clamp(queue_size);
        let ghost p0 = self.prepared@;
        let ghost i0 = self.items@;
        let ghost p = p0.len();
        let ghost st = self.settings();
        let mut released: Vec<Assignment> = Vec::new();
        let mut count = self.items.len() + self.prepared.len();
        let ghost c0 = count as int;
        while count > size && self.prepared.len() > 0
            invariant
                count == self.items@.len() + self.prepared@.len(),
                c0 == i0.len() + p0.len(),
                count + (p - self.prepared@.len()) == c0,
                self.prepared@.len() == p || count >= size,
                self.prepared@ == p0.take(self.prepared@.len() as int),
                self.items@ == i0,
                self.prepared@.len() <= p,
                p == p0.len(),
                released@ == assignments_of(p0.skip(self.prepared@.len() as int)).reverse(),
                self.settings() == st,
            decreases self.prepared@.len(),
        {
            let ghost n = self.prepared@.len();
            let loaded = self.prepared.pop_back().unwrap();
            released.push(loaded.assignment);
            count = count - 1;
            proof {
                assert(self.prepared@ =~= p0.take(n - 1));
                assert(p0.take(n as int)[n - 1] == loaded);
                assert(p0[n - 1] == loaded);
                assert(p0.skip(n - 1) =~= seq![p0[n - 1]] + p0.skip(n as int));
                assert(assignments_of(p0.skip(n - 1)) =~= seq![loaded.assignment] + assignments_of(
                    p0.skip(n as int),
                ));
                assert(assignments_of(p0.skip(n - 1)).reverse() =~= assignments_of(
                    p0.skip(n as int),
                ).reverse().push(loaded.assignment));
            }
        }
        let ghost p_mid = self.prepared@;
        let ghost r = p - p_mid.len();
        let ghost excess: int = if c0 > size { c0 - size } else { 0 };
        assert(r == if excess < p { excess } else { p as int });
        while count > size
            invariant
                count == self.items@.len() + self.prepared@.len(),
                self.items@ == i0.take(self.items@.len() as int),
                self.items@.len() <= i0.len(),
                count + r + (i0.len() - self.items@.len()) == c0,
                self.items@.len() == i0.len() || count >= size,
                self.prepared@ == p_mid,
                p_mid.len() == 0 || count <= size,
                self.settings() == st,
            decreases self.items@.len(),
        {
            let ghost n = self.items@.len();
            self.items.pop_back();
            count = count - 1;
            proof {
                assert(self.items@ =~= i0.take(n - 1));
            }
        }
        assert(self.items@.len() == i0.len() - (excess - r));
        self.queue_size = size;
        proof {
            assert(p0.take(p as int) =~= p0);
            assert(i0.take(i0.len() as int) =~= i0);
        }
        released
    }

    /// Keeps the prepared images that `keep` accepts, in order, and returns
    /// the assignments of the others, in order.
    pub fn retain_prepared<F: Fn(&LoadedImage) -> bool>(&mut self, keep: F) -> (released: Vec<
        Assignment,
    >)
        requires
            old(self).wf(),
            forall|l: &LoadedImage| #[trigger] keep.requires((l,)),
        ensures
            final(self).wf(),
            final(self).size() == old(self).size(),
            final(self).items() == old(self).items(),
            final(self).loading_flag() == old(self).loading_flag(),
            final(self).failed_at() == old(self).failed_at(),
            final(self).retry_delay() == old(self).retry_delay(),
            exists|d: Seq<bool>|
                #![trigger d.len()]
                d.len() == old(self).prepared().len() && (forall|i: int|
                    0 <= i < d.len() ==> keep.ensures((&old(self).prepared()[i],), d[i]))
                    && final(self).prepared() == kept(old(self).prepared(), d) && released@
                    == assignments_of(kept(old(self).prepared(), negate(d))),
    {
        let ghost p0 = self.prepared@;
        let ghost items0 = self.items@;
        let ghost size0 = self.queue_size;
        let ghost st0 = self.settings();
        let n = self.prepared.len();
        let mut kept_items: VecDeque<LoadedImage> = VecDeque::new();
        let mut released: Vec<Assignment> = Vec::new();
        let ghost mut d: Seq<bool> = Seq::empty();
        let mut i: usize = 0;
        while i < n
            invariant
                n == p0.len(),
                i <= n,
                self.prepared@ == p0.skip(i as int),
                d.len() == i,
                forall|j: int| 0 <= j < i ==> keep.ensures((&p0[j],), d[j]),
                forall|l: &LoadedImage| #[trigger] keep.requires((l,)),
                kept_items@ == kept(p0.take(i as int), d),
                released@ == assignments_of(kept(p0.take(i as int), negate(d))),
                kept_items@.len() <= i,
                self.items@ == items0,
                self.queue_size == size0,
                self.settings() == st0,
                items0.len() + n <= size0,
            decreases n - i,
        {
            let loaded = self.prepared.pop_front().unwrap();
            proof {
                assert(loaded == p0[i as int]);
                assert(self.prepared@ =~= p0.skip(i + 1));
                assert(p0.take(i + 1) =~= p0.take(i as int).push(loaded));
            }
            let decision = keep(&loaded);
            proof {
                lemma_kept_push(p0.take(i as int), d, loaded, decision);
                lemma_kept_push(p0.take(i as int), negate(d), loaded, !decision);
                assert(negate(d.push(decision)) =~= negate(d).push(!decision));
                d = d.push(decision);
            }
            if decision {
                kept_items.push_back(loaded);
            } else {
                released.push(loaded.assignment);
                proof {
                    assert(assignments_of(kept(p0.take(i as int), negate(d.drop_last())).push(loaded))
                        =~= assignments_of(kept(p0.take(i as int), negate(d.drop_last()))).push(
                        loaded.assignment,
                    ));
                    assert(d.drop_last() =~= d.take(i as int));
                }
            }
            proof {
                assert(d.drop_last() =~= d.take(i as int));
            }
            i = i + 1;
        }
        proof {
            assert(p0.take(n as int) =~= p0);
        }
        self.prepared = kept_items;
        released
    }

    /// The assignment ids of the prepared images, in order.
    pub fn prepared_assignment_ids(&self) -> (ids: Vec<AssignmentId>)
        ensures
            ids@ == self.prepared().map_values(|l: LoadedImage| l.assignment.assignment_id),
    {
        let mut ids: Vec<AssignmentId> = Vec::new();
        let mut i: usize = 0;
        while i < self.prepared.len()
            invariant
                i <= self.prepared@.len(),
                ids@ == self.prepared@.take(i as int).map_values(
                    |l: LoadedImage| l.assignment.assignment_id,
                ),
            decreases self.prepared@.len() - i,
        {
            ids.push(self.prepared[i].assignment.assignment_id);
            i = i + 1;
            assert(ids@ =~= self.prepared@.take(i as int).map_values(
                |l: LoadedImage| l.assignment.assignment_id,
            ));
        }
        assert(self.prepared@.take(i as int) =~= self.prepared@);
        ids
    }

    /// The image ids of the prepared images, in order.
    pub fn prepared_image_ids(&self) -> (ids: Vec<ImageId>)
        ensures
            ids@ == self.prepared().map_values(|l: LoadedImage| l.assignment.image_id),
    {
        let mut ids: Vec<ImageId> = Vec::new();
        let mut i: usize = 0;
        while i < self.prepared.len()
            invariant
                i <= self.prepared@.len(),
                ids@ == self.prepared@.take(i as int).map_values(
                    |l: LoadedImage| l.assignment.image_id,
                ),
            decreases self.prepared@.len() - i,
        {
            ids.push(self.prepared[i].assignment.image_id);
            i = i + 1;
            assert(ids@ =~= self.prepared@.take(i as int).map_values(
                |l: LoadedImage| l.assignment.image_id,
            ));
        }
        assert(self.prepared@.take(i as int) =~= self.prepared@);
        ids
    }

    /// How long until the earliest prepared deadline passes, seen at `now`
    /// (zero once it has passed); `None` when no prepared image has a deadline.
    pub fn next_expiry(&self, now: Millis) -> (r: Option<u64>)
        ensures
            exists|d: Option<Millis>|
                earliest_deadline(self.prepared(), d) && r == match d {
                    None => None::<u64>,
                    Some(m) => Some(if m > now {
                        (m - now) as u64
                    } else {
                        0u64
                    }),
                },
    {
        let mut best: Option<Millis> = None;
        let mut i: usize = 0;
        while i < self.prepared.len()
            invariant
                i <= self.prepared@.len(),
                earliest_deadline(self.prepared@.take(i as int), best),
            decreases self.prepared@.len() - i,
        {
            let ghost s0 = self.prepared@.take(i as int);
            let ghost s1 = self.prepared@.take(i + 1);
            let ghost b0 = best;
            proof {
                assert(s1 =~= s0.push(self.prepared@[i as int]));
                assert(forall|j: int| 0 <= j < i ==> s1[j] == s0[j]);
            }
            match self.prepared[i].prepared_until {
                Some(m) => {
                    match best {
                        None => {
                            best = Some(m);
                        },
                        Some(b) => {
                            if m < b {
                                best = Some(m);
                            }
                        },
                    }
                },
                None => {},
            }
            proof {
                let here = s1[i as int].prepared_until;
                match best {
                    None => {
                        assert forall|j: int| 0 <= j < s1.len() implies (#[trigger] s1[j]).prepared_until is None by {
                            if j < i {
                                assert(s0[j].prepared_until is None);
                            }
                        }
                    },
                    Some(bb) => {
                        if b0 == best {
                            let w = choose|w: int| 0 <= w < s0.len() && s0[w].prepared_until == Some(bb);
                            assert(s1[w].prepared_until == Some(bb));
                        } else {
                            assert(s1[i as int].prepared_until == Some(bb));
                        }
                        assert forall|j: int| 0 <= j < s1.len() && (#[trigger] s1[j]).prepared_until is Some implies bb <= s1[j].prepared_until->0 by {
                            if j < i {
                                assert(s0[j] == s1[j]);
                            }
                        }
                    },
                }
            }
            i = i + 1;
        }
        proof {
            assert(self.prepared@.take(i as int) =~= self.prepared@);
            assert(earliest_deadline(self.prepared(), best));
        }
        match best {
            None => None,
            Some(m) => Some(m.saturating_sub(now)),
        }
    }

    /// Whether a refill is in flight.
    pub fn is_loading(&self) -> (r: bool)
        ensures
            r == self.loading_flag(),
    {
        self.loading
    }

    /// Marks whether a refill is in flight.
    pub fn set_loading(&mut self, loading: bool)
        requires
            old(self).wf(),
        ensures
            final(self).wf(),
            final(self).loading_flag() == loading,
            final(self).size() == old(self).size(),
            final(self).items() == old(self).items(),
            final(self).prepared() == old(self).prepared(),
            final(self).failed_at() == old(self).failed_at(),
            final(self).retry_delay() == old(self).retry_delay(),
    {
        self.loading = loading;
    }

    /// Records a failed refill at `now`, retried after the default delay.
    pub fn mark_failed(&mut self, now: Millis)
        requires
            old(self).wf(),
        ensures
            final(self).wf(),
            final(self).failed_at() == Some(now),
            final(self).retry_delay() == DEFAULT_RETRY_DELAY_MS,
            final(self).size() == old(self).size(),
            final(self).items() == old(self).items(),
            final(self).prepared() == old(self).prepared(),
            final(self).loading_flag() == old(self).loading_flag(),
    {
        self.mark_failed_after(now, DEFAULT_RETRY_DELAY_MS);
    }

    /// Records a failed refill at `now`, retried after `delay` milliseconds.
    pub fn mark_failed_after(&mut self, now: Millis, delay: u64)
        requires
            old(self).wf(),
        ensures
            final(self).wf(),
            final(self).failed_at() == Some(now),
            final(self).retry_delay() == delay,
            final(self).size() == old(self).size(),
            final(self).items() == old(self).items(),
            final(self).prepared() == old(self).prepared(),
            final(self).loading_flag() == old(self).loading_flag(),
    {
        self.failed_at = Some(now);
        self.retry_delay = delay;
    }

    /// Forgets a failure.
    pub fn clear_failure(&mut self)
        requires
            old(self).wf(),
        ensures
            final(self).wf(),
            final(self).failed_at() is None,
            final(self).retry_delay() == DEFAULT_RETRY_DELAY_MS,
            final(self).size() == old(self).size(),
            final(self).items() == old(self).items(),
            final(self).prepared() == old(self).prepared(),
            final(self).loading_flag() == old(self).loading_flag(),
    {
        self.failed_at = None;
        self.retry_delay = DEFAULT_RETRY_DELAY_MS;
    }

    /// Whether a failed refill may be retried at `now`: its delay has elapsed.
    pub fn retry_due(&self, now: Millis) -> (r: bool)
        ensures
            r == match self.failed_at() {
                None => false,
                Some(f) => (if now > f {
                    now - f
                } else {
                    0
                }) >= self.retry_delay(),
            },
    {
        match self.failed_at {
            None => false,
            Some(failed) => now.saturating_sub(failed) >= self.retry_delay,
        }
    }

    /// How long after `now` a failed refill may be retried (zero once due).
    pub fn retry_after(&self, now: Millis) -> (r: Option<u64>)
        ensures
            r == match self.failed_at() {
                None => None::<u64>,
                Some(f) => {
                    let elapsed = if now > f {
                        now - f
                    } else {
                        0
                    };
                    Some(
                        if self.retry_delay() > elapsed {
                            (self.retry_delay() - elapsed) as u64
                        } else {
                            0u64
                        },
                    )
                },
            },
    {
        match self.failed_at {
            None => None,
            Some(failed) => Some(self.retry_delay.saturating_sub(now.saturating_sub(failed))),
        }
    }

    /// Whether the last refill failed.
    pub fn failed(&self) -> (r: bool)
        ensures
            r == self.failed_at() is Some,
    {
        self.failed_at.is_some()
    }

    /// Queued and prepared images together.
    pub fn len(&self) -> (n: usize)
        requires
            self.wf(),
        ensures
            n == self.count(),
    {
        self.items.len() + self.prepared.len()
    }

    /// Whether nothing is queued or prepared.
    pub fn is_empty(&self) -> (r: bool)
        ensures
            r == (self.count() == 0),
    {
        self.items.len() == 0 && self.prepared.len() == 0
    }

    /// Queues `image` when there is room.
    pub fn push_if_room(&mut self, image: QueuedImage) -> (pushed: bool)
        requires
            old(self).wf(),
        ensures
            final(self).wf(),
            pushed == (old(self).count() < old(self).size()),
            final(self).items() == if pushed {
                old(self).items().push(image)
            } else {
                old(self).items()
            },
            final(self).prepared() == old(self).prepared(),
            final(self).size() == old(self).size(),
            final(self).loading_flag() == old(self).loading_flag(),
            final(self).failed_at() == old(self).failed_at(),
            final(self).retry_delay() == old(self).retry_delay(),
    {
        if self.items.len() + self.prepared.len() < self.queue_size {
            self.items.push_back(image);
            true
        } else {
            false
        }
    }

    /// Takes the oldest queued image.
    pub fn pop_next(&mut self) -> (r: Option<QueuedImage>)
        requires
            old(self).wf(),
        ensures
            final(self).wf(),
            match r {
                Some(x) => old(self).items().len() > 0 && x == old(self).items()[0]
                    && final(self).items() == old(self).items().skip(1),
                None => old(self).items().len() == 0 && final(self).items() == old(self).items(),
            },
            final(self).prepared() == old(self).prepared(),
            final(self).size() == old(self).size(),
            final(self).loading_flag() == old(self).loading_flag(),
            final(self).failed_at() == old(self).failed_at(),
            final(self).retry_delay() == old(self).retry_delay(),
    {
        let r = self.items.pop_front();
        proof {
            if r is Some {
                assert(self.items@ =~= old(self).items@.skip(1));
            }
        }
        r
    }

    /// Adds a prepared image when there is room.
    pub fn push_prepared(&mut self, image: LoadedImage) -> (pushed: bool)
        requires
            old(self).wf(),
        ensures
            final(self).wf(),
            pushed == (old(self).count() < old(self).size()),
            final(self).prepared() == if pushed {
                old(self).prepared().push(image)
            } else {
                old(self).prepared()
            },
            final(self).items() == old(self).items(),
            final(self).size() == old(self).size(),
            final(self).loading_flag() == old(self).loading_flag(),
            final(self).failed_at() == old(self).failed_at(),
            final(self).retry_delay() == old(self).retry_delay(),
    {
        if self.items.len() + self.prepared.len() < self.queue_size {
            self.prepared.push_back(image);
            true
        } else {
            false
        }
    }

    /// Takes the oldest prepared image.
    pub fn pop_prepared(&mut self) -> (r: Option<LoadedImage>)
        requires
            old(self).wf(),
        ensures
            final(self).wf(),
            match r {
                Some(x) => old(self).prepared().len() > 0 && x == old(self).prepared()[0]
                    && final(self).prepared() == old(self).prepared().skip(1),
                None => old(self).prepared().len() == 0 && final(self).prepared() == old(
                    self,
                ).prepared(),
            },
            final(self).items() == old(self).items(),
            final(self).size() == old(self).size(),
            final(self).loading_flag() == old(self).loading_flag(),
            final(self).failed_at() == old(self).failed_at(),
            final(self).retry_delay() == old(self).retry_delay(),
    {
        let r = self.prepared.pop_front();
        proof {
            if r is Some {
                assert(self.prepared@ =~= old(self).prepared@.skip(1));
            }
        }
        r
    }

    /// Whether a prepared image holds `assignment` (same assignment and image).
    pub fn contains_assignment(&self, assignment: &Assignment) -> (r: bool)
        ensures
            r == exists|i: int|
                0 <= i < self.prepared().len() && (#[trigger] self.prepared()[i]).assignment.assignment_id
                    == assignment.assignment_id && self.prepared()[i].assignment.image_id
                    == assignment.image_id,
    {
        let mut i: usize = 0;
        while i < self.prepared.len()
            invariant
                i <= self.prepared@.len(),
                forall|j: int|
                    0 <= j < i ==> !((#[trigger] self.prepared@[j]).assignment.assignment_id
                        == assignment.assignment_id && self.prepared@[j].assignment.image_id
                        == assignment.image_id),
            decreases self.prepared@.len() - i,
        {
            if self.prepared[i].assignment.assignment_id == assignment.assignment_id
                && self.prepared[i].assignment.image_id == assignment.image_id {
                return true;
            }
            i = i + 1;
        }
        false
    }

    /// Removes and returns the first prepared image of `image_id`.
    pub fn remove_prepared_image(&mut self, image_id: ImageId) -> (r: Option<LoadedImage>)
        requires
            old(self).wf(),
        ensures
            final(self).wf(),
            match r {
                Some(x) => exists|i: int|
                    0 <= i < old(self).prepared().len() && old(self).prepared()[i] == x
                        && x.assignment.image_id == image_id && (forall|j: int|
                        0 <= j < i ==> (#[trigger] old(self).prepared()[j]).assignment.image_id
                            != image_id) && final(self).prepared() == old(self).prepared().remove(
                        i,
                    ),
                None => (forall|j: int|
                    0 <= j < old(self).prepared().len() ==> (#[trigger] old(
                        self,
                    ).prepared()[j]).assignment.image_id != image_id) && final(self).prepared()
                    == old(self).prepared(),
            },
            final(self).items() == old(self).items(),
            final(self).size() == old(self).size(),
            final(self).loading_flag() == old(self).loading_flag(),
            final(self).failed_at() == old(self).failed_at(),
            final(self).retry_delay() == old(self).retry_delay(),
    {
        let mut i: usize = 0;
        while i < self.prepared.len() && self.prepared[i].assignment.image_id != image_id
            invariant
                i <= self.prepared@.len(),
                forall|j: int|
                    0 <= j < i ==> (#[trigger] self.prepared@[j]).assignment.image_id != image_id,
            decreases self.prepared@.len() - i,
        {
            i = i + 1;
        }
        if i < self.prepared.len() {
            let r = self.prepared.remove(i);
            assert(old(self).prepared()[i as int] == r->0);
            r
        } else {
            None
        }
    }

    /// Releases every prepared image, returning their assignments in order.
    pub fn drain_prepared_assignments(&mut self) -> (released: Vec<Assignment>)
        requires
            old(self).wf(),
        ensures
            final(self).wf(),
            released@ == assignments_of(old(self).prepared()),
            final(self).prepared().len() == 0,
            final(self).items() == old(self).items(),
            final(self).size() == old(self).size(),
            final(self).loading_flag() == old(self).loading_flag(),
            final(self).failed_at() == old(self).failed_at(),
            final(self).retry_delay() == old(self).retry_delay(),
    {
        let ghost p0 = self.prepared@;
        let ghost i0 = self.items@;
        let ghost st = self.settings();
        let mut released: Vec<Assignment> = Vec::new();
        while self.prepared.len() > 0
            invariant
                released@ + assignments_of(self.prepared@) == assignments_of(p0),
                self.items@ == i0,
                self.settings() == st,
                self.items@.len() + self.prepared@.len() <= self.queue_size,
            decreases self.prepared@.len(),
        {
            let ghost rest = self.prepared@;
            let loaded = self.prepared.pop_front().unwrap();
            released.push(loaded.assignment);
            proof {
                assert(assignments_of(rest) =~= seq![loaded.assignment] + assignments_of(
                    self.prepared@,
                ));
                assert(released@ + assignments_of(self.prepared@) =~= assignments_of(p0));
            }
        }
        assert(released@ =~= assignments_of(p0));
        released
    }

    /// Empties the queue and forgets any failure.
    pub fn clear(&mut self)
        requires
            old(self).wf(),
        ensures
            final(self).wf(),
            final(self).items().len() == 0,
            final(self).prepared().len() == 0,
            final(self).failed_at() is None,
            final(self).retry_delay() == DEFAULT_RETRY_DELAY_MS,
            final(self).size() == old(self).size(),
            final(self).loading_flag() == old(self).loading_flag(),
    {
        self.items.clear();
        self.prepared.clear();
        self.failed_at = None;
        self.retry_delay = DEFAULT_RETRY_DELAY_MS;
    }
}

/// The elements of `s` whose decision in `d` is `true`, in order.
pub open spec fn kept<T>(s: Seq<T>, d: Seq<bool>) -> Seq<T>
    decreases s.len(),
{
    if s.len() == 0 || d.len() < s.len() {
        Seq::empty()
    } else {
        let rest = kept(s.drop_last(), d.take(s.len() - 1));
        if d[s.len() - 1] {
            rest.push(s.last())
        } else {
            rest
        }
    }
}

/// Every decision of `d` reversed.
pub open spec fn negate(d: Seq<bool>) -> Seq<bool> {
    d.map_values(|b: bool| !b)
}

proof fn lemma_kept_push<T>(s: Seq<T>, d: Seq<bool>, x: T, b: bool)
    requires
        d.len() == s.len(),
    ensures
        kept(s.push(x), d.push(b)) == if b {
            kept(s, d).push(x)
        } else {
            kept(s, d)
        },
{
    assert(s.push(x).drop_last() =~= s);
    assert(d.push(b).take(s.len() as int) =~= d);
}

fn clamp(x: usize) -> (r: usize)
    ensures
        r == clamp_size(x),
{
    if x < 1 {
        1
    } else if x > MAX_PRELOAD_QUEUE_SIZE {
        MAX_PRELOAD_QUEUE_SIZE
    } else {
        x
    }
}

} // verus!
