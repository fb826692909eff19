//! Review history derived from committed per-image state: for every user and
//! task, which images carry the most recently finished review assignments.
use vstd::prelude::*;

use crate::assignment::{Assignment, AssignmentId, ImageId, TaskId, Timestamp, UserId};

verus! {

/// A user and a task.
pub type Key = (UserId, TaskId);

/// When and as which assignment a review was finished.
pub type Finish = (Timestamp, AssignmentId);

/// A finished review as the history orders it: time, image, assignment.
pub type Entry = (Timestamp, ImageId, AssignmentId);

/// Lexicographic `<` on finishes.
pub open spec fn finish_lt(a: Finish, b: Finish) -> bool {
    a.0 < b.0 || (a.0 == b.0 && a.1 < b.1)
}

/// Lexicographic `<` on entries.
pub open spec fn entry_lt(a: Entry, b: Entry) -> bool {
    a.0 < b.0 || (a.0 == b.0 && (a.1 < b.1 || (a.1 == b.1 && a.2 < b.2)))
}

/// Lexicographic `<=` on entries.
pub open spec fn entry_le(a: Entry, b: Entry) -> bool {
    a == b || entry_lt(a, b)
}

/// No key occurs twice.
pub open spec fn keys_unique(s: Seq<(Key, Finish)>) -> bool {
    forall|i: int, j: int| 0 <= i < s.len() && 0 <= j < s.len() && i != j ==> s[i].0 != s[j].0
}

/// `f` is the latest finish of a finished review for `k` among `s`.
pub open spec fn latest_finish(s: Seq<Assignment>, k: Key, f: Finish) -> bool {
    &&& exists|i: int| 0 <= i < s.len() && s[i].finished_review() && s[i].key() == k && s[i].finish() == f
    &&& forall|i: int|
        0 <= i < s.len() && s[i].finished_review() && s[i].key() == k ==> !finish_lt(
            f,
            #[trigger] s[i].finish(),
        )
}

fn finish_greater(a: Finish, b: Finish) -> (r: bool)
    ensures
        r == finish_lt(b, a),
{
    a.0 > b.0 || (a.0 == b.0 && a.1 > b.1)
}

fn entry_greater(a: Entry, b: Entry) -> (r: bool)
    ensures
        r == entry_lt(b, a),
{
    a.0 > b.0 || (a.0 == b.0 && (a.1 > b.1 || (a.1 == b.1 && a.2 > b.2)))
}

fn find_key(v: &Vec<(Key, Finish)>, k: Key) -> (r: Option<usize>)
    ensures
        match r {
            Some(p) => p < v@.len() && v@[p as int].0 == k,
            None => forall|j: int| 0 <= j < v@.len() ==> v@[j].0 != k,
        },
{
    let mut j: usize = 0;
    while j < v.len()
        invariant
            j <= v@.len(),
            forall|i: int| 0 <= i < j ==> v@[i].0 != k,
        decreases v@.len() - j,
    {
        if v[j].0.0 == k.0 && v[j].0.1 == k.1 {
            return Some(j);
        }
        j = j + 1;
    }
    None
}

/// What one image's state says about finished reviews, at one event sequence.
pub struct Observation {
    pub sequence: u64,
    /// For each user and task, the latest finished review on the image.
    pub finished: Vec<(Key, Finish)>,
}

/// The per-image state that the review history reads.
pub struct ImageState {
    pub image_id: ImageId,
    pub current_sequence: u64,
    pub assignments: Vec<Assignment>,
}

impl Observation {
    /// Each user and task occurs at most once.
    pub open spec fn wf(self) -> bool {
        keys_unique(self.finished@)
    }

    /// Observes an image: for every user and task the latest review assignment
    /// that was completed or cancelled before it expired.
    pub fn from_state(state: &ImageState) -> (o: Observation)
        ensures
            o.wf(),
            o.sequence == state.current_sequence,
            forall|k: Key, f: Finish|
                #[trigger] o.finished@.contains((k, f)) <==> latest_finish(
                    state.assignments@,
                    k,
                    f,
                ),
    {
        let ghost all = state.assignments@;
        let mut finished: Vec<(Key, Finish)> = Vec::new();
        let mut i: usize = 0;
        while i < state.assignments.len()
            invariant
                i <= all.len(),
                all == state.assignments@,
                keys_unique(finished@),
                forall|k: Key, f: Finish|
                    #[trigger] finished@.contains((k, f)) <==> latest_finish(all.take(i as int), k, f),
            decreases all.len() - i,
        {
            let a = state.assignments[i];
            let ghost before = finished@;
            let ghost prefix = all.take(i as int);
            assert(all.take(i + 1) =~= prefix.push(a));
            if a.is_finished_review() {
                let key = (a.assigned_to, a.task_id);
                let value = (a.updated_at, a.assignment_id);
                match find_key(&finished, key) {
                    Some(p) => {
                        let current = finished[p].1;
                        if finish_greater(value, current) {
                            finished.set(p, (key, value));
                        }
                        assert forall|k: Key, f: Finish|
                            #[trigger] finished@.contains((k, f)) <==> latest_finish(
                                all.take(i + 1),
                                k,
                                f,
                            ) by {
                            let s1 = all.take(i + 1);
                            assert(s1[i as int] == a);
                            if k == key {
                                assert(before.contains((key, current)));
                                assert(latest_finish(prefix, key, current));
                                let w = choose|q: int|
                                    0 <= q < prefix.len() && prefix[q].finished_review()
                                        && prefix[q].key() == key && prefix[q].finish() == current;
                                assert(s1[w] == prefix[w]);
                                if finished@.contains((k, f)) {
                                    let q = choose|q: int|
                                        0 <= q < finished@.len() && finished@[q] == (k, f);
                                    assert(q == p);
                                    assert forall|r: int|
                                        0 <= r < s1.len() && s1[r].finished_review() && s1[r].key()
                                            == k implies !finish_lt(f, #[trigger] s1[r].finish()) by {
                                        if r < i {
                                            assert(prefix[r] == s1[r]);
                                        }
                                    }
                                } else {
                                    if latest_finish(s1, k, f) {
                                        let q = choose|q: int|
                                            0 <= q < s1.len() && s1[q].finished_review()
                                                && s1[q].key() == k && s1[q].finish() == f;
                                        assert(!finish_lt(f, s1[w].finish()));
                                        assert(!finish_lt(f, value)) by {
                                            assert(s1[i as int].finish() == value);
                                        }
                                        if q < i {
                                            assert(prefix[q] == s1[q]);
                                            assert(!finish_lt(current, f));
                                        } else {
                                            assert(f == value);
                                        }
                                        assert(finished@[p as int] == (k, f));
                                    }
                                }
                            } else {
                                if finished@.contains((k, f)) {
                                    let q = choose|q: int|
                                        0 <= q < finished@.len() && finished@[q] == (k, f);
                                    assert(before[q] == (k, f));
                                    assert(before.contains((k, f)));
                                    assert(latest_finish(prefix, k, f));
                                    let w2 = choose|r: int|
                                        0 <= r < prefix.len() && prefix[r].finished_review()
                                            && prefix[r].key() == k && prefix[r].finish() == f;
                                    assert(s1[w2] == prefix[w2]);
                                    assert forall|r: int|
                                        0 <= r < s1.len() && s1[r].finished_review() && s1[r].key()
                                            == k implies !finish_lt(f, #[trigger] s1[r].finish()) by {
                                        if r < i {
                                            assert(prefix[r] == s1[r]);
                                        }
                                    }
                                }
                                if latest_finish(s1, k, f) {
                                    let q = choose|q: int|
                                        0 <= q < s1.len() && s1[q].finished_review()
                                            && s1[q].key() == k && s1[q].finish() == f;
                                    assert(q < i);
                                    assert(prefix[q] == s1[q]);
                                    assert forall|r: int|
                                        0 <= r < prefix.len() && prefix[r].finished_review()
                                            && prefix[r].key() == k implies !finish_lt(
                                        f,
                                        #[trigger] prefix[r].finish(),
                                    ) by {
                                        assert(prefix[r] == s1[r]);
                                    }
                                    assert(latest_finish(prefix, k, f));
                                    assert(before.contains((k, f)));
                                    let q2 = choose|q2: int|
                                        0 <= q2 < before.len() && before[q2] == (k, f);
                                    assert(q2 != p);
                                    assert(finished@[q2] == (k, f));
                                }
                            }
                        }
                    },
                    None => {
                        finished.push((key, value));
                        assert forall|k: Key, f: Finish|
                            #[trigger] finished@.contains((k, f)) <==> latest_finish(
                                all.take(i + 1),
                                k,
                                f,
                            ) by {
                            let s1 = all.take(i + 1);
                            assert(s1[i as int] == a);
                            if k == key {
                                assert forall|r: int|
                                    0 <= r < s1.len() && s1[r].finished_review() && s1[r].key()
                                        == k implies r == i by {
                                    if r < i {
                                        assert(prefix[r] == s1[r]);
                                        lemma_latest_exists(prefix, k, r);
                                        let g = choose|g: Finish| latest_finish(prefix, k, g);
                                        assert(before.contains((k, g)));
                                        let q = choose|q: int|
                                            0 <= q < before.len() && before[q] == (k, g);
                                        assert(before[q].0 == k);
                                    }
                                }
                                if finished@.contains((k, f)) {
                                    let q = choose|q: int|
                                        0 <= q < finished@.len() && finished@[q] == (k, f);
                                    assert(q == before.len());
                                    assert(f == value);
                                    assert(s1[i as int].finish() == f);
                                    assert(latest_finish(s1, k, f));
                                }
                                if latest_finish(s1, k, f) {
                                    let q = choose|q: int|
                                        0 <= q < s1.len() && s1[q].finished_review()
                                            && s1[q].key() == k && s1[q].finish() == f;
                                    assert(q == i);
                                    assert(finished@[before.len() as int] == (k, f));
                                }
                            } else {
                                if finished@.contains((k, f)) {
                                    let q = choose|q: int|
                                        0 <= q < finished@.len() && finished@[q] == (k, f);
                                    assert(q < before.len()) by {
                                        if q == before.len() {
                                            assert(finished@[q] == (key, value));
                                        }
                                    }
                                    assert(before[q] == (k, f));
                                    assert(before.contains((k, f)));
                                    assert(latest_finish(prefix, k, f));
                                    let w2 = choose|r: int|
                                        0 <= r < prefix.len() && prefix[r].finished_review()
                                            && prefix[r].key() == k && prefix[r].finish() == f;
                                    assert(s1[w2] == prefix[w2]);
                                    assert forall|r: int|
                                        0 <= r < s1.len() && s1[r].finished_review() && s1[r].key()
                                            == k implies !finish_lt(f, #[trigger] s1[r].finish()) by {
                                        if r < i {
                                            assert(prefix[r] == s1[r]);
                                        }
                                    }
                                }
                                if latest_finish(s1, k, f) {
                                    let q = choose|q: int|
                                        0 <= q < s1.len() && s1[q].finished_review()
                                            && s1[q].key() == k && s1[q].finish() == f;
                                    assert(prefix[q] == s1[q]);
                                    assert forall|r: int|
                                        0 <= r < prefix.len() && prefix[r].finished_review()
                                            && prefix[r].key() == k implies !finish_lt(
                                        f,
                                        #[trigger] prefix[r].finish(),
                                    ) by {
                                        assert(prefix[r] == s1[r]);
                                    }
                                    assert(before.contains((k, f)));
                                    let q2 = choose|q2: int|
                                        0 <= q2 < before.len() && before[q2] == (k, f);
                                    assert(finished@[q2] == (k, f));
                                }
                            }
                        }
                    },
                }
            } else {
                assert forall|k: Key, f: Finish|
                    #[trigger] finished@.contains((k, f)) <==> latest_finish(all.take(i + 1), k, f)
                    by {
                    let s1 = all.take(i + 1);
                    assert(s1[i as int] == a);
                    if latest_finish(prefix, k, f) {
                        let w = choose|r: int|
                            0 <= r < prefix.len() && prefix[r].finished_review() && prefix[r].key()
                                == k && prefix[r].finish() == f;
                        assert(s1[w] == prefix[w]);
                        assert forall|r: int|
                            0 <= r < s1.len() && s1[r].finished_review() && s1[r].key()
                                == k implies !finish_lt(f, #[trigger] s1[r].finish()) by {
                            if r < i {
                                assert(prefix[r] == s1[r]);
                            }
                        }
                    }
                    if latest_finish(s1, k, f) {
                        let q = choose|q: int|
                            0 <= q < s1.len() && s1[q].finished_review() && s1[q].key() == k
                                && s1[q].finish() == f;
                        assert(prefix[q] == s1[q]);
                        assert forall|r: int|
                            0 <= r < prefix.len() && prefix[r].finished_review() && prefix[r].key()
                                == k implies !finish_lt(f, #[trigger] prefix[r].finish()) by {
                            assert(prefix[r] == s1[r]);
                        }
                    }
                }
            }
            i = i + 1;
        }
        assert(all.take(all.len() as int) =~= all);
        Observation { sequence: state.current_sequence, finished }
    }

    /// The latest finished review for a user and task, if the image has one.
    pub fn finished_for(&self, user: UserId, task: TaskId) -> (r: Option<Finish>)
        requires
            self.wf(),
        ensures
            match r {
                Some(f) => self.finished@.contains(((user, task), f)),
                None => forall|f: Finish| !self.finished@.contains(((user, task), f)),
            },
    {
        match find_key(&self.finished, (user, task)) {
            Some(p) => Some(self.finished[p].1),
            None => None,
        }
    }
}

/// Among the finished reviews of `s` for `k`, one has the latest finish: a
/// finished review at index `r` is covered by some latest one.
proof fn lemma_latest_exists(s: Seq<Assignment>, k: Key, r: int)
    requires
        0 <= r < s.len(),
        s[r].finished_review(),
        s[r].key() == k,
    ensures
        exists|f: Finish| latest_finish(s, k, f),
    decreases s.len(),
{
    let n = s.len() - 1;
    let last = s[n];
    let init = s.drop_last();
    if r == n && !(exists|q: int| 0 <= q < n && init[q].finished_review() && init[q].key() == k) {
        assert forall|q: int|
            0 <= q < s.len() && s[q].finished_review() && s[q].key() == k implies !finish_lt(
            last.finish(),
            #[trigger] s[q].finish(),
        ) by {
            if q < n {
                assert(init[q] == s[q]);
            }
        }
        assert(latest_finish(s, k, last.finish()));
    } else {
        let q0 = if r < n {
            r
        } else {
            choose|q: int| 0 <= q < n && init[q].finished_review() && init[q].key() == k
        };
        assert(init[q0] == s[q0]);
        lemma_latest_exists(init, k, q0);
        let g = choose|f: Finish| latest_finish(init, k, f);
        let wg = choose|q: int|
            0 <= q < init.len() && init[q].finished_review() && init[q].key() == k && init[q].finish()
                == g;
        assert(s[wg] == init[wg]);
        if last.finished_review() && last.key() == k && finish_lt(g, last.finish()) {
            assert forall|q: int|
                0 <= q < s.len() && s[q].finished_review() && s[q].key() == k implies !finish_lt(
                last.finish(),
                #[trigger] s[q].finish(),
            ) by {
                if q < n {
                    assert(init[q] == s[q]);
                }
            }
            assert(latest_finish(s, k, last.finish()));
        } else {
            assert forall|q: int|
                0 <= q < s.len() && s[q].finished_review() && s[q].key() == k implies !finish_lt(
                g,
                #[trigger] s[q].finish(),
            ) by {
                if q < n {
                    assert(init[q] == s[q]);
                }
            }
            assert(latest_finish(s, k, g));
        }
    }
}


/// `first` and `second` are the latest and the second latest of `s`.
pub open spec fn ranked_over(s: Seq<Entry>, first: Option<Entry>, second: Option<Entry>) -> bool {
    &&& match first {
        None => s.len() == 0,
        Some(f) => s.contains(f) && forall|x: Entry| #[trigger] s.contains(x) ==> entry_le(x, f),
    }
    &&& match second {
        None => forall|x: Entry| #[trigger] s.contains(x) ==> first == Some(x),
        Some(t) => s.contains(t) && first != Some(t) && forall|x: Entry|
            #[trigger] s.contains(x) && first != Some(x) ==> entry_le(x, t),
    }
}

/// The finished reviews of one user and task across images, with the two
/// latest of them at hand: one of two distinct images is never the one asked about.
pub struct Latest {
    pub entries: Vec<Entry>,
    pub first: Option<Entry>,
    pub second: Option<Entry>,
}

impl Latest {
    /// No entry twice, and `first`/`second` rank the entries.
    pub open spec fn ranked(self) -> bool {
        &&& self.entries@.no_duplicates()
        &&& ranked_over(self.entries@, self.first, self.second)
    }

    /// Recomputes the two latest entries.
    fn refresh(&mut self)
        requires
            old(self).entries@.no_duplicates(),
        ensures
            final(self).entries@ == old(self).entries@,
            final(self).ranked(),
    {
        let mut first: Option<Entry> = None;
        let mut second: Option<Entry> = None;
        let n = self.entries.len();
        let mut i: usize = 0;
        while i < n
            invariant
                n == self.entries@.len(),
                i <= n,
                self.entries@.no_duplicates(),
                ranked_over(self.entries@.take(i as int), first, second),
            decreases n - i,
        {
            let e = self.entries[i];
            let ghost s0 = self.entries@.take(i as int);
            let ghost s1 = self.entries@.take(i + 1);
            assert(s1 =~= s0.push(e));
            assert(!s0.contains(e)) by {
                if s0.contains(e) {
                    let q = choose|q: int| 0 <= q < s0.len() && s0[q] == e;
                    assert(self.entries@[q] == self.entries@[i as int]);
                }
            }
            assert forall|x: Entry| #[trigger] s1.contains(x) implies s0.contains(x) || x == e by {
                let q = choose|q: int| 0 <= q < s1.len() && s1[q] == x;
                if q < i {
                    assert(s0[q] == x);
                }
            }
            assert(s1.contains(e)) by {
                assert(s1[i as int] == e);
            }
            assert forall|x: Entry| #[trigger] s0.contains(x) implies s1.contains(x) by {
                let q = choose|q: int| 0 <= q < s0.len() && s0[q] == x;
                assert(s1[q] == x);
            }
            match first {
                None => {
                    first = Some(e);
                },
                Some(f) => {
                    if entry_greater(e, f) {
                        second = Some(f);
                        first = Some(e);
                    } else {
                        match second {
                            None => {
                                second = Some(e);
                            },
                            Some(t) => {
                                if entry_greater(e, t) {
                                    second = Some(e);
                                }
                            },
                        }
                    }
                },
            }
            i = i + 1;
        }
        assert(self.entries@.take(n as int) =~= self.entries@);
        self.first = first;
        self.second = second;
    }
}

/// An observation as a value: its sequence and its finished reviews.
pub type ObservationView = (u64, Seq<(Key, Finish)>);

/// No image occurs twice.
pub open spec fn images_unique(s: Seq<(ImageId, Observation)>) -> bool {
    forall|i: int, j: int| 0 <= i < s.len() && 0 <= j < s.len() && i != j ==> s[i].0 != s[j].0
}

/// The observations of `s`, by image.
pub open spec fn observed_map(s: Seq<(ImageId, Observation)>) -> Map<ImageId, ObservationView> {
    Map::new(
        |img: ImageId| exists|i: int| 0 <= i < s.len() && s[i].0 == img,
        |img: ImageId|
            {
                let i = choose|i: int| 0 <= i < s.len() && s[i].0 == img;
                (s[i].1.sequence, s[i].1.finished@)
            },
    )
}

/// Image `e.1` observed user and task `k` as finished at `e.0` by assignment `e.2`.
pub open spec fn contributes(m: Map<ImageId, ObservationView>, k: Key, e: Entry) -> bool {
    m.contains_key(e.1) && m[e.1].1.contains((k, (e.0, e.2)))
}

/// Every observation names each user and task at most once.
pub open spec fn views_wf(m: Map<ImageId, ObservationView>) -> bool {
    forall|img: ImageId| #[trigger] m.contains_key(img) ==> keys_unique(m[img].1)
}

/// The index `latest` agrees with the observations `m`: one ranked, non-empty
/// record per user and task that any image observed, holding exactly what
/// the images observed for it.
pub open spec fn latest_ok(latest: Seq<(Key, Latest)>, m: Map<ImageId, ObservationView>) -> bool {
    &&& forall|i: int, j: int|
        0 <= i < latest.len() && 0 <= j < latest.len() && i != j ==> latest[i].0 != latest[j].0
    &&& forall|i: int|
        0 <= i < latest.len() ==> #[trigger] latest[i].1.ranked() && latest[i].1.entries@.len() > 0
    &&& forall|i: int, e: Entry|
        #![trigger latest[i].1.entries@.contains(e)]
        #![trigger contributes(m, latest[i].0, e)]
        0 <= i < latest.len() ==> (latest[i].1.entries@.contains(e) <==> contributes(
            m,
            latest[i].0,
            e,
        ))
    &&& forall|k: Key, e: Entry| #[trigger]
        contributes(m, k, e) ==> exists|i: int| 0 <= i < latest.len() && latest[i].0 == k
}

proof fn lemma_latest_ok_congruent(
    latest: Seq<(Key, Latest)>,
    m1: Map<ImageId, ObservationView>,
    m2: Map<ImageId, ObservationView>,
)
    requires
        latest_ok(latest, m1),
        forall|k: Key, e: Entry| contributes(m1, k, e) == contributes(m2, k, e),
    ensures
        latest_ok(latest, m2),
{
    assert forall|i: int, e: Entry| 0 <= i < latest.len() implies (
    #[trigger] latest[i].1.entries@.contains(e) <==> contributes(m2, latest[i].0, e)) by {
        assert(contributes(m1, latest[i].0, e) == contributes(m2, latest[i].0, e));
    }
    assert forall|k: Key, e: Entry| #[trigger]
        contributes(m2, k, e) implies exists|i: int| 0 <= i < latest.len() && latest[i].0 == k by {
        assert(contributes(m1, k, e));
    }
}

fn find_latest(latest: &Vec<(Key, Latest)>, k: Key) -> (r: Option<usize>)
    ensures
        match r {
            Some(p) => p < latest@.len() && latest@[p as int].0 == k,
            None => forall|j: int| 0 <= j < latest@.len() ==> latest@[j].0 != k,
        },
{
    let mut j: usize = 0;
    while j < latest.len()
        invariant
            j <= latest@.len(),
            forall|i: int| 0 <= i < j ==> latest@[i].0 != k,
        decreases latest@.len() - j,
    {
        if latest[j].0.0 == k.0 && latest[j].0.1 == k.1 {
            return Some(j);
        }
        j = j + 1;
    }
    None
}

fn find_entry(v: &Vec<Entry>, e: Entry) -> (r: Option<usize>)
    ensures
        match r {
            Some(p) => p < v@.len() && v@[p as int] == e,
            None => !v@.contains(e),
        },
{
    let mut j: usize = 0;
    while j < v.len()
        invariant
            j <= v@.len(),
            forall|i: int| 0 <= i < j ==> v@[i] != e,
        decreases v@.len() - j,
    {
        if v[j].0 == e.0 && v[j].1 == e.1 && v[j].2 == e.2 {
            return Some(j);
        }
        j = j + 1;
    }
    None
}

/// Drops entry `e` of user and task `key` from the index.
fn retract(
    latest: &mut Vec<(Key, Latest)>,
    key: Key,
    e: Entry,
    Ghost(m1): Ghost<Map<ImageId, ObservationView>>,
    Ghost(m2): Ghost<Map<ImageId, ObservationView>>,
)
    requires
        latest_ok(old(latest)@, m1),
        contributes(m1, key, e),
        forall|k: Key, x: Entry|
            #[trigger] contributes(m2, k, x) <==> (contributes(m1, k, x) && !(k == key && x == e)),
    ensures
        latest_ok(final(latest)@, m2),
{
    let ghost l0 = latest@;
    let i = match find_latest(latest, key) {
        Some(i) => i,
        None => {
            assert(false);
            0
        },
    };
    let (k0, mut l) = latest.remove(i);
    let ghost l1 = latest@;
    assert(l1 =~= l0.remove(i as int));
    assert(l.entries@.contains(e) <==> contributes(m1, l0[i as int].0, e));
    let q = match find_entry(&l.entries, e) {
        Some(q) => q,
        None => {
            assert(false);
            0
        },
    };
    let ghost old_entries = l.entries@;
    assert(l0[i as int].1.ranked());
    assert(old_entries.no_duplicates());
    l.entries.remove(q);
    assert(l.entries@ =~= old_entries.remove(q as int));
    assert(l.entries@.no_duplicates()) by {
        assert forall|a: int, b: int|
            0 <= a < l.entries@.len() && 0 <= b < l.entries@.len() && a != b implies l.entries@[a]
            != l.entries@[b] by {
            let a0 = if a < q { a } else { a + 1 };
            let b0 = if b < q { b } else { b + 1 };
            assert(old_entries[a0] != old_entries[b0]);
        }
    }
    assert forall|x: Entry| l.entries@.contains(x) <==> (old_entries.contains(x) && x != e) by {
        if l.entries@.contains(x) {
            let r = choose|r: int| 0 <= r < l.entries@.len() && l.entries@[r] == x;
            if r < q {
                assert(old_entries[r] == x);
            } else {
                assert(old_entries[r + 1] == x);
            }
        }
        if old_entries.contains(x) && x != e {
            let r = choose|r: int| 0 <= r < old_entries.len() && old_entries[r] == x;
            assert(r != q);
            if r < q {
                assert(l.entries@[r] == x);
            } else {
                assert(l.entries@[r - 1] == x);
            }
        }
    }
    l.refresh();
    if l.entries.len() > 0 {
        latest.push((k0, l));
    }
    let ghost l2 = latest@;
    assert forall|j: int| 0 <= j < l1.len() implies l1[j] == l0[if j < i { j } else { j + 1 }] by {}
    assert forall|j: int| 0 <= j < l1.len() implies #[trigger] l2[j] == l1[j] by {}
    assert forall|a: int, b: int|
        0 <= a < l2.len() && 0 <= b < l2.len() && a != b implies l2[a].0 != l2[b].0 by {
        if a < l1.len() && b < l1.len() {
            let a0 = if a < i { a } else { a + 1 };
            let b0 = if b < i { b } else { b + 1 };
            assert(l0[a0].0 != l0[b0].0);
        } else if a < l1.len() {
            let a0 = if a < i { a } else { a + 1 };
            assert(l0[a0].0 != l0[i as int].0);
        } else if b < l1.len() {
            let b0 = if b < i { b } else { b + 1 };
            assert(l0[b0].0 != l0[i as int].0);
        }
    }
    assert forall|j: int| 0 <= j < l2.len() implies #[trigger] l2[j].1.ranked()
        && l2[j].1.entries@.len() > 0 by {
        if j < l1.len() {
            let j0 = if j < i { j } else { j + 1 };
            assert(l0[j0].1.ranked());
        }
    }
    assert forall|j: int, x: Entry| 0 <= j < l2.len() implies (
    #[trigger] l2[j].1.entries@.contains(x) <==> contributes(m2, l2[j].0, x)) by {
        if j < l1.len() {
            let j0 = if j < i { j } else { j + 1 };
            assert(l0[j0].1.entries@.contains(x) <==> contributes(m1, l0[j0].0, x));
            assert(l0[j0].0 != key);
            assert(contributes(m2, l2[j].0, x) <==> contributes(m1, l2[j].0, x));
        } else {
            assert(l2[j].0 == key);
            assert(l0[i as int].1.entries@.contains(x) <==> contributes(m1, key, x));
            assert(contributes(m2, key, x) <==> (contributes(m1, key, x) && x != e));
        }
    }
    assert forall|k: Key, x: Entry| #[trigger]
        contributes(m2, k, x) implies exists|j: int| 0 <= j < l2.len() && l2[j].0 == k by {
        assert(contributes(m1, k, x));
        let j0 = choose|j0: int| 0 <= j0 < l0.len() && l0[j0].0 == k;
        if j0 == i {
            assert(l0[i as int].1.entries@.contains(x));
            assert(x != e);
            assert(l.entries@.contains(x));
            assert(l2[l2.len() - 1].0 == k);
        } else if j0 < i {
            assert(l2[j0].0 == k);
        } else {
            assert(l2[j0 - 1].0 == k);
        }
    }
}

/// Adds entry `e` of user and task `key` to the index.
fn contribute(
    latest: &mut Vec<(Key, Latest)>,
    key: Key,
    e: Entry,
    Ghost(m1): Ghost<Map<ImageId, ObservationView>>,
    Ghost(m2): Ghost<Map<ImageId, ObservationView>>,
)
    requires
        latest_ok(old(latest)@, m1),
        !contributes(m1, key, e),
        forall|k: Key, x: Entry|
            #[trigger] contributes(m2, k, x) <==> (contributes(m1, k, x) || (k == key && x == e)),
    ensures
        latest_ok(final(latest)@, m2),
{
    let ghost l0 = latest@;
    match find_latest(latest, key) {
        Some(i) => {
            let (k0, mut l) = latest.remove(i);
            let ghost l1 = latest@;
            assert(l1 =~= l0.remove(i as int));
            let ghost old_entries = l.entries@;
            assert(old_entries.contains(e) <==> contributes(m1, l0[i as int].0, e));
            assert(l0[i as int].1.ranked());
            l.entries.push(e);
            assert(l.entries@ =~= old_entries.push(e));
            assert(l.entries@.no_duplicates()) by {
                assert forall|a: int, b: int|
                    0 <= a < l.entries@.len() && 0 <= b < l.entries@.len() && a != b implies l.entries@[a]
                    != l.entries@[b] by {
                    if a < old_entries.len() && b < old_entries.len() {
                        assert(old_entries[a] != old_entries[b]);
                    } else if a < old_entries.len() {
                        assert(old_entries.contains(old_entries[a]));
                    } else if b < old_entries.len() {
                        assert(old_entries.contains(old_entries[b]));
                    }
                }
            }
            assert forall|x: Entry| l.entries@.contains(x) <==> (old_entries.contains(x) || x == e)
                by {
                if l.entries@.contains(x) {
                    let r = choose|r: int| 0 <= r < l.entries@.len() && l.entries@[r] == x;
                    if r < old_entries.len() {
                        assert(old_entries[r] == x);
                    }
                }
                if old_entries.contains(x) {
                    let r = choose|r: int| 0 <= r < old_entries.len() && old_entries[r] == x;
                    assert(l.entries@[r] == x);
                }
                if x == e {
                    assert(l.entries@[old_entries.len() as int] == x);
                }
            }
            l.refresh();
            latest.push((k0, l));
            let ghost l2 = latest@;
            assert forall|j: int| 0 <= j < l1.len() implies l1[j] == l0[if j < i { j } else { j + 1 }]
                by {}
            assert forall|j: int| 0 <= j < l1.len() implies #[trigger] l2[j] == l1[j] by {}
            assert forall|a: int, b: int|
                0 <= a < l2.len() && 0 <= b < l2.len() && a != b implies l2[a].0 != l2[b].0 by {
                if a < l1.len() && b < l1.len() {
                    let a0 = if a < i { a } else { a + 1 };
                    let b0 = if b < i { b } else { b + 1 };
                    assert(l0[a0].0 != l0[b0].0);
                } else if a < l1.len() {
                    let a0 = if a < i { a } else { a + 1 };
                    assert(l0[a0].0 != l0[i as int].0);
                } else if b < l1.len() {
                    let b0 = if b < i { b } else { b + 1 };
                    assert(l0[b0].0 != l0[i as int].0);
                }
            }
            assert forall|j: int| 0 <= j < l2.len() implies #[trigger] l2[j].1.ranked()
                && l2[j].1.entries@.len() > 0 by {
                if j < l1.len() {
                    let j0 = if j < i { j } else { j + 1 };
                    assert(l0[j0].1.ranked());
                }
            }
            assert forall|j: int, x: Entry| 0 <= j < l2.len() implies (
            #[trigger] l2[j].1.entries@.contains(x) <==> contributes(m2, l2[j].0, x)) by {
                if j < l1.len() {
                    let j0 = if j < i { j } else { j + 1 };
                    assert(l0[j0].1.entries@.contains(x) <==> contributes(m1, l0[j0].0, x));
                    assert(l0[j0].0 != key);
                    assert(contributes(m2, l2[j].0, x) <==> contributes(m1, l2[j].0, x));
                } else {
                    assert(l2[j].0 == key);
                    assert(l0[i as int].1.entries@.contains(x) <==> contributes(m1, key, x));
                }
            }
            assert forall|k: Key, x: Entry| #[trigger]
                contributes(m2, k, x) implies exists|j: int| 0 <= j < l2.len() && l2[j].0 == k by {
                if k == key {
                    assert(l2[l2.len() - 1].0 == k);
                } else {
                    assert(contributes(m1, k, x));
                    let j0 = choose|j0: int| 0 <= j0 < l0.len() && l0[j0].0 == k;
                    assert(j0 != i);
                    if j0 < i {
                        assert(l2[j0].0 == k);
                    } else {
                        assert(l2[j0 - 1].0 == k);
                    }
                }
            }
        },
        None => {
            let mut entries: Vec<Entry> = Vec::new();
            entries.push(e);
            let mut l = Latest { entries, first: None, second: None };
            assert(l.entries@.no_duplicates());
            l.refresh();
            latest.push((key, l));
            let ghost l2 = latest@;
            assert forall|j: int| 0 <= j < l0.len() implies #[trigger] l2[j] == l0[j] by {}
            assert forall|x: Entry| l2[l0.len() as int].1.entries@.contains(x) <==> x == e by {
                if l2[l0.len() as int].1.entries@.contains(x) {
                    let r = choose|r: int|
                        0 <= r < l2[l0.len() as int].1.entries@.len()
                            && l2[l0.len() as int].1.entries@[r] == x;
                    assert(r == 0);
                }
                if x == e {
                    assert(l2[l0.len() as int].1.entries@[0] == x);
                }
            }
            assert forall|j: int, x: Entry| 0 <= j < l2.len() implies (
            #[trigger] l2[j].1.entries@.contains(x) <==> contributes(m2, l2[j].0, x)) by {
                if j < l0.len() {
                    assert(l0[j].1.entries@.contains(x) <==> contributes(m1, l0[j].0, x));
                    assert(l0[j].0 != key);
                    assert(contributes(m2, l2[j].0, x) <==> contributes(m1, l2[j].0, x));
                } else {
                    assert(contributes(m1, key, x) ==> exists|j: int|
                        0 <= j < l0.len() && l0[j].0 == key);
                }
            }
            assert forall|k: Key, x: Entry| #[trigger]
                contributes(m2, k, x) implies exists|j: int| 0 <= j < l2.len() && l2[j].0 == k by {
                if k == key {
                    assert(l2[l0.len() as int].0 == k);
                } else {
                    assert(contributes(m1, k, x));
                    let j0 = choose|j0: int| 0 <= j0 < l0.len() && l0[j0].0 == k;
                    assert(l2[j0].0 == k);
                }
            }
            assert forall|a: int, b: int|
                0 <= a < l2.len() && 0 <= b < l2.len() && a != b implies l2[a].0 != l2[b].0 by {
                if a < l0.len() && b < l0.len() {
                } else if a < l0.len() {
                    assert(l0[a].0 != key);
                } else if b < l0.len() {
                    assert(l0[b].0 != key);
                }
            }
            assert forall|j: int| 0 <= j < l2.len() implies #[trigger] l2[j].1.ranked()
                && l2[j].1.entries@.len() > 0 by {
                if j < l0.len() {
                    assert(l0[j].1.ranked());
                }
            }
        },
    }
}


proof fn lemma_observed_index(s: Seq<(ImageId, Observation)>, i: int)
    requires
        images_unique(s),
        0 <= i < s.len(),
    ensures
        observed_map(s).contains_key(s[i].0),
        observed_map(s)[s[i].0] == (s[i].1.sequence, s[i].1.finished@),
{
    let img = s[i].0;
    assert(exists|j: int| 0 <= j < s.len() && s[j].0 == img);
    let j = choose|j: int| 0 <= j < s.len() && s[j].0 == img;
    assert(j == i);
}

proof fn lemma_observed_remove(s: Seq<(ImageId, Observation)>, p: int)
    requires
        images_unique(s),
        0 <= p < s.len(),
    ensures
        images_unique(s.remove(p)),
        observed_map(s.remove(p)) == observed_map(s).remove(s[p].0),
{
    let t = s.remove(p);
    assert forall|a: int| 0 <= a < t.len() implies #[trigger] t[a] == s[if a < p { a } else { a + 1 }]
        by {}
    assert forall|a: int, b: int| 0 <= a < t.len() && 0 <= b < t.len() && a != b implies t[a].0
        != t[b].0 by {
        let a0 = if a < p { a } else { a + 1 };
        let b0 = if b < p { b } else { b + 1 };
        assert(s[a0].0 != s[b0].0);
    }
    let m1 = observed_map(t);
    let m2 = observed_map(s).remove(s[p].0);
    assert forall|img: ImageId| m1.contains_key(img) <==> m2.contains_key(img) by {
        if m1.contains_key(img) {
            let a = choose|a: int| 0 <= a < t.len() && t[a].0 == img;
            let a0 = if a < p { a } else { a + 1 };
            assert(s[a0].0 == img);
            assert(a0 != p);
        }
        if m2.contains_key(img) {
            let a0 = choose|a0: int| 0 <= a0 < s.len() && s[a0].0 == img;
            assert(a0 != p);
            let a = if a0 < p { a0 } else { a0 - 1 };
            assert(t[a].0 == img);
        }
    }
    assert forall|img: ImageId| #[trigger] m1.contains_key(img) implies m1[img] == m2[img] by {
        let a = choose|a: int| 0 <= a < t.len() && t[a].0 == img;
        let a0 = if a < p { a } else { a + 1 };
        lemma_observed_index(t, a);
        lemma_observed_index(s, a0);
    }
    assert(m1 =~= m2);
}

proof fn lemma_observed_push(s: Seq<(ImageId, Observation)>, img: ImageId, o: Observation)
    requires
        images_unique(s),
        forall|j: int| 0 <= j < s.len() ==> s[j].0 != img,
    ensures
        images_unique(s.push((img, o))),
        observed_map(s.push((img, o))) == observed_map(s).insert(img, (o.sequence, o.finished@)),
{
    let t = s.push((img, o));
    assert forall|a: int| 0 <= a < s.len() implies #[trigger] t[a] == s[a] by {}
    let m1 = observed_map(t);
    let m2 = observed_map(s).insert(img, (o.sequence, o.finished@));
    assert forall|x: ImageId| m1.contains_key(x) <==> m2.contains_key(x) by {
        if m1.contains_key(x) {
            let a = choose|a: int| 0 <= a < t.len() && t[a].0 == x;
            if a < s.len() {
                assert(s[a].0 == x);
            }
        }
        if m2.contains_key(x) && x != img {
            let a = choose|a: int| 0 <= a < s.len() && s[a].0 == x;
            assert(t[a].0 == x);
        }
        if x == img {
            assert(t[s.len() as int].0 == x);
        }
    }
    assert forall|x: ImageId| #[trigger] m1.contains_key(x) implies m1[x] == m2[x] by {
        let a = choose|a: int| 0 <= a < t.len() && t[a].0 == x;
        lemma_observed_index(t, a);
        if a < s.len() {
            lemma_observed_index(s, a);
        }
    }
    assert(m1 =~= m2);
}

fn find_image(images: &Vec<(ImageId, Observation)>, image: ImageId) -> (r: Option<usize>)
    ensures
        match r {
            Some(p) => p < images@.len() && images@[p as int].0 == image,
            None => forall|j: int| 0 <= j < images@.len() ==> images@[j].0 != image,
        },
{
    let mut j: usize = 0;
    while j < images.len()
        invariant
            j <= images@.len(),
            forall|i: int| 0 <= i < j ==> images@[i].0 != image,
        decreases images@.len() - j,
    {
        if images[j].0 == image {
            return Some(j);
        }
        j = j + 1;
    }
    None
}

/// Why a request to go back to the previous review assignment was refused.
#[derive(Clone, Copy, Debug, PartialEq, Eq, Structural)]
pub enum HistoryError {
    /// The history is being rebuilt; the request may be retried.
    Refreshing,
    /// The image of the previous review is no longer part of the dataset.
    ImageRemoved,
    /// Another image holds a later finished review for the same user and task.
    NotImmediatelyPrevious,
}

/// The review history: the latest observation of every image, and an index of
/// the latest finished reviews per user and task.
pub struct Projection {
    pub images: Vec<(ImageId, Observation)>,
    pub latest: Vec<(Key, Latest)>,
}

/// Every review on an image other than `image`, for user and task `k`,
/// finished no later than `at`.
pub open spec fn nothing_later_elsewhere(
    m: Map<ImageId, ObservationView>,
    k: Key,
    image: ImageId,
    at: Timestamp,
) -> bool {
    forall|e: Entry| #[trigger] contributes(m, k, e) && e.1 != image ==> e.0 <= at
}

impl Projection {
    /// The latest observation of every image.
    pub open spec fn observed(self) -> Map<ImageId, ObservationView> {
        observed_map(self.images@)
    }

    /// Images occur once, observations are well formed, and the index agrees with them.
    pub open spec fn wf(self) -> bool {
        &&& images_unique(self.images@)
        &&& forall|i: int| 0 <= i < self.images@.len() ==> (#[trigger] self.images@[i]).1.wf()
        &&& latest_ok(self.latest@, self.observed())
    }

    /// An empty history.
    pub fn new() -> (p: Projection)
        ensures
            p.wf(),
            p.observed() == Map::<ImageId, ObservationView>::empty(),
            p.images@.len() == 0,
            p.latest@.len() == 0,
    {
        let p = Projection { images: Vec::new(), latest: Vec::new() };
        assert(p.observed() =~= Map::<ImageId, ObservationView>::empty());
        p
    }

    proof fn lemma_views_wf(self)
        requires
            self.wf(),
        ensures
            views_wf(self.observed()),
    {
        assert forall|img: ImageId| #[trigger] self.observed().contains_key(img) implies keys_unique(
            self.observed()[img].1,
        ) by {
            let i = choose|i: int| 0 <= i < self.images@.len() && self.images@[i].0 == img;
            lemma_observed_index(self.images@, i);
            assert(self.images@[i].1.wf());
        }
    }

    /// Records the observation of `image` unless a newer one is already recorded,
    /// replacing the image's earlier contribution to the index.
    pub fn observe(&mut self, image: ImageId, observation: Observation)
        requires
            old(self).wf(),
            observation.wf(),
        ensures
            final(self).wf(),
            final(self).observed() == observe_step(
                old(self).observed(),
                image,
                (observation.sequence, observation.finished@),
            ),
    {
        let ghost m0 = self.observed();
        match find_image(&self.images, image) {
            Some(p) => {
                proof {
                    lemma_observed_index(self.images@, p as int);
                }
                if self.images[p].1.sequence > observation.sequence {
                    return;
                }
                let ghost s0 = self.images@;
                let (_, previous) = self.images.remove(p);
                proof {
                    lemma_observed_remove(s0, p as int);
                    assert(s0[p as int].1.wf());
                    assert forall|i: int| 0 <= i < self.images@.len() implies (
                    #[trigger] self.images@[i]).1.wf() by {
                        let i0 = if i < p { i } else { i + 1 };
                        assert(self.images@[i] == s0[i0]);
                    }
                }
                let ghost base = observed_map(self.images@);
                let n = previous.finished.len();
                proof {
                    assert(previous.finished@.subrange(0, n as int) =~= previous.finished@);
                    assert(base.insert(image, (previous.sequence, previous.finished@)) =~= m0);
                }
                let mut j: usize = 0;
                while j < n
                    invariant
                        n == previous.finished@.len(),
                        j <= n,
                        keys_unique(previous.finished@),
                        images_unique(self.images@),
                        forall|i: int|
                            0 <= i < self.images@.len() ==> (#[trigger] self.images@[i]).1.wf(),
                        base == observed_map(self.images@),
                        !base.contains_key(image),
                        latest_ok(
                            self.latest@,
                            base.insert(
                                image,
                                (previous.sequence, previous.finished@.subrange(j as int, n as int)),
                            ),
                        ),
                    decreases n - j,
                {
                    let (key, (at, assignment)) = previous.finished[j];
                    let ghost s = previous.finished@;
                    let ghost m1 = base.insert(
                        image,
                        (previous.sequence, s.subrange(j as int, n as int)),
                    );
                    let ghost m2 = base.insert(
                        image,
                        (previous.sequence, s.subrange(j + 1, n as int)),
                    );
                    proof {
                        assert(s.subrange(j as int, n as int)[0] == s[j as int]);
                        assert(contributes(m1, key, (at, image, assignment)));
                        assert forall|k: Key, x: Entry|
                            #[trigger] contributes(m2, k, x) <==> (contributes(m1, k, x) && !(k
                                == key && x == (at, image, assignment))) by {
                            if x.1 == image {
                                let pr = (k, (x.0, x.2));
                                let a = s.subrange(j as int, n as int);
                                let b = s.subrange(j + 1, n as int);
                                if b.contains(pr) {
                                    let r = choose|r: int| 0 <= r < b.len() && b[r] == pr;
                                    assert(a[r + 1] == pr);
                                    assert(s[j + 1 + r] == pr);
                                    assert(s[j as int].0 != s[j + 1 + r].0);
                                }
                                if a.contains(pr) && !(k == key && x == (at, image, assignment)) {
                                    let r = choose|r: int| 0 <= r < a.len() && a[r] == pr;
                                    assert(r != 0);
                                    assert(b[r - 1] == pr);
                                }
                            }
                        }
                    }
                    retract(&mut self.latest, key, (at, image, assignment), Ghost(m1), Ghost(m2));
                    j = j + 1;
                }
                proof {
                    let m_end = base.insert(
                        image,
                        (previous.sequence, previous.finished@.subrange(n as int, n as int)),
                    );
                    assert forall|k: Key, x: Entry| contributes(m_end, k, x) == contributes(
                        base,
                        k,
                        x,
                    ) by {
                        if x.1 == image {
                            assert(previous.finished@.subrange(n as int, n as int).len() == 0);
                        }
                    }
                    lemma_latest_ok_congruent(self.latest@, m_end, base);
                }
            },
            None => {},
        }
        let ghost base = observed_map(self.images@);
        proof {
            assert(!base.contains_key(image));
        }
        let n = observation.finished.len();
        let mut j: usize = 0;
        proof {
            let m_start = base.insert(
                image,
                (observation.sequence, observation.finished@.take(0)),
            );
            assert forall|k: Key, x: Entry| contributes(base, k, x) == contributes(m_start, k, x) by {
                if x.1 == image {
                    assert(observation.finished@.take(0).len() == 0);
                }
            }
            lemma_latest_ok_congruent(self.latest@, base, m_start);
        }
        while j < n
            invariant
                n == observation.finished@.len(),
                j <= n,
                observation.wf(),
                images_unique(self.images@),
                forall|i: int| 0 <= i < self.images@.len() ==> (#[trigger] self.images@[i]).1.wf(),
                base == observed_map(self.images@),
                !base.contains_key(image),
                latest_ok(
                    self.latest@,
                    base.insert(image, (observation.sequence, observation.finished@.take(j as int))),
                ),
            decreases n - j,
        {
            let (key, (at, assignment)) = observation.finished[j];
            let ghost s = observation.finished@;
            let ghost m1 = base.insert(image, (observation.sequence, s.take(j as int)));
            let ghost m2 = base.insert(image, (observation.sequence, s.take(j + 1)));
            proof {
                assert(s.take(j + 1) =~= s.take(j as int).push(s[j as int]));
                assert(!contributes(m1, key, (at, image, assignment))) by {
                    if s.take(j as int).contains((key, (at, assignment))) {
                        let r = choose|r: int|
                            0 <= r < s.take(j as int).len() && s.take(j as int)[r] == (
                                key,
                                (at, assignment),
                            );
                        assert(s[r].0 != s[j as int].0);
                    }
                }
                assert forall|k: Key, x: Entry|
                    #[trigger] contributes(m2, k, x) <==> (contributes(m1, k, x) || (k == key && x
                        == (at, image, assignment))) by {
                    if x.1 == image {
                        let pr = (k, (x.0, x.2));
                        let a = s.take(j as int);
                        let b = s.take(j + 1);
                        if b.contains(pr) {
                            let r = choose|r: int| 0 <= r < b.len() && b[r] == pr;
                            if r < j {
                                assert(a[r] == pr);
                            }
                        }
                        if a.contains(pr) {
                            let r = choose|r: int| 0 <= r < a.len() && a[r] == pr;
                            assert(b[r] == pr);
                        }
                        if k == key && x == (at, image, assignment) {
                            assert(b[j as int] == pr);
                        }
                    }
                }
            }
            contribute(&mut self.latest, key, (at, image, assignment), Ghost(m1), Ghost(m2));
            j = j + 1;
        }
        let ghost s1 = self.images@;
        self.images.push((image, observation));
        proof {
            assert(observation.finished@.take(n as int) =~= observation.finished@);
            assert(forall|q: int| 0 <= q < s1.len() ==> s1[q].0 != image) by {
                assert forall|q: int| 0 <= q < s1.len() implies s1[q].0 != image by {
                    if s1[q].0 == image {
                        assert(base.contains_key(image));
                    }
                }
            }
            lemma_observed_push(s1, image, observation);
            assert forall|i: int| 0 <= i < self.images@.len() implies (
            #[trigger] self.images@[i]).1.wf() by {
                if i < s1.len() {
                    assert(self.images@[i] == s1[i]);
                }
            }
            assert(self.observed() =~= m0.insert(
                image,
                (observation.sequence, observation.finished@),
            ));
        }
    }

    /// Whether `image` has a recorded observation.
    pub fn contains_image(&self, image: ImageId) -> (r: bool)
        ensures
            r == self.observed().contains_key(image),
    {
        match find_image(&self.images, image) {
            Some(_) => true,
            None => {
                assert(!self.observed().contains_key(image));
                false
            },
        }
    }

    /// The latest and the second latest finished reviews of a user and task.
    pub fn latest_two(&self, user: UserId, task: TaskId) -> (r: (Option<Entry>, Option<Entry>))
        requires
            self.wf(),
        ensures
            match r.0 {
                None => r.1 is None && forall|e: Entry|
                    !contributes(self.observed(), (user, task), e),
                Some(f) => contributes(self.observed(), (user, task), f) && forall|e: Entry|
                    #[trigger] contributes(self.observed(), (user, task), e) ==> entry_le(e, f),
            },
            match r.1 {
                None => forall|e: Entry|
                    #[trigger] contributes(self.observed(), (user, task), e) ==> r.0 == Some(e),
                Some(t) => contributes(self.observed(), (user, task), t) && r.0 != Some(t)
                    && forall|e: Entry|
                    #[trigger] contributes(self.observed(), (user, task), e) && r.0 != Some(e)
                        ==> entry_le(e, t),
            },
    {
        match find_latest(&self.latest, (user, task)) {
            Some(i) => {
                let l = &self.latest[i].1;
                assert(l.ranked());
                (l.first, l.second)
            },
            None => (None, None),
        }
    }

    /// Whether `source` may be resumed as the immediately previous review:
    /// its image is still observed and no other image holds a later finished
    /// review for the same user and task (equal times are allowed).
    pub fn check_previous(&self, source: &Assignment) -> (r: Result<(), HistoryError>)
        requires
            self.wf(),
        ensures
            r is Ok <==> (self.observed().contains_key(source.image_id) && nothing_later_elsewhere(
                self.observed(),
                source.key(),
                source.image_id,
                source.updated_at,
            )),
            r == Err::<(), HistoryError>(HistoryError::ImageRemoved) <==> !self.observed().contains_key(
                source.image_id,
            ),
            r is Err ==> r != Err::<(), HistoryError>(HistoryError::Refreshing),
    {
        let m = Ghost(self.observed());
        proof {
            self.lemma_views_wf();
        }
        if !self.contains_image(source.image_id) {
            return Err(HistoryError::ImageRemoved);
        }
        let key = (source.assigned_to, source.task_id);
        match find_latest(&self.latest, key) {
            None => {
                assert(forall|e: Entry| !contributes(m@, key, e));
                Ok(())
            },
            Some(i) => {
                let l = &self.latest[i].1;
                assert(l.ranked());
                let ghost es = l.entries@;
                assert(forall|e: Entry| es.contains(e) <==> contributes(m@, key, e));
                // At most one entry of a user and task per image.
                assert forall|a: Entry, b: Entry|
                    es.contains(a) && es.contains(b) && a.1 == b.1 implies a == b by {
                    assert(contributes(m@, key, a));
                    assert(contributes(m@, key, b));
                    let sq = m@[a.1].1;
                    assert(keys_unique(sq));
                    let ra = choose|r: int| 0 <= r < sq.len() && sq[r] == (key, (a.0, a.2));
                    let rb = choose|r: int| 0 <= r < sq.len() && sq[r] == (key, (b.0, b.2));
                    assert(ra == rb);
                }
                let other = match l.first {
                    Some(f) => {
                        if f.1 != source.image_id {
                            Some(f)
                        } else {
                            l.second
                        }
                    },
                    None => None,
                };
                match other {
                    Some(o) => {
                        if o.0 > source.updated_at {
                            assert(contributes(m@, key, o));
                            Err(HistoryError::NotImmediatelyPrevious)
                        } else {
                            assert forall|e: Entry| #[trigger]
                                contributes(m@, key, e) && e.1 != source.image_id implies e.0
                                <= source.updated_at by {
                                assert(es.contains(e));
                            }
                            Ok(())
                        }
                    },
                    None => {
                        assert forall|e: Entry| #[trigger]
                            contributes(m@, key, e) && e.1 != source.image_id implies e.0
                            <= source.updated_at by {
                            assert(es.contains(e));
                        }
                        Ok(())
                    },
                }
            },
        }
    }
}


impl Observation {
    /// A copy of the observation.
    pub fn duplicate(&self) -> (o: Observation)
        ensures
            o.sequence == self.sequence,
            o.finished@ == self.finished@,
    {
        let mut finished: Vec<(Key, Finish)> = Vec::new();
        let mut i: usize = 0;
        while i < self.finished.len()
            invariant
                i <= self.finished@.len(),
                finished@ == self.finished@.take(i as int),
            decreases self.finished@.len() - i,
        {
            finished.push(self.finished[i]);
            i = i + 1;
            assert(finished@ =~= self.finished@.take(i as int));
        }
        assert(self.finished@.take(i as int) =~= self.finished@);
        Observation { sequence: self.sequence, finished }
    }
}

/// Recording observation `v` of `image` in `m`, unless `m` holds a newer one.
pub open spec fn observe_step(
    m: Map<ImageId, ObservationView>,
    image: ImageId,
    v: ObservationView,
) -> Map<ImageId, ObservationView> {
    if m.contains_key(image) && m[image].0 > v.0 {
        m
    } else {
        m.insert(image, v)
    }
}

/// Observing the same observation of an image again changes nothing.
pub proof fn observing_again_changes_nothing(
    m: Map<ImageId, ObservationView>,
    image: ImageId,
    v: ObservationView,
)
    ensures
        observe_step(observe_step(m, image, v), image, v) == observe_step(m, image, v),
{
    let once = observe_step(m, image, v);
    assert(observe_step(once, image, v) =~= once);
}

/// Observations of two different images can arrive in either order.
pub proof fn observations_of_different_images_commute(
    m: Map<ImageId, ObservationView>,
    a: ImageId,
    v: ObservationView,
    b: ImageId,
    w: ObservationView,
)
    requires
        a != b,
    ensures
        observe_step(observe_step(m, a, v), b, w) == observe_step(observe_step(m, b, w), a, v),
{
    assert(observe_step(observe_step(m, a, v), b, w) =~= observe_step(observe_step(m, b, w), a, v));
}

/// The observed sequence of an image never goes back, and an observation is kept
/// unless a newer one was observed before.
pub proof fn observed_sequence_never_decreases(
    m: Map<ImageId, ObservationView>,
    image: ImageId,
    v: ObservationView,
)
    ensures
        observe_step(m, image, v).contains_key(image),
        m.contains_key(image) ==> observe_step(m, image, v)[image].0 >= m[image].0,
        observe_step(m, image, v)[image].0 >= v.0,
        forall|x: ImageId| #[trigger] m.contains_key(x) && x != image ==> observe_step(m, image, v).contains_key(x)
            && observe_step(m, image, v)[x] == m[x],
{
}

/// The scanned observations `s` with the observations `p` that arrived during
/// the scan folded in, for images that are still in the dataset (`images`).
pub open spec fn merged(
    s: Map<ImageId, ObservationView>,
    p: Map<ImageId, ObservationView>,
    images: Seq<ImageId>,
) -> Map<ImageId, ObservationView> {
    Map::new(
        |x: ImageId| s.contains_key(x) || (p.contains_key(x) && images.contains(x)),
        |x: ImageId|
            if p.contains_key(x) && images.contains(x) && !(s.contains_key(x) && s[x].0
                > p[x].0) {
                p[x]
            } else {
                s[x]
            },
    )
}

fn contains_id(v: &Vec<ImageId>, x: ImageId) -> (r: bool)
    ensures
        r == v@.contains(x),
{
    let mut j: usize = 0;
    while j < v.len()
        invariant
            j <= v@.len(),
            forall|i: int| 0 <= i < j ==> v@[i] != x,
        decreases v@.len() - j,
    {
        if v[j] == x {
            return true;
        }
        j = j + 1;
    }
    false
}

/// The review history shared by commits and by requests for the previous review.
pub struct ReviewHistoryCache {
    /// Bumped by every invalidation; a scan from an older generation is discarded.
    pub generation: u64,
    /// The published history, absent while it is being rebuilt.
    pub projection: Option<Projection>,
    /// Observations committed while the history was being rebuilt.
    pub pending: Vec<(ImageId, Observation)>,
}

impl ReviewHistoryCache {
    /// The published history is well formed; pending observations name each image once.
    pub open spec fn wf(self) -> bool {
        &&& match self.projection {
            Some(p) => p.wf(),
            None => true,
        }
        &&& images_unique(self.pending@)
        &&& forall|i: int| 0 <= i < self.pending@.len() ==> (#[trigger] self.pending@[i]).1.wf()
    }

    /// The observations waiting for the next publication.
    pub open spec fn pending_view(self) -> Map<ImageId, ObservationView> {
        observed_map(self.pending@)
    }

    /// A history that has not been built yet.
    pub fn new() -> (c: ReviewHistoryCache)
        ensures
            c.wf(),
            c.generation == 0,
            c.projection is None,
            c.pending_view() == Map::<ImageId, ObservationView>::empty(),
            c.pending@.len() == 0,
    {
        let c = ReviewHistoryCache { generation: 0, projection: None, pending: Vec::new() };
        assert(c.pending_view() =~= Map::<ImageId, ObservationView>::empty());
        c
    }

    /// Forgets the history: after an uncertain publication nothing stale may
    /// authorize a request.
    pub fn invalidate(&mut self)
        ensures
            final(self).wf(),
            final(self).generation == (if old(self).generation == u64::MAX {
                0
            } else {
                old(self).generation + 1
            }),
            final(self).projection is None,
            final(self).pending@.len() == 0,
            final(self).pending_view() == Map::<ImageId, ObservationView>::empty(),
    {
        self.generation = if self.generation == u64::MAX {
            0
        } else {
            self.generation + 1
        };
        self.projection = None;
        self.pending.clear();
        assert(self.pending_view() =~= Map::<ImageId, ObservationView>::empty());
    }

    /// Records a committed observation: into the published history when it
    /// tracks the image, or into the pending observations while rebuilding.
    pub fn observe(&mut self, image: ImageId, observation: Observation)
        requires
            old(self).wf(),
            observation.wf(),
        ensures
            final(self).wf(),
            final(self).generation == old(self).generation,
            match old(self).projection {
                Some(p) => {
                    &&& final(self).projection is Some
                    &&& final(self).pending@ == old(self).pending@
                    &&& final(self).projection->0.observed() == if p.observed().contains_key(image) {
                        observe_step(p.observed(), image, (observation.sequence, observation.finished@))
                    } else {
                        p.observed()
                    }
                },
                None => {
                    &&& final(self).projection is None
                    &&& final(self).pending_view() == observe_step(
                        old(self).pending_view(),
                        image,
                        (observation.sequence, observation.finished@),
                    )
                },
            },
    {
        if self.projection.is_some() {
            let mut projection = self.projection.take().unwrap();
            if projection.contains_image(image) {
                projection.observe(image, observation);
            }
            self.projection = Some(projection);
        } else {
            let ghost m0 = self.pending_view();
            match find_image(&self.pending, image) {
                Some(p) => {
                    proof {
                        lemma_observed_index(self.pending@, p as int);
                    }
                    if self.pending[p].1.sequence > observation.sequence {
                        return;
                    }
                    let ghost s0 = self.pending@;
                    self.pending.remove(p);
                    proof {
                        lemma_observed_remove(s0, p as int);
                        assert forall|i: int| 0 <= i < self.pending@.len() implies (
                        #[trigger] self.pending@[i]).1.wf() by {
                            let i0 = if i < p { i } else { i + 1 };
                            assert(self.pending@[i] == s0[i0]);
                        }
                        assert(forall|q: int| 0 <= q < self.pending@.len() ==> self.pending@[q].0 != image) by {
                            assert forall|q: int| 0 <= q < self.pending@.len() implies self.pending@[q].0 != image by {
                                let q0 = if q < p { q } else { q + 1 };
                                assert(self.pending@[q] == s0[q0]);
                                assert(s0[q0].0 != s0[p as int].0);
                            }
                        }
                    }
                },
                None => {},
            }
            let ghost s1 = self.pending@;
            let ghost m1 = observed_map(s1);
            self.pending.push((image, observation));
            proof {
                lemma_observed_push(s1, image, observation);
                assert forall|i: int| 0 <= i < self.pending@.len() implies (
                #[trigger] self.pending@[i]).1.wf() by {
                    if i < s1.len() {
                        assert(self.pending@[i] == s1[i]);
                    }
                }
                assert(self.pending_view() =~= m0.insert(
                    image,
                    (observation.sequence, observation.finished@),
                ));
            }
        }
    }

    /// Whether the assignment `source` may be resumed as the immediately previous review.
    pub fn check_previous(&self, source: &Assignment) -> (r: Result<(), HistoryError>)
        requires
            self.wf(),
        ensures
            match self.projection {
                None => r == Err::<(), HistoryError>(HistoryError::Refreshing),
                Some(p) => {
                    &&& r is Ok <==> (p.observed().contains_key(source.image_id)
                        && nothing_later_elsewhere(
                        p.observed(),
                        source.key(),
                        source.image_id,
                        source.updated_at,
                    ))
                    &&& r == Err::<(), HistoryError>(HistoryError::ImageRemoved)
                        <==> !p.observed().contains_key(source.image_id)
                    &&& r != Err::<(), HistoryError>(HistoryError::Refreshing)
                },
            },
    {
        match &self.projection {
            None => Err(HistoryError::Refreshing),
            Some(p) => p.check_previous(source),
        }
    }

    /// Publishes a scan started at `generation`: the scanned observations, with
    /// the observations committed meanwhile folded in for images still in the
    /// dataset. A scan that an invalidation overtook is discarded (`false`) and
    /// must be repeated.
    pub fn publish(
        &mut self,
        generation: u64,
        images: &Vec<ImageId>,
        scanned: Vec<(ImageId, Observation)>,
    ) -> (published: bool)
        requires
            old(self).wf(),
            images_unique(scanned@),
            forall|i: int| 0 <= i < scanned@.len() ==> (#[trigger] scanned@[i]).1.wf(),
        ensures
            final(self).wf(),
            final(self).generation == old(self).generation,
            published == (old(self).generation == generation),
            !published ==> final(self).projection == old(self).projection && final(self).pending@
                == old(self).pending@,
            published ==> final(self).projection is Some && final(self).projection->0.observed()
                == merged(observed_map(scanned@), old(self).pending_view(), images@)
                && final(self).pending@.len() == 0,
    {
        if self.generation != generation {
            return false;
        }
        let mut projection = Projection::new();
        let mut i: usize = 0;
        while i < scanned.len()
            invariant
                i <= scanned@.len(),
                images_unique(scanned@),
                forall|q: int| 0 <= q < scanned@.len() ==> (#[trigger] scanned@[q]).1.wf(),
                projection.wf(),
                projection.observed() == observed_map(scanned@.take(i as int)),
            decreases scanned@.len() - i,
        {
            let ghost t = scanned@.take(i as int);
            proof {
                assert(scanned@.take(i + 1) =~= t.push(scanned@[i as int]));
                assert(images_unique(t));
                assert(forall|q: int| 0 <= q < t.len() ==> t[q].0 != scanned@[i as int].0);
                lemma_observed_push(t, scanned@[i as int].0, scanned@[i as int].1);
                assert(!observed_map(t).contains_key(scanned@[i as int].0)) by {
                    if observed_map(t).contains_key(scanned@[i as int].0) {
                        let q = choose|q: int| 0 <= q < t.len() && t[q].0 == scanned@[i as int].0;
                    }
                }
            }
            let o = scanned[i].1.duplicate();
            projection.observe(scanned[i].0, o);
            i = i + 1;
        }
        proof {
            assert(scanned@.take(scanned@.len() as int) =~= scanned@);
        }
        let ghost sm = observed_map(scanned@);
        let ghost pv = self.pending_view();
        let mut j: usize = 0;
        proof {
            assert(merged(sm, observed_map(self.pending@.take(0)), images@) =~= sm) by {
                assert(self.pending@.take(0).len() == 0);
            }
        }
        while j < self.pending.len()
            invariant
                j <= self.pending@.len(),
                self.wf(),
                projection.wf(),
                pv == observed_map(self.pending@),
                projection.observed() == merged(sm, observed_map(self.pending@.take(j as int)), images@),
            decreases self.pending@.len() - j,
        {
            let ghost t = self.pending@.take(j as int);
            let x = self.pending[j].0;
            let ghost v = (self.pending@[j as int].1.sequence, self.pending@[j as int].1.finished@);
            proof {
                assert(self.pending@.take(j + 1) =~= t.push(self.pending@[j as int]));
                assert(images_unique(t));
                assert(forall|q: int| 0 <= q < t.len() ==> t[q].0 != x);
                lemma_observed_push(t, x, self.pending@[j as int].1);
                assert(!observed_map(t).contains_key(x)) by {
                    if observed_map(t).contains_key(x) {
                        let q = choose|q: int| 0 <= q < t.len() && t[q].0 == x;
                    }
                }
            }
            let ghost before = projection.observed();
            if contains_id(images, x) {
                let o = self.pending[j].1.duplicate();
                assert(self.pending@[j as int].1.wf());
                projection.observe(x, o);
                proof {
                    assert(before.contains_key(x) == sm.contains_key(x));
                    assert(projection.observed() =~= merged(
                        sm,
                        observed_map(self.pending@.take(j + 1)),
                        images@,
                    ));
                }
            } else {
                proof {
                    assert(projection.observed() =~= merged(
                        sm,
                        observed_map(self.pending@.take(j + 1)),
                        images@,
                    ));
                }
            }
            j = j + 1;
        }
        proof {
            assert(self.pending@.take(self.pending@.len() as int) =~= self.pending@);
        }
        self.pending.clear();
        self.projection = Some(projection);
        true
    }
}


/// Lexicographic `<` on user-task keys.
pub open spec fn key_lt(a: Key, b: Key) -> bool {
    a.0 < b.0 || (a.0 == b.0 && a.1 < b.1)
}

/// Strictly increasing, hence without repetitions.
pub open spec fn keys_sorted(s: Seq<Key>) -> bool {
    forall|i: int, j: int| 0 <= i < j < s.len() ==> key_lt(s[i], s[j])
}

/// The two observations disagree about user and task `k`.
pub open spec fn differs(before: Observation, after: Observation, k: Key) -> bool {
    exists|f: Finish| before.finished@.contains((k, f)) != after.finished@.contains((k, f))
}

fn key_less(a: Key, b: Key) -> (r: bool)
    ensures
        r == key_lt(a, b),
{
    a.0 < b.0 || (a.0 == b.0 && a.1 < b.1)
}

/// Inserts `k` into the sorted `keys` unless it is there.
fn insert_sorted(keys: &mut Vec<Key>, k: Key)
    requires
        keys_sorted(old(keys)@),
    ensures
        keys_sorted(final(keys)@),
        forall|x: Key| final(keys)@.contains(x) <==> (old(keys)@.contains(x) || x == k),
{
    let ghost s0 = keys@;
    let mut i: usize = 0;
    while i < keys.len() && key_less(keys[i], k)
        invariant
            keys@ == s0,
            i <= s0.len(),
            keys_sorted(s0),
            forall|q: int| 0 <= q < i ==> key_lt(s0[q], k),
        decreases s0.len() - i,
    {
        i = i + 1;
    }
    if i < keys.len() && keys[i].0 == k.0 && keys[i].1 == k.1 {
        assert(s0[i as int] == k);
        return;
    }
    keys.insert(i, k);
    let ghost s1 = keys@;
    assert(s1 =~= s0.insert(i as int, k));
    assert forall|a: int, b: int| 0 <= a < b < s1.len() implies key_lt(s1[a], s1[b]) by {
        if b < i {
        } else if a < i && b == i {
        } else if a < i {
            assert(s1[b] == s0[b - 1]);
        } else if a == i {
            assert(s1[b] == s0[b - 1]);
            if i < s0.len() {
                assert(!key_lt(s0[i as int], k) && s0[i as int] != k);
                if b - 1 > i {
                    assert(key_lt(s0[i as int], s0[b - 1]));
                }
            }
        } else {
            assert(s1[a] == s0[a - 1]);
            assert(s1[b] == s0[b - 1]);
        }
    }
    assert forall|x: Key| s1.contains(x) <==> (s0.contains(x) || x == k) by {
        if s1.contains(x) {
            let r = choose|r: int| 0 <= r < s1.len() && s1[r] == x;
            if r < i {
                assert(s0[r] == x);
            } else if r > i {
                assert(s0[r - 1] == x);
            }
        }
        if s0.contains(x) {
            let r = choose|r: int| 0 <= r < s0.len() && s0[r] == x;
            if r < i {
                assert(s1[r] == x);
            } else {
                assert(s1[r + 1] == x);
            }
        }
        if x == k {
            assert(s1[i as int] == k);
        }
    }
}

/// The users and tasks whose history a commit from `before` to `after`
/// changes, together with the user and task of the previous review being
/// resumed: these are the keys a commit must hold, in ascending order.
pub fn commit_keys(before: &Observation, after: &Observation, previous: Option<&Assignment>) -> (keys: Vec<Key>)
    requires
        before.wf(),
        after.wf(),
    ensures
        keys_sorted(keys@),
        forall|k: Key|
            #[trigger] keys@.contains(k) <==> (differs(*before, *after, k) || (previous is Some
                && k == previous->0.key())),
{
    let mut keys: Vec<Key> = Vec::new();
    let mut i: usize = 0;
    while i < before.finished.len()
        invariant
            i <= before.finished@.len(),
            before.wf(),
            after.wf(),
            keys_sorted(keys@),
            forall|k: Key|
                #[trigger] keys@.contains(k) ==> differs(*before, *after, k),
            forall|q: int|
                0 <= q < i && differs(*before, *after, (#[trigger] before.finished@[q]).0)
                    ==> keys@.contains(before.finished@[q].0),
        decreases before.finished@.len() - i,
    {
        let (k, f) = before.finished[i];
        assert(before.finished@.contains((k, f)));
        let changed = match after.finished_for(k.0, k.1) {
            Some(g) => g.0 != f.0 || g.1 != f.1,
            None => true,
        };
        if changed {
            insert_sorted(&mut keys, k);
        } else {
            assert forall|h: Finish| before.finished@.contains((k, h)) == after.finished@.contains((k, h)) by {
                if before.finished@.contains((k, h)) {
                    let r = choose|r: int| 0 <= r < before.finished@.len() && before.finished@[r] == (k, h);
                    assert(r == i);
                }
                if after.finished@.contains((k, h)) {
                    let r1 = choose|r: int| 0 <= r < after.finished@.len() && after.finished@[r] == (k, h);
                    let r2 = choose|r: int| 0 <= r < after.finished@.len() && after.finished@[r] == (k, f);
                    assert(r1 == r2);
                }
            }
        }
        i = i + 1;
    }
    let mut j: usize = 0;
    while j < after.finished.len()
        invariant
            j <= after.finished@.len(),
            before.wf(),
            after.wf(),
            keys_sorted(keys@),
            forall|k: Key|
                #[trigger] keys@.contains(k) ==> differs(*before, *after, k),
            forall|q: int|
                0 <= q < before.finished@.len() && differs(*before, *after, (#[trigger] before.finished@[q]).0)
                    ==> keys@.contains(before.finished@[q].0),
            forall|q: int|
                0 <= q < j && differs(*before, *after, (#[trigger] after.finished@[q]).0)
                    ==> keys@.contains(after.finished@[q].0),
        decreases after.finished@.len() - j,
    {
        let (k, f) = after.finished[j];
        assert(after.finished@.contains((k, f)));
        let changed = match before.finished_for(k.0, k.1) {
            Some(g) => g.0 != f.0 || g.1 != f.1,
            None => true,
        };
        if changed {
            insert_sorted(&mut keys, k);
        } else {
            assert forall|h: Finish| before.finished@.contains((k, h)) == after.finished@.contains((k, h)) by {
                if after.finished@.contains((k, h)) {
                    let r = choose|r: int| 0 <= r < after.finished@.len() && after.finished@[r] == (k, h);
                    assert(r == j);
                }
                if before.finished@.contains((k, h)) {
                    let r1 = choose|r: int| 0 <= r < before.finished@.len() && before.finished@[r] == (k, h);
                    let r2 = choose|r: int| 0 <= r < before.finished@.len() && before.finished@[r] == (k, f);
                    assert(r1 == r2);
                }
            }
        }
        j = j + 1;
    }
    match previous {
        Some(a) => {
            insert_sorted(&mut keys, (a.assigned_to, a.task_id));
        },
        None => {},
    }
    assert forall|k: Key| differs(*before, *after, k) implies #[trigger] keys@.contains(k) by {
        let f = choose|f: Finish| before.finished@.contains((k, f)) != after.finished@.contains((k, f));
        if before.finished@.contains((k, f)) {
            let r = choose|r: int| 0 <= r < before.finished@.len() && before.finished@[r] == (k, f);
            assert(differs(*before, *after, before.finished@[r].0));
        } else {
            let r = choose|r: int| 0 <= r < after.finished@.len() && after.finished@[r] == (k, f);
            assert(differs(*before, *after, after.finished@[r].0));
        }
    }
    keys
}

/// The published history lets `a` be resumed as the immediately previous review.
pub open spec fn previous_allowed(cache: ReviewHistoryCache, a: Assignment) -> bool {
    match cache.projection {
        None => false,
        Some(p) => p.observed().contains_key(a.image_id) && nothing_later_elsewhere(
            p.observed(),
            a.key(),
            a.image_id,
            a.updated_at,
        ),
    }
}

/// A commit's claim on the review history, held from before the commit is
/// published until its observation is recorded.
pub struct ReviewHistoryCommit {
    pub image: ImageId,
    pub observation: Observation,
    /// The keys the commit holds; while any is held, an abandoned commit may
    /// have published a change the history has not seen.
    pub keys: Vec<Key>,
}

impl ReviewHistoryCommit {
    /// Prepares the commit of `after` over `before` for `image`; when the commit
    /// resumes the review `previous`, it must still be the immediately previous one.
    pub fn prepare(
        cache: &ReviewHistoryCache,
        image: ImageId,
        before: &ImageState,
        after: &ImageState,
        previous: Option<&Assignment>,
    ) -> (r: Result<ReviewHistoryCommit, HistoryError>)
        requires
            cache.wf(),
        ensures
            match previous {
                Some(a) => r is Ok <==> previous_allowed(*cache, *a),
                None => r is Ok,
            },
            r matches Ok(c) ==> {
                &&& c.image == image
                &&& c.observation.wf()
                &&& c.observation.sequence == after.current_sequence
                &&& forall|k: Key, f: Finish|
                    #[trigger] c.observation.finished@.contains((k, f)) <==> latest_finish(
                        after.assignments@,
                        k,
                        f,
                    )
                &&& keys_sorted(c.keys@)
                &&& forall|k: Key|
                    #[trigger] c.keys@.contains(k) <==> ((exists|f: Finish|
                        latest_finish(before.assignments@, k, f) != latest_finish(
                            after.assignments@,
                            k,
                            f,
                        )) || (previous is Some && k == previous->0.key()))
            },
    {
        let old_observation = Observation::from_state(before);
        let observation = Observation::from_state(after);
        let keys = commit_keys(&old_observation, &observation, previous);
        match previous {
            Some(a) => {
                match cache.check_previous(a) {
                    Ok(()) => {},
                    Err(e) => {
                        return Err(e);
                    },
                }
            },
            None => {},
        }
        assert forall|k: Key|
            #[trigger] keys@.contains(k) <==> ((exists|f: Finish|
                latest_finish(before.assignments@, k, f) != latest_finish(
                    after.assignments@,
                    k,
                    f,
                )) || (previous is Some && k == previous->0.key())) by {
            if differs(old_observation, observation, k) {
                let f = choose|f: Finish|
                    old_observation.finished@.contains((k, f)) != observation.finished@.contains(
                        (k, f),
                    );
                assert(latest_finish(before.assignments@, k, f) != latest_finish(
                    after.assignments@,
                    k,
                    f,
                ));
            }
            if exists|f: Finish|
                latest_finish(before.assignments@, k, f) != latest_finish(
                    after.assignments@,
                    k,
                    f,
                ) {
                let f = choose|f: Finish|
                    latest_finish(before.assignments@, k, f) != latest_finish(
                        after.assignments@,
                        k,
                        f,
                    );
                assert(old_observation.finished@.contains((k, f)) != observation.finished@.contains(
                    (k, f),
                ));
            }
        }
        Ok(ReviewHistoryCommit { image, observation, keys })
    }

    /// The commit was published: its observation enters the history.
    pub fn observe(self, cache: &mut ReviewHistoryCache)
        requires
            old(cache).wf(),
            self.observation.wf(),
        ensures
            final(cache).wf(),
            final(cache).generation == old(cache).generation,
            match old(cache).projection {
                Some(p) => {
                    &&& final(cache).projection is Some
                    &&& final(cache).pending@ == old(cache).pending@
                    &&& final(cache).projection->0.observed() == if p.observed().contains_key(
                        self.image,
                    ) {
                        observe_step(
                            p.observed(),
                            self.image,
                            (self.observation.sequence, self.observation.finished@),
                        )
                    } else {
                        p.observed()
                    }
                },
                None => {
                    &&& final(cache).projection is None
                    &&& final(cache).pending_view() == observe_step(
                        old(cache).pending_view(),
                        self.image,
                        (self.observation.sequence, self.observation.finished@),
                    )
                },
            },
    {
        cache.observe(self.image, self.observation);
    }

    /// The commit ended without recording its observation (it failed or was
    /// interrupted after possibly publishing): when it held any key the history
    /// is discarded, since it may miss the change.
    pub fn abandon(self, cache: &mut ReviewHistoryCache)
        requires
            old(cache).wf(),
        ensures
            final(cache).wf(),
            self.keys@.len() > 0 ==> final(cache).projection is None && final(cache).pending@.len() == 0
                && final(cache).generation == (if old(cache).generation == u64::MAX {
                0
            } else {
                old(cache).generation + 1
            }),
            self.keys@.len() == 0 ==> *final(cache) == *old(cache),
    {
        if self.keys.len() > 0 {
            cache.invalidate();
        }
    }
}

} // verus!
