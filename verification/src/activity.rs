//! Today's activity of the current user: the UTC day it belongs to, when a shown
//! value has expired, which replies can be trusted, and the per-user totals that
//! the storage caches for one day and one generation of the dataset.
use vstd::prelude::*;

use crate::assignment::UserId;
use crate::export::DatasetId;
use crate::keyed::{find_key, has_key, keys_unique, lemma_lookup_at, lemma_lookup_push, lemma_lookup_update, lookup};

verus! {

/// Milliseconds in a UTC day.
pub const DAY_MILLIS: i64 = 86_400_000;

/// The largest magnitude of a representable time, in milliseconds since the UNIX
/// epoch (the range of calendar dates that times are drawn from).
pub const MAX_MILLIS: i64 = 8_210_298_412_799_999;

/// A multiple of [`DAY_MILLIS`] that lifts every representable time above zero.
const LIFT_MILLIS: i64 = 8_640_000_000_000_000;

/// `t` is a representable time.
pub open spec fn representable_millis(t: int) -> bool {
    -MAX_MILLIS <= t <= MAX_MILLIS
}

/// The UTC day that activity is counted for: from `start` (inclusive) to `end`
/// (exclusive), in milliseconds since the UNIX epoch.
#[derive(Clone, Copy, Debug, PartialEq, Eq, Structural)]
pub struct UtcActivityWindow {
    pub start: i64,
    pub end: i64,
}

/// The start of the UTC day containing time `t`.
pub open spec fn day_start(t: int) -> int {
    (t / (DAY_MILLIS as int)) * DAY_MILLIS
}

/// The window of the UTC day containing time `t`.
pub open spec fn window_of(t: int) -> UtcActivityWindow {
    UtcActivityWindow { start: day_start(t) as i64, end: (day_start(t) + DAY_MILLIS) as i64 }
}

/// Activity windows are whole UTC days: the day of `t` starts at a multiple
/// of a day's length, no later than `t`, and ends one day later, after `t`;
/// every time in it has the same day.
pub proof fn windows_are_whole_days(t: int, u: int)
    ensures
        day_start(t) <= t < day_start(t) + DAY_MILLIS,
        day_start(t) % (DAY_MILLIS as int) == 0,
        day_start(t) <= u < day_start(t) + DAY_MILLIS ==> day_start(u) == day_start(t),
{
    let f = DAY_MILLIS as int;
    let q = t / f;
    vstd::arithmetic::div_mod::lemma_fundamental_div_mod(t, f);
    vstd::arithmetic::div_mod::lemma_mod_bound(t, f);
    vstd::arithmetic::div_mod::lemma_mod_multiples_basic(q, f);
    assert(day_start(t) == q * f);
    assert(q * f <= t < q * f + f) by (nonlinear_arith)
        requires
            t == f * q + t % f,
            0 <= t % f < f,
    ;
    if q * f <= u < q * f + f {
        vstd::arithmetic::div_mod::lemma_fundamental_div_mod_converse_div(u, f, q, u - q * f);
    }
}

impl UtcActivityWindow {
    /// The UTC day containing time `t`.
    pub fn containing(t: i64) -> (w: UtcActivityWindow)
        requires
            representable_millis(t as int),
        ensures
            w == window_of(t as int),
            w.start <= t < w.end,
    {
        let lifted = (t + LIFT_MILLIS) as u64;
        let days = lifted / 86_400_000;
        proof {
            let ti = t as int;
            let f = DAY_MILLIS as int;
            let q0 = ti / f;
            let r0 = ti % f;
            vstd::arithmetic::div_mod::lemma_fundamental_div_mod(ti, f);
            vstd::arithmetic::div_mod::lemma_mod_bound(ti, f);
            assert(ti + LIFT_MILLIS == (q0 + 100_000_000) * f + r0) by (nonlinear_arith)
                requires
                    ti == f * q0 + r0,
                    f == 86_400_000,
                    LIFT_MILLIS == 8_640_000_000_000_000,
            ;
            vstd::arithmetic::div_mod::lemma_fundamental_div_mod_converse_div(
                ti + LIFT_MILLIS,
                f,
                q0 + 100_000_000,
                r0,
            );
            assert(days == q0 + 100_000_000);
            assert(-100_000_000 <= q0 < 100_000_000) by (nonlinear_arith)
                requires
                    ti == f * q0 + r0,
                    0 <= r0 < f,
                    f == 86_400_000,
                    -MAX_MILLIS <= ti <= MAX_MILLIS,
            ;
            assert(q0 * f == (q0 * f)) ;
            assert(-8_640_000_000_000_000 <= q0 * f <= 8_640_000_000_000_000) by (nonlinear_arith)
                requires
                    -100_000_000 <= q0 < 100_000_000,
                    f == 86_400_000,
            ;
        }
        let start = (days as i64 - 100_000_000) * 86_400_000;
        UtcActivityWindow { start, end: start + 86_400_000 }
    }

    /// Time `t` lies in the window.
    pub fn contains(&self, t: i64) -> (r: bool)
        ensures
            r == (self.start <= t && t < self.end),
    {
        self.start <= t && t < self.end
    }
}

/// Work counted for one user on one UTC day.
#[derive(Clone, Copy, Debug, PartialEq, Eq, Structural)]
pub struct DailyActivityCounts {
    pub annotation_tasks_submitted: u64,
    pub final_task_reviews: u64,
}

/// What the server reports as the current user's activity.
#[derive(Clone, Copy, Debug, PartialEq, Eq, Structural)]
pub struct CurrentUserActivity {
    pub dataset_id: DatasetId,
    pub user_id: UserId,
    pub window: UtcActivityWindow,
    /// When the server counted, in milliseconds since the UNIX epoch.
    pub sampled_at: i64,
    pub counts: DailyActivityCounts,
}

/// Polling today's activity: for whom, what was last heard, and the server's clock.
pub struct ActivityState {
    /// The server address, the user and the dataset that activity is polled for.
    pub identity: Option<(String, UserId, DatasetId)>,
    pub value: Option<CurrentUserActivity>,
    pub pending_request: Option<u64>,
    /// When activity was last requested, on the app's clock (milliseconds).
    pub last_attempt: Option<u64>,
    /// The server's time, and when it was received on the app's clock.
    pub server_clock: Option<(i64, u64)>,
    pub error: Option<String>,
    /// Request again once the pending request is answered.
    pub refresh_after_load: bool,
}

/// The message shown for a reply that does not belong to the current user,
/// dataset or day.
pub open spec fn mismatch_message() -> Seq<char> {
    "Activity response did not match the current user, dataset or UTC day."@
}

/// Time elapsed on the app's clock from `then` to `now` (none if the clock went back).
pub open spec fn elapsed(now: u64, then: u64) -> int {
    if now >= then {
        now - then
    } else {
        0
    }
}

impl ActivityState {
    /// Nothing polled yet.
    pub fn new() -> (s: ActivityState)
        ensures
            s.identity is None,
            s.value is None,
            s.pending_request is None,
            s.last_attempt is None,
            s.server_clock is None,
            s.error is None,
            !s.refresh_after_load,
    {
        ActivityState {
            identity: None,
            value: None,
            pending_request: None,
            last_attempt: None,
            server_clock: None,
            error: None,
            refresh_after_load: false,
        }
    }

    /// The server's time at app time `now`, if known.
    pub open spec fn server_now(self, now: u64) -> Option<int> {
        match self.server_clock {
            Some((server_time, received)) => Some(server_time + elapsed(now, received)),
            None => None,
        }
    }

    /// The server's time, as received and at `now`, is representable.
    pub open spec fn clock_fits(self, now: u64) -> bool {
        match self.server_clock {
            Some((server_time, received)) => representable_millis(server_time as int) && representable_millis(
                server_time + elapsed(now, received),
            ),
            None => true,
        }
    }

    /// The UTC day the server is in at app time `now`, if its clock is known.
    pub fn expected_window(&self, now: u64) -> (w: Option<UtcActivityWindow>)
        requires
            self.clock_fits(now),
        ensures
            w == match self.server_now(now) {
                Some(t) => Some(window_of(t)),
                None => None,
            },
    {
        match self.server_clock {
            Some((server_time, received)) => {
                let passed: u64 = if now >= received {
                    now - received
                } else {
                    0
                };
                assert(passed == elapsed(now, received));
                assert(server_time + passed <= MAX_MILLIS);
                Some(UtcActivityWindow::containing(server_time + passed as i64))
            },
            None => None,
        }
    }

    /// A shown value from a day that has passed is dropped, with its error and
    /// the time of the last attempt, so that it is requested again; tells whether
    /// it was.
    pub fn expire_previous_day(&mut self, now: u64) -> (expired: bool)
        requires
            old(self).clock_fits(now),
        ensures
            expired == (old(self).value is Some && old(self).server_now(now) is Some && old(self).value->0.window
                != window_of(old(self).server_now(now)->0)),
            expired ==> final(self).value is None && final(self).error is None && final(self).last_attempt is None,
            !expired ==> final(self).value == old(self).value && final(self).error == old(self).error
                && final(self).last_attempt == old(self).last_attempt,
            final(self).identity == old(self).identity,
            final(self).pending_request == old(self).pending_request,
            final(self).server_clock == old(self).server_clock,
            final(self).refresh_after_load == old(self).refresh_after_load,
    {
        let stale = match self.value {
            Some(value) => match self.expected_window(now) {
                Some(window) => value.window != window,
                None => false,
            },
            None => false,
        };
        if stale {
            self.value = None;
            self.error = None;
            self.last_attempt = None;
        }
        stale
    }

    /// Work was completed: activity is requested now (`true`), or once the pending
    /// request is answered.
    pub fn work_completed(&mut self) -> (request_now: bool)
        ensures
            request_now == old(self).pending_request is None,
            final(self).refresh_after_load == (old(self).refresh_after_load || old(self).pending_request is Some),
            final(self).identity == old(self).identity,
            final(self).value == old(self).value,
            final(self).pending_request == old(self).pending_request,
            final(self).last_attempt == old(self).last_attempt,
            final(self).server_clock == old(self).server_clock,
            final(self).error == old(self).error,
    {
        if self.pending_request.is_some() {
            self.refresh_after_load = true;
            false
        } else {
            true
        }
    }
}

/// The reply `v` can be trusted, for `server`, `user` and `dataset`, when it took
/// at most `transit` to arrive and the server was expected in `expected`: it is
/// for them, its window is the day it was sampled in and still holds once the
/// transit has passed, and it is not from an earlier day than expected.
pub open spec fn trusted(
    identity: Option<(String, UserId, DatasetId)>,
    server: Seq<char>,
    user: UserId,
    dataset: DatasetId,
    v: CurrentUserActivity,
    transit: int,
    expected: Option<UtcActivityWindow>,
) -> bool {
    &&& identity matches Some(id) && id.0@ == server && id.1 == user && id.2 == dataset
    &&& v.dataset_id == dataset
    &&& v.user_id == user
    &&& v.window == window_of(v.sampled_at as int)
    &&& v.window.start <= v.sampled_at + transit < v.window.end
    &&& (expected matches Some(w) ==> v.window.start >= w.start)
}

impl ActivityState {
    /// Takes in the result of activity request `request_id` at app time `now`,
    /// polled for `server`, `user` and `dataset`. Results of another request change
    /// nothing. Otherwise the request ends and a value of a passed day is dropped; a
    /// trusted reply is shown and the server's clock set to its sampling time plus
    /// the round trip (an upper bound on its transit); another reply or an error is
    /// shown as an error. Tells whether to request activity again now.
    pub fn accept(
        &mut self,
        request_id: u64,
        result: Result<CurrentUserActivity, String>,
        server: &String,
        user: UserId,
        dataset: DatasetId,
        now: u64,
    ) -> (request_again: bool)
        requires
            old(self).clock_fits(now),
            result matches Ok(v) ==> representable_millis(v.sampled_at as int) && representable_millis(
                v.sampled_at + match old(self).last_attempt {
                    Some(started) => elapsed(now, started),
                    None => 0,
                },
            ),
        ensures
            ({
                let expired = old(self).value is Some && old(self).server_now(now) is Some
                    && old(self).value->0.window != window_of(old(self).server_now(now)->0);
                let transit = match old(self).last_attempt {
                    Some(started) => if expired {
                        0
                    } else {
                        elapsed(now, started)
                    },
                    None => 0,
                };
                if old(self).pending_request != Some(request_id) {
                    *final(self) == *old(self) && !request_again
                } else {
                    let expected = match old(self).server_now(now) {
                        Some(t) => Some(window_of(t)),
                        None => None,
                    };
                    &&& final(self).pending_request is None
                    &&& final(self).identity == old(self).identity
                    &&& request_again == old(self).refresh_after_load
                    &&& !final(self).refresh_after_load
                    &&& final(self).last_attempt == if expired {
                        None
                    } else {
                        old(self).last_attempt
                    }
                    &&& match result {
                        Ok(v) => if trusted(old(self).identity, server@, user, dataset, v, transit, expected) {
                            &&& final(self).value == Some(v)
                            &&& final(self).server_clock == Some(((v.sampled_at + transit) as i64, now))
                            &&& final(self).error is None
                        } else {
                            &&& final(self).value == if expired {
                                None
                            } else {
                                old(self).value
                            }
                            &&& final(self).server_clock == old(self).server_clock
                            &&& final(self).error matches Some(e) && e@ == mismatch_message()
                        },
                        Err(e) => {
                            &&& final(self).value == if expired {
                                None
                            } else {
                                old(self).value
                            }
                            &&& final(self).server_clock == old(self).server_clock
                            &&& final(self).error == Some(e)
                        },
                    }
                }
            }),
    {
        if self.pending_request != Some(request_id) {
            return false;
        }
        self.pending_request = None;
        let expected = self.expected_window(now);
        self.expire_previous_day(now);
        let transit: u64 = match self.last_attempt {
            Some(started) => if now >= started {
                now - started
            } else {
                0
            },
            None => 0,
        };
        assert(match result {
            Ok(v) => representable_millis(v.sampled_at + transit),
            Err(_) => true,
        });
        match result {
            Ok(value) => {
                let for_us = match &self.identity {
                    Some(id) => id.0 == *server && id.1 == user && id.2 == dataset,
                    None => false,
                };
                let arrived = value.sampled_at + transit as i64;
                let trusted_reply = for_us && value.dataset_id == dataset && value.user_id == user
                    && value.window == UtcActivityWindow::containing(value.sampled_at)
                    && value.window.contains(arrived) && match expected {
                    Some(w) => value.window.start >= w.start,
                    None => true,
                };
                if trusted_reply {
                    self.server_clock = Some((arrived, now));
                    self.value = Some(value);
                    self.error = None;
                } else {
                    self.error = Some(String::from_str("Activity response did not match the current user, dataset or UTC day."));
                }
            },
            Err(error) => {
                self.error = Some(error);
            },
        }
        let again = self.refresh_after_load;
        self.refresh_after_load = false;
        again
    }
}

/// The counts of user `u` in `users` (zero where the user has none).
pub open spec fn counts_of(users: Seq<(UserId, DailyActivityCounts)>, u: UserId) -> DailyActivityCounts {
    match lookup(users, u) {
        Some(c) => c,
        None => DailyActivityCounts { annotation_tasks_submitted: 0, final_task_reviews: 0 },
    }
}

/// The counts of user `u` in the per-image counts `image`, added up.
pub open spec fn image_total(image: Seq<(UserId, DailyActivityCounts)>, u: UserId) -> (int, int)
    decreases image.len(),
{
    if image.len() == 0 {
        (0, 0)
    } else {
        let rest = image_total(image.drop_last(), u);
        if image.last().0 == u {
            (
                rest.0 + image.last().1.annotation_tasks_submitted,
                rest.1 + image.last().1.final_task_reviews,
            )
        } else {
            rest
        }
    }
}

/// The counts of one day and one generation of the dataset, per user.
pub struct CachedActivity {
    generation: u64,
    window: UtcActivityWindow,
    users: Vec<(UserId, DailyActivityCounts)>,
}

impl CachedActivity {
    /// The generation of the dataset that was counted.
    pub closed spec fn generation(self) -> u64 {
        self.generation
    }

    /// The day that was counted.
    pub closed spec fn window(self) -> UtcActivityWindow {
        self.window
    }

    /// The counts per user.
    pub closed spec fn users(self) -> Seq<(UserId, DailyActivityCounts)> {
        self.users@
    }

    /// Each user is counted once.
    pub closed spec fn wf(self) -> bool {
        keys_unique(self.users@)
    }

    /// Nothing counted yet for `window` at `generation`.
    pub fn new(generation: u64, window: UtcActivityWindow) -> (c: CachedActivity)
        ensures
            c.wf(),
            c.generation() == generation,
            c.window() == window,
            forall|u: UserId| #[trigger] counts_of(c.users(), u) == (DailyActivityCounts {
                annotation_tasks_submitted: 0,
                final_task_reviews: 0,
            }),
    {
        CachedActivity { generation, window, users: Vec::new() }
    }

    /// Adds the counts of one image, user by user.
    pub fn add_image(&mut self, image: &Vec<(UserId, DailyActivityCounts)>)
        requires
            old(self).wf(),
            forall|u: UserId| #[trigger]
                counts_of(old(self).users(), u).annotation_tasks_submitted + image_total(image@, u).0 <= u64::MAX
                    && counts_of(old(self).users(), u).final_task_reviews + image_total(image@, u).1 <= u64::MAX,
        ensures
            final(self).wf(),
            final(self).generation() == old(self).generation(),
            final(self).window() == old(self).window(),
            forall|u: UserId| #[trigger]
                counts_of(final(self).users(), u).annotation_tasks_submitted == counts_of(old(self).users(), u).annotation_tasks_submitted
                    + image_total(image@, u).0 && counts_of(final(self).users(), u).final_task_reviews
                    == counts_of(old(self).users(), u).final_task_reviews + image_total(image@, u).1,
    {
        let ghost start = self.users@;
        let ghost generation = self.generation;
        let ghost window = self.window;
        assert forall|u: UserId| #[trigger]
            counts_of(start, u).annotation_tasks_submitted + image_total(image@, u).0 <= u64::MAX
                && counts_of(start, u).final_task_reviews + image_total(image@, u).1 <= u64::MAX by {
            assert(counts_of(old(self).users(), u).annotation_tasks_submitted + image_total(image@, u).0 <= u64::MAX);
            assert(counts_of(old(self).users(), u).final_task_reviews + image_total(image@, u).1 <= u64::MAX);
        }
        let mut j: usize = 0;
        while j < image.len()
            invariant
                j <= image@.len(),
                self.generation == generation,
                self.window == window,
                keys_unique(self.users@),
                forall|u: UserId| #[trigger]
                    counts_of(start, u).annotation_tasks_submitted + image_total(image@, u).0 <= u64::MAX
                        && counts_of(start, u).final_task_reviews + image_total(image@, u).1 <= u64::MAX,
                forall|u: UserId| #[trigger]
                    counts_of(self.users@, u).annotation_tasks_submitted == counts_of(start, u).annotation_tasks_submitted
                        + image_total(image@.take(j as int), u).0 && counts_of(self.users@, u).final_task_reviews
                        == counts_of(start, u).final_task_reviews + image_total(image@.take(j as int), u).1,
            decreases image@.len() - j,
        {
            let (u, c) = image[j];
            let ghost before = self.users@;
            proof {
                assert(image@.take(j as int + 1).drop_last() =~= image@.take(j as int));
                lemma_image_total_prefix(image@, j as int + 1, u);
                assert(image@.take(j as int + 1).last() == image@[j as int]);
            }
            match find_key(&self.users, u) {
                Some(i) => {
                    proof {
                        lemma_lookup_at(before, i as int);
                    }
                    let old_counts = self.users[i].1;
                    assert(counts_of(before, u) == old_counts);
                    assert(image_total(image@.take(j as int + 1), u).0 == image_total(image@.take(j as int), u).0 + c.annotation_tasks_submitted);
                    assert(counts_of(start, u).annotation_tasks_submitted + image_total(image@, u).0 <= u64::MAX);
                    let total = DailyActivityCounts {
                        annotation_tasks_submitted: old_counts.annotation_tasks_submitted + c.annotation_tasks_submitted,
                        final_task_reviews: old_counts.final_task_reviews + c.final_task_reviews,
                    };
                    self.users.set(i, (u, total));
                    proof {
                        lemma_lookup_update(before, i as int, total);
                    }
                },
                None => {
                    self.users.push((u, c));
                    proof {
                        lemma_lookup_push(before, u, c);
                    }
                },
            }
            proof {
                assert forall|q: UserId| #[trigger]
                    counts_of(self.users@, q).annotation_tasks_submitted == counts_of(start, q).annotation_tasks_submitted
                        + image_total(image@.take(j as int + 1), q).0 && counts_of(self.users@, q).final_task_reviews
                        == counts_of(start, q).final_task_reviews + image_total(image@.take(j as int + 1), q).1 by {
                    assert(counts_of(before, q).annotation_tasks_submitted == counts_of(start, q).annotation_tasks_submitted
                        + image_total(image@.take(j as int), q).0);
                    assert(counts_of(before, q).final_task_reviews == counts_of(start, q).final_task_reviews
                        + image_total(image@.take(j as int), q).1);
                }
            }
            j += 1;
        }
        assert(image@.take(image@.len() as int) =~= image@);
    }

    /// The counts of user `u` (zero where the user has none).
    pub fn counts(&self, u: UserId) -> (c: DailyActivityCounts)
        requires
            self.wf(),
        ensures
            c == counts_of(self.users(), u),
    {
        match find_key(&self.users, u) {
            Some(i) => {
                proof {
                    lemma_lookup_at(self.users@, i as int);
                }
                self.users[i].1
            },
            None => DailyActivityCounts { annotation_tasks_submitted: 0, final_task_reviews: 0 },
        }
    }
}

/// A prefix of the per-image counts adds up to no more than all of them.
pub proof fn lemma_image_total_prefix(image: Seq<(UserId, DailyActivityCounts)>, j: int, u: UserId)
    requires
        0 <= j <= image.len(),
    ensures
        0 <= image_total(image.take(j), u).0 <= image_total(image, u).0,
        0 <= image_total(image.take(j), u).1 <= image_total(image, u).1,
    decreases image.len(),
{
    if j < image.len() {
        assert(image.drop_last().take(j) =~= image.take(j));
        lemma_image_total_prefix(image.drop_last(), j, u);
    } else {
        assert(image.take(j) =~= image);
        lemma_image_total_nonnegative(image, u);
    }
}

/// Added-up counts are never negative.
pub proof fn lemma_image_total_nonnegative(image: Seq<(UserId, DailyActivityCounts)>, u: UserId)
    ensures
        image_total(image, u).0 >= 0,
        image_total(image, u).1 >= 0,
    decreases image.len(),
{
    if image.len() > 0 {
        lemma_image_total_nonnegative(image.drop_last(), u);
    }
}

/// The cached counts of user `u`, when the cache holds day `window` of generation
/// `generation` (a user without counts has zero); `None` when it must be rebuilt.
pub fn cached_counts(cache: &Option<CachedActivity>, generation: u64, window: UtcActivityWindow, u: UserId) -> (r: Option<DailyActivityCounts>)
    requires
        cache matches Some(c) ==> c.wf(),
    ensures
        r == match cache {
            Some(c) => if c.generation() == generation && c.window() == window {
                Some(counts_of(c.users(), u))
            } else {
                None
            },
            None => None,
        },
{
    match cache {
        Some(c) => if c.generation == generation && c.window == window {
            Some(c.counts(u))
        } else {
            None
        },
        None => None,
    }
}

} // verus!
