//! Scoring focus: a persisted sequence of UTC intervals, each naming the task
//! with the most pending work when it began.
use vstd::prelude::*;

use crate::assignment::{TaskId, Timestamp};

verus! {

/// Length of a focus interval, in seconds.
pub const FOCUS_SECONDS: i64 = 1200;

/// The largest magnitude of a representable timestamp, in seconds (the range of
/// calendar dates that timestamps are drawn from).
pub const MAX_TIMESTAMP_SECONDS: i64 = 8_210_298_412_799;

/// A multiple of [`FOCUS_SECONDS`] that lifts every representable timestamp above zero.
const LIFT: i64 = 8_400_000_000_000;

/// `t` is a representable timestamp.
pub open spec fn representable(t: int) -> bool {
    -MAX_TIMESTAMP_SECONDS <= t <= MAX_TIMESTAMP_SECONDS
}

/// The start of the focus interval containing `t`.
pub open spec fn interval_start(t: int) -> int {
    (t / (FOCUS_SECONDS as int)) * FOCUS_SECONDS
}

/// One focus interval and the task it favoured, if any task had pending work.
#[derive(Clone, Copy, Debug, PartialEq, Eq, Structural)]
pub struct FocusWindow {
    pub starts_at: Timestamp,
    pub ends_at: Timestamp,
    pub task_id: Option<TaskId>,
}

/// The persisted focus history.
pub struct FocusHistory {
    pub version: u32,
    pub windows: Vec<FocusWindow>,
}

impl FocusWindow {
    /// A window is non-empty, ends on an interval boundary and spans at most one interval.
    pub open spec fn valid(self) -> bool {
        &&& representable(self.starts_at as int)
        &&& representable(self.ends_at as int)
        &&& self.starts_at < self.ends_at
        &&& (self.ends_at as int) % (FOCUS_SECONDS as int) == 0
        &&& self.ends_at - self.starts_at <= FOCUS_SECONDS
    }
}

/// Every window is valid and windows follow each other without overlap.
pub open spec fn windows_valid(w: Seq<FocusWindow>) -> bool {
    &&& forall|i: int| 0 <= i < w.len() ==> (#[trigger] w[i]).valid()
    &&& forall|i: int| 0 <= i < w.len() - 1 ==> (#[trigger] w[i]).ends_at <= w[i + 1].starts_at
}

/// `count` is the largest pending count of `pending` (0 when there is none).
pub open spec fn is_maximum(pending: Seq<(TaskId, u64)>, count: u64) -> bool {
    &&& forall|i: int| 0 <= i < pending.len() ==> (#[trigger] pending[i]).1 <= count
    &&& (count == 0 || exists|i: int| 0 <= i < pending.len() && pending[i].1 == count)
}

/// Task ids strictly increase (the order of a map keyed by task).
pub open spec fn tasks_sorted(pending: Seq<(TaskId, u64)>) -> bool {
    forall|i: int, j: int| 0 <= i < j < pending.len() ==> pending[i].0 < pending[j].0
}

/// The task a new window favours: none when nothing is pending; else the
/// previous window's task when it still has the most pending work; else the
/// first task (in task order) with the most pending work.
pub open spec fn chosen_task(
    pending: Seq<(TaskId, u64)>,
    previous: Option<TaskId>,
    maximum: u64,
    chosen: Option<TaskId>,
) -> bool {
    if maximum == 0 {
        chosen is None
    } else if previous is Some && exists|i: int|
        0 <= i < pending.len() && pending[i] == (previous->0, maximum) {
        chosen == previous
    } else {
        exists|i: int|
            0 <= i < pending.len() && pending[i].1 == maximum && chosen == Some(pending[i].0)
                && forall|j: int| 0 <= j < i ==> pending[j].1 != maximum
    }
}

/// A window favours a task with the most pending work: none exactly when no
/// task has any pending work; otherwise a task whose pending count is at least
/// every other task's, the previous window's task whenever it is one of those,
/// and else the first of them in task order.
pub proof fn focus_favours_most_pending(pending: Seq<(TaskId, u64)>, previous: Option<TaskId>, m: u64, chosen: Option<TaskId>)
    requires
        is_maximum(pending, m),
        chosen_task(pending, previous, m, chosen),
    ensures
        chosen is None <==> forall|i: int| 0 <= i < pending.len() ==> (#[trigger] pending[i]).1 == 0,
        chosen matches Some(t) ==> exists|i: int|
            0 <= i < pending.len() && pending[i].0 == t && pending[i].1 > 0 && forall|j: int|
                0 <= j < pending.len() ==> (#[trigger] pending[j]).1 <= pending[i].1,
        (previous is Some && exists|i: int|
            0 <= i < pending.len() && pending[i].0 == previous->0 && pending[i].1 > 0 && forall|j: int|
                0 <= j < pending.len() ==> (#[trigger] pending[j]).1 <= pending[i].1) ==> chosen == previous,
        (chosen is Some && chosen != previous) ==> exists|i: int|
            0 <= i < pending.len() && pending[i].0 == chosen->0 && forall|j: int|
                0 <= j < i ==> (#[trigger] pending[j]).1 < pending[i].1,
{
    if m > 0 {
        let k = choose|i: int| 0 <= i < pending.len() && pending[i].1 == m;
        assert(pending[k].1 != 0);
    } else {
        assert forall|i: int| 0 <= i < pending.len() implies (#[trigger] pending[i]).1 == 0 by {
            assert(pending[i].1 <= m);
        }
    }
    if let Some(p) = previous {
        if exists|i: int|
            0 <= i < pending.len() && pending[i].0 == p && pending[i].1 > 0 && forall|j: int|
                0 <= j < pending.len() ==> (#[trigger] pending[j]).1 <= pending[i].1 {
            let i = choose|i: int|
                0 <= i < pending.len() && pending[i].0 == p && pending[i].1 > 0 && forall|j: int|
                    0 <= j < pending.len() ==> (#[trigger] pending[j]).1 <= pending[i].1;
            let k = choose|q: int| 0 <= q < pending.len() && pending[q].1 == m;
            assert(pending[k].1 <= pending[i].1);
            assert(pending[i].1 <= m);
            assert(pending[i] == (p, m));
        }
    }
    if let Some(t) = chosen {
        if previous is Some && exists|i: int| 0 <= i < pending.len() && pending[i] == (previous->0, m) {
            let i = choose|i: int| 0 <= i < pending.len() && pending[i] == (previous->0, m);
            assert(pending[i].0 == t);
        } else {
            let i = choose|i: int|
                0 <= i < pending.len() && pending[i].1 == m && chosen == Some(pending[i].0) && forall|j: int|
                    0 <= j < i ==> pending[j].1 != m;
            assert forall|j: int| 0 <= j < i implies (#[trigger] pending[j]).1 < pending[i].1 by {
                assert(pending[j].1 <= m);
                assert(pending[j].1 != m);
            }
        }
    }
}

/// Computes the start of the focus interval that contains `t`.
pub fn focus_interval_start(t: Timestamp) -> (s: Timestamp)
    requires
        representable(t as int),
    ensures
        s as int == interval_start(t as int),
        s <= t < s + FOCUS_SECONDS,
        representable(s as int) || s == interval_start(-MAX_TIMESTAMP_SECONDS as int),
{
    let lifted = (t + LIFT) as u64;
    let q = lifted / (FOCUS_SECONDS as u64);
    let s = (q * (FOCUS_SECONDS as u64)) as i64 - LIFT;
    proof {
        let f = FOCUS_SECONDS as int;
        let ti = t as int;
        let q0 = ti / f;
        let r0 = ti % f;
        vstd::arithmetic::div_mod::lemma_fundamental_div_mod(ti, f);
        vstd::arithmetic::div_mod::lemma_mod_bound(ti, f);
        assert(ti + LIFT == (q0 + 7_000_000_000) * f + r0) by (nonlinear_arith)
            requires
                ti == f * q0 + r0,
                f == 1200,
                LIFT == 8_400_000_000_000i64,
        ;
        vstd::arithmetic::div_mod::lemma_fundamental_div_mod_converse_div(
            ti + LIFT,
            f,
            q0 + 7_000_000_000,
            r0,
        );
        assert(q == q0 + 7_000_000_000);
        assert(q * f == q0 * f + LIFT) by (nonlinear_arith)
            requires
                q == q0 + 7_000_000_000,
                f == 1200,
                LIFT == 8_400_000_000_000i64,
        ;
        assert(f * q0 == q0 * f) by (nonlinear_arith);
    }
    s
}

/// The largest pending count (0 for no tasks).
pub fn maximum_pending(pending: &Vec<(TaskId, u64)>) -> (m: u64)
    ensures
        is_maximum(pending@, m),
{
    let mut m: u64 = 0;
    let mut i: usize = 0;
    while i < pending.len()
        invariant
            i <= pending@.len(),
            forall|q: int| 0 <= q < i ==> (#[trigger] pending@[q]).1 <= m,
            m == 0 || exists|q: int| 0 <= q < i && pending@[q].1 == m,
        decreases pending@.len() - i,
    {
        if pending[i].1 > m {
            m = pending[i].1;
        }
        i = i + 1;
    }
    m
}

/// The task a new focus window favours, from the pending counts per task and
/// the task of the previous window.
pub fn choose_focus_task(pending: &Vec<(TaskId, u64)>, previous: Option<TaskId>) -> (r: Option<
    TaskId,
>)
    ensures
        exists|m: u64| is_maximum(pending@, m) && chosen_task(pending@, previous, m, r),
{
    let maximum = maximum_pending(pending);
    if maximum == 0 {
        return None;
    }
    match previous {
        Some(p) => {
            let mut i: usize = 0;
            while i < pending.len()
                invariant
                    i <= pending@.len(),
                    maximum > 0,
                    is_maximum(pending@, maximum),
                    previous == Some(p),
                    forall|q: int| 0 <= q < i ==> pending@[q] != (p, maximum),
                decreases pending@.len() - i,
            {
                if pending[i].0 == p && pending[i].1 == maximum {
                    assert(pending@[i as int] == (p, maximum));
                    assert(chosen_task(pending@, previous, maximum, Some(p)));
                    return Some(p);
                }
                i = i + 1;
            }
        },
        None => {},
    }
    let mut i: usize = 0;
    while i < pending.len()
        invariant
            i <= pending@.len(),
            maximum > 0,
            is_maximum(pending@, maximum),
            forall|q: int| 0 <= q < i ==> pending@[q].1 != maximum,
            previous is Some ==> forall|q: int|
                0 <= q < pending@.len() ==> pending@[q] != (previous->0, maximum),
        decreases pending@.len() - i,
    {
        if pending[i].1 == maximum {
            return Some(pending[i].0);
        }
        i = i + 1;
    }
    assert(false);
    None
}

impl FocusHistory {
    /// The windows of a history that passes validation.
    pub open spec fn valid(self, expected_version: u32) -> bool {
        self.version == expected_version && windows_valid(self.windows@)
    }

    /// A history with no windows yet.
    pub fn new(version: u32) -> (h: FocusHistory)
        ensures
            h.version == version,
            h.windows@.len() == 0,
            h.valid(version),
    {
        FocusHistory { version, windows: Vec::new() }
    }

    /// Checks a loaded history: a wrong version, a malformed window or
    /// overlapping windows make it corrupt.
    pub fn validate(&self, expected_version: u32) -> (ok: bool)
        ensures
            ok == self.valid(expected_version),
    {
        if self.version != expected_version {
            return false;
        }
        let n = self.windows.len();
        let mut i: usize = 0;
        while i < n
            invariant
                n == self.windows@.len(),
                i <= n,
                forall|q: int| 0 <= q < i ==> (#[trigger] self.windows@[q]).valid(),
                forall|q: int| 0 <= q < i && q < n - 1 ==> (#[trigger] self.windows@[q]).ends_at <= self.windows@[q + 1].starts_at,
            decreases n - i,
        {
            let w = self.windows[i];
            if w.starts_at < -MAX_TIMESTAMP_SECONDS || w.starts_at > MAX_TIMESTAMP_SECONDS
                || w.ends_at < -MAX_TIMESTAMP_SECONDS || w.ends_at > MAX_TIMESTAMP_SECONDS {
                return false;
            }
            if w.starts_at >= w.ends_at || w.ends_at - w.starts_at > FOCUS_SECONDS {
                return false;
            }
            if focus_interval_start(w.ends_at) != w.ends_at {
                proof {
                    assert((w.ends_at as int) % 1200 != 0) by (nonlinear_arith)
                        requires
                            ((w.ends_at as int) / 1200) * 1200 != w.ends_at as int,
                    ;
                }
                return false;
            }
            proof {
                assert((w.ends_at as int) % 1200 == 0) by (nonlinear_arith)
                    requires
                        ((w.ends_at as int) / 1200) * 1200 == w.ends_at as int,
                ;
            }
            if i + 1 < n && w.ends_at > self.windows[i + 1].starts_at {
                return false;
            }
            i = i + 1;
        }
        true
    }

    /// Advances the focus to `timestamp`. Before the last window ends nothing
    /// changes (`false`). Otherwise a window for the interval containing
    /// `timestamp` is appended (`true`); the very first window starts at
    /// `timestamp` itself, so no earlier work is credited.
    pub fn advance(&mut self, timestamp: Timestamp, pending: &Vec<(TaskId, u64)>) -> (appended: bool)
        requires
            representable(timestamp as int),
            timestamp < MAX_TIMESTAMP_SECONDS - FOCUS_SECONDS,
        ensures
            final(self).version == old(self).version,
            appended == !(old(self).windows@.len() > 0 && timestamp < old(
                self,
            ).windows@.last().ends_at),
            !appended ==> final(self).windows@ == old(self).windows@,
            windows_valid(old(self).windows@) ==> windows_valid(final(self).windows@),
            appended ==> {
                let w = final(self).windows@.last();
                &&& final(self).windows@ == old(self).windows@.push(w)
                &&& w.ends_at == interval_start(timestamp as int) + FOCUS_SECONDS
                &&& w.starts_at == if old(self).windows@.len() == 0 {
                    timestamp as int
                } else {
                    interval_start(timestamp as int)
                }
                &&& exists|m: u64|
                    is_maximum(pending@, m) && chosen_task(
                        pending@,
                        if old(self).windows@.len() == 0 {
                            None
                        } else {
                            old(self).windows@.last().task_id
                        },
                        m,
                        w.task_id,
                    )
            },
    {
        let n = self.windows.len();
        if n > 0 && timestamp < self.windows[n - 1].ends_at {
            return false;
        }
        let start = focus_interval_start(timestamp);
        let previous = if n == 0 {
            None
        } else {
            self.windows[n - 1].task_id
        };
        let task_id = choose_focus_task(pending, previous);
        let window = FocusWindow {
            starts_at: if n == 0 {
                timestamp
            } else {
                start
            },
            ends_at: start + FOCUS_SECONDS,
            task_id,
        };
        proof {
            if windows_valid(self.windows@) {
                advance_keeps_history_valid(self.windows@, timestamp, window);
            }
        }
        self.windows.push(window);
        true
    }
}

/// Advancing a valid history keeps it valid: the new window is well formed and
/// starts no earlier than the previous window ends.
pub proof fn advance_keeps_history_valid(
    before: Seq<FocusWindow>,
    timestamp: Timestamp,
    window: FocusWindow,
)
    requires
        windows_valid(before),
        representable(timestamp as int),
        before.len() > 0 ==> before.last().ends_at <= timestamp,
        window.ends_at == interval_start(timestamp as int) + FOCUS_SECONDS,
        window.starts_at == if before.len() == 0 {
            timestamp as int
        } else {
            interval_start(timestamp as int)
        },
        timestamp < MAX_TIMESTAMP_SECONDS - FOCUS_SECONDS,
    ensures
        windows_valid(before.push(window)),
{
    let f = FOCUS_SECONDS as int;
    let t = timestamp as int;
    let s = interval_start(t);
    assert(s <= t < s + f) by (nonlinear_arith)
        requires
            s == (t / f) * f,
            f == 1200,
    ;
    assert((s + f) % f == 0) by (nonlinear_arith)
        requires
            s == (t / f) * f,
            f == 1200,
    ;
    if before.len() > 0 {
        let e = before.last().ends_at as int;
        assert(before.last().valid());
        assert(e <= s) by (nonlinear_arith)
            requires
                e % f == 0,
                e <= t,
                s == (t / f) * f,
                f == 1200,
        {
            vstd::arithmetic::div_mod::lemma_fundamental_div_mod(e, f);
            vstd::arithmetic::div_mod::lemma_div_is_ordered(e, t, f);
        }
        assert(representable(window.starts_at as int));
    }
    assert(window.valid());
    let after = before.push(window);
    assert forall|i: int| 0 <= i < after.len() implies (#[trigger] after[i]).valid() by {
        if i < before.len() {
            assert(after[i] == before[i]);
        }
    }
    assert forall|i: int| 0 <= i < after.len() - 1 implies (#[trigger] after[i]).ends_at
        <= after[i + 1].starts_at by {
        assert(after[i] == before[i]);
        if i + 1 < before.len() {
            assert(after[i + 1] == before[i + 1]);
        }
    }
}

} // verus!
