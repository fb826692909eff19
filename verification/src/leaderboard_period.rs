//! The leaderboard's rows for a reporting period: each contributor's days in
//! the period added up, keeping the contributors active in it.
use vstd::prelude::*;

use crate::assignment::UserId;
use crate::review_context::{decimal, decimal_text};
use crate::leaderboard::{ContributorDay, PeriodStart, Row};

verus! {

/// Day `day` lies in the period from `start` to `today`, both included.
pub open spec fn in_period(day: i32, start: PeriodStart, today: i32) -> bool {
    day <= today && match start {
        PeriodStart::Since(s) => s <= day,
        PeriodStart::Always => true,
    }
}

/// The exact sums over the days of `h` in the period: labeled, reviewed,
/// accepted, rejected, then the labeling, reviewing and deducted points.
pub open spec fn period_sum(h: Seq<ContributorDay>, start: PeriodStart, today: i32) -> (int, int, int, int, int, int, int)
    decreases h.len(),
{
    if h.len() == 0 {
        (0, 0, 0, 0, 0, 0, 0)
    } else {
        let s = period_sum(h.drop_last(), start, today);
        let d = h.last();
        if in_period(d.day, start, today) {
            (
                s.0 + d.labeled,
                s.1 + d.reviewed,
                s.2 + d.accepted,
                s.3 + d.rejected,
                s.4 + d.score.labeling,
                s.5 + d.score.reviewing,
                s.6 + d.score.deductions,
            )
        } else {
            s
        }
    }
}

/// The sums of `d`, as [`period_sum`] lists them.
pub open spec fn sums_of(d: ContributorDay) -> (int, int, int, int, int, int, int) {
    (
        d.labeled as int,
        d.reviewed as int,
        d.accepted as int,
        d.rejected as int,
        d.score.labeling as int,
        d.score.reviewing as int,
        d.score.deductions as int,
    )
}

/// Sums that a `ContributorDay` holds: counts in 64 unsigned bits, points in
/// 64 signed bits.
pub open spec fn sums_fit(s: (int, int, int, int, int, int, int)) -> bool {
    &&& s.0 <= u64::MAX && s.1 <= u64::MAX && s.2 <= u64::MAX && s.3 <= u64::MAX
    &&& i64::MIN <= s.4 <= i64::MAX && i64::MIN <= s.5 <= i64::MAX && i64::MIN <= s.6 <= i64::MAX
}

/// Adding up the days of `h` in order never leaves what a `ContributorDay` holds.
pub open spec fn running_sums_fit(h: Seq<ContributorDay>, start: PeriodStart, today: i32) -> bool {
    forall|k: int| 0 <= k <= h.len() ==> #[trigger] sums_fit(period_sum(h.take(k), start, today))
}

/// The contributor did something in the period: a count or a score part is
/// not zero.
pub open spec fn active(s: (int, int, int, int, int, int, int)) -> bool {
    s.0 > 0 || s.1 > 0 || s.2 > 0 || s.3 > 0 || s.4 != 0 || s.5 != 0 || s.6 != 0
}

/// The rows of `people` (id, display name and daily history) for the period:
/// id, name and sums of each contributor active in it, in order.
pub open spec fn period_people(people: Seq<(UserId, String, Vec<ContributorDay>)>, start: PeriodStart, today: i32) -> Seq<
    (UserId, Seq<char>, (int, int, int, int, int, int, int)),
>
    decreases people.len(),
{
    if people.len() == 0 {
        Seq::empty()
    } else {
        let rest = period_people(people.drop_last(), start, today);
        let p = people.last();
        let s = period_sum(p.2@, start, today);
        if active(s) {
            rest.push((p.0, p.1@, s))
        } else {
            rest
        }
    }
}

/// The sums of two stretches of days added part by part.
pub open spec fn sums_plus(x: (int, int, int, int, int, int, int), y: (int, int, int, int, int, int, int)) -> (
    int,
    int,
    int,
    int,
    int,
    int,
    int,
) {
    (x.0 + y.0, x.1 + y.1, x.2 + y.2, x.3 + y.3, x.4 + y.4, x.5 + y.5, x.6 + y.6)
}

/// A single day counts in full when it lies in the period: not after `today`
/// and, for a period with a first day, not before it (both ends included);
/// otherwise it counts nothing.
pub proof fn period_of_one_day(d: ContributorDay, start: PeriodStart, today: i32)
    ensures
        period_sum(seq![d], start, today) == if d.day <= today && match start {
            PeriodStart::Since(first) => first <= d.day,
            PeriodStart::Always => true,
        } {
            sums_of(d)
        } else {
            (0int, 0int, 0int, 0int, 0int, 0int, 0int)
        },
{
    let s = seq![d];
    assert(s.drop_last() =~= Seq::<ContributorDay>::empty());
    assert(period_sum(s.drop_last(), start, today) == (0int, 0int, 0int, 0int, 0int, 0int, 0int));
    assert(s.last() == d);
}

/// A period's sums add up over two stretches of days.
pub proof fn period_sums_add_up(a: Seq<ContributorDay>, b: Seq<ContributorDay>, start: PeriodStart, today: i32)
    ensures
        period_sum(a + b, start, today) == sums_plus(period_sum(a, start, today), period_sum(b, start, today)),
    decreases b.len(),
{
    if b.len() == 0 {
        assert(a + b =~= a);
    } else {
        period_sums_add_up(a, b.drop_last(), start, today);
        assert((a + b).drop_last() =~= a + b.drop_last());
        assert((a + b).last() == b.last());
    }
}

/// A period's counts are never negative.
proof fn lemma_period_counts_nonnegative(h: Seq<ContributorDay>, start: PeriodStart, today: i32)
    ensures
        period_sum(h, start, today).0 >= 0 && period_sum(h, start, today).1 >= 0 && period_sum(h, start, today).2 >= 0
            && period_sum(h, start, today).3 >= 0,
    decreases h.len(),
{
    if h.len() > 0 {
        lemma_period_counts_nonnegative(h.drop_last(), start, today);
    }
}

/// The leaderboard keeps exactly the contributors who did something in the
/// period: a row (id, name, sums) is listed exactly when some contributor
/// has that id and name and those sums over the period, and they are not
/// all zero.
pub proof fn rows_keep_exactly_the_active(
    people: Seq<(UserId, String, Vec<ContributorDay>)>,
    start: PeriodStart,
    today: i32,
    x: (UserId, Seq<char>, (int, int, int, int, int, int, int)),
)
    ensures
        period_people(people, start, today).contains(x) <==> exists|j: int|
            0 <= j < people.len() && (#[trigger] people[j]).0 == x.0 && people[j].1@ == x.1 && x.2 == period_sum(
                people[j].2@,
                start,
                today,
            ) && x.2 != (0int, 0int, 0int, 0int, 0int, 0int, 0int),
    decreases people.len(),
{
    if people.len() > 0 {
        let init = people.drop_last();
        let p = people.last();
        rows_keep_exactly_the_active(init, start, today, x);
        lemma_period_counts_nonnegative(p.2@, start, today);
        let rest = period_people(init, start, today);
        let out = period_people(people, start, today);
        let sp = period_sum(p.2@, start, today);
        let row = (p.0, p.1@, sp);
        if active(sp) {
            assert(out == rest.push(row));
        } else {
            assert(out == rest);
        }
        assert(active(sp) <==> sp != (0int, 0int, 0int, 0int, 0int, 0int, 0int));
        if rest.contains(x) {
            let k = choose|k: int| 0 <= k < rest.len() && rest[k] == x;
            assert(out[k] == x);
        }
        if out.contains(x) {
            let i = choose|i: int| 0 <= i < out.len() && out[i] == x;
            if i < rest.len() {
                assert(rest[i] == x);
                let j = choose|j: int|
                    0 <= j < init.len() && (#[trigger] init[j]).0 == x.0 && init[j].1@ == x.1 && x.2 == period_sum(
                        init[j].2@,
                        start,
                        today,
                    ) && x.2 != (0int, 0int, 0int, 0int, 0int, 0int, 0int);
                assert(people[j] == init[j]);
            } else {
                assert(x == row);
                assert(people[people.len() - 1] == p);
            }
        }
        if exists|j: int|
            0 <= j < people.len() && (#[trigger] people[j]).0 == x.0 && people[j].1@ == x.1 && x.2 == period_sum(
                people[j].2@,
                start,
                today,
            ) && x.2 != (0int, 0int, 0int, 0int, 0int, 0int, 0int) {
            let j = choose|j: int|
                0 <= j < people.len() && (#[trigger] people[j]).0 == x.0 && people[j].1@ == x.1 && x.2 == period_sum(
                    people[j].2@,
                    start,
                    today,
                ) && x.2 != (0int, 0int, 0int, 0int, 0int, 0int, 0int);
            if j < init.len() {
                assert(init[j] == people[j]);
            } else {
                assert(people[j] == p);
                assert(x == row);
                assert(out[rest.len() as int] == x);
            }
        }
    }
}

/// The total of `history` over the period, if the contributor was active in it
/// (the total's day is 0: it is a sum).
pub fn period_total(history: &Vec<ContributorDay>, start: PeriodStart, today: i32) -> (r: Option<ContributorDay>)
    requires
        running_sums_fit(history@, start, today),
    ensures
        match r {
            Some(t) => active(period_sum(history@, start, today)) && sums_of(t) == period_sum(history@, start, today)
                && t.day == 0,
            None => !active(period_sum(history@, start, today)),
        },
{
    let mut total = ContributorDay::zero();
    let mut i: usize = 0;
    proof {
        assert(history@.take(0) =~= Seq::<ContributorDay>::empty());
    }
    while i < history.len()
        invariant
            i <= history@.len(),
            running_sums_fit(history@, start, today),
            sums_of(total) == period_sum(history@.take(i as int), start, today),
            total.day == 0,
        decreases history@.len() - i,
    {
        let d = history[i];
        proof {
            assert(history@.take(i as int + 1).drop_last() =~= history@.take(i as int));
            assert(history@.take(i as int + 1).last() == d);
            assert(sums_fit(period_sum(history@.take(i as int + 1), start, today)));
        }
        let inside = d.day <= today && match start {
            PeriodStart::Since(s) => s <= d.day,
            PeriodStart::Always => true,
        };
        if inside {
            crate::leaderboard::add(&mut total, &d);
        }
        i += 1;
    }
    proof {
        assert(history@.take(history@.len() as int) =~= history@);
    }
    if total.labeled > 0 || total.reviewed > 0 || total.accepted > 0 || total.rejected > 0 || total.score.labeling != 0
        || total.score.reviewing != 0 || total.score.deductions != 0 {
        Some(total)
    } else {
        None
    }
}

/// The leaderboard rows for the period from `start` to `today`: for each of
/// `people` (id, display name and daily history) active in the period, in
/// order, a row with the sum of its days in the period.
pub fn period_rows(people: &Vec<(UserId, String, Vec<ContributorDay>)>, start: PeriodStart, today: i32) -> (r: Vec<Row>)
    requires
        forall|j: int| 0 <= j < people@.len() ==> running_sums_fit((#[trigger] people@[j]).2@, start, today),
    ensures
        r@.len() == period_people(people@, start, today).len(),
        forall|k: int|
            0 <= k < r@.len() ==> {
                let e = period_people(people@, start, today)[k];
                &&& (#[trigger] r@[k]).id == e.0
                &&& r@[k].name@ == e.1
                &&& sums_of(r@[k].total) == e.2
                &&& r@[k].total.day == 0
            },
{
    let mut r: Vec<Row> = Vec::new();
    let mut j: usize = 0;
    proof {
        assert(people@.take(0) =~= Seq::<(UserId, String, Vec<ContributorDay>)>::empty());
    }
    while j < people.len()
        invariant
            j <= people@.len(),
            forall|q: int| 0 <= q < people@.len() ==> running_sums_fit((#[trigger] people@[q]).2@, start, today),
            r@.len() == period_people(people@.take(j as int), start, today).len(),
            forall|k: int|
                0 <= k < r@.len() ==> {
                    let e = period_people(people@.take(j as int), start, today)[k];
                    &&& (#[trigger] r@[k]).id == e.0
                    &&& r@[k].name@ == e.1
                    &&& sums_of(r@[k].total) == e.2
                    &&& r@[k].total.day == 0
                },
        decreases people@.len() - j,
    {
        let ghost before = r@;
        let p = &people[j];
        proof {
            assert(people@.take(j as int + 1).drop_last() =~= people@.take(j as int));
            assert(people@.take(j as int + 1).last() == people@[j as int]);
        }
        match period_total(&p.2, start, today) {
            Some(total) => {
                let name = p.1.clone();
                r.push(Row { id: p.0, name, total });
                proof {
                    assert forall|k: int| 0 <= k < r@.len() implies {
                        let e = period_people(people@.take(j as int + 1), start, today)[k];
                        &&& (#[trigger] r@[k]).id == e.0
                        &&& r@[k].name@ == e.1
                        &&& sums_of(r@[k].total) == e.2
                        &&& r@[k].total.day == 0
                    } by {
                        if k < before.len() {
                            assert(r@[k] == before[k]);
                        }
                    }
                }
            },
            None => {},
        }
        j += 1;
    }
    proof {
        assert(people@.take(people@.len() as int) =~= people@);
    }
    r
}

/// The shade of a day with `count` activities in the activity calendar, from 0
/// (none) to 4, relative to the busiest day's `maximum`.
pub open spec fn activity_level_of(count: u64, maximum: u64) -> int {
    let m: int = if maximum > 1 { maximum as int } else { 1 };
    let l = (count * 4 + m - 1) / m;
    if l < 4 {
        l
    } else {
        4
    }
}

/// A day's shade is four times its share of the busiest day's activities,
/// rounded up and capped at 4 (a busiest count of 0 counting as 1): shade `l`
/// below 4 is the least `l` with `l * maximum >= 4 * count`, and the shade is
/// 4 exactly when `4 * count` exceeds three times the maximum. So a day
/// without activity has shade 0, any other day at least 1, and more activity
/// never gives a lighter shade.
pub proof fn activity_level_is_a_rounded_up_share(count: u64, maximum: u64, more: u64)
    ensures
        ({
            let m: int = if maximum > 1 { maximum as int } else { 1 };
            let l = activity_level_of(count, maximum);
            &&& 0 <= l <= 4
            &&& l < 4 ==> l * m >= 4 * count && (l == 0 || (l - 1) * m < 4 * count)
            &&& (l == 4 <==> 4 * count > 3 * m)
        }),
        (activity_level_of(count, maximum) == 0 <==> count == 0),
        count <= more ==> activity_level_of(count, maximum) <= activity_level_of(more, maximum),
{
    let m: int = if maximum > 1 { maximum as int } else { 1 };
    let c = count as int;
    let q = (c * 4 + m - 1) / m;
    vstd::arithmetic::div_mod::lemma_fundamental_div_mod(c * 4 + m - 1, m);
    vstd::arithmetic::div_mod::lemma_mod_bound(c * 4 + m - 1, m);
    let r = (c * 4 + m - 1) % m;
    assert(c * 4 + m - 1 == m * q + r);
    assert(q >= 0) by (nonlinear_arith)
        requires
            c * 4 + m - 1 == m * q + r,
            0 <= r < m,
            c >= 0,
            m >= 1,
    ;
    assert(q * m >= 4 * c && (q == 0 || (q - 1) * m < 4 * c)) by (nonlinear_arith)
        requires
            c * 4 + m - 1 == m * q + r,
            0 <= r < m,
            m >= 1,
    ;
    assert(q >= 4 <==> 4 * c > 3 * m) by (nonlinear_arith)
        requires
            q * m >= 4 * c,
            q == 0 || (q - 1) * m < 4 * c,
            q >= 0,
            m >= 1,
    ;
    assert(q == 0 <==> c == 0) by (nonlinear_arith)
        requires
            q * m >= 4 * c,
            q == 0 || (q - 1) * m < 4 * c,
            q >= 0,
            c >= 0,
            m >= 1,
    ;
    if count <= more {
        vstd::arithmetic::div_mod::lemma_div_is_ordered(c * 4 + m - 1, more as int * 4 + m - 1, m);
    }
}

/// The shade of a day with `count` activities, given the busiest day's `maximum`.
pub fn activity_level(count: u64, maximum: u64) -> (r: usize)
    ensures
        r == activity_level_of(count, maximum),
{
    let m: u128 = if maximum > 1 { maximum as u128 } else { 1 };
    let l = (count as u128 * 4 + m - 1) / m;
    if l < 4 {
        l as usize
    } else {
        4
    }
}

/// The activities (labeled plus reviewed) of the days of `daily` (day,
/// labeled, reviewed) from `start` to `today`: their sum and the largest.
pub open spec fn activity_totals(daily: Seq<(i32, u64, u64)>, start: i32, today: i32) -> (int, int)
    decreases daily.len(),
{
    if daily.len() == 0 {
        (0, 0)
    } else {
        let s = activity_totals(daily.drop_last(), start, today);
        let d = daily.last();
        if start <= d.0 <= today {
            let c = d.1 + d.2;
            (s.0 + c, if c > s.1 { c } else { s.1 })
        } else {
            s
        }
    }
}

/// A single day counts its labeled plus reviewed activities, as the total and
/// as the busiest day, exactly when it lies from `start` to `today`, both
/// included; otherwise it counts nothing.
pub proof fn activity_of_one_day(day: i32, labeled: u64, reviewed: u64, start: i32, today: i32)
    ensures
        activity_totals(seq![(day, labeled, reviewed)], start, today) == if start <= day && day <= today {
            (labeled + reviewed, labeled + reviewed)
        } else {
            (0int, 0int)
        },
{
    let s = seq![(day, labeled, reviewed)];
    assert(s.drop_last() =~= Seq::<(i32, u64, u64)>::empty());
    assert(activity_totals(s.drop_last(), start, today) == (0int, 0int));
    assert(s.last() == (day, labeled, reviewed));
}

/// Activities add up over two stretches of days: the total of both is the sum
/// of their totals, and the busiest day is the busier of their busiest days.
pub proof fn activity_adds_up(a: Seq<(i32, u64, u64)>, b: Seq<(i32, u64, u64)>, start: i32, today: i32)
    ensures
        activity_totals(a + b, start, today).0 == activity_totals(a, start, today).0 + activity_totals(b, start, today).0,
        activity_totals(a + b, start, today).1 == if activity_totals(a, start, today).1 >= activity_totals(b, start, today).1 {
            activity_totals(a, start, today).1
        } else {
            activity_totals(b, start, today).1
        },
    decreases b.len(),
{
    if b.len() == 0 {
        assert(a + b =~= a);
        lemma_totals_nonnegative(a, start, today);
    } else {
        activity_adds_up(a, b.drop_last(), start, today);
        assert((a + b).drop_last() =~= a + b.drop_last());
        assert((a + b).last() == b.last());
    }
}

/// Counting fewer days counts no more.
proof fn lemma_totals_prefix(daily: Seq<(i32, u64, u64)>, start: i32, today: i32, k: int)
    requires
        0 <= k <= daily.len(),
    ensures
        0 <= activity_totals(daily.take(k), start, today).0 <= activity_totals(daily, start, today).0,
        0 <= activity_totals(daily.take(k), start, today).1 <= activity_totals(daily, start, today).1,
    decreases daily.len() - k,
{
    if k < daily.len() {
        lemma_totals_prefix(daily, start, today, k + 1);
        assert(daily.take(k + 1).drop_last() =~= daily.take(k));
    } else {
        assert(daily.take(k) =~= daily);
    }
    lemma_totals_nonnegative(daily.take(k), start, today);
}

proof fn lemma_totals_nonnegative(daily: Seq<(i32, u64, u64)>, start: i32, today: i32)
    ensures
        activity_totals(daily, start, today).0 >= 0,
        activity_totals(daily, start, today).1 >= 0,
        activity_totals(daily, start, today).1 <= activity_totals(daily, start, today).0,
    decreases daily.len(),
{
    if daily.len() > 0 {
        lemma_totals_nonnegative(daily.drop_last(), start, today);
    }
}

/// The total and the busiest day's count of activities from `start` to `today`.
pub fn activity_summary(daily: &Vec<(i32, u64, u64)>, start: i32, today: i32) -> (r: (u64, u64))
    requires
        activity_totals(daily@, start, today).0 <= u64::MAX,
    ensures
        r.0 == activity_totals(daily@, start, today).0,
        r.1 == activity_totals(daily@, start, today).1,
{
    let mut total: u64 = 0;
    let mut maximum: u64 = 0;
    let mut i: usize = 0;
    while i < daily.len()
        invariant
            i <= daily@.len(),
            activity_totals(daily@, start, today).0 <= u64::MAX,
            total == activity_totals(daily@.take(i as int), start, today).0,
            maximum == activity_totals(daily@.take(i as int), start, today).1,
        decreases daily@.len() - i,
    {
        proof {
            assert(daily@.take(i as int + 1).drop_last() =~= daily@.take(i as int));
            assert(daily@.take(i as int + 1).last() == daily@[i as int]);
            lemma_totals_prefix(daily@, start, today, i as int + 1);
            lemma_totals_nonnegative(daily@.take(i as int), start, today);
        }
        let (day, labeled, reviewed) = daily[i];
        if start <= day && day <= today {
            let c = labeled + reviewed;
            total = total + c;
            if c > maximum {
                maximum = c;
            }
        }
        i += 1;
    }
    proof {
        assert(daily@.take(daily@.len() as int) =~= daily@);
    }
    (total, maximum)
}

/// The days of `h` up to `today`, in order.
pub open spec fn days_upto(h: Seq<ContributorDay>, today: i32) -> Seq<ContributorDay>
    decreases h.len(),
{
    if h.len() == 0 {
        h
    } else {
        let rest = days_upto(h.drop_last(), today);
        if h.last().day <= today {
            rest.push(h.last())
        } else {
            rest
        }
    }
}

/// The days that the activity calendar counts: those up to `today` of every
/// contributor of `people` (id and daily history), or only of `selected`.
pub open spec fn activity_entries(people: Seq<(UserId, Vec<ContributorDay>)>, selected: Option<UserId>, today: i32) -> Seq<
    ContributorDay,
>
    decreases people.len(),
{
    if people.len() == 0 {
        Seq::empty()
    } else {
        let rest = activity_entries(people.drop_last(), selected, today);
        let p = people.last();
        if selected is Some && selected != Some(p.0) {
            rest
        } else {
            rest + days_upto(p.1@, today)
        }
    }
}

/// The days the calendar keeps of a history are its days up to `today`, in
/// order: none after `today` is kept and none up to it is lost.
pub proof fn days_upto_keeps_the_days_until_today(h: Seq<ContributorDay>, today: i32, x: ContributorDay)
    ensures
        days_upto(h, today).contains(x) <==> h.contains(x) && x.day <= today,
        days_upto(h, today).len() <= h.len(),
    decreases h.len(),
{
    if h.len() > 0 {
        let init = h.drop_last();
        days_upto_keeps_the_days_until_today(init, today, x);
        let rest = days_upto(init, today);
        let last = h.last();
        let out = days_upto(h, today);
        if last.day <= today {
            assert(out == rest.push(last));
        } else {
            assert(out == rest);
        }
        if rest.contains(x) {
            let k = choose|k: int| 0 <= k < rest.len() && rest[k] == x;
            assert(out[k] == x);
        }
        if init.contains(x) {
            let j = choose|j: int| 0 <= j < init.len() && init[j] == x;
            assert(h[j] == x);
        }
        if h.contains(x) && x.day <= today {
            let i = choose|i: int| 0 <= i < h.len() && h[i] == x;
            if i < h.len() - 1 {
                assert(init[i] == x);
            } else {
                assert(out[rest.len() as int] == x);
            }
        }
        if out.contains(x) {
            let i = choose|i: int| 0 <= i < out.len() && out[i] == x;
            if i < rest.len() {
                assert(rest[i] == x);
            } else {
                assert(x == last);
                assert(h[h.len() - 1] == x);
            }
        }
    }
}

/// The calendar counts the days up to `today` of the selected contributor, or
/// of everyone when nobody is selected: a day is counted exactly when it is
/// one of those, and a day of another contributor, or after `today`, is not.
pub proof fn calendar_counts_the_selected_days(
    people: Seq<(UserId, Vec<ContributorDay>)>,
    selected: Option<UserId>,
    today: i32,
    x: ContributorDay,
)
    ensures
        activity_entries(people, selected, today).contains(x) <==> exists|j: int|
            0 <= j < people.len() && (selected is None || selected == Some(people[j].0)) && (#[trigger] people[j]).1@.contains(x)
                && x.day <= today,
    decreases people.len(),
{
    if people.len() > 0 {
        let init = people.drop_last();
        let p = people.last();
        calendar_counts_the_selected_days(init, selected, today, x);
        days_upto_keeps_the_days_until_today(p.1@, today, x);
        let rest = activity_entries(init, selected, today);
        let taken = !(selected is Some && selected != Some(p.0));
        if taken {
            assert(activity_entries(people, selected, today) == rest + days_upto(p.1@, today));
            lemma_concat_contains(rest, days_upto(p.1@, today), x);
        }
        if exists|j: int|
            0 <= j < people.len() && (selected is None || selected == Some(people[j].0)) && (#[trigger] people[j]).1@.contains(x)
                && x.day <= today {
            let j = choose|j: int|
                0 <= j < people.len() && (selected is None || selected == Some(people[j].0)) && (#[trigger] people[j]).1@.contains(x)
                    && x.day <= today;
            if j < init.len() {
                assert(init[j] == people[j]);
            } else {
                assert(people[j] == p);
            }
        }
        if exists|j: int|
            0 <= j < init.len() && (selected is None || selected == Some(init[j].0)) && (#[trigger] init[j]).1@.contains(x)
                && x.day <= today {
            let j = choose|j: int|
                0 <= j < init.len() && (selected is None || selected == Some(init[j].0)) && (#[trigger] init[j]).1@.contains(x)
                    && x.day <= today;
            assert(people[j] == init[j]);
        }
    }
}

/// `a + b` holds exactly what `a` or `b` holds.
proof fn lemma_concat_contains<T>(a: Seq<T>, b: Seq<T>, x: T)
    ensures
        (a + b).contains(x) <==> a.contains(x) || b.contains(x),
{
    if a.contains(x) {
        let i = choose|i: int| 0 <= i < a.len() && a[i] == x;
        assert((a + b)[i] == x);
    }
    if b.contains(x) {
        let i = choose|i: int| 0 <= i < b.len() && b[i] == x;
        assert((a + b)[a.len() + i] == x);
    }
    if (a + b).contains(x) {
        let i = choose|i: int| 0 <= i < (a + b).len() && (a + b)[i] == x;
        if i < a.len() {
            assert(a[i] == x);
        } else {
            assert(b[i - a.len()] == x);
        }
    }
}

/// Each day's sums add up over two stretches of entries, and a single entry
/// counts its labeled and reviewed tasks for its own day only.
pub proof fn day_sums_add_up(a: Seq<ContributorDay>, b: Seq<ContributorDay>, d: i32, x: ContributorDay)
    ensures
        day_sums(a + b, d) == (day_sums(a, d).0 + day_sums(b, d).0, day_sums(a, d).1 + day_sums(b, d).1),
        day_sums(seq![x], d) == if x.day == d {
            (x.labeled as int, x.reviewed as int)
        } else {
            (0int, 0int)
        },
    decreases b.len(),
{
    if b.len() == 0 {
        assert(a + b =~= a);
    } else {
        day_sums_add_up(a, b.drop_last(), d, x);
        assert((a + b).drop_last() =~= a + b.drop_last());
        assert((a + b).last() == b.last());
    }
    let s = seq![x];
    assert(s.drop_last() =~= Seq::<ContributorDay>::empty());
    assert(day_sums(s.drop_last(), d) == (0int, 0int));
    assert(s.last() == x);
}

/// Labeled and reviewed tasks over the entries of `e` for day `d`.
pub open spec fn day_sums(e: Seq<ContributorDay>, d: i32) -> (int, int)
    decreases e.len(),
{
    if e.len() == 0 {
        (0, 0)
    } else {
        let s = day_sums(e.drop_last(), d);
        if e.last().day == d {
            (s.0 + e.last().labeled, s.1 + e.last().reviewed)
        } else {
            s
        }
    }
}

/// Some entry of `e` is for day `d`.
pub open spec fn has_day(e: Seq<ContributorDay>, d: i32) -> bool {
    exists|i: int| 0 <= i < e.len() && #[trigger] e[i].day == d
}

proof fn lemma_day_sums_prefix(e: Seq<ContributorDay>, d: i32, k: int)
    requires
        0 <= k <= e.len(),
    ensures
        0 <= day_sums(e.take(k), d).0 <= day_sums(e, d).0,
        0 <= day_sums(e.take(k), d).1 <= day_sums(e, d).1,
    decreases e.len() - k,
{
    if k < e.len() {
        lemma_day_sums_prefix(e, d, k + 1);
        assert(e.take(k + 1).drop_last() =~= e.take(k));
    } else {
        assert(e.take(k) =~= e);
    }
    lemma_day_sums_nonnegative(e.take(k), d);
}

proof fn lemma_day_sums_nonnegative(e: Seq<ContributorDay>, d: i32)
    ensures
        day_sums(e, d).0 >= 0,
        day_sums(e, d).1 >= 0,
    decreases e.len(),
{
    if e.len() > 0 {
        lemma_day_sums_nonnegative(e.drop_last(), d);
    }
}

/// The days counted by the activity calendar, as listed by [`activity_entries`].
fn calendar_entries(people: &Vec<(UserId, Vec<ContributorDay>)>, selected: Option<UserId>, today: i32) -> (r: Vec<ContributorDay>)
    ensures
        r@ == activity_entries(people@, selected, today),
{
    let mut r: Vec<ContributorDay> = Vec::new();
    let mut j: usize = 0;
    proof {
        assert(people@.take(0) =~= Seq::<(UserId, Vec<ContributorDay>)>::empty());
    }
    while j < people.len()
        invariant
            j <= people@.len(),
            r@ == activity_entries(people@.take(j as int), selected, today),
        decreases people@.len() - j,
    {
        proof {
            assert(people@.take(j as int + 1).drop_last() =~= people@.take(j as int));
            assert(people@.take(j as int + 1).last() == people@[j as int]);
        }
        let skip = match selected {
            Some(u) => u != people[j].0,
            None => false,
        };
        if !skip {
            let h = &people[j].1;
            let ghost start = r@;
            let mut k: usize = 0;
            proof {
                assert(h@.take(0) =~= Seq::<ContributorDay>::empty());
                assert(start + days_upto(h@.take(0), today) =~= start);
            }
            while k < h.len()
                invariant
                    k <= h@.len(),
                    r@ == start + days_upto(h@.take(k as int), today),
                decreases h@.len() - k,
            {
                proof {
                    assert(h@.take(k as int + 1).drop_last() =~= h@.take(k as int));
                    assert(h@.take(k as int + 1).last() == h@[k as int]);
                }
                if h[k].day <= today {
                    r.push(h[k]);
                }
                proof {
                    assert(r@ =~= start + days_upto(h@.take(k as int + 1), today));
                }
                k += 1;
            }
            proof {
                assert(h@.take(h@.len() as int) =~= h@);
            }
        }
        j += 1;
    }
    proof {
        assert(people@.take(people@.len() as int) =~= people@);
    }
    r
}

/// The activity calendar's days: for every day on which the counted
/// contributors (see [`activity_entries`]) have an entry up to `today`, in
/// increasing order, the labeled and reviewed tasks summed over them.
pub fn daily_activity(people: &Vec<(UserId, Vec<ContributorDay>)>, selected: Option<UserId>, today: i32) -> (r: Vec<(i32, u64, u64)>)
    requires
        forall|d: i32|
            #![trigger day_sums(activity_entries(people@, selected, today), d)]
            day_sums(activity_entries(people@, selected, today), d).0 <= u64::MAX && day_sums(
                activity_entries(people@, selected, today),
                d,
            ).1 <= u64::MAX,
    ensures
        forall|a: int, b: int| 0 <= a < b < r@.len() ==> r@[a].0 < r@[b].0,
        forall|d: i32| #[trigger] has_day(activity_entries(people@, selected, today), d) <==> exists|q: int|
            0 <= q < r@.len() && r@[q].0 == d,
        forall|q: int|
            0 <= q < r@.len() ==> (#[trigger] r@[q]).1 == day_sums(activity_entries(people@, selected, today), r@[q].0).0
                && r@[q].2 == day_sums(activity_entries(people@, selected, today), r@[q].0).1,
{
    let e = calendar_entries(people, selected, today);
    let ghost all = e@;
    let mut out: Vec<(i32, u64, u64)> = Vec::new();
    let mut i: usize = 0;
    proof {
        assert(all.take(0) =~= Seq::<ContributorDay>::empty());
    }
    while i < e.len()
        invariant
            e@ == all,
            all == activity_entries(people@, selected, today),
            forall|d: i32|
                #![trigger day_sums(activity_entries(people@, selected, today), d)]
                day_sums(activity_entries(people@, selected, today), d).0 <= u64::MAX && day_sums(
                    activity_entries(people@, selected, today),
                    d,
                ).1 <= u64::MAX,
            i <= all.len(),
            forall|a: int, b: int| 0 <= a < b < out@.len() ==> out@[a].0 < out@[b].0,
            forall|d: i32| #[trigger] has_day(all.take(i as int), d) <==> exists|q: int|
                0 <= q < out@.len() && out@[q].0 == d,
            forall|q: int|
                0 <= q < out@.len() ==> (#[trigger] out@[q]).1 == day_sums(all.take(i as int), out@[q].0).0
                    && out@[q].2 == day_sums(all.take(i as int), out@[q].0).1,
        decreases all.len() - i,
    {
        let x = e[i];
        let ghost t0 = all.take(i as int);
        let ghost t1 = all.take(i as int + 1);
        proof {
            assert(t1.drop_last() =~= t0);
            assert(t1.last() == x);
            lemma_day_sums_prefix(all, x.day, i as int + 1);
            assert(day_sums(activity_entries(people@, selected, today), x.day).0 <= u64::MAX);
            assert forall|d: i32| #[trigger] has_day(t1, d) <==> (has_day(t0, d) || d == x.day) by {
                if has_day(t1, d) {
                    let k = choose|k: int| 0 <= k < t1.len() && #[trigger] t1[k].day == d;
                    if k < t0.len() {
                        assert(t0[k] == t1[k]);
                    }
                }
                if has_day(t0, d) {
                    let k = choose|k: int| 0 <= k < t0.len() && #[trigger] t0[k].day == d;
                    assert(t1[k] == t0[k]);
                }
                if d == x.day {
                    assert(t1[i as int].day == d);
                }
            }
        }
        let mut p: usize = 0;
        while p < out.len() && out[p].0 < x.day
            invariant
                p <= out@.len(),
                forall|q: int| 0 <= q < p ==> #[trigger] out@[q].0 < x.day,
            decreases out@.len() - p,
        {
            p += 1;
        }
        let ghost o = out@;
        if p < out.len() && out[p].0 == x.day {
            let (d, l, r) = out[p];
            proof {
                assert(l == day_sums(t0, d).0 && r == day_sums(t0, d).1);
                assert(day_sums(t1, d).0 == l + x.labeled);
            }
            out.set(p, (d, l + x.labeled, r + x.reviewed));
            proof {
                assert forall|q: int| 0 <= q < out@.len() implies (#[trigger] out@[q]).1 == day_sums(t1, out@[q].0).0
                    && out@[q].2 == day_sums(t1, out@[q].0).1 by {
                    if q != p {
                        assert(out@[q] == o[q]);
                        if q < p {
                            assert(o[q].0 < o[p as int].0);
                        } else {
                            assert(o[p as int].0 < o[q].0);
                        }
                    }
                }
                assert forall|d2: i32| #[trigger] has_day(t1, d2) <==> exists|q: int| 0 <= q < out@.len() && out@[q].0 == d2 by {
                    if has_day(t1, d2) {
                        if d2 == x.day {
                            assert(out@[p as int].0 == d2);
                        } else {
                            assert(has_day(t0, d2));
                            let q = choose|q: int| 0 <= q < o.len() && o[q].0 == d2;
                            assert(out@[q].0 == d2);
                        }
                    }
                    if exists|q: int| 0 <= q < out@.len() && out@[q].0 == d2 {
                        let q = choose|q: int| 0 <= q < out@.len() && out@[q].0 == d2;
                        assert(o[q].0 == d2);
                    }
                }
            }
        } else {
            proof {
                assert(!has_day(t0, x.day)) by {
                    if has_day(t0, x.day) {
                        let q = choose|q: int| 0 <= q < o.len() && o[q].0 == x.day;
                        if q < p {
                            assert(o[q].0 < x.day);
                        } else if q > p {
                            assert(o[p as int].0 < o[q].0);
                            assert(o[p as int].0 >= x.day);
                        }
                    }
                }
                lemma_no_day_zero(t0, x.day);
                assert(day_sums(t1, x.day) == (x.labeled as int, x.reviewed as int));
            }
            out.insert(p, (x.day, x.labeled, x.reviewed));
            proof {
                assert(out@ == o.insert(p as int, (x.day, x.labeled, x.reviewed)));
                assert forall|q: int| 0 <= q < out@.len() implies (#[trigger] out@[q]).1 == day_sums(t1, out@[q].0).0
                    && out@[q].2 == day_sums(t1, out@[q].0).1 by {
                    if q < p {
                        assert(out@[q] == o[q]);
                    } else if q > p {
                        assert(out@[q] == o[q - 1]);
                        assert(o[q - 1].0 != x.day);
                    }
                }
                assert forall|a: int, b: int| 0 <= a < b < out@.len() implies out@[a].0 < out@[b].0 by {
                    if b < p {
                        assert(out@[a] == o[a] && out@[b] == o[b]);
                    } else if b == p {
                        assert(out@[a] == o[a]);
                    } else if a < p {
                        assert(out@[a] == o[a] && out@[b] == o[b - 1]);
                    } else if a == p {
                        assert(out@[b] == o[b - 1]);
                        if b - 1 > p {
                            assert(o[p as int].0 < o[b - 1].0);
                        }
                    } else {
                        assert(out@[a] == o[a - 1] && out@[b] == o[b - 1]);
                    }
                }
                assert forall|d2: i32| #[trigger] has_day(t1, d2) <==> exists|q: int| 0 <= q < out@.len() && out@[q].0 == d2 by {
                    if has_day(t1, d2) {
                        if d2 == x.day {
                            assert(out@[p as int].0 == d2);
                        } else {
                            assert(has_day(t0, d2));
                            let q = choose|q: int| 0 <= q < o.len() && o[q].0 == d2;
                            if q < p {
                                assert(out@[q].0 == d2);
                            } else {
                                assert(out@[q + 1].0 == d2);
                            }
                        }
                    }
                    if exists|q: int| 0 <= q < out@.len() && out@[q].0 == d2 {
                        let q = choose|q: int| 0 <= q < out@.len() && out@[q].0 == d2;
                        if q < p {
                            assert(o[q].0 == d2);
                        } else if q > p {
                            assert(o[q - 1].0 == d2);
                        }
                    }
                }
            }
        }
        i += 1;
    }
    proof {
        assert(all.take(all.len() as int) =~= all);
    }
    out
}

/// A day without entries sums to nothing.
proof fn lemma_no_day_zero(e: Seq<ContributorDay>, d: i32)
    requires
        !has_day(e, d),
    ensures
        day_sums(e, d) == (0int, 0int),
    decreases e.len(),
{
    if e.len() > 0 {
        assert(!has_day(e.drop_last(), d)) by {
            if has_day(e.drop_last(), d) {
                let k = choose|k: int| 0 <= k < e.drop_last().len() && #[trigger] e.drop_last()[k].day == d;
                assert(e[k].day == d);
            }
        }
        lemma_no_day_zero(e.drop_last(), d);
        assert(e[e.len() - 1].day != d);
    }
}

/// Where reading `h` from position `c` stops for `date`: at the first day
/// after `date`, or at the end.
pub open spec fn advance(h: Seq<ContributorDay>, c: int, date: i32) -> int
    decreases h.len() - c,
{
    if c < 0 || c >= h.len() || h[c].day > date {
        c
    } else {
        advance(h, c + 1, date)
    }
}

/// How much of `h` the history graph has read after the dates `dates`.
pub open spec fn consumed(h: Seq<ContributorDay>, dates: Seq<i32>) -> int
    decreases dates.len(),
{
    if dates.len() == 0 {
        0
    } else {
        advance(h, consumed(h, dates.drop_last()), dates.last())
    }
}

/// The history graph's running totals of `history` (read in its order) through
/// each of `dates`: the sum of the days read so far, where each date reads on
/// until the first day after it.
pub fn running_totals(history: &Vec<ContributorDay>, dates: &Vec<i32>) -> (r: Vec<ContributorDay>)
    requires
        running_sums_fit(history@, PeriodStart::Always, i32::MAX),
    ensures
        r@.len() == dates@.len(),
        forall|k: int|
            0 <= k < r@.len() ==> sums_of(#[trigger] r@[k]) == period_sum(
                history@.take(consumed(history@, dates@.take(k + 1))),
                PeriodStart::Always,
                i32::MAX,
            ) && r@[k].day == 0,
{
    let mut r: Vec<ContributorDay> = Vec::new();
    let mut total = ContributorDay::zero();
    let mut j: usize = 0;
    let mut k: usize = 0;
    proof {
        assert(dates@.take(0) =~= Seq::<i32>::empty());
        assert(history@.take(0) =~= Seq::<ContributorDay>::empty());
    }
    while k < dates.len()
        invariant
            k <= dates@.len(),
            running_sums_fit(history@, PeriodStart::Always, i32::MAX),
            j == consumed(history@, dates@.take(k as int)),
            j <= history@.len(),
            sums_of(total) == period_sum(history@.take(j as int), PeriodStart::Always, i32::MAX),
            total.day == 0,
            r@.len() == k,
            forall|q: int|
                0 <= q < k ==> sums_of(#[trigger] r@[q]) == period_sum(
                    history@.take(consumed(history@, dates@.take(q + 1))),
                    PeriodStart::Always,
                    i32::MAX,
                ) && r@[q].day == 0,
        decreases dates@.len() - k,
    {
        let date = dates[k];
        let ghost c0 = j as int;
        proof {
            assert(dates@.take(k as int + 1).drop_last() =~= dates@.take(k as int));
            assert(dates@.take(k as int + 1).last() == date);
        }
        while j < history.len() && history[j].day <= date
            invariant
                c0 <= j <= history@.len(),
                advance(history@, c0, date) == advance(history@, j as int, date),
                running_sums_fit(history@, PeriodStart::Always, i32::MAX),
                sums_of(total) == period_sum(history@.take(j as int), PeriodStart::Always, i32::MAX),
                total.day == 0,
            decreases history@.len() - j,
        {
            let d = history[j];
            proof {
                assert(history@.take(j as int + 1).drop_last() =~= history@.take(j as int));
                assert(history@.take(j as int + 1).last() == d);
                assert(sums_fit(period_sum(history@.take(j as int + 1), PeriodStart::Always, i32::MAX)));
            }
            crate::leaderboard::add(&mut total, &d);
            j += 1;
        }
        r.push(total);
        proof {
            assert(consumed(history@, dates@.take(k as int + 1)) == j);
        }
        k += 1;
    }
    r
}

/// What today's label count reaches next: the daily maximum from 500 labels,
/// else the next hundred.
pub open spec fn next_tier_text(labels: u64) -> Seq<char> {
    if labels >= 500 {
        "Daily maximum reached"@
    } else {
        "Next tier at "@ + decimal(((labels / 100 + 1) * 100) as nat) + " labels"@
    }
}

/// What today's `labels` reach next.
pub fn next_tier(labels: u64) -> (r: String)
    ensures
        r@ == next_tier_text(labels),
{
    if labels >= 500 {
        String::from_str("Daily maximum reached")
    } else {
        let mut r = String::from_str("Next tier at ");
        let n = decimal_text((labels / 100 + 1) * 100);
        r.append(n.as_str());
        r.append(" labels");
        r
    }
}

} // verus!
