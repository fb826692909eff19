//! Contributor rankings: totals per person, comparison per metric, and
//! competition ranks ("1, 1, 3") over a deterministic order.
use std::cmp::Ordering;

use vstd::prelude::*;

use crate::assignment::UserId;
use crate::calendar::{add_days, days_after, days_before, months_before, sub_days, sub_months, MAX_DAY, MIN_DAY};

verus! {

/// Points of one contributor: earned for labeling and reviewing, and deducted.
#[derive(Clone, Copy, Debug, PartialEq, Eq, Structural)]
pub struct Score {
    pub labeling: i64,
    pub reviewing: i64,
    pub deductions: i64,
}

/// One contributor's activity, for a day or summed over a period.
#[derive(Clone, Copy, Debug, PartialEq, Eq, Structural)]
pub struct ContributorDay {
    /// The UTC day, as days since 0001-01-01 (day 1); 0 for a sum over a period.
    pub day: i32,
    pub labeled: u64,
    pub reviewed: u64,
    pub accepted: u64,
    pub rejected: u64,
    pub score: Score,
}

/// The metrics a leaderboard ranks by.
pub const METRIC_LABELED: usize = 0;
pub const METRIC_REVIEWED: usize = 1;
pub const METRIC_ACCEPTANCE: usize = 2;
pub const METRIC_SCORE: usize = 3;

impl Score {
    /// The exact points: earned minus deducted.
    pub open spec fn points(self) -> int {
        self.labeling + self.reviewing - self.deductions
    }

    /// Every part fits comfortably, so sums of many days stay exact.
    pub open spec fn bounded(self) -> bool {
        &&& -0x1_0000_0000_0000 <= self.labeling <= 0x1_0000_0000_0000
        &&& -0x1_0000_0000_0000 <= self.reviewing <= 0x1_0000_0000_0000
        &&& -0x1_0000_0000_0000 <= self.deductions <= 0x1_0000_0000_0000
    }

    /// The exact points.
    pub fn total(&self) -> (t: i64)
        requires
            self.bounded(),
        ensures
            t == self.points(),
    {
        self.labeling + self.reviewing - self.deductions
    }
}

impl ContributorDay {
    /// An empty total.
    pub fn zero() -> (d: ContributorDay)
        ensures
            d.labeled == 0 && d.reviewed == 0 && d.accepted == 0 && d.rejected == 0,
            d.score == (Score { labeling: 0, reviewing: 0, deductions: 0 }),
            d.day == 0,
    {
        ContributorDay {
            day: 0,
            labeled: 0,
            reviewed: 0,
            accepted: 0,
            rejected: 0,
            score: Score { labeling: 0, reviewing: 0, deductions: 0 },
        }
    }

    /// The decided reviews can be counted in 64 bits.
    pub open spec fn bounded(self) -> bool {
        self.accepted + self.rejected <= u64::MAX
    }

    /// Labeled task count.
    pub open spec fn labeled_count(self) -> int {
        self.labeled as int
    }

    /// Reviewed task count.
    pub open spec fn reviewed_count(self) -> int {
        self.reviewed as int
    }

    /// Reviews that decided on this contributor's work.
    pub open spec fn decided(self) -> int {
        self.accepted + self.rejected
    }
}

/// Adds the activity of `day` to `total`.
pub fn add(total: &mut ContributorDay, day: &ContributorDay)
    requires
        old(total).labeled + day.labeled <= u64::MAX,
        old(total).reviewed + day.reviewed <= u64::MAX,
        old(total).accepted + day.accepted <= u64::MAX,
        old(total).rejected + day.rejected <= u64::MAX,
        i64::MIN <= old(total).score.labeling + day.score.labeling <= i64::MAX,
        i64::MIN <= old(total).score.reviewing + day.score.reviewing <= i64::MAX,
        i64::MIN <= old(total).score.deductions + day.score.deductions <= i64::MAX,
    ensures
        final(total).day == old(total).day,
        final(total).labeled == old(total).labeled + day.labeled,
        final(total).reviewed == old(total).reviewed + day.reviewed,
        final(total).accepted == old(total).accepted + day.accepted,
        final(total).rejected == old(total).rejected + day.rejected,
        final(total).score.labeling == old(total).score.labeling + day.score.labeling,
        final(total).score.reviewing == old(total).score.reviewing + day.score.reviewing,
        final(total).score.deductions == old(total).score.deductions + day.score.deductions,
        final(total).score.points() == old(total).score.points() + day.score.points(),
{
    total.score.labeling = total.score.labeling + day.score.labeling;
    total.score.reviewing = total.score.reviewing + day.score.reviewing;
    total.score.deductions = total.score.deductions + day.score.deductions;
    total.labeled = total.labeled + day.labeled;
    total.reviewed = total.reviewed + day.reviewed;
    total.accepted = total.accepted + day.accepted;
    total.rejected = total.rejected + day.rejected;
}

/// `Less`, `Equal` or `Greater` as `a` is below, at or above `b`.
pub open spec fn order_of(a: int, b: int) -> Ordering {
    if a < b {
        Ordering::Less
    } else if a == b {
        Ordering::Equal
    } else {
        Ordering::Greater
    }
}

/// How `a` compares with `b` in `metric`. Acceptance compares exact rates
/// (cross-multiplied), with contributors without decided reviews below all others.
pub open spec fn metric_order(a: ContributorDay, b: ContributorDay, metric: usize) -> Ordering {
    if metric == METRIC_SCORE {
        order_of(a.score.points(), b.score.points())
    } else if metric == METRIC_LABELED {
        order_of(a.labeled_count(), b.labeled_count())
    } else if metric == METRIC_REVIEWED {
        order_of(a.reviewed_count(), b.reviewed_count())
    } else if (a.decided() > 0) != (b.decided() > 0) {
        if a.decided() > 0 {
            Ordering::Greater
        } else {
            Ordering::Less
        }
    } else {
        order_of(a.accepted * b.decided(), b.accepted * a.decided())
    }
}

/// The opposite order.
pub open spec fn reversed(o: Ordering) -> Ordering {
    match o {
        Ordering::Less => Ordering::Greater,
        Ordering::Equal => Ordering::Equal,
        Ordering::Greater => Ordering::Less,
    }
}

/// Comparing the other way round gives the opposite order, in every metric.
pub proof fn metric_order_is_antisymmetric(a: ContributorDay, b: ContributorDay, metric: usize)
    ensures
        metric_order(b, a, metric) == reversed(metric_order(a, b, metric)),
{
}

/// In every metric, "not above" is transitive: the comparison is a total preorder,
/// which ranking relies on (for acceptance, on the exact rates).
pub proof fn metric_order_is_transitive(a: ContributorDay, b: ContributorDay, c: ContributorDay, metric: usize)
    requires
        metric_order(a, b, metric) != Ordering::Greater,
        metric_order(b, c, metric) != Ordering::Greater,
    ensures
        metric_order(a, c, metric) != Ordering::Greater,
{
    if metric != METRIC_SCORE && metric != METRIC_LABELED && metric != METRIC_REVIEWED {
        if a.decided() > 0 && b.decided() > 0 && c.decided() > 0 {
            let (x, y, z) = (a.accepted, b.accepted, c.accepted);
            let (p, q, r) = (a.decided(), b.decided(), c.decided());
            assert(x * r <= z * p) by (nonlinear_arith)
                requires
                    x * q <= y * p,
                    y * r <= z * q,
                    p > 0,
                    q > 0,
                    r > 0,
            {
                assert(x * q * r <= y * p * r);
                assert(y * r * p <= z * q * p);
                assert(x * r * q <= z * p * q);
            }
        }
    }
}

/// Each metric ranks by more: more labeled tasks, more reviewed tasks or more
/// points (earned minus deducted) compare above fewer, and equal amounts tie.
/// In acceptance, a contributor with decided reviews compares above one
/// without, two without tie, and between two with decided reviews the higher
/// share of accepted ones compares above (the shares compared exactly, by
/// cross-multiplying).
pub proof fn more_compares_above(a: ContributorDay, b: ContributorDay)
    ensures
        a.labeled > b.labeled ==> metric_order(a, b, METRIC_LABELED) == Ordering::Greater,
        a.labeled < b.labeled ==> metric_order(a, b, METRIC_LABELED) == Ordering::Less,
        a.labeled == b.labeled ==> metric_order(a, b, METRIC_LABELED) == Ordering::Equal,
        a.reviewed > b.reviewed ==> metric_order(a, b, METRIC_REVIEWED) == Ordering::Greater,
        a.reviewed < b.reviewed ==> metric_order(a, b, METRIC_REVIEWED) == Ordering::Less,
        a.reviewed == b.reviewed ==> metric_order(a, b, METRIC_REVIEWED) == Ordering::Equal,
        a.score.labeling + a.score.reviewing - a.score.deductions > b.score.labeling + b.score.reviewing
            - b.score.deductions ==> metric_order(a, b, METRIC_SCORE) == Ordering::Greater,
        a.score.labeling + a.score.reviewing - a.score.deductions < b.score.labeling + b.score.reviewing
            - b.score.deductions ==> metric_order(a, b, METRIC_SCORE) == Ordering::Less,
        a.score.labeling + a.score.reviewing - a.score.deductions == b.score.labeling + b.score.reviewing
            - b.score.deductions ==> metric_order(a, b, METRIC_SCORE) == Ordering::Equal,
        a.accepted + a.rejected > 0 && b.accepted + b.rejected == 0 ==> metric_order(a, b, METRIC_ACCEPTANCE)
            == Ordering::Greater,
        a.accepted + a.rejected == 0 && b.accepted + b.rejected > 0 ==> metric_order(a, b, METRIC_ACCEPTANCE)
            == Ordering::Less,
        a.accepted + a.rejected == 0 && b.accepted + b.rejected == 0 ==> metric_order(a, b, METRIC_ACCEPTANCE)
            == Ordering::Equal,
        a.accepted + a.rejected > 0 && b.accepted + b.rejected > 0 ==> {
            &&& (metric_order(a, b, METRIC_ACCEPTANCE) == Ordering::Greater <==> a.accepted * (b.accepted + b.rejected)
                > b.accepted * (a.accepted + a.rejected))
            &&& (metric_order(a, b, METRIC_ACCEPTANCE) == Ordering::Equal <==> a.accepted * (b.accepted + b.rejected)
                == b.accepted * (a.accepted + a.rejected))
        },
{
}

/// The total of the row at position `k` of the ranking `r` of `rows`.
pub open spec fn ranked_total(rows: Seq<Row>, r: Seq<(usize, usize)>, k: int) -> ContributorDay {
    ranked_row(rows, r, k).total
}

/// The row at position `k` of the ranking `r` of `rows`.
pub open spec fn ranked_row(rows: Seq<Row>, r: Seq<(usize, usize)>, k: int) -> Row {
    rows[r[k].1 as int]
}

/// A ranking never puts a contributor before one who is better in the metric:
/// of two rows, the earlier one compares at or above the later one. So by
/// labeled tasks, reviewed tasks or points, an earlier row has at least as
/// many, and competition ranks never decrease down the ranking.
pub proof fn ranking_puts_better_first(rows: Seq<Row>, metric: usize, r: Seq<(usize, usize)>, k: int, l: int)
    requires
        ranking_ok(rows, metric, r),
        0 <= k < l < r.len(),
    ensures
        metric_order(ranked_total(rows, r, k), ranked_total(rows, r, l), metric) != Ordering::Less,
        metric == METRIC_LABELED ==> ranked_total(rows, r, k).labeled >= ranked_total(rows, r, l).labeled,
        metric == METRIC_REVIEWED ==> ranked_total(rows, r, k).reviewed >= ranked_total(rows, r, l).reviewed,
        metric == METRIC_SCORE ==> ranked_total(rows, r, k).score.labeling + ranked_total(rows, r, k).score.reviewing
            - ranked_total(rows, r, k).score.deductions >= ranked_total(rows, r, l).score.labeling + ranked_total(
            rows,
            r,
            l,
        ).score.reviewing - ranked_total(rows, r, l).score.deductions,
        r[k].0 <= r[l].0,
    decreases l - k,
{
    let m = l - 1;
    let x = ranked_total(rows, r, k);
    let y = ranked_total(rows, r, m);
    let z = ranked_total(rows, r, l);
    lemma_adjacent_not_above(rows, metric, r, m);
    lemma_rank_at_most_position(rows, metric, r, m);
    if m == k {
        metric_order_is_antisymmetric(z, y, metric);
    } else {
        ranking_puts_better_first(rows, metric, r, k, m);
        metric_order_is_antisymmetric(x, y, metric);
        metric_order_is_transitive(z, y, x, metric);
        metric_order_is_antisymmetric(z, x, metric);
    }
    more_compares_above(x, z);
}

/// Rows that tie in the metric are listed by id, smaller first; in
/// acceptance, a tie is first broken by the number of decided reviews, more
/// first. A row that does not tie with the one before it takes its own
/// position as rank, and a tied row shares the rank before it.
pub proof fn ties_are_listed_by_id(rows: Seq<Row>, metric: usize, r: Seq<(usize, usize)>, k: int)
    requires
        ranking_ok(rows, metric, r),
        0 <= k < r.len() - 1,
    ensures
        metric_order(ranked_total(rows, r, k), ranked_total(rows, r, k + 1), metric) == Ordering::Equal ==> {
            let a = ranked_row(rows, r, k);
            let b = ranked_row(rows, r, k + 1);
            if metric == METRIC_ACCEPTANCE && a.total.accepted + a.total.rejected != b.total.accepted
                + b.total.rejected {
                a.total.accepted + a.total.rejected > b.total.accepted + b.total.rejected
            } else {
                a.id <= b.id
            }
        },
        metric_order(ranked_total(rows, r, k), ranked_total(rows, r, k + 1), metric) == Ordering::Equal ==> r[k + 1].0
            == r[k].0,
        metric_order(ranked_total(rows, r, k), ranked_total(rows, r, k + 1), metric) != Ordering::Equal ==> r[k + 1].0
            == k + 2,
{
    lemma_adjacent_not_above(rows, metric, r, k);
    let a = ranked_total(rows, r, k);
    let b = ranked_total(rows, r, k + 1);
    metric_order_is_antisymmetric(a, b, metric);
    assert(!row_before(ranked_row(rows, r, k + 1), ranked_row(rows, r, k), metric));
    lemma_rank_step(rows, metric, r, k + 1);
}

/// The rank at position `k > 0` follows the tie with the row before.
proof fn lemma_rank_step(rows: Seq<Row>, metric: usize, r: Seq<(usize, usize)>, k: int)
    requires
        ranking_ok(rows, metric, r),
        0 < k < r.len(),
    ensures
        r[k].0 == if metric_tie(ranked_total(rows, r, k - 1), ranked_total(rows, r, k), metric) {
            r[k - 1].0 as int
        } else {
            k + 1
        },
{
    assert(r[k].0 == if metric_tie(rows[r[k - 1].1 as int].total, rows[r[k].1 as int].total, metric) {
        r[k - 1].0 as int
    } else {
        k + 1
    });
}

/// In a ranking, a row does not compare above the row just before it.
proof fn lemma_adjacent_not_above(rows: Seq<Row>, metric: usize, r: Seq<(usize, usize)>, m: int)
    requires
        ranking_ok(rows, metric, r),
        0 <= m < r.len() - 1,
    ensures
        metric_order(ranked_total(rows, r, m + 1), ranked_total(rows, r, m), metric) != Ordering::Greater,
{
    assert(!row_before(ranked_row(rows, r, m + 1), ranked_row(rows, r, m), metric));
}

/// The rank at position `k` of a ranking is at most `k + 1`.
proof fn lemma_rank_at_most_position(rows: Seq<Row>, metric: usize, r: Seq<(usize, usize)>, k: int)
    requires
        ranking_ok(rows, metric, r),
        0 <= k < r.len(),
    ensures
        r[k].0 <= k + 1,
    decreases k,
{
    if k > 0 {
        lemma_rank_at_most_position(rows, metric, r, k - 1);
        assert(r[k].0 == if metric_tie(rows[r[k - 1].1 as int].total, rows[r[k].1 as int].total, metric) {
            r[k - 1].0 as int
        } else {
            k + 1
        });
    }
}

/// The sign of `a - b`: -1, 0 or 1.
fn sign_of(a: i128, b: i128) -> (r: i8)
    ensures
        r == if a < b {
            -1i8
        } else if a == b {
            0i8
        } else {
            1i8
        },
{
    if a < b {
        -1
    } else if a == b {
        0
    } else {
        1
    }
}

/// The sign of the comparison in `metric`, computed exactly in 128 bits.
fn metric_sign(a: &ContributorDay, b: &ContributorDay, metric: usize) -> (r: i8)
    requires
        a.bounded(),
        b.bounded(),
    ensures
        r == if metric == METRIC_SCORE {
            if a.score.points() < b.score.points() {
                -1i8
            } else if a.score.points() == b.score.points() {
                0i8
            } else {
                1i8
            }
        } else if metric == METRIC_LABELED {
            if a.labeled < b.labeled {
                -1i8
            } else if a.labeled == b.labeled {
                0i8
            } else {
                1i8
            }
        } else if metric == METRIC_REVIEWED {
            if a.reviewed < b.reviewed {
                -1i8
            } else if a.reviewed == b.reviewed {
                0i8
            } else {
                1i8
            }
        } else if (a.decided() > 0) != (b.decided() > 0) {
            if a.decided() > 0 {
                1i8
            } else {
                -1i8
            }
        } else {
            let x = a.accepted * b.decided();
            let y = b.accepted * a.decided();
            if x < y {
                -1i8
            } else if x == y {
                0i8
            } else {
                1i8
            }
        },
{
    if metric == METRIC_SCORE {
        let pa = a.score.labeling as i128 + a.score.reviewing as i128 - a.score.deductions as i128;
        let pb = b.score.labeling as i128 + b.score.reviewing as i128 - b.score.deductions as i128;
        sign_of(pa, pb)
    } else if metric == METRIC_LABELED {
        sign_of(a.labeled as i128, b.labeled as i128)
    } else if metric == METRIC_REVIEWED {
        sign_of(a.reviewed as i128, b.reviewed as i128)
    } else {
        let a_total = a.accepted as u128 + a.rejected as u128;
        let b_total = b.accepted as u128 + b.rejected as u128;
        if (a_total > 0) != (b_total > 0) {
            if a_total > 0 {
                1
            } else {
                -1
            }
        } else {
            let x = a.accepted as u128;
            let y = b.accepted as u128;
            proof {
                assert(x * b_total <= 0xffff_ffff_ffff_ffffu128 * 0xffff_ffff_ffff_ffffu128) by (nonlinear_arith)
                    requires
                        0 <= x <= 0xffff_ffff_ffff_ffffu128,
                        0 <= b_total <= 0xffff_ffff_ffff_ffffu128,
                ;
                assert(y * a_total <= 0xffff_ffff_ffff_ffffu128 * 0xffff_ffff_ffff_ffffu128) by (nonlinear_arith)
                    requires
                        0 <= y <= 0xffff_ffff_ffff_ffffu128,
                        0 <= a_total <= 0xffff_ffff_ffff_ffffu128,
                ;
            }
            let px = x * b_total;
            let py = y * a_total;
            if px < py {
                -1
            } else if px == py {
                0
            } else {
                1
            }
        }
    }
}

/// Compares two contributors in `metric`.
pub fn compare(a: &ContributorDay, b: &ContributorDay, metric: usize) -> (r: Ordering)
    requires
        a.bounded(),
        b.bounded(),
    ensures
        r == metric_order(*a, *b, metric),
{
    let s = metric_sign(a, b, metric);
    if s < 0 {
        Ordering::Less
    } else if s == 0 {
        Ordering::Equal
    } else {
        Ordering::Greater
    }
}

/// A contributor's row: identity, display name and total over the period.
#[derive(Clone, Debug)]
pub struct Row {
    pub id: UserId,
    pub name: String,
    pub total: ContributorDay,
}

/// Row `a` comes before row `b`: better in `metric`; when tied in acceptance,
/// more decided reviews first; then by identity.
pub open spec fn row_before(a: Row, b: Row, metric: usize) -> bool {
    let o = metric_order(a.total, b.total, metric);
    if o == Ordering::Greater {
        true
    } else if o == Ordering::Less {
        false
    } else if metric == METRIC_ACCEPTANCE && a.total.decided() != b.total.decided() {
        a.total.decided() > b.total.decided()
    } else {
        a.id < b.id
    }
}

fn metric_equal(a: &ContributorDay, b: &ContributorDay, metric: usize) -> (r: bool)
    requires
        a.bounded(),
        b.bounded(),
    ensures
        r == metric_tie(*a, *b, metric),
{
    metric_sign(a, b, metric) == 0
}

fn before(a: &Row, b: &Row, metric: usize) -> (r: bool)
    requires
        a.total.bounded(),
        b.total.bounded(),
    ensures
        r == row_before(*a, *b, metric),
{
    let s = metric_sign(&a.total, &b.total, metric);
    if s > 0 {
        true
    } else if s < 0 {
        false
    } else {
        let a_decided = a.total.accepted as u128 + a.total.rejected as u128;
        let b_decided = b.total.accepted as u128 + b.total.rejected as u128;
        if metric == METRIC_ACCEPTANCE && a_decided != b_decided {
            a_decided > b_decided
        } else {
            a.id < b.id
        }
    }
}

/// `a` and `b` tie in `metric`.
pub open spec fn metric_tie(a: ContributorDay, b: ContributorDay, metric: usize) -> bool {
    metric_order(a, b, metric) == Ordering::Equal
}

/// Rows ranked in `metric`: `order` lists row indices best first and `ranks`
/// gives competition ranks (tied rows share the rank of the first of them).
pub open spec fn ranking_ok(rows: Seq<Row>, metric: usize, r: Seq<(usize, usize)>) -> bool {
    &&& r.len() == rows.len()
    &&& forall|k: int| 0 <= k < r.len() ==> (#[trigger] r[k]).1 < rows.len()
    &&& forall|k: int, l: int| 0 <= k < l < r.len() ==> r[k].1 != r[l].1
    &&& forall|k: int|
        0 <= k < r.len() - 1 ==> !row_before(
            rows[(#[trigger] r[k + 1]).1 as int],
            rows[r[k].1 as int],
            metric,
        )
    &&& r.len() > 0 ==> r[0].0 == 1
    &&& forall|k: int|
        0 < k < r.len() ==> (#[trigger] r[k]).0 == if metric_tie(
            rows[r[k - 1].1 as int].total,
            rows[r[k].1 as int].total,
            metric,
        ) {
            r[k - 1].0 as int
        } else {
            k + 1
        }
}

/// Ranks `rows` in `metric`, best first, as (rank, row index) pairs.
#[verifier::rlimit(40)]
#[verifier::spinoff_prover]
pub fn sorted(rows: &Vec<Row>, metric: usize) -> (r: Vec<(usize, usize)>)
    requires
        forall|i: int| 0 <= i < rows@.len() ==> (#[trigger] rows@[i]).total.bounded(),
    ensures
        ranking_ok(rows@, metric, r@),
{
    let n = rows.len();
    let mut order: Vec<usize> = Vec::new();
    let mut i: usize = 0;
    while i < n
        invariant
            n == rows@.len(),
            i <= n,
            order@.len() == i,
            forall|k: int| 0 <= k < i ==> (#[trigger] order@[k]) < i,
            forall|k: int, l: int| 0 <= k < l < i ==> order@[k] != order@[l],
            forall|q: int| 0 <= q < n ==> (#[trigger] rows@[q]).total.bounded(),
            forall|k: int|
                1 <= k < order@.len() ==> !row_before(
                    rows@[(#[trigger] order@[k]) as int],
                    rows@[order@[k - 1] as int],
                    metric,
                ),
        decreases n - i,
    {
        let mut p = order.len();
        while p > 0 && before(&rows[i], &rows[order[p - 1]], metric)
            invariant
                p <= order@.len(),
                order@.len() == i,
                i < n,
                n == rows@.len(),
                forall|k: int| 0 <= k < i ==> (#[trigger] order@[k]) < i,
                forall|q: int| 0 <= q < n ==> (#[trigger] rows@[q]).total.bounded(),
                forall|k: int|
                    p <= k < order@.len() ==> row_before(
                        rows@[i as int],
                        rows@[(#[trigger] order@[k]) as int],
                        metric,
                    ),
            decreases p,
        {
            p = p - 1;
        }
        let ghost o0 = order@;
        assert(p == 0 || !row_before(rows@[i as int], rows@[o0[p - 1] as int], metric));
        order.insert(p, i);
        proof {
            assert(order@ =~= o0.insert(p as int, i));
            assert forall|k: int| 1 <= k < order@.len() implies !row_before(
                rows@[(#[trigger] order@[k]) as int],
                rows@[order@[k - 1] as int],
                metric,
            ) by {
                if k < p {
                    assert(order@[k] == o0[k] && order@[k - 1] == o0[k - 1]);
                } else if k == p {
                    assert(order@[k - 1] == o0[k - 1]);
                    assert(order@[k] == i);
                } else if k == p + 1 {
                    assert(order@[k - 1] == i);
                    assert(order@[k] == o0[k - 1]);
                    lemma_before_asymmetric(rows@[i as int], rows@[o0[k - 1] as int], metric);
                } else {
                    assert(order@[k - 1] == o0[k - 2] && order@[k] == o0[k - 1]);
                }
            }
            assert forall|k: int| 0 <= k < order@.len() implies (#[trigger] order@[k]) < i + 1 by {
                if k < p {
                    assert(order@[k] == o0[k]);
                } else if k > p {
                    assert(order@[k] == o0[k - 1]);
                }
            }
            assert forall|k: int, l: int| 0 <= k < l < i + 1 implies order@[k] != order@[l] by {
                let k0 = if k < p { k } else { k - 1 };
                let l0 = if l < p { l } else { l - 1 };
                if k != p && l != p {
                    assert(order@[k] == o0[k0] && order@[l] == o0[l0]);
                } else if k == p {
                    assert(order@[l] == o0[l0]);
                } else {
                    assert(order@[k] == o0[k0]);
                }
            }
        }
        i = i + 1;
    }
    let mut r: Vec<(usize, usize)> = Vec::new();
    let mut k: usize = 0;
    let mut rank: usize = 1;
    while k < n
        invariant
            n == rows@.len(),
            order@.len() == n,
            k <= n,
            r@.len() == k,
            forall|q: int| 0 <= q < k ==> (#[trigger] r@[q]).1 == order@[q],
            forall|q: int| 0 <= q < n ==> (#[trigger] order@[q]) < n,
            forall|q: int, l: int| 0 <= q < l < n ==> order@[q] != order@[l],
            forall|q: int|
                1 <= q < n ==> !row_before(
                    rows@[(#[trigger] order@[q]) as int],
                    rows@[order@[q - 1] as int],
                    metric,
                ),
            forall|q: int| 0 <= q < n ==> (#[trigger] rows@[q]).total.bounded(),
            k > 0 ==> rank == r@[k - 1].0,
            k == 0 ==> rank == 1,
            r@.len() > 0 ==> r@[0].0 == 1,
            forall|q: int| 0 <= q < k ==> 1 <= (#[trigger] r@[q]).0 <= q + 1,
            forall|q: int|
                0 < q < k ==> (#[trigger] r@[q]).0 == if metric_tie(
                    rows@[r@[q - 1].1 as int].total,
                    rows@[r@[q].1 as int].total,
                    metric,
                ) {
                    r@[q - 1].0 as int
                } else {
                    q + 1
                },
        decreases n - k,
    {
        if k > 0 && !metric_equal(&rows[order[k - 1]].total, &rows[order[k]].total, metric) {
            rank = k + 1;
        }
        r.push((rank, order[k]));
        k = k + 1;
    }
    proof {
        assert forall|q: int| 0 <= q < r@.len() - 1 implies !row_before(
            rows@[(#[trigger] r@[q + 1]).1 as int],
            rows@[r@[q].1 as int],
            metric,
        ) by {
            assert(r@[q + 1].1 == order@[q + 1]);
            assert(r@[q].1 == order@[q]);
        }
        assert forall|q: int, l: int| 0 <= q < l < r@.len() implies r@[q].1 != r@[l].1 by {
            assert(r@[q].1 == order@[q]);
            assert(r@[l].1 == order@[l]);
        }
        assert forall|q: int| 0 <= q < r@.len() implies (#[trigger] r@[q]).1 < rows@.len() by {
            assert(r@[q].1 == order@[q]);
        }
    }
    r
}

proof fn lemma_before_asymmetric(a: Row, b: Row, metric: usize)
    requires
        row_before(a, b, metric),
    ensures
        !row_before(b, a, metric),
{
    if metric != METRIC_SCORE && metric != METRIC_LABELED && metric != METRIC_REVIEWED {
        if (a.total.decided() > 0) == (b.total.decided() > 0) {
            let x = a.total.accepted * b.total.decided();
            let y = b.total.accepted * a.total.decided();
            assert(metric_order(b.total, a.total, metric) == order_of(y, x));
        }
    }
}


/// Where a reporting period starts.
#[derive(Clone, Copy, Debug, PartialEq, Eq, Structural)]
pub enum PeriodStart {
    /// On this day number (inclusive).
    Since(i32),
    /// The period has no start: everything counts.
    Always,
}

/// The periods: last day, last week, last month, last three months, last year, overall.
pub const PERIOD_COUNT: usize = 6;

/// The first day of `period` ending on `today`, by calendar arithmetic.
pub open spec fn period_start_spec(period: usize, today: i32) -> Option<PeriodStart> {
    let months_back = |m: u32|
        match months_before(today, m) {
            None => None,
            Some(d) => match days_after(d, 1) {
                None => None,
                Some(e) => Some(PeriodStart::Since(e)),
            },
        };
    if period == 0 {
        Some(PeriodStart::Since(today))
    } else if period == 1 {
        match days_before(today, 6) {
            None => None,
            Some(d) => Some(PeriodStart::Since(d)),
        }
    } else if period == 2 {
        months_back(1)
    } else if period == 3 {
        months_back(3)
    } else if period == 4 {
        months_back(12)
    } else {
        Some(PeriodStart::Always)
    }
}

/// Every period ends today. The last day is today alone; the last week is the
/// seven days ending today; the last month, three months and year start the
/// day after the same date one, three or twelve months back; later periods
/// have no start. Only dates outside the calendar's range give no start.
pub proof fn periods_end_today(today: i32, period: usize)
    ensures
        period_start_spec(0, today) == Some(PeriodStart::Since(today)),
        MIN_DAY + 6 <= today <= MAX_DAY ==> period_start_spec(1, today) == Some(PeriodStart::Since((today - 6) as i32)),
        today < MIN_DAY + 6 || today > MAX_DAY ==> period_start_spec(1, today) is None,
        period >= 5 ==> period_start_spec(period, today) == Some(PeriodStart::Always),
        ({
            let m: u32 = if period == 2 {
                1
            } else if period == 3 {
                3
            } else {
                12
            };
            2 <= period <= 4 ==> match months_before(today, m) {
                Some(d) => if MIN_DAY <= d < MAX_DAY {
                    period_start_spec(period, today) == Some(PeriodStart::Since((d + 1) as i32))
                } else {
                    period_start_spec(period, today) is None
                },
                None => period_start_spec(period, today) is None,
            }
        }),
{
}

/// The first day of a reporting period that ends on `today`: the day itself,
/// the last seven days, or the last one, three or twelve calendar months (the
/// same day of month a month back, plus one day); later periods are unbounded.
/// `None` when the calendar arithmetic leaves the supported date range.
pub fn period_start(period: usize, today: i32) -> (r: Option<PeriodStart>)
    ensures
        r == period_start_spec(period, today),
{
    if period == 0 {
        Some(PeriodStart::Since(today))
    } else if period == 1 {
        match sub_days(today, 6) {
            None => None,
            Some(d) => Some(PeriodStart::Since(d)),
        }
    } else if period <= 4 {
        let months: u32 = if period == 2 {
            1
        } else if period == 3 {
            3
        } else {
            12
        };
        match sub_months(today, months) {
            None => None,
            Some(d) => match add_days(d, 1) {
                None => None,
                Some(e) => Some(PeriodStart::Since(e)),
            },
        }
    } else {
        Some(PeriodStart::Always)
    }
}

/// How the leaderboard table is sorted.
#[derive(Clone, Copy, Debug, PartialEq, Eq, Structural)]
pub struct LeaderboardSort {
    /// Sorted by person rather than by a metric.
    pub sort_by_name: bool,
    pub sort_descending: bool,
    /// The metric that ranks, and sorts unless sorting by person.
    pub ranking_metric: usize,
}

impl LeaderboardSort {
    /// Ranked by score, best first.
    pub fn new() -> (s: LeaderboardSort)
        ensures
            !s.sort_by_name,
            s.sort_descending,
            s.ranking_metric == METRIC_SCORE,
    {
        LeaderboardSort { sort_by_name: false, sort_descending: true, ranking_metric: METRIC_SCORE }
    }

    /// The column of `metric` (`None`: the person column) is the one sorted by.
    pub open spec fn active(self, metric: Option<usize>) -> bool {
        self.sort_by_name == (metric is None) && (metric matches Some(m) ==> self.ranking_metric == m)
    }

    /// Whether the column of `metric` is the one sorted by.
    pub fn is_active(&self, metric: Option<usize>) -> (r: bool)
        ensures
            r == self.active(metric),
    {
        match metric {
            None => self.sort_by_name,
            Some(m) => !self.sort_by_name && self.ranking_metric == m,
        }
    }

    /// The state that a column header announces: not sorted, descending or ascending.
    pub fn header_state(&self, metric: Option<usize>) -> (r: &'static str)
        ensures
            r@ == if !self.active(metric) {
                "Not sorted"@
            } else if self.sort_descending {
                "Descending"@
            } else {
                "Ascending"@
            },
    {
        if !self.is_active(metric) {
            "Not sorted"
        } else if self.sort_descending {
            "Descending"
        } else {
            "Ascending"
        }
    }

    /// A click on the header of `metric` (`None`: the person column): the sorted
    /// column turns round; another column becomes the sorted one, metrics best
    /// first and persons in order.
    pub fn click_header(&mut self, metric: Option<usize>)
        ensures
            final(self).sort_descending == if old(self).active(metric) {
                !old(self).sort_descending
            } else {
                metric is Some
            },
            final(self).sort_by_name == (metric is None),
            final(self).ranking_metric == match metric {
                Some(m) => m,
                None => old(self).ranking_metric,
            },
            final(self).active(metric),
    {
        if self.is_active(metric) {
            self.sort_descending = !self.sort_descending;
        } else {
            self.sort_descending = metric.is_some();
        }
        self.sort_by_name = metric.is_none();
        match metric {
            Some(m) => self.ranking_metric = m,
            None => {},
        }
    }

    /// Without scores from the server, ranking by score falls back to labeled
    /// tasks.
    pub fn scores_unavailable(&mut self)
        ensures
            final(self).ranking_metric == if old(self).ranking_metric == METRIC_SCORE {
                METRIC_LABELED
            } else {
                old(self).ranking_metric
            },
            final(self).sort_by_name == old(self).sort_by_name,
            final(self).sort_descending == old(self).sort_descending,
    {
        if self.ranking_metric == METRIC_SCORE {
            self.ranking_metric = METRIC_LABELED;
        }
    }

    /// The compact selector chose `selected` (`None`: person); choosing what is
    /// already sorted by changes nothing, another choice sorts metrics best first
    /// and persons in order.
    pub fn select_sort(&mut self, selected: Option<usize>)
        ensures
            ({
                let previous = if old(self).sort_by_name {
                    None
                } else {
                    Some(old(self).ranking_metric)
                };
                if selected == previous {
                    *final(self) == *old(self)
                } else {
                    &&& final(self).sort_by_name == (selected is None)
                    &&& final(self).sort_descending == (selected is Some)
                    &&& final(self).ranking_metric == match selected {
                        Some(m) => m,
                        None => old(self).ranking_metric,
                    }
                }
            }),
    {
        let previous = if self.sort_by_name {
            None
        } else {
            Some(self.ranking_metric)
        };
        if selected != previous {
            self.sort_by_name = selected.is_none();
            self.sort_descending = selected.is_some();
            match selected {
                Some(m) => self.ranking_metric = m,
                None => {},
            }
        }
    }
}

} // verus!
