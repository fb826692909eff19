use std::cmp::Ordering;

use chrono::{Datelike, NaiveDate};
use labello::calendar::{MAX_DAY, MIN_DAY};
use labello::leaderboard::{
    add, compare, period_start, ContributorDay, LeaderboardSort, PeriodStart, METRIC_ACCEPTANCE, METRIC_LABELED,
    METRIC_SCORE,
};

fn day_number(year: i32, month: u32, day: u32) -> i32 {
    NaiveDate::from_ymd_opt(year, month, day).unwrap().num_days_from_ce()
}

fn with_rates(accepted: u64, rejected: u64) -> ContributorDay {
    let mut day = ContributorDay::zero();
    day.accepted = accepted;
    day.rejected = rejected;
    day
}

#[test]
fn score_aggregation_ranks_exact_points_even_when_display_rounds_to_a_tie() {
    let mut first = ContributorDay::zero();
    first.score.labeling = 10_000;
    let mut second = first;
    second.score.labeling += 1;
    assert_eq!(compare(&first, &second, METRIC_SCORE), Ordering::Less);
    let mut deduction = ContributorDay::zero();
    deduction.score.deductions = 1_000;
    add(&mut first, &deduction);
    assert_eq!(first.score.total(), 9_000);
}

#[test]
fn periods_and_acceptance_use_calendar_boundaries_and_review_counts() {
    let today = day_number(2024, 3, 31);
    let expected = [
        day_number(2024, 3, 31),
        day_number(2024, 3, 25),
        day_number(2024, 3, 1),
        day_number(2024, 1, 1),
        day_number(2023, 4, 1),
    ];
    for (period, date) in expected.iter().enumerate() {
        assert_eq!(period_start(period, today), Some(PeriodStart::Since(*date)));
    }
    assert_eq!(period_start(5, today), Some(PeriodStart::Always));
    let mut total = with_rates(1, 0);
    add(&mut total, &with_rates(1, 8));
    assert_eq!((total.accepted, total.rejected), (2, 8));
    let same_rate = with_rates(1, 4);
    assert_eq!(compare(&total, &same_rate, METRIC_ACCEPTANCE), Ordering::Equal);
    let zero_rate = with_rates(0, 1);
    assert_eq!(compare(&zero_rate, &ContributorDay::zero(), METRIC_ACCEPTANCE), Ordering::Greater);
}

#[test]
fn period_start_reports_dates_outside_the_calendar() {
    let last = NaiveDate::MAX.num_days_from_ce();
    let first = NaiveDate::MIN.num_days_from_ce();
    assert_eq!(period_start(0, last), Some(PeriodStart::Since(last)));
    assert_eq!(period_start(1, first), None);
    assert_eq!(period_start(2, first), None);
}

#[test]
fn comparisons_reverse_when_swapped() {
    let a = with_rates(3, 1);
    let b = with_rates(2, 2);
    for metric in 0..4 {
        assert_eq!(compare(&a, &b, metric), compare(&b, &a, metric).reverse());
    }
    assert_eq!(compare(&a, &b, METRIC_ACCEPTANCE), Ordering::Greater);
}

#[test]
fn acceptance_compares_exact_rates_transitively() {
    let low = with_rates(1, 2);
    let middle = with_rates(2, 2);
    let high = with_rates(5, 1);
    assert_eq!(compare(&low, &middle, METRIC_ACCEPTANCE), Ordering::Less);
    assert_eq!(compare(&middle, &high, METRIC_ACCEPTANCE), Ordering::Less);
    assert_eq!(compare(&low, &high, METRIC_ACCEPTANCE), Ordering::Less);
}

#[test]
fn header_clicks_turn_the_sorted_column_and_switch_columns() {
    let mut sort = LeaderboardSort::new();
    assert_eq!(sort.header_state(Some(METRIC_SCORE)), "Descending");
    assert_eq!(sort.header_state(None), "Not sorted");
    sort.click_header(Some(METRIC_SCORE));
    assert_eq!(sort.header_state(Some(METRIC_SCORE)), "Ascending");
    sort.click_header(None);
    assert!(sort.sort_by_name && !sort.sort_descending);
    assert_eq!(sort.ranking_metric, METRIC_SCORE);
    sort.click_header(Some(METRIC_LABELED));
    assert!(!sort.sort_by_name && sort.sort_descending);
    assert_eq!(sort.ranking_metric, METRIC_LABELED);
    let before = sort;
    sort.select_sort(Some(METRIC_LABELED));
    assert_eq!(sort, before);
    sort.select_sort(None);
    assert!(sort.sort_by_name && !sort.sort_descending);
}

#[test]
fn ranking_by_score_falls_back_to_labeled_without_scores() {
    let mut sort = LeaderboardSort::new();
    sort.scores_unavailable();
    assert_eq!(sort.ranking_metric, METRIC_LABELED);
    let mut by_acceptance = LeaderboardSort::new();
    by_acceptance.ranking_metric = METRIC_ACCEPTANCE;
    by_acceptance.scores_unavailable();
    assert_eq!(by_acceptance.ranking_metric, METRIC_ACCEPTANCE);
}

#[test]
fn calendar_range_matches_chrono() {
    assert_eq!(NaiveDate::MIN.num_days_from_ce(), MIN_DAY);
    assert_eq!(NaiveDate::MAX.num_days_from_ce(), MAX_DAY);
    assert!(NaiveDate::from_num_days_from_ce_opt(MIN_DAY - 1).is_none());
    assert!(NaiveDate::from_num_days_from_ce_opt(MAX_DAY + 1).is_none());
    let week_after_first = period_start(1, MIN_DAY + 6);
    assert_eq!(week_after_first, Some(PeriodStart::Since(MIN_DAY)));
    assert_eq!(period_start(1, MIN_DAY + 5), None);
}
