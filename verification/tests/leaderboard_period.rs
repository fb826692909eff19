use labello::leaderboard::{ContributorDay, PeriodStart};
use labello::leaderboard_period::{activity_level, activity_summary, daily_activity, next_tier, period_rows, period_total, running_totals};

fn day(day: i32, labeled: u64, deductions: i64) -> ContributorDay {
    let mut d = ContributorDay::zero();
    d.day = day;
    d.labeled = labeled;
    d.score.deductions = deductions;
    d
}

#[test]
fn period_total_adds_the_days_in_the_period() {
    let history = vec![day(10, 1, 0), day(12, 2, 5), day(15, 4, 0)];
    let total = period_total(&history, PeriodStart::Since(11), 14).unwrap();
    assert_eq!(total.labeled, 2);
    assert_eq!(total.score.deductions, 5);
    assert_eq!(total.day, 0);
    assert_eq!(period_total(&history, PeriodStart::Always, 20).unwrap().labeled, 7);
    assert!(period_total(&history, PeriodStart::Since(16), 20).is_none());
    assert!(period_total(&history, PeriodStart::Always, 9).is_none());
}

#[test]
fn period_rows_keep_active_contributors_in_order() {
    let people = vec![
        (1u64, "Ada".to_string(), vec![day(10, 1, 0)]),
        (2u64, "Bo".to_string(), vec![day(3, 1, 0)]),
        (3u64, "Cy".to_string(), vec![day(11, 0, 2), day(12, 3, 0)]),
    ];
    let rows = period_rows(&people, PeriodStart::Since(10), 12);
    assert_eq!(rows.len(), 2);
    assert_eq!((rows[0].id, rows[0].name.as_str(), rows[0].total.labeled), (1, "Ada", 1));
    assert_eq!((rows[1].id, rows[1].name.as_str(), rows[1].total.labeled), (3, "Cy", 3));
    assert_eq!(rows[1].total.score.deductions, 2);
}

fn reviewed(day_number: i32, labeled: u64, reviewed: u64) -> ContributorDay {
    let mut d = ContributorDay::zero();
    d.day = day_number;
    d.labeled = labeled;
    d.reviewed = reviewed;
    d
}

#[test]
fn daily_activity_sums_the_selected_people_per_day() {
    let people = vec![
        (1u64, vec![reviewed(5, 1, 0), reviewed(7, 2, 1), reviewed(30, 9, 9)]),
        (2u64, vec![reviewed(7, 0, 3), reviewed(3, 0, 0)]),
    ];
    assert_eq!(daily_activity(&people, None, 10), vec![(3, 0, 0), (5, 1, 0), (7, 2, 4)]);
    assert_eq!(daily_activity(&people, Some(2), 10), vec![(3, 0, 0), (7, 0, 3)]);
    assert_eq!(daily_activity(&people, Some(9), 10), Vec::<(i32, u64, u64)>::new());
}

#[test]
fn activity_totals_and_levels() {
    let daily = vec![(3, 0, 0), (5, 1, 0), (7, 2, 4)];
    assert_eq!(activity_summary(&daily, 4, 10), (7, 6));
    assert_eq!(activity_summary(&daily, 8, 10), (0, 0));
    assert_eq!(activity_level(0, 6), 0);
    assert_eq!(activity_level(1, 6), 1);
    assert_eq!(activity_level(6, 6), 4);
    assert_eq!(activity_level(4, 6), 3);
    assert_eq!(activity_level(3, 0), 4);
}

#[test]
fn running_totals_include_work_before_each_date() {
    let history = vec![reviewed(2, 1, 0), reviewed(5, 2, 1), reviewed(9, 4, 0)];
    let totals = running_totals(&history, &vec![3, 5, 8, 10]);
    let labeled: Vec<u64> = totals.iter().map(|t| t.labeled).collect();
    assert_eq!(labeled, vec![1, 3, 3, 7]);
    assert_eq!(totals[1].reviewed, 1);
    assert!(running_totals(&history, &Vec::new()).is_empty());
}

#[test]
fn next_tier_counts_in_hundreds_up_to_the_daily_maximum() {
    assert_eq!(next_tier(0), "Next tier at 100 labels");
    assert_eq!(next_tier(199), "Next tier at 200 labels");
    assert_eq!(next_tier(499), "Next tier at 500 labels");
    assert_eq!(next_tier(500), "Daily maximum reached");
}
