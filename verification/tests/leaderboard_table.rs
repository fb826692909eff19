use labello::leaderboard::{sorted, ContributorDay, LeaderboardSort, Row, METRIC_ACCEPTANCE, METRIC_LABELED};

fn row(id: u64, name: &str, labeled: u64, accepted: u64, rejected: u64) -> Row {
    let mut total = ContributorDay::zero();
    total.labeled = labeled;
    total.accepted = accepted;
    total.rejected = rejected;
    Row { id, name: name.to_string(), total }
}

fn shown(sort: &LeaderboardSort, rows: &Vec<Row>) -> Vec<(usize, u64)> {
    let ranked = sorted(rows, sort.ranking_metric);
    sort.table_rows(rows, &ranked)
        .into_iter()
        .map(|p| (ranked[p].0, rows[ranked[p].1].id))
        .collect()
}

fn people() -> Vec<Row> {
    vec![
        row(1, "carol", 5, 0, 0),
        row(2, "Bob", 9, 0, 0),
        row(3, "alice", 5, 0, 0),
        row(4, "dave", 1, 0, 0),
    ]
}

#[test]
fn descending_metric_keeps_the_ranking() {
    let sort = LeaderboardSort { sort_by_name: false, sort_descending: true, ranking_metric: METRIC_LABELED };
    assert_eq!(shown(&sort, &people()), vec![(1, 2), (2, 1), (2, 3), (4, 4)]);
}

#[test]
fn ascending_metric_reverses_ranks_but_keeps_ties_in_order() {
    let sort = LeaderboardSort { sort_by_name: false, sort_descending: false, ranking_metric: METRIC_LABELED };
    assert_eq!(shown(&sort, &people()), vec![(4, 4), (2, 1), (2, 3), (1, 2)]);
}

#[test]
fn sorting_by_person_ignores_case() {
    let ascending = LeaderboardSort { sort_by_name: true, sort_descending: false, ranking_metric: METRIC_LABELED };
    assert_eq!(shown(&ascending, &people()), vec![(2, 3), (1, 2), (2, 1), (4, 4)]);
    let descending = LeaderboardSort { sort_by_name: true, sort_descending: true, ranking_metric: METRIC_LABELED };
    assert_eq!(shown(&descending, &people()), vec![(4, 4), (2, 1), (1, 2), (2, 3)]);
}

#[test]
fn equal_names_keep_the_ranked_order() {
    let rows = vec![row(1, "Sam", 1, 0, 0), row(2, "sam", 7, 0, 0)];
    let sort = LeaderboardSort { sort_by_name: true, sort_descending: true, ranking_metric: METRIC_LABELED };
    assert_eq!(shown(&sort, &rows), vec![(1, 2), (2, 1)]);
}

#[test]
fn ascending_acceptance_keeps_unrated_people_last() {
    let rows = vec![row(1, "a", 0, 0, 0), row(2, "b", 0, 1, 1), row(3, "c", 0, 3, 0)];
    let sort = LeaderboardSort { sort_by_name: false, sort_descending: false, ranking_metric: METRIC_ACCEPTANCE };
    assert_eq!(shown(&sort, &rows), vec![(2, 2), (1, 3), (3, 1)]);
}
