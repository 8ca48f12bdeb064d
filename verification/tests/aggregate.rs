use issue_history::{aggregate, Issue};

fn issue(number: u64, created_at: i64, closed_at: Option<i64>) -> Issue {
    Issue { number, created_at, closed_at }
}

#[test]
fn empty_input_yields_empty_series() {
    let series = aggregate(&vec![]);
    assert!(series.is_empty());
}

#[test]
fn single_open_issue() {
    let series = aggregate(&vec![issue(1, 42, None)]);
    assert_eq!(series, vec![(42, 1)]);
}

#[test]
fn single_closed_issue_round_trip() {
    // An issue created at T0 and closed at T1 yields [(T0, 1), (T1, 0)].
    let series = aggregate(&vec![issue(1, 5, Some(9))]);
    assert_eq!(series, vec![(5, 1), (9, 0)]);
}

#[test]
fn zero_duration_issue_never_negative() {
    // created_at == closed_at: the open event applies before the close
    // event, so the count rises to 1 and falls to 0, never below.
    let series = aggregate(&vec![issue(1, 7, Some(7))]);
    assert_eq!(series, vec![(7, 1), (7, 0)]);
    assert!(series.iter().all(|&(_, count)| count >= 0));
}

#[test]
fn merged_series_with_ties() {
    let issues = vec![
        issue(1, 10, Some(20)),
        issue(2, 15, None),
        issue(3, 20, Some(20)),
    ];
    let series = aggregate(&issues);
    // At time 20 the opens (issue 3) apply before the closes (issues 1, 3).
    assert_eq!(series, vec![(10, 1), (15, 2), (20, 3), (20, 2), (20, 1)]);
    assert!(series.iter().all(|&(_, count)| count >= 0));
}

#[test]
fn aggregation_is_order_independent() {
    let a = vec![
        issue(1, 10, Some(20)),
        issue(2, 15, None),
        issue(3, 20, Some(20)),
        issue(4, 3, Some(30)),
    ];
    let shuffled = vec![a[2], a[0], a[3], a[1]];
    assert_eq!(aggregate(&a), aggregate(&shuffled));
}

#[test]
fn negative_timestamps_are_ordered() {
    let series = aggregate(&vec![issue(1, -5, Some(5)), issue(2, -10, None)]);
    assert_eq!(series, vec![(-10, 1), (-5, 2), (5, 1)]);
}
