use issue_history::{Action, Driver, Issue, Page, Phase, RepoError, TransportError};

fn issue(number: u64, created_at: i64, closed_at: Option<i64>) -> Issue {
    Issue { number, created_at, closed_at }
}

fn page(issues: Vec<Issue>, next_cursor: Option<&str>, has_next_page: bool) -> Page {
    Page { issues, next_cursor: next_cursor.map(|c| c.to_string()), has_next_page }
}

/// A page body with one issue per given (cursor, number, createdAt) triple.
fn body_with_edges(edges: &[(&str, u64, &str)]) -> String {
    let mut inner = String::new();
    for (i, (cursor, number, created)) in edges.iter().enumerate() {
        if i > 0 {
            inner.push(',');
        }
        inner.push_str(&format!(
            "{{\"cursor\":\"{}\",\"node\":{{\"number\":{},\"createdAt\":\"{}\",\"closedAt\":null}}}}",
            cursor, number, created
        ));
    }
    format!("{{\"data\":{{\"repository\":{{\"issues\":{{\"edges\":[{}]}}}}}}}}", inner)
}

#[test]
fn paginating_a_synthetic_dataset_loses_nothing() {
    // For every page size, paginating a fixed dataset yields exactly the
    // dataset: no duplicates, no gaps, in order.
    let dataset: Vec<Issue> = (1..=5u64).map(|n| issue(n, n as i64, None)).collect();
    for n in [1usize, 2, 3, 5, 7] {
        let mut driver = Driver::new(n as u64);
        let mut start = 0usize;
        loop {
            let end = (start + n).min(dataset.len());
            let chunk: Vec<Issue> = dataset[start..end].to_vec();
            let has_next = chunk.len() == n;
            let cursor = if has_next { Some("cur") } else { None };
            let action = driver.step_page(Ok(page(chunk, cursor, has_next)));
            start = end;
            match action {
                Action::Fetch => continue,
                Action::Stop => break,
                Action::Retry(_) => panic!("no retry expected"),
            }
        }
        assert!(matches!(driver.phase, Phase::Done));
        assert_eq!(driver.issues, dataset, "page size {}", n);
    }
}

#[test]
fn transient_503_twice_then_success_completes_in_three_calls() {
    // A transport stub failing with 503 twice and succeeding on the third
    // attempt: the driver completes with exactly 3 transport calls.
    let mut driver = Driver::new(2);
    let responses: Vec<Result<(String, u16), TransportError>> = vec![
        Ok(("server error".to_string(), 503)),
        Ok(("server error".to_string(), 503)),
        Ok((body_with_edges(&[("c1", 7, "1970-01-01T00:01:40Z")]), 200)),
    ];
    let mut calls = 0;
    for resp in responses {
        calls += 1;
        match driver.step(resp) {
            Action::Retry(delay) => {
                assert!(delay > 0);
                assert!(matches!(driver.phase, Phase::Fetching));
            }
            Action::Stop => break,
            Action::Fetch => panic!("single page only"),
        }
    }
    assert_eq!(calls, 3);
    assert!(matches!(driver.phase, Phase::Done));
    assert_eq!(driver.issues, vec![issue(7, 100, None)]);
}

#[test]
fn retries_exhausted_fails() {
    // Three retryable failures in a row exhaust the attempts for the page.
    let mut driver = Driver::new(1);
    assert_eq!(driver.step(Ok(("e".to_string(), 500))), Action::Retry(500));
    assert_eq!(driver.step(Ok(("e".to_string(), 502))), Action::Retry(1000));
    assert_eq!(driver.step(Ok(("e".to_string(), 503))), Action::Stop);
    assert!(matches!(driver.phase, Phase::Failed(RepoError::HttpError(503))));
}

#[test]
fn connection_error_is_retried() {
    let mut driver = Driver::new(1);
    let action = driver.step(Err(TransportError::Connection("timeout".to_string())));
    assert_eq!(action, Action::Retry(500));
    assert!(matches!(driver.phase, Phase::Fetching));
}

#[test]
fn non_retryable_401_fails_after_one_call() {
    // A 401 (bad token) is not retryable: Failed after exactly 1 call.
    let mut driver = Driver::new(1);
    let action = driver.step(Ok(("unauthorized".to_string(), 401)));
    assert_eq!(action, Action::Stop);
    assert!(matches!(driver.phase, Phase::Failed(RepoError::HttpError(401))));
    assert!(driver.issues.is_empty());
}

#[test]
fn graphql_errors_fail_without_retry() {
    let mut driver = Driver::new(1);
    let body = "{\"errors\":[{\"message\":\"bad query\"}]}".to_string();
    let action = driver.step(Ok((body, 200)));
    assert_eq!(action, Action::Stop);
    match &driver.phase {
        Phase::Failed(RepoError::GraphQLError(msgs)) => {
            assert_eq!(msgs, &vec!["bad query".to_string()]);
        }
        other => panic!("expected GraphQLError, got {:?}", other),
    }
}

#[test]
fn malformed_body_fails_without_retry() {
    let mut driver = Driver::new(1);
    let action = driver.step(Ok(("not json".to_string(), 200)));
    assert_eq!(action, Action::Stop);
    assert!(matches!(driver.phase, Phase::Failed(RepoError::MalformedResponse)));
}

#[test]
fn two_issues_page_size_two_true_then_false() {
    // has_next_page true then false, Done with both issues in creation order,
    // in 2 fetches.
    let mut driver = Driver::new(2);
    let first = body_with_edges(&[
        ("c1", 1, "1970-01-01T00:00:01Z"),
        ("c2", 2, "1970-01-01T00:00:02Z"),
    ]);
    let action = driver.step(Ok((first, 200)));
    assert_eq!(action, Action::Fetch);
    assert_eq!(driver.cursor.as_deref(), Some("c2"));
    let action = driver.step(Ok((body_with_edges(&[]), 200)));
    assert_eq!(action, Action::Stop);
    assert!(matches!(driver.phase, Phase::Done));
    assert_eq!(driver.issues, vec![issue(1, 1, None), issue(2, 2, None)]);
}

#[test]
fn two_issues_page_size_one_end_to_end() {
    // Repository with 2 issues, page size 1: each full page signals a next
    // page, so the driver fetches until a short (empty) page, ending Done
    // with both issues in creation order.
    let mut driver = Driver::new(1);
    let mut fetches = 0;
    let pages = vec![
        body_with_edges(&[("c1", 1, "1970-01-01T00:00:01Z")]),
        body_with_edges(&[("c2", 2, "1970-01-01T00:00:02Z")]),
        body_with_edges(&[]),
    ];
    let mut flags = Vec::new();
    for body in pages {
        fetches += 1;
        let action = driver.step(Ok((body, 200)));
        match action {
            Action::Fetch => flags.push(true),
            Action::Stop => flags.push(false),
            Action::Retry(_) => panic!("no retry expected"),
        }
    }
    assert_eq!(fetches, 3);
    assert_eq!(flags, vec![true, true, false]);
    assert!(matches!(driver.phase, Phase::Done));
    assert_eq!(driver.issues, vec![issue(1, 1, None), issue(2, 2, None)]);
}

#[test]
fn fetched_issues_aggregate_to_a_series() {
    let mut driver = Driver::new(2);
    let body = body_with_edges(&[
        ("c1", 1, "1970-01-01T00:00:01Z"),
        ("c2", 2, "1970-01-01T00:00:02Z"),
    ]);
    assert_eq!(driver.step(Ok((body, 200))), Action::Fetch);
    assert_eq!(driver.step(Ok((body_with_edges(&[]), 200))), Action::Stop);
    assert!(matches!(driver.phase, Phase::Done));
    let series = issue_history::aggregate(&driver.issues);
    assert_eq!(series, vec![(1, 1), (2, 2)]);
}

#[test]
fn accumulated_issues_kept_on_failure() {
    let mut driver = Driver::new(1);
    let action = driver.step(Ok((body_with_edges(&[("c1", 9, "1970-01-01T00:00:00Z")]), 200)));
    assert_eq!(action, Action::Fetch);
    let action = driver.step(Ok(("forbidden".to_string(), 404)));
    assert_eq!(action, Action::Stop);
    assert!(matches!(driver.phase, Phase::Failed(RepoError::HttpError(404))));
    assert_eq!(driver.issues, vec![issue(9, 0, None)]);
}
