use issue_history::{parse, Issue, RepoError};

#[test]
fn non_200_status_is_http_error() {
    for status in [301u16, 401, 404, 429, 500, 503] {
        match parse("anything", status, 10) {
            Err(RepoError::HttpError(s)) => assert_eq!(s, status),
            other => panic!("expected HttpError, got {:?}", other),
        }
    }
}

#[test]
fn invalid_json_is_malformed() {
    assert!(matches!(parse("not json", 200, 10), Err(RepoError::MalformedResponse)));
    assert!(matches!(parse("", 200, 10), Err(RepoError::MalformedResponse)));
    assert!(matches!(parse("{\"data\":3}", 200, 10), Err(RepoError::MalformedResponse)));
    assert!(matches!(
        parse("{\"data\":{\"repository\":null}}", 200, 10),
        Err(RepoError::MalformedResponse)
    ));
}

#[test]
fn top_level_errors_are_graphql_errors() {
    let body = "{\"data\":null,\"errors\":[{\"message\":\"first\"},{\"message\":\"second\"}]}";
    match parse(body, 200, 10) {
        Err(RepoError::GraphQLError(msgs)) => {
            assert_eq!(msgs, vec!["first".to_string(), "second".to_string()]);
        }
        other => panic!("expected GraphQLError, got {:?}", other),
    }
}

#[test]
fn page_with_edges_is_decoded() {
    let body = "{\"data\":{\"repository\":{\"issues\":{\"edges\":[\
        {\"cursor\":\"a\",\"node\":{\"number\":1,\"createdAt\":\"1970-01-01T00:00:00Z\",\"closedAt\":\"1970-01-01T00:01:40Z\"}},\
        {\"cursor\":\"b\",\"node\":{\"number\":2,\"createdAt\":\"2020-01-01T00:00:00Z\",\"closedAt\":null}}\
    ]}}}}";
    let page = parse(body, 200, 2).expect("page expected");
    assert_eq!(
        page.issues,
        vec![
            Issue { number: 1, created_at: 0, closed_at: Some(100) },
            Issue { number: 2, created_at: 1577836800, closed_at: None },
        ]
    );
    assert_eq!(page.next_cursor.as_deref(), Some("b"));
    assert!(page.has_next_page, "full page expects a next page");
}

#[test]
fn short_page_has_no_next() {
    let body = "{\"data\":{\"repository\":{\"issues\":{\"edges\":[\
        {\"cursor\":\"a\",\"node\":{\"number\":5,\"createdAt\":\"1970-01-01T00:00:07Z\"}}\
    ]}}}}";
    let page = parse(body, 200, 2).expect("page expected");
    assert_eq!(page.issues, vec![Issue { number: 5, created_at: 7, closed_at: None }]);
    assert!(!page.has_next_page);
}

#[test]
fn empty_page_has_no_cursor() {
    let body = "{\"data\":{\"repository\":{\"issues\":{\"edges\":[]}}}}";
    let page = parse(body, 200, 2).expect("page expected");
    assert!(page.issues.is_empty());
    assert!(page.next_cursor.is_none());
    assert!(!page.has_next_page);
}

#[test]
fn unparsable_timestamp_is_malformed() {
    let body = "{\"data\":{\"repository\":{\"issues\":{\"edges\":[\
        {\"cursor\":\"a\",\"node\":{\"number\":1,\"createdAt\":\"yesterday\",\"closedAt\":null}}\
    ]}}}}";
    assert!(matches!(parse(body, 200, 2), Err(RepoError::MalformedResponse)));
}

#[test]
fn missing_edge_fields_are_malformed() {
    let missing_cursor = "{\"data\":{\"repository\":{\"issues\":{\"edges\":[\
        {\"node\":{\"number\":1,\"createdAt\":\"1970-01-01T00:00:00Z\"}}\
    ]}}}}";
    assert!(matches!(parse(missing_cursor, 200, 2), Err(RepoError::MalformedResponse)));
    let missing_number = "{\"data\":{\"repository\":{\"issues\":{\"edges\":[\
        {\"cursor\":\"a\",\"node\":{\"createdAt\":\"1970-01-01T00:00:00Z\"}}\
    ]}}}}";
    assert!(matches!(parse(missing_number, 200, 2), Err(RepoError::MalformedResponse)));
    let edges_not_array = "{\"data\":{\"repository\":{\"issues\":{\"edges\":7}}}}";
    assert!(matches!(parse(edges_not_array, 200, 2), Err(RepoError::MalformedResponse)));
}

#[test]
fn errors_not_an_array_is_malformed() {
    let body = "{\"errors\":\"oops\"}";
    assert!(matches!(parse(body, 200, 2), Err(RepoError::MalformedResponse)));
}

#[test]
fn graphql_errors_win_over_data() {
    // A 200 response can carry both data and errors; the errors are checked
    // first and are fatal.
    let body = "{\"data\":{\"repository\":{\"issues\":{\"edges\":[]}}},\
        \"errors\":[{\"message\":\"partial failure\"}]}";
    match parse(body, 200, 2) {
        Err(RepoError::GraphQLError(msgs)) => assert_eq!(msgs, vec!["partial failure".to_string()]),
        other => panic!("expected GraphQLError, got {:?}", other),
    }
}

#[test]
fn timezone_offsets_are_honoured() {
    // 01:00:00 at +01:00 is midnight UTC: the parsed instant, not the local
    // rendering, is stored.
    let body = "{\"data\":{\"repository\":{\"issues\":{\"edges\":[\
        {\"cursor\":\"a\",\"node\":{\"number\":1,\"createdAt\":\"1970-01-01T01:00:00+01:00\",\"closedAt\":null}}\
    ]}}}}";
    let page = parse(body, 200, 2).expect("page expected");
    assert_eq!(page.issues[0].created_at, 0);
}
