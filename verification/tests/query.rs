use issue_history::{api_endpoint, build_query, request_body, RepoRef};

fn repo(owner: &str, name: &str) -> RepoRef {
    RepoRef { owner: owner.to_string(), name: name.to_string() }
}

#[test]
fn endpoint_is_fixed() {
    assert_eq!(api_endpoint(), "https://api.github.com/graphql");
}

#[test]
fn first_page_query() {
    let q = build_query(&repo("own", "repo"), 100, None);
    assert_eq!(
        q,
        "query { repository(name:\"repo\",owner:\"own\") { issues(first:100) \
         { edges { cursor, node { number, createdAt, closedAt } } } } }"
    );
}

#[test]
fn continuation_query_names_the_cursor() {
    let cursor = "abc123=".to_string();
    let q = build_query(&repo("o", "n"), 5, Some(&cursor));
    assert_eq!(
        q,
        "query { repository(name:\"n\",owner:\"o\") { issues(first:5,after:\"abc123=\") \
         { edges { cursor, node { number, createdAt, closedAt } } } } }"
    );
}

#[test]
fn request_body_frames_and_escapes() {
    assert_eq!(request_body("plain"), "{\"query\":\"plain\"}");
    assert_eq!(
        request_body("a\"b\\c\nd\re\tf"),
        "{\"query\":\"a\\\"b\\\\c\\nd\\re\\tf\"}"
    );
    assert_eq!(
        request_body("\u{8}\u{c}\u{0}\u{1}\u{b}\u{1f}"),
        "{\"query\":\"\\b\\f\\u0000\\u0001\\u000b\\u001f\"}"
    );
}

#[test]
fn escaping_agrees_with_the_json_encoder() {
    // Every character the encoder must escape, and some it must not: the
    // framed body round-trips through a JSON parser to the original query.
    let mut query = String::from("q \"x\" \\y ");
    for code in 0u32..0x20 {
        query.push(char::from_u32(code).unwrap());
    }
    query.push('\u{7f}');
    query.push('é');
    let body = request_body(&query);
    let expected = format!("{{\"query\":{}}}", serde_json::to_string(&query).unwrap());
    assert_eq!(body, expected);
    let v: serde_json::Value = serde_json::from_str(&body).expect("body must be valid JSON");
    assert_eq!(v.get("query").and_then(|q| q.as_str()), Some(query.as_str()));
}

#[test]
fn request_body_of_a_real_query_is_valid_json() {
    let q = build_query(&repo("own", "repo"), 1, None);
    let body = request_body(&q);
    let v: serde_json::Value = serde_json::from_str(&body).expect("body must be valid JSON");
    assert_eq!(v.get("query").and_then(|q| q.as_str()), Some(q.as_str()));
}
