//! Decoding one response body into a typed page of issues, or an error.
//!
//! A non-200 status is an HTTP error. A 200 body with a top-level `errors`
//! array is a GraphQL-level failure, checked before anything else. Otherwise
//! the body must hold `data.repository.issues.edges`; each edge yields one
//! issue, the page's next cursor is the last edge's cursor, and a next page
//! is expected exactly when the edge count equals the requested page size.
//!
//! JSON values are navigated through serde_json and timestamps parsed through
//! chrono, behind trusted declarations. The contracts speak of a model of the
//! JSON document (`JsonModel`, named by `json_view` and `json_doc_of`), the
//! envelope grammar is the spec function `decode_spec` on that model, and the
//! walk of the document is verified against it.

use vstd::prelude::*;
use crate::model::{Issue, Page, RepoError};

verus! {

#[verifier::external_type_specification]
#[verifier::external_body]
pub struct ExValue(serde_json::Value);

/// A JSON value as the contracts see it. Numbers are abstracted to their
/// `u64` value where they have one, which is all the envelope reads.
pub ghost enum JsonModel {
    Null,
    Bool(bool),
    Num(Option<u64>),
    Str(Seq<char>),
    Arr(Seq<JsonModel>),
    Obj(Map<Seq<char>, JsonModel>),
}

/// What a serde_json value holds, as the model.
pub uninterp spec fn json_view(v: serde_json::Value) -> JsonModel;

/// What serde_json's parser yields on a body: `None` where it rejects the
/// text (invalid JSON, or nesting beyond its recursion limit). The result
/// depends on the characters alone.
pub uninterp spec fn json_doc_of(s: Seq<char>) -> Option<JsonModel>;

/// Relies on serde_json::from_str::<Value>: decodes a JSON document, `None`
/// when the parser rejects the body.
#[verifier::external_body]
fn json_parse(body: &str) -> (r: Option<serde_json::Value>)
    ensures
        match r {
            Some(v) => json_doc_of(body@) == Some(json_view(v)),
            None => json_doc_of(body@) is None,
        },
{
    serde_json::from_str(body).ok()
}

/// Relies on serde_json::Value::get: looks a key up in a JSON object, `None`
/// when the value is no object or lacks the key.
#[verifier::external_body]
fn json_get<'a>(v: &'a serde_json::Value, key: &str) -> (r: Option<&'a serde_json::Value>)
    ensures
        match json_view(*v) {
            JsonModel::Obj(m) => match r {
                Some(u) => m.dom().contains(key@) && json_view(*u) == m[key@],
                None => !m.dom().contains(key@),
            },
            _ => r is None,
        },
{
    v.get(key)
}

/// Relies on serde_json::Value::as_array: the element vector of a JSON
/// array, `None` for any other value.
#[verifier::external_body]
fn json_as_array<'a>(v: &'a serde_json::Value) -> (r: Option<&'a Vec<serde_json::Value>>)
    ensures
        match json_view(*v) {
            JsonModel::Arr(elems) => (r matches Some(a) && a@.len() == elems.len() && forall|i: int|
                0 <= i < elems.len() ==> json_view(#[trigger] a@[i]) == elems[i]),
            _ => r is None,
        },
{
    v.as_array()
}

/// Relies on serde_json::Value::as_str: the content of a JSON string,
/// `None` for any other value.
#[verifier::external_body]
fn json_as_str(v: &serde_json::Value) -> (r: Option<String>)
    ensures
        match json_view(*v) {
            JsonModel::Str(s) => (r matches Some(rs) && rs@ == s),
            _ => r is None,
        },
{
    v.as_str().map(|s| s.to_owned())
}

/// Relies on serde_json::Value::as_u64: a JSON number as a u64 when it has
/// that value, `None` otherwise.
#[verifier::external_body]
fn json_as_u64(v: &serde_json::Value) -> (r: Option<u64>)
    ensures
        match json_view(*v) {
            JsonModel::Num(n) => r == n,
            _ => r is None,
        },
{
    v.as_u64()
}

/// Relies on serde_json::Value::is_null: whether the value is JSON null.
#[verifier::external_body]
fn json_is_null(v: &serde_json::Value) -> (r: bool)
    ensures
        r <==> json_view(*v) is Null,
{
    v.is_null()
}

pub uninterp spec fn rfc3339_seconds(s: Seq<char>) -> Option<i64>;

/// Relies on chrono's DateTime::parse_from_rfc3339 and DateTime::timestamp:
/// the instant an RFC 3339 string denotes, in Unix seconds; `None` when the
/// string does not parse. The result depends on the characters alone.
#[verifier::external_body]
fn rfc3339_to_unix(s: &str) -> (r: Option<i64>)
    ensures
        r == rfc3339_seconds(s@),
{
    chrono::DateTime::parse_from_rfc3339(s).ok().map(|d| d.timestamp())
}

/// The value under `key`, where `v` is an object that has it.
pub open spec fn field_of(v: JsonModel, key: Seq<char>) -> Option<JsonModel> {
    match v {
        JsonModel::Obj(m) => if m.dom().contains(key) {
            Some(m[key])
        } else {
            None
        },
        _ => None,
    }
}

/// `field_of`, chained through an optional value.
pub open spec fn sub_field(v: Option<JsonModel>, key: Seq<char>) -> Option<JsonModel> {
    match v {
        Some(x) => field_of(x, key),
        None => None,
    }
}

/// The message of one element of a GraphQL `errors` array, where it is an
/// object with a string `message`.
pub open spec fn message_of(e: JsonModel) -> Option<Seq<char>> {
    match field_of(e, "message"@) {
        Some(JsonModel::Str(s)) => Some(s),
        _ => None,
    }
}

/// The message strings among the elements of an `errors` array, in order;
/// elements without a string message are passed over.
pub open spec fn messages_of(es: Seq<JsonModel>) -> Seq<Seq<char>>
    decreases es.len(),
{
    if es.len() == 0 {
        Seq::empty()
    } else {
        (match message_of(es[0]) {
            Some(s) => seq![s],
            None => Seq::<Seq<char>>::empty(),
        }) + messages_of(es.drop_first())
    }
}

/// One edge of the envelope, timestamps still unparsed, as the model.
pub ghost struct EdgeSpec {
    pub cursor: Seq<char>,
    pub number: u64,
    pub created_at: Seq<char>,
    pub closed_at: Option<Seq<char>>,
}

/// The edge an element of the `edges` array denotes: an object with a string
/// `cursor` and a `node` object holding a u64 `number`, a string `createdAt`
/// and a `closedAt` that is absent, null, or a string. `None` otherwise.
pub open spec fn edge_spec(e: JsonModel) -> Option<EdgeSpec> {
    match (field_of(e, "cursor"@), field_of(e, "node"@)) {
        (Some(JsonModel::Str(cursor)), Some(node)) => {
            match (sub_field(Some(node), "number"@), sub_field(Some(node), "createdAt"@)) {
                (Some(JsonModel::Num(Some(number))), Some(JsonModel::Str(created_at))) => {
                    match sub_field(Some(node), "closedAt"@) {
                        None => Some(
                            EdgeSpec { cursor, number, created_at, closed_at: None },
                        ),
                        Some(JsonModel::Null) => Some(
                            EdgeSpec { cursor, number, created_at, closed_at: None },
                        ),
                        Some(JsonModel::Str(c)) => Some(
                            EdgeSpec { cursor, number, created_at, closed_at: Some(c) },
                        ),
                        Some(_) => None,
                    }
                },
                _ => None,
            }
        },
        _ => None,
    }
}

/// All edges of the array, or `None` as soon as one element is no edge.
pub open spec fn edges_spec(es: Seq<JsonModel>) -> Option<Seq<EdgeSpec>> {
    if forall|i: int| 0 <= i < es.len() ==> edge_spec(#[trigger] es[i]) is Some {
        Some(Seq::new(es.len(), |i: int| edge_spec(es[i]).unwrap()))
    } else {
        None
    }
}

/// What shape a body turns out to have, as the model.
pub ghost enum DecodedSpec {
    Malformed,
    Errors(Seq<Seq<char>>),
    Edges(Seq<EdgeSpec>),
}

/// The envelope grammar: a body the parser rejects is malformed; a top-level
/// `errors` array wins and carries its messages; otherwise
/// `data.repository.issues.edges` must lead to an array of edges.
pub open spec fn decode_spec(doc: Option<JsonModel>) -> DecodedSpec {
    match doc {
        None => DecodedSpec::Malformed,
        Some(root) => {
            if field_of(root, "errors"@) is Some {
                match field_of(root, "errors"@) {
                    Some(JsonModel::Arr(es)) => DecodedSpec::Errors(messages_of(es)),
                    _ => DecodedSpec::Malformed,
                }
            } else {
                match sub_field(
                    sub_field(sub_field(field_of(root, "data"@), "repository"@), "issues"@),
                    "edges"@,
                ) {
                    Some(JsonModel::Arr(es)) => match edges_spec(es) {
                        Some(s) => DecodedSpec::Edges(s),
                        None => DecodedSpec::Malformed,
                    },
                    _ => DecodedSpec::Malformed,
                }
            }
        },
    }
}

/// One edge as found in the body, timestamps still unparsed.
pub struct RawEdge {
    pub cursor: String,
    pub number: u64,
    pub created_at: String,
    pub closed_at: Option<String>,
}

/// The model of a raw edge.
pub open spec fn raw_edge_view(r: RawEdge) -> EdgeSpec {
    EdgeSpec {
        cursor: r.cursor@,
        number: r.number,
        created_at: r.created_at@,
        closed_at: match r.closed_at {
            Some(c) => Some(c@),
            None => None,
        },
    }
}

/// What shape the body turned out to have.
pub enum Decoded {
    Malformed,
    Errors(Vec<String>),
    Edges(Vec<RawEdge>),
}

/// The decoded value carries exactly what the model says.
pub open spec fn decoded_matches(d: Decoded, ds: DecodedSpec) -> bool {
    match d {
        Decoded::Malformed => ds is Malformed,
        Decoded::Errors(msgs) => (ds matches DecodedSpec::Errors(ms) && msgs@.len() == ms.len()
            && forall|i: int| 0 <= i < ms.len() ==> (#[trigger] msgs@[i])@ == ms[i]),
        Decoded::Edges(raw) => (ds matches DecodedSpec::Edges(es) && raw@.len() == es.len()
            && forall|i: int| 0 <= i < es.len() ==> raw_edge_view(#[trigger] raw@[i]) == es[i]),
    }
}

proof fn lemma_messages_of_snoc(s: Seq<JsonModel>, x: JsonModel)
    ensures
        messages_of(s.push(x)) == messages_of(s) + (match message_of(x) {
            Some(m) => seq![m],
            None => Seq::<Seq<char>>::empty(),
        }),
    decreases s.len(),
{
    if s.len() == 0 {
        assert(s.push(x).drop_first() =~= Seq::<JsonModel>::empty());
        assert(messages_of(Seq::<JsonModel>::empty()) =~= Seq::<Seq<char>>::empty());
        assert(s.push(x)[0] == x);
        assert(messages_of(s.push(x)) =~= messages_of(s) + (match message_of(x) {
            Some(m) => seq![m],
            None => Seq::<Seq<char>>::empty(),
        }));
    } else {
        assert(s.push(x).drop_first() =~= s.drop_first().push(x));
        lemma_messages_of_snoc(s.drop_first(), x);
        assert(messages_of(s.push(x)) =~= messages_of(s) + (match message_of(x) {
            Some(m) => seq![m],
            None => Seq::<Seq<char>>::empty(),
        }));
    }
}

/// Reads one element of the `edges` array; `None` exactly where the element
/// is no edge under `edge_spec`.
fn decode_edge(e: &serde_json::Value) -> (r: Option<RawEdge>)
    ensures
        match r {
            Some(re) => edge_spec(json_view(*e)) == Some(raw_edge_view(re)),
            None => edge_spec(json_view(*e)) is None,
        },
{
    let cursor = match json_get(e, "cursor") {
        None => {
            return None;
        },
        Some(c) => match json_as_str(c) {
            None => {
                return None;
            },
            Some(s) => s,
        },
    };
    let node = match json_get(e, "node") {
        None => {
            return None;
        },
        Some(n) => n,
    };
    let number = match json_get(node, "number") {
        None => {
            return None;
        },
        Some(n) => match json_as_u64(n) {
            None => {
                return None;
            },
            Some(n) => n,
        },
    };
    let created_at = match json_get(node, "createdAt") {
        None => {
            return None;
        },
        Some(c) => match json_as_str(c) {
            None => {
                return None;
            },
            Some(s) => s,
        },
    };
    let closed_at = match json_get(node, "closedAt") {
        None => None,
        Some(c) => {
            if json_is_null(c) {
                None
            } else {
                match json_as_str(c) {
                    None => {
                        return None;
                    },
                    Some(s) => Some(s),
                }
            }
        },
    };
    Some(RawEdge { cursor, number, created_at, closed_at })
}

/// Walks the JSON envelope; the result carries exactly what `decode_spec`
/// says of the parsed body.
fn decode(body: &str) -> (d: Decoded)
    ensures
        decoded_matches(d, decode_spec(json_doc_of(body@))),
{
    let root = match json_parse(body) {
        None => {
            return Decoded::Malformed;
        },
        Some(v) => v,
    };
    let ghost doc = json_view(root);
    match json_get(&root, "errors") {
        Some(errs) => {
            let arr = match json_as_array(errs) {
                None => {
                    return Decoded::Malformed;
                },
                Some(a) => a,
            };
            let ghost elems = (match json_view(*errs) {
                JsonModel::Arr(es) => es,
                _ => Seq::empty(),
            });
            let mut msgs: Vec<String> = Vec::new();
            let mut i: usize = 0;
            while i < arr.len()
                invariant
                    i <= arr@.len(),
                    arr@.len() == elems.len(),
                    forall|j: int| 0 <= j < elems.len() ==> json_view(#[trigger] arr@[j]) == elems[j],
                    msgs@.len() == messages_of(elems.take(i as int)).len(),
                    forall|j: int|
                        0 <= j < msgs@.len() ==> (#[trigger] msgs@[j])@ == messages_of(
                            elems.take(i as int),
                        )[j],
                decreases arr@.len() - i,
            {
                let ghost pre = elems.take(i as int);
                match json_get(&arr[i], "message") {
                    Some(m) => match json_as_str(m) {
                        Some(s) => {
                            proof {
                                assert(message_of(elems[i as int]) == Some(s@));
                            }
                            msgs.push(s);
                        },
                        None => {
                            proof {
                                assert(message_of(elems[i as int]) is None);
                            }
                        },
                    },
                    None => {
                        proof {
                            assert(message_of(elems[i as int]) is None);
                        }
                    },
                }
                proof {
                    lemma_messages_of_snoc(pre, elems[i as int]);
                    assert(elems.take(i + 1) =~= pre.push(elems[i as int]));
                }
                i = i + 1;
            }
            proof {
                assert(elems.take(elems.len() as int) =~= elems);
            }
            return Decoded::Errors(msgs);
        },
        None => {},
    }
    let data = match json_get(&root, "data") {
        None => {
            return Decoded::Malformed;
        },
        Some(v) => v,
    };
    let repo = match json_get(data, "repository") {
        None => {
            return Decoded::Malformed;
        },
        Some(v) => v,
    };
    let issues = match json_get(repo, "issues") {
        None => {
            return Decoded::Malformed;
        },
        Some(v) => v,
    };
    let edges = match json_get(issues, "edges") {
        None => {
            return Decoded::Malformed;
        },
        Some(v) => v,
    };
    let arr = match json_as_array(edges) {
        None => {
            return Decoded::Malformed;
        },
        Some(a) => a,
    };
    let ghost elems = (match json_view(*edges) {
        JsonModel::Arr(es) => es,
        _ => Seq::empty(),
    });
    let mut raw: Vec<RawEdge> = Vec::new();
    let mut i: usize = 0;
    while i < arr.len()
        invariant
            i <= arr@.len(),
            arr@.len() == elems.len(),
            forall|j: int| 0 <= j < elems.len() ==> json_view(#[trigger] arr@[j]) == elems[j],
            raw@.len() == i,
            forall|j: int| 0 <= j < i ==> edge_spec(#[trigger] elems[j]) is Some,
            forall|j: int|
                0 <= j < i ==> raw_edge_view(#[trigger] raw@[j]) == edge_spec(elems[j]).unwrap(),
            json_doc_of(body@) == Some(doc),
            field_of(doc, "errors"@) is None,
            sub_field(
                sub_field(sub_field(field_of(doc, "data"@), "repository"@), "issues"@),
                "edges"@,
            ) == Some(JsonModel::Arr(elems)),
        decreases arr@.len() - i,
    {
        match decode_edge(&arr[i]) {
            None => {
                proof {
                    assert(edge_spec(elems[i as int]) is None);
                    assert(edges_spec(elems) is None);
                    assert(json_doc_of(body@) == Some(doc));
                    assert(field_of(doc, "errors"@) is None);
                    assert(sub_field(
                        sub_field(sub_field(field_of(doc, "data"@), "repository"@), "issues"@),
                        "edges"@,
                    ) == Some(JsonModel::Arr(elems)));
                    assert(decode_spec(json_doc_of(body@)) is Malformed);
                }
                return Decoded::Malformed;
            },
            Some(re) => {
                raw.push(re);
            },
        }
        i = i + 1;
    }
    proof {
        assert(edges_spec(elems) == Some(Seq::new(elems.len(), |j: int| edge_spec(elems[j]).unwrap())));
        assert(decode_spec(json_doc_of(body@)) matches DecodedSpec::Edges(es) && raw@.len()
            == es.len() && forall|j: int|
            0 <= j < es.len() ==> raw_edge_view(#[trigger] raw@[j]) == es[j]);
    }
    Decoded::Edges(raw)
}

/// An issue paired with its pagination cursor.
pub struct Edge {
    pub cursor: String,
    pub issue: Issue,
}

/// Both timestamps of an edge parse as RFC 3339.
pub open spec fn edge_ok(e: EdgeSpec) -> bool {
    &&& rfc3339_seconds(e.created_at) is Some
    &&& (e.closed_at matches Some(c) ==> rfc3339_seconds(c) is Some)
}

/// The issue an edge denotes, once its timestamps parse.
pub open spec fn edge_issue(e: EdgeSpec) -> Issue {
    Issue {
        number: e.number,
        created_at: rfc3339_seconds(e.created_at).unwrap(),
        closed_at: match e.closed_at {
            Some(c) => Some(rfc3339_seconds(c).unwrap()),
            None => None,
        },
    }
}

/// Parses every raw edge's timestamps; `None` exactly when some timestamp is
/// not RFC 3339.
fn edges_from_raw(raw: Vec<RawEdge>) -> (r: Option<Vec<Edge>>)
    ensures
        r is Some <==> (forall|k: int|
            0 <= k < raw@.len() ==> edge_ok(raw_edge_view(#[trigger] raw@[k]))),
        r matches Some(es) ==> {
            &&& es@.len() == raw@.len()
            &&& forall|k: int|
                0 <= k < raw@.len() ==> (#[trigger] es@[k]).cursor@ == raw@[k].cursor@
                    && es@[k].issue == edge_issue(raw_edge_view(raw@[k]))
        },
{
    let mut es: Vec<Edge> = Vec::new();
    let mut i: usize = 0;
    while i < raw.len()
        invariant
            i <= raw@.len(),
            es@.len() == i,
            forall|k: int| 0 <= k < i ==> edge_ok(raw_edge_view(#[trigger] raw@[k])),
            forall|k: int|
                0 <= k < i ==> (#[trigger] es@[k]).cursor@ == raw@[k].cursor@ && es@[k].issue
                    == edge_issue(raw_edge_view(raw@[k])),
        decreases raw@.len() - i,
    {
        let re = &raw[i];
        let created = match rfc3339_to_unix(re.created_at.as_str()) {
            None => {
                return None;
            },
            Some(t) => t,
        };
        let closed = match &re.closed_at {
            None => None,
            Some(c) => match rfc3339_to_unix(c.as_str()) {
                None => {
                    return None;
                },
                Some(t) => Some(t),
            },
        };
        let issue = Issue { number: re.number, created_at: created, closed_at: closed };
        es.push(Edge { cursor: re.cursor.clone(), issue });
        i = i + 1;
    }
    Some(es)
}

/// Builds the page from typed edges: the issues in edge order, the last
/// edge's cursor as the next cursor, and a next page expected exactly when
/// the edge count equals the requested page size.
pub fn page_of_edges(edges: Vec<Edge>, page_size: u64) -> (p: Page)
    requires
        1 <= page_size,
    ensures
        p.issues@ == edges@.map_values(|e: Edge| e.issue),
        edges@.len() == 0 ==> p.next_cursor is None,
        edges@.len() > 0 ==> (p.next_cursor matches Some(c) && c@ == edges@.last().cursor@),
        p.has_next_page <==> edges@.len() == page_size,
        p.wf(),
{
    let mut issues: Vec<Issue> = Vec::new();
    let mut i: usize = 0;
    while i < edges.len()
        invariant
            i <= edges@.len(),
            issues@.len() == i,
            forall|k: int| 0 <= k < i ==> issues@[k] == (#[trigger] edges@[k]).issue,
        decreases edges@.len() - i,
    {
        issues.push(edges[i].issue);
        i = i + 1;
    }
    proof {
        assert(issues@ =~= edges@.map_values(|e: Edge| e.issue));
    }
    let next_cursor = if edges.len() == 0 {
        None
    } else {
        Some(edges[edges.len() - 1].cursor.clone())
    };
    let has_next_page = edges.len() as u64 == page_size;
    Page { issues, next_cursor, has_next_page }
}

/// How the decoded shape of a 200 body maps to the parser's result: a
/// malformed shape (or, below, an unparsable timestamp) is
/// `MalformedResponse`; an `errors` array is `GraphQLError` with its
/// messages; edges give the page exactly, or `MalformedResponse` where some
/// timestamp does not parse.
pub open spec fn decoded_result(d: DecodedSpec, page_size: u64, r: Result<Page, RepoError>) -> bool {
    match d {
        DecodedSpec::Malformed => r matches Err(RepoError::MalformedResponse),
        DecodedSpec::Errors(ms) => (r matches Err(RepoError::GraphQLError(m)) && m@.len()
            == ms.len() && forall|i: int| 0 <= i < ms.len() ==> (#[trigger] m@[i])@ == ms[i]),
        DecodedSpec::Edges(es) => {
            if forall|k: int| 0 <= k < es.len() ==> edge_ok(#[trigger] es[k]) {
                r matches Ok(p) && {
                    &&& p.issues@ == es.map_values(|e: EdgeSpec| edge_issue(e))
                    &&& (es.len() == 0 ==> p.next_cursor is None)
                    &&& (es.len() > 0 ==> (p.next_cursor matches Some(c) && c@
                        == es.last().cursor))
                    &&& (p.has_next_page <==> es.len() == page_size)
                    &&& p.wf()
                }
            } else {
                r matches Err(RepoError::MalformedResponse)
            }
        },
    }
}

/// Classifies one transport round-trip. A non-200 status is
/// `HttpError(status)`, whatever the body. A 200 body is decoded against the
/// envelope grammar, and the result is exactly what `decoded_result` states
/// of the parsed body's shape.
pub fn parse(body: &str, status: u16, page_size: u64) -> (r: Result<Page, RepoError>)
    requires
        1 <= page_size,
    ensures
        status != 200 ==> (r matches Err(RepoError::HttpError(s)) && s == status),
        status == 200 ==> decoded_result(decode_spec(json_doc_of(body@)), page_size, r),
{
    if status != 200 {
        return Err(RepoError::HttpError(status));
    }
    let ghost ds = decode_spec(json_doc_of(body@));
    let d = decode(body);
    match d {
        Decoded::Malformed => Err(RepoError::MalformedResponse),
        Decoded::Errors(msgs) => Err(RepoError::GraphQLError(msgs)),
        Decoded::Edges(raw) => {
            let ghost graw = raw@;
            let ghost es = (match ds {
                DecodedSpec::Edges(es) => es,
                _ => Seq::empty(),
            });
            proof {
                assert forall|k: int| 0 <= k < graw.len() implies (edge_ok(
                    raw_edge_view(#[trigger] graw[k]),
                ) <==> edge_ok(es[k])) by {
                    assert(raw_edge_view(graw[k]) == es[k]);
                }
            }
            match edges_from_raw(raw) {
                None => {
                    proof {
                        let k = choose|k: int|
                            0 <= k < graw.len() && !edge_ok(raw_edge_view(#[trigger] graw[k]));
                        assert(!edge_ok(es[k]));
                    }
                    Err(RepoError::MalformedResponse)
                },
                Some(typed) => {
                    let ghost gtyped = typed@;
                    let p = page_of_edges(typed, page_size);
                    proof {
                        assert forall|k: int| 0 <= k < es.len() implies edge_ok(
                            #[trigger] es[k],
                        ) by {
                            assert(raw_edge_view(graw[k]) == es[k]);
                            assert(edge_ok(raw_edge_view(graw[k])));
                        }
                        assert forall|k: int| 0 <= k < es.len() implies (#[trigger] gtyped[k]).issue
                            == edge_issue(es[k]) by {
                            assert(raw_edge_view(graw[k]) == es[k]);
                        }
                        assert(p.issues@ =~= es.map_values(|e: EdgeSpec| edge_issue(e)));
                        if es.len() > 0 {
                            assert(raw_edge_view(graw[es.len() - 1]) == es[es.len() - 1]);
                            assert(gtyped.last().cursor@ == graw.last().cursor@);
                            assert(gtyped.last().cursor@ == es.last().cursor);
                        }
                    }
                    Ok(p)
                },
            }
        },
    }
}

} // verus!
