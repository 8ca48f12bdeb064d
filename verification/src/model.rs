//! Core data model: issues, pages, repository references and the error
//! taxonomy shared by the parser and the pagination driver.

use vstd::prelude::*;

verus! {

/// One issue as fetched from the remote repository.
///
/// Timestamps are Unix seconds. `closed_at` of `None` means the issue was
/// still open at fetch time.
#[derive(Clone, Copy, PartialEq, Eq, Structural, Debug)]
pub struct Issue {
    pub number: u64,
    pub created_at: i64,
    pub closed_at: Option<i64>,
}

/// The repository a query is about, supplied once at start.
#[derive(Debug)]
pub struct RepoRef {
    pub owner: String,
    pub name: String,
}

/// One page of results, produced per transport round-trip.
#[derive(Debug)]
pub struct Page {
    pub issues: Vec<Issue>,
    pub next_cursor: Option<String>,
    pub has_next_page: bool,
}

impl Page {
    /// A page that claims a next page names the cursor to resume from.
    pub open spec fn wf(self) -> bool {
        self.has_next_page ==> self.next_cursor is Some
    }
}

/// Why fetching failed.
///
/// `ConnectionError` is transport-level (network, TLS, DNS, timeout) and
/// retryable; `HttpError` is a non-200 status, retryable only for 429 and
/// 5xx; `GraphQLError` is an application-level failure reported inside a 200
/// response and never retried; `MalformedResponse` is a body of an unexpected
/// shape and never retried.
#[derive(Debug)]
pub enum RepoError {
    ConnectionError(String),
    HttpError(u16),
    GraphQLError(Vec<String>),
    MalformedResponse,
}

/// A transport-level failure: the network call could not complete.
#[derive(Debug)]
pub enum TransportError {
    Connection(String),
}

} // verus!
