//! The cursor-based pagination state machine.
//!
//! The driver owns the cursor and the accumulated issues. Each round it asks
//! for one fetch; the caller performs the network round-trip and hands the
//! outcome back to `step_page` (or the raw response to `step`), which decides
//! whether to continue to the next page, retry the same page after a backoff,
//! finish, or fail. Transient failures (connection errors, HTTP 429 and 5xx)
//! are retried up to `MAX_ATTEMPTS` times per page; every other error is
//! fatal at once.

use vstd::prelude::*;
use crate::model::{Issue, Page, RepoError, TransportError};
use crate::parse::{decode_spec, decoded_result, json_doc_of, parse};

verus! {

/// Most attempts made for one page before the driver gives up.
pub const MAX_ATTEMPTS: u64 = 3;

/// Where the driver stands: still fetching pages, done with the full issue
/// sequence accumulated, or failed with the terminating error.
#[derive(Debug)]
pub enum Phase {
    Fetching,
    Done,
    Failed(RepoError),
}

/// What the caller should do next: fetch the next page, retry the same page
/// after the given backoff in milliseconds, or stop.
#[derive(Clone, Copy, PartialEq, Eq, Structural, Debug)]
pub enum Action {
    Fetch,
    Retry(u64),
    Stop,
}

/// HTTP statuses that indicate a transient condition worth retrying.
pub open spec fn retryable_status(s: u16) -> bool {
    s == 429 || (500 <= s && s < 600)
}

/// Errors that are retried: connection failures and retryable HTTP statuses.
/// GraphQL-level errors and malformed bodies indicate a logic or auth
/// problem, not a transient one, and are never retried.
pub open spec fn retryable_error(e: RepoError) -> bool {
    match e {
        RepoError::ConnectionError(_) => true,
        RepoError::HttpError(s) => retryable_status(s),
        RepoError::GraphQLError(_) => false,
        RepoError::MalformedResponse => false,
    }
}

/// Exponential backoff before retry attempt `k + 1`, where `k` is the number
/// of attempts already made for this page.
pub open spec fn backoff_ms(k: int) -> u64 {
    if k <= 1 {
        500
    } else {
        1000
    }
}

/// How one step relates the driver's next state and action to its previous
/// state and the outcome of the fetch: a page's issues are appended and the
/// cursor advances or the driver is done; a retryable error with attempts
/// left asks for a retry after a backoff; any other error is fatal, keeping
/// the issues accumulated so far as a partial result.
pub open spec fn step_post(pre: Driver, post: Driver, outcome: Result<Page, RepoError>, a: Action) -> bool {
    &&& post.wf()
    &&& post.page_size == pre.page_size
    &&& match outcome {
        Ok(p) => {
            &&& post.issues@ == pre.issues@ + p.issues@
            &&& if p.has_next_page {
                &&& post.phase is Fetching
                &&& post.cursor == p.next_cursor
                &&& post.attempts == 0
                &&& a == Action::Fetch
            } else {
                &&& post.phase is Done
                &&& post.cursor == pre.cursor
                &&& a == Action::Stop
            }
        },
        Err(e) => {
            &&& post.issues@ == pre.issues@
            &&& post.cursor == pre.cursor
            &&& if retryable_error(e) && pre.attempts + 1 < MAX_ATTEMPTS {
                &&& post.phase is Fetching
                &&& post.attempts == pre.attempts + 1
                &&& a == Action::Retry(backoff_ms(pre.attempts + 1))
            } else {
                &&& post.phase == Phase::Failed(e)
                &&& a == Action::Stop
            }
        },
    }
}

/// What fetch outcome a raw transport result turned into: a connection
/// failure keeps its message, and a response is classified exactly as
/// `parse` states, over the model of the body.
pub open spec fn response_outcome(
    resp: Result<(String, u16), TransportError>,
    page_size: u64,
    outcome: Result<Page, RepoError>,
) -> bool {
    match resp {
        Err(TransportError::Connection(m)) => (outcome matches Err(
            RepoError::ConnectionError(mm),
        ) && mm@ == m@),
        Ok((body, status)) => {
            &&& (status != 200 ==> (outcome matches Err(RepoError::HttpError(s)) && s == status))
            &&& (status == 200 ==> decoded_result(
                decode_spec(json_doc_of(body@)),
                page_size,
                outcome,
            ))
        },
    }
}

/// The pagination driver's state.
pub struct Driver {
    pub page_size: u64,
    pub cursor: Option<String>,
    pub issues: Vec<Issue>,
    pub attempts: u64,
    pub phase: Phase,
}

impl Driver {
    /// The driver always carries a positive page size, and while it is still
    /// fetching it has attempts left for the current page.
    pub open spec fn wf(self) -> bool {
        &&& 1 <= self.page_size
        &&& (self.phase is Fetching ==> self.attempts < MAX_ATTEMPTS)
    }

    /// A fresh driver: no cursor, no issues, ready to fetch the first page.
    pub fn new(page_size: u64) -> (d: Driver)
        requires
            1 <= page_size,
        ensures
            d.wf(),
            d.page_size == page_size,
            d.cursor is None,
            d.issues@ == Seq::<Issue>::empty(),
            d.attempts == 0,
            d.phase is Fetching,
    {
        Driver {
            page_size,
            cursor: None,
            issues: Vec::new(),
            attempts: 0,
            phase: Phase::Fetching,
        }
    }

    /// Feeds the outcome of one fetch of the current page into the state
    /// machine and returns what to do next.
    ///
    /// On a page: its issues are appended; with a next page the cursor
    /// advances and the attempt counter resets, otherwise the driver is done.
    /// On a retryable error with attempts left the counter rises and the
    /// caller is told to retry after a backoff; on any other error the driver
    /// fails with that error. Accumulated issues are kept on failure, as a
    /// partial result.
    pub fn step_page(&mut self, outcome: Result<Page, RepoError>) -> (a: Action)
        requires
            old(self).wf(),
            old(self).phase is Fetching,
            outcome matches Ok(p) ==> p.wf(),
        ensures
            step_post(*old(self), *final(self), outcome, a),
    {
        match outcome {
            Ok(p) => {
                let Page { issues: mut page_issues, next_cursor, has_next_page } = p;
                self.issues.append(&mut page_issues);
                if has_next_page {
                    self.cursor = next_cursor;
                    self.attempts = 0;
                    Action::Fetch
                } else {
                    self.phase = Phase::Done;
                    Action::Stop
                }
            },
            Err(e) => {
                let retry = match &e {
                    RepoError::ConnectionError(_) => true,
                    RepoError::HttpError(s) => *s == 429 || (500 <= *s && *s < 600),
                    RepoError::GraphQLError(_) => false,
                    RepoError::MalformedResponse => false,
                };
                if retry && self.attempts + 1 < MAX_ATTEMPTS {
                    self.attempts = self.attempts + 1;
                    let delay: u64 = if self.attempts <= 1 {
                        500
                    } else {
                        1000
                    };
                    Action::Retry(delay)
                } else {
                    self.phase = Phase::Failed(e);
                    Action::Stop
                }
            },
        }
    }

    /// Feeds one raw transport result into the state machine: either a
    /// connection failure, or the body and status of the response, which is
    /// parsed and classified here before it drives the step.
    pub fn step(&mut self, resp: Result<(String, u16), TransportError>) -> (a: Action)
        requires
            old(self).wf(),
            old(self).phase is Fetching,
        ensures
            exists|outcome: Result<Page, RepoError>|
                #[trigger] step_post(*old(self), *final(self), outcome, a) && response_outcome(
                    resp,
                    old(self).page_size,
                    outcome,
                ),
    {
        let ghost gresp = resp;
        let outcome = match resp {
            Err(TransportError::Connection(m)) => Err(RepoError::ConnectionError(m)),
            Ok((body, status)) => parse(body.as_str(), status, self.page_size),
        };
        let ghost go = outcome;
        let a = self.step_page(outcome);
        proof {
            assert(step_post(*old(self), *self, go, a));
            assert(response_outcome(gresp, old(self).page_size, go));
        }
        a
    }
}

/// The pages a stable dataset of issues is served in, `n` issues per page,
/// in order: the driver sees exactly these issue slices when nothing fails.
pub open spec fn chunks(s: Seq<Issue>, n: int) -> Seq<Seq<Issue>>
    decreases s.len(),
{
    if n < 1 {
        Seq::empty()
    } else if s.len() <= n {
        seq![s]
    } else {
        seq![s.take(n)] + chunks(s.skip(n), n)
    }
}

/// Pagination is complete and exact: for every page size `n >= 1`, the pages
/// of a dataset concatenate back to exactly that dataset — every issue
/// appears, none twice, in order, whatever the page size. Since `step_page`
/// appends each page's issues in order, a driver fed these pages accumulates
/// exactly the dataset.
pub proof fn lemma_pagination_complete(dataset: Seq<Issue>, n: int)
    requires
        n >= 1,
    ensures
        chunks(dataset, n).flatten() == dataset,
    decreases dataset.len(),
{
    if dataset.len() <= n {
        let one = seq![dataset];
        assert(one.drop_first() =~= Seq::<Seq<Issue>>::empty());
        assert(one.drop_first().flatten() =~= Seq::<Issue>::empty());
        assert(one[0] == dataset);
        assert(chunks(dataset, n).flatten() =~= dataset);
    } else {
        lemma_pagination_complete(dataset.skip(n), n);
        let parts = seq![dataset.take(n)] + chunks(dataset.skip(n), n);
        assert(parts.drop_first() =~= chunks(dataset.skip(n), n));
        assert(parts[0] == dataset.take(n));
        assert(parts.flatten() == parts[0] + parts.drop_first().flatten());
        assert(chunks(dataset, n).flatten() =~= dataset.take(n) + dataset.skip(n));
        assert(dataset.take(n) + dataset.skip(n) =~= dataset);
    }
}

} // verus!
