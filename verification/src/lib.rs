//! A paginated GraphQL issue fetcher with time-bucketed open-issue aggregation.
//!
//! The library holds the verified core: building the query and request body,
//! classifying a response into a typed page or an error, the cursor-based
//! pagination state machine with bounded retry, and the fold of fetched issues
//! into a time series of open-issue counts. Network I/O lives outside.

pub mod aggregate;
pub mod driver;
pub mod model;
pub mod parse;
pub mod query;

pub use aggregate::aggregate;
pub use aggregate::Event;
pub use driver::{Action, Driver, Phase, MAX_ATTEMPTS};
pub use model::{Issue, Page, RepoError, RepoRef, TransportError};
pub use parse::{parse, Edge, RawEdge};
pub use query::{api_endpoint, build_query, request_body};
