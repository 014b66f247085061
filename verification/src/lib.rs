//! Authenticated state storage for the cybergraph: bounded transactional storage,
//! application history with idempotent retries, and resumable content uploads.
pub mod bytes;
pub mod frame;
pub mod certificate;
pub mod hash;
pub mod ordered;
pub mod prune;
pub mod query;
pub mod query_auth;
pub mod signal;
pub mod state;
pub mod stats;
pub mod storage;
pub mod transition;
pub mod types;
