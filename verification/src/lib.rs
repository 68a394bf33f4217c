//! Audits a fixed list of organizations' repositories for a published
//! code-of-conduct document that matches a canonical text, and serves an
//! aggregated conformance report memoized behind a time-bounded cache.
//!
//! The library holds the verified core: the expiring cache, the document
//! comparator, the conformance checker, the report codec, and the
//! cache-fronted report access. Network and HTTP plumbing live outside.

pub mod cache;
pub mod checker;
pub mod codec;
pub mod comparator;
pub mod report;

use vstd::prelude::*;

verus! {

/// Readiness indicator for the health endpoint: a constant, independent of
/// the cache and the checker.
pub fn healthcheck() -> (r: String)
    ensures
        r@ == "ok"@,
{
    String::from_str("ok")
}

} // verus!
