//! Cache-fronted access to the conformance report and the satellite text.
//!
//! The serialized report sits in the expiring cache under a fixed key with a
//! long time-to-live; the satellite text sits under its own key with a much
//! shorter one. On a hit the cached text is decoded; on a miss the caller
//! runs the checker and stores the fresh result.

use vstd::prelude::*;

use crate::cache::Cacheit;
use crate::cache::EntryModel;
use crate::cache::spec_get;
use crate::checker::ConformanceReport;
use crate::codec::parse_report;
use crate::codec::ser_report;
use crate::codec::serialize_report;
use crate::codec::sp_report;

verus! {

/// How long a computed conformance report stays fresh, in seconds.
pub const REPORT_TTL_SECONDS: u64 = 3600;

/// How long the satellite text stays fresh, in seconds.
pub const CONDUCT_TTL_SECONDS: u64 = 5;

/// What a cache lookup of the report produced: no fresh entry, a fresh entry
/// whose text is not the encoding of any report, or the decoded report.
pub enum ReportLookup {
    Miss,
    Corrupt,
    Hit(ConformanceReport),
}

/// Looks the report up under its fixed key. Returns `Miss` exactly when no
/// fresh entry exists, `Corrupt` exactly when a fresh entry's text does not
/// decode, and otherwise the report the cached text encodes. Never mutates
/// the cache.
pub fn cached_report(cache: &Cacheit, now: u64) -> (r: ReportLookup)
    requires
        cache.wf(),
    ensures
        match spec_get(cache@, "conformance"@, now) {
            None => r is Miss,
            Some(text) => match sp_report(text) {
                None => r is Corrupt,
                Some(m) => r matches ReportLookup::Hit(rep) && rep@ == m,
            },
        },
{
    match cache.get("conformance", now) {
        None => ReportLookup::Miss,
        Some(text) => match parse_report(text.as_str()) {
            None => ReportLookup::Corrupt,
            Some(rep) => ReportLookup::Hit(rep),
        },
    }
}

/// Serializes the report and stores it under the fixed key with the long
/// time-to-live, created now.
pub fn store_report(cache: &mut Cacheit, report: &ConformanceReport, now: u64)
    requires
        old(cache).wf(),
    ensures
        final(cache).wf(),
        final(cache)@ == old(cache)@.insert(
            "conformance"@,
            EntryModel { val: ser_report(report@), created_on: now, ttl: REPORT_TTL_SECONDS },
        ),
{
    let text = serialize_report(report);
    cache.set("conformance", text.as_str(), REPORT_TTL_SECONDS, now);
}

/// The satellite text, memoized: on a fresh cache entry, the cached string,
/// with the cache untouched; otherwise the given satellite text, which is
/// also stored under the fixed key with the short time-to-live.
pub fn conduct_text(cache: &mut Cacheit, satellite: &str, now: u64) -> (r: String)
    requires
        old(cache).wf(),
    ensures
        final(cache).wf(),
        match spec_get(old(cache)@, "conduct"@, now) {
            Some(v) => r@ == v && final(cache)@ == old(cache)@,
            None => r@ == satellite@ && final(cache)@ == old(cache)@.insert(
                "conduct"@,
                EntryModel { val: satellite@, created_on: now, ttl: CONDUCT_TTL_SECONDS },
            ),
        },
{
    match cache.get("conduct", now) {
        Some(v) => v,
        None => {
            cache.set("conduct", satellite, CONDUCT_TTL_SECONDS, now);
            satellite.to_owned()
        },
    }
}

} // verus!
