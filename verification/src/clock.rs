//! The wall clock, behind a trusted wrapper: backup timestamps and
//! notification expiry read it, and every decision made from it is taken by
//! verified functions that receive the time as a plain value.
use vstd::prelude::*;

verus! {

/// Relies on chrono's `Utc::now`: the current time as milliseconds since
/// the Unix epoch. Nothing is promised of the clock's value.
#[verifier::external_body]
pub fn now_millis() -> i64 {
    chrono::Utc::now().timestamp_millis()
}

} // verus!
