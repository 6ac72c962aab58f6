//! The wall clock.
use vstd::prelude::*;

verus! {

/// Relies on chrono::Utc::now and DateTime::timestamp_micros: the current UTC time in
/// microseconds since the Unix epoch. Nothing is promised of its value.
#[verifier::external_body]
pub fn now_micros() -> (r: i64) {
    chrono::Utc::now().timestamp_micros()
}

} // verus!
