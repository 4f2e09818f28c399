//! The one place where the engine touches the wall clock.

use vstd::prelude::*;

verus! {

/// Relies on chrono's `From<SystemTime>` conversion, read off as a plain
/// value through `DateTime::timestamp_millis`: the current wall-clock
/// instant in milliseconds since the Unix epoch. The conversion represents
/// an instant before the epoch as a negative value rather than failing.
/// Nothing is promised of the value — a clock can read anything — so every
/// caller must handle every `i64`.
#[verifier::external_body]
pub(crate) fn now_millis() -> i64 {
    chrono::DateTime::<chrono::Utc>::from(std::time::SystemTime::now()).timestamp_millis()
}

} // verus!
