//! Wall-clock access. The store derives its strictly increasing stamps from
//! the value returned here, clamped into a safe range first.

use vstd::prelude::*;

verus! {

/// The largest wall-clock reading the store accepts, in milliseconds since
/// the epoch (about 125,000 years from it). Larger readings are clamped.
pub const NOW_CLAMP: i64 = 4_000_000_000_000_000;

/// Relies on `chrono::Utc::now` and `DateTime::timestamp_millis`: the
/// current time in milliseconds since the Unix epoch. Nothing is promised
/// of the value; callers clamp it before use.
#[verifier::external_body]
fn now_millis_raw() -> i64 {
    chrono::Utc::now().timestamp_millis()
}

/// The current time in milliseconds, clamped to `1..=NOW_CLAMP`.
pub fn now_millis() -> (r: i64)
    ensures
        1 <= r <= NOW_CLAMP,
{
    let n = now_millis_raw();
    if n < 1 {
        1
    } else if n > NOW_CLAMP {
        NOW_CLAMP
    } else {
        n
    }
}

} // verus!
