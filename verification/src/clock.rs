//! Wall-clock readings. What the clock shows depends on the moment of the
//! call, so nothing is promised of a reading beyond its type.

use vstd::prelude::*;

verus! {

/// Milliseconds since the Unix epoch, as `chrono::Utc::now().timestamp_millis()`
/// reports them. Trusted: no clause is stated, since the value is the time.
#[verifier::external_body]
pub(crate) fn now_millis() -> (ms: i64) {
    chrono::Utc::now().timestamp_millis()
}

/// Whether less than `bound` milliseconds lie between `then` and `now`,
/// computed without overflow.
pub fn elapsed_below(now: i64, then: i64, bound: i64) -> (b: bool)
    requires
        bound >= 0,
    ensures
        b == (now - then < bound),
{
    match now.checked_sub(then) {
        Some(d) => d < bound,
        None => then > 0,
    }
}

/// A signed clock reading as an unsigned stamp: readings before the epoch
/// become zero.
pub open spec fn stamp_of(reading: i64) -> u64 {
    if reading < 0 {
        0
    } else {
        reading as u64
    }
}

/// Milliseconds since the Unix epoch as an unsigned stamp. A reading before
/// the epoch would become zero; the clock call itself stops there first.
pub(crate) fn now_stamp() -> (ms: u64)
    ensures
        exists|reading: i64| ms == #[trigger] stamp_of(reading),
{
    let reading = now_millis();
    let ms: u64 = if reading < 0 {
        0
    } else {
        reading as u64
    };
    assert(ms == stamp_of(reading));
    ms
}

} // verus!
