//! The clock.

use vstd::prelude::*;

verus! {

/// `SystemTime::elapsed` of the epoch: the time in milliseconds, of which
/// nothing is claimed. It is zero if the clock stands before the epoch.
#[verifier::external_body]
pub(crate) fn mstime() -> (r: i64) {
    match std::time::UNIX_EPOCH.elapsed() {
        Ok(elapsed) => elapsed.as_millis() as i64,
        Err(_) => 0,
    }
}

/// Whether the clock has shown a time.
pub closed spec fn clock_reading(now: i64) -> bool {
    call_ensures(mstime, (), now)
}

/// The time in milliseconds, as the clock shows it.
pub(crate) fn time() -> (r: i64)
    ensures
        clock_reading(r),
{
    mstime()
}

} // verus!
