//! The time of day.

use vstd::prelude::*;

verus! {

/// The milliseconds of a duration since the epoch; zero where the clock stands before it.
pub fn millis_or_zero(elapsed: Option<u128>) -> (r: u64)
    ensures
        elapsed matches Some(ms) ==> r == ms as u64,
        elapsed is None ==> r == 0,
{
    match elapsed {
        Some(ms) => ms as u64,
        None => 0,
    }
}

/// The milliseconds since the epoch. Nothing is said of the result: it is the time of the call.
pub fn now_ms() -> u64 {
    millis_or_zero(millis_since_epoch())
}

/// `std::time::SystemTime::elapsed` of the epoch, in whole milliseconds; `None` where it reports
/// that the clock stands before the epoch. Nothing can be promised of the time.
#[verifier::external_body]
fn millis_since_epoch() -> (r: Option<u128>) {
    match std::time::UNIX_EPOCH.elapsed() {
        Ok(d) => Some(d.as_millis()),
        Err(_) => None,
    }
}

} // verus!
