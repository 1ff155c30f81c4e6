//! The system clock.
use crate::ids::UnixMillis;
use vstd::prelude::*;

verus! {

/// The current time. Trusted: `SystemTime::elapsed` of the Unix epoch, in
/// whole milliseconds (0 if the clock reads before the epoch). Nothing is
/// promised of the value, which the clock decides.
#[verifier::external_body]
pub(crate) fn now_millis() -> (r: UnixMillis) {
    UnixMillis(std::time::UNIX_EPOCH.elapsed().map_or(0, |d| d.as_millis() as u64))
}

} // verus!
