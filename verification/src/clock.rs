//! Wall-clock time.
use vstd::prelude::*;

verus! {

/// `std::time::SystemTime::elapsed` of the Unix epoch: the whole seconds from the
/// epoch to the present time of the system clock, or nothing where the clock
/// stands before the epoch. The reading depends on the moment of the call.
#[verifier::external_body]
fn read_clock() -> (secs: Option<u64>) {
    std::time::UNIX_EPOCH.elapsed().ok().map(|since| since.as_secs())
}

/// The timestamp for a clock reading: 0 where there is none.
pub fn timestamp(reading: Option<u64>) -> (secs: u64)
    ensures
        secs == match reading {
            Some(secs) => secs,
            None => 0,
        },
{
    match reading {
        Some(secs) => secs,
        None => 0,
    }
}

/// The present time in Unix seconds, 0 where the clock stands before the epoch.
pub(crate) fn now_secs() -> (secs: u64) {
    timestamp(read_clock())
}

} // verus!
