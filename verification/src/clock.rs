//! The time at which things happen.
use std::time::UNIX_EPOCH;
use vstd::prelude::*;

verus! {

/// `SystemTime::elapsed` tells how much time has passed since the start of the Unix epoch, here in
/// whole milliseconds; `None` where the clock stands before it. What the clock shows is not known
/// beforehand, so nothing is claimed of the result.
#[verifier::external_body]
fn read_clock() -> (r: Option<u128>) {
    match UNIX_EPOCH.elapsed() {
        Ok(passed) => Some(passed.as_millis()),
        Err(_) => None,
    }
}

/// The timestamp that belongs to a reading of the clock: the low 64 bits of the milliseconds, and
/// zero where the clock stands before the epoch.
pub open spec fn timestamp(reading: Option<u128>) -> int {
    match reading {
        Some(ms) => (ms as int) % 0x1_0000_0000_0000_0000,
        None => 0,
    }
}

/// The timestamp that belongs to a reading of the clock.
pub fn timestamp_of(reading: Option<u128>) -> (r: u64)
    ensures
        r == timestamp(reading),
{
    match reading {
        Some(ms) => {
            assert(#[verifier::truncate] (ms as u64) == ms % 0x1_0000_0000_0000_0000)
                by (bit_vector);
            #[verifier::truncate]
            (ms as u64)
        },
        None => 0,
    }
}

/// The current time in milliseconds. It is whatever the clock shows.
pub fn now_ms() -> (r: u64)
    ensures
        exists|reading: Option<u128>| r == #[trigger] timestamp(reading),
{
    let reading = read_clock();
    timestamp_of(reading)
}

} // verus!
