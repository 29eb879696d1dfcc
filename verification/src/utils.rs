//! Clock access for timestamping and latency measurement.

use vstd::prelude::*;

verus! {

/// Relies on `std::time::SystemTime::now` and `duration_since`: the wall
/// clock as seconds and subsecond nanoseconds since the Unix epoch, the
/// subsecond part below one billion. A clock before the epoch reads as zero.
#[verifier::external_body]
fn system_clock() -> (r: (u64, u32))
    ensures
        r.1 < 1_000_000_000,
{
    match std::time::SystemTime::now().duration_since(std::time::UNIX_EPOCH) {
        Ok(d) => (d.as_secs(), d.subsec_nanos()),
        Err(_) => (0, 0),
    }
}

/// Nanoseconds since the Unix epoch, by the system clock.
pub fn now_nanos() -> u128 {
    let sn = system_clock();
    sn.0 as u128 * 1_000_000_000 + sn.1 as u128
}

} // verus!
