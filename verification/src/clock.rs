//! The one place where the sink reads the wall clock: events that carry no
//! timestamp field are stamped with the moment they are encoded.
use vstd::prelude::*;

verus! {

/// Relies on std's `SystemTime::now` and `duration_since` against the Unix
/// epoch: the current wall-clock time as nanoseconds since the epoch,
/// saturating at the largest representable count, and zero when the clock
/// reads before the epoch. No branch panics; nothing can be promised of the
/// value itself.
#[verifier::external_body]
pub fn now_timestamp_nanos() -> i64 {
    match std::time::SystemTime::now().duration_since(std::time::UNIX_EPOCH) {
        Ok(d) => i64::try_from(d.as_nanos()).unwrap_or(i64::MAX),
        Err(_) => 0,
    }
}

} // verus!
