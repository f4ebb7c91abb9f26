//! The time of day.

use vstd::prelude::*;

verus! {

/// Milliseconds since the Epoch.  None if the clock is set before the Epoch.
///
/// `SystemTime::elapsed` of the Epoch, in whole milliseconds.  Nothing is claimed of the result:
/// it is whatever the clock says.
#[verifier::external_body]
pub fn get_epoch_time_ms() -> (r: Option<u128>) {
    match std::time::UNIX_EPOCH.elapsed() {
        Ok(since_the_epoch) => Some(since_the_epoch.as_millis()),
        Err(_) => None,
    }
}

} // verus!
