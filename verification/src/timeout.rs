//! The election timeout, as the protocol sees it.
//!
//! How long a timeout lasts and when it fires belongs to whoever drives the server. The protocol
//! only decides when the timeout must start over, and records that here for the driver to act on.

use vstd::prelude::*;

verus! {

//% To prevent split votes in the first place, election timeouts are chosen randomly from a fixed
//% interval (e.g., 150–300ms).
/// The shortest election timeout, in milliseconds.
pub const MIN_REARM_MILLIS: u64 = 150;

/// The bound above every election timeout, in milliseconds.
pub const MAX_REARM_MILLIS: u64 = 300;

/// `rand::Rng::gen_range(low..high)` on the thread-local generator of `rand::thread_rng`.
///
/// The result is random: all that is claimed of it is what rand documents, that it lies in the
/// half-open range. An empty range panics there, so it is ruled out here.
#[verifier::external_body]
fn random_in_range(low: u64, high: u64) -> (r: u64)
    requires
        low < high,
    ensures
        low <= r < high,
{
    rand::Rng::gen_range(&mut rand::thread_rng(), low..high)
}

#[derive(Debug)]
pub struct Timeout {
    reset_pending: bool,
}

impl Timeout {
    pub fn new() -> (timeout: Timeout)
        ensures
            !timeout.reset_pending(),
    {
        Timeout { reset_pending: false }
    }

    /// Whether the protocol asked for the timeout to start over since the driver last looked.
    pub closed spec fn reset_pending(&self) -> bool {
        self.reset_pending
    }

    //% Reset election timer
    pub fn reset_timeout(&mut self)
        ensures
            final(self).reset_pending(),
    {
        self.reset_pending = true;
    }

    /// How long the next election timeout lasts, in milliseconds: a random pick in
    /// `MIN_REARM_MILLIS..MAX_REARM_MILLIS`, so that servers rarely time out together.
    pub fn rearm_duration_millis() -> (millis: u64)
        ensures
            MIN_REARM_MILLIS <= millis < MAX_REARM_MILLIS,
    {
        random_in_range(MIN_REARM_MILLIS, MAX_REARM_MILLIS)
    }

    /// Whether a reset was asked for; the request is cleared.
    pub fn take_reset(&mut self) -> (reset: bool)
        ensures
            reset == old(self).reset_pending(),
            !final(self).reset_pending(),
    {
        let reset = self.reset_pending;
        self.reset_pending = false;
        reset
    }
}

} // verus!
