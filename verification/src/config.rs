//! The sequencer's settings.
use vstd::prelude::*;
use std::time::Duration;

verus! {

/// The sequencer's settings, as read from its configuration file.
pub struct Config {
    pub max_batch_size: usize,
    pub max_wait_ms: u64,
    pub rpc_address: String,
}

/// The span of `ms` milliseconds, as `std::time::Duration::from_millis`
/// makes it.
pub uninterp spec fn millis(ms: u64) -> Duration;

/// Calls `std::time::Duration::from_millis`; the contract claims only that
/// the result is the span that `millis` names.
#[verifier::external_body]
fn duration_from_millis(ms: u64) -> (res: Duration)
    ensures
        res == millis(ms),
{
    Duration::from_millis(ms)
}

impl Config {
    /// The longest a batch waits, `max_wait_ms` milliseconds.
    pub fn max_wait_duration(&self) -> (res: Duration)
        ensures
            res == millis(self.max_wait_ms),
    {
        duration_from_millis(self.max_wait_ms)
    }
}

} // verus!
