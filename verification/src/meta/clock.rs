//! The monotonic clock.
use vstd::prelude::*;

use crate::duplicate::Duplicate;

verus! {

/// `std::time::Instant`, a reading of the monotonic clock.
#[verifier::external_type_specification]
#[verifier::external_body]
pub struct ExInstant(std::time::Instant);

/// When a heartbeat arrived, by the monotonic clock.
#[derive(Debug, Clone, Copy)]
pub struct HeartbeatInstant {
    /// The reading.
    pub instant: std::time::Instant,
}

impl DeepView for HeartbeatInstant {
    type V = HeartbeatInstant;

    open spec fn deep_view(&self) -> HeartbeatInstant {
        *self
    }
}

impl Duplicate for HeartbeatInstant {
    fn duplicate(&self) -> (r: Self) {
        *self
    }
}

/// The monotonic clock, by `std::time::Instant::now`.
///
/// Nothing is claimed of the reading: it differs from call to call.
#[verifier::external_body]
pub(crate) fn monotonic_now() -> HeartbeatInstant {
    HeartbeatInstant { instant: std::time::Instant::now() }
}

} // verus!
