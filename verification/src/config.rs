//! Search parameters and the error taxonomy of the collision search.

use vstd::prelude::*;

verus! {

/// Parameters of a collision search.
///
/// `width` is the truncated digest width in bytes; it is bounded by 8 so
/// that a digest fits a machine word when used as a rendezvous-table key.
/// `dp_bytes` is the distinguished-point density knob: a digest is
/// distinguished when its first `dp_bytes` bytes are zero, so a larger value
/// makes distinguished points sparser and expected trails longer.
#[derive(Clone, Copy, PartialEq, Eq, Structural, Debug)]
pub struct SearchConfig {
    pub width: usize,
    pub dp_bytes: usize,
}

impl SearchConfig {
    /// A configuration is well formed when the digest width fits a 64-bit
    /// key and the distinguished-point test reads no byte past the width.
    pub open spec fn wf(self) -> bool {
        1 <= self.width <= 8 && self.dp_bytes <= self.width
    }
}

/// The fatal conditions of a search; none of them is recoverable, since the
/// walk is deterministic and retrying the same inputs reproduces the result.
#[derive(Clone, Copy, PartialEq, Eq, Structural, Debug)]
pub enum SearchError {
    /// The trail stream ended before any two trails shared an endpoint.
    ChannelClosedPrematurely,
    /// A single replay exceeded its step bound without reaching a
    /// distinguished point; the distinguished-point density is misconfigured.
    TrailTooLong,
    /// Refinement exhausted its replay budget without locating a true
    /// divergence: every meeting of the two trails had identical
    /// predecessors, or the trails never met within the bound.
    RefinementOverlapOnly,
}

} // verus!
