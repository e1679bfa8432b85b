//! What can stand in the way of a computation.

use vstd::prelude::*;

verus! {

/// Why a fit, a cost, a gradient or a diagnosis could not be computed.
#[derive(Debug, Clone, Copy, PartialEq, Eq, Structural)]
pub enum FitError {
    /// The event set is empty, so its mean cost is undefined.
    NoEvents,
    /// A coordinate or a depth exceeds the accepted magnitude.
    OutOfRange,
    /// The three samples of an event coincide, so no line in them
    /// determines the depth.
    Degenerate,
    /// The settings name no plane, a zero perturbation or a zero divisor.
    InvalidSettings,
}

} // verus!
