//! Records that travel with a track but play no part in the fit.

use vstd::prelude::*;

verus! {

/// Detector metadata of one event.
#[derive(Debug, Clone, Copy, PartialEq, Eq)]
pub struct Event {
    /// High-gain amplitude channel.
    pub hadc: u16,
    /// Low-gain amplitude channel.
    pub ladc: u16,
    /// High-voltage setting.
    pub hv: u16,
    /// Run identifier.
    pub run_num: u16,
}

/// One hit on one plane, as the plane's stream delivers it.
#[derive(Debug, Clone, Copy, PartialEq, Eq)]
pub struct Hit {
    /// Identifier of the event that the hit belongs to.
    pub event_num: u32,
    /// Horizontal position, in ticks.
    pub x: i64,
    /// Vertical position, in ticks.
    pub y: i64,
    /// Metadata recorded with the hit.
    pub event: Event,
}

} // verus!
