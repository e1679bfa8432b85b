//! Alignment of a three-plane tracking detector in exact integer arithmetic.
//!
//! Three detector planes at known depths each record where a particle went
//! through. One plane is displaced by an unknown amount; the library finds
//! the displacement that makes the tracks as straight as they can be, applies
//! it, and reports how far each hit still lies from the line through the
//! other two.
//!
//! Positions and depths are whole numbers of a length unit that the caller
//! chooses (a "tick"). Every quantity that the library derives from them is
//! either an exact fraction or a quotient whose rounding its contract
//! states, so a run is reproducible bit for bit and free of overflow. A cost
//! is a number of square ticks, a gradient a number of square ticks per
//! tick, a shift a number of ticks.
//!
//! The fit regresses depth on position, not position on depth: a track is
//! described by the line that gives the depth at which it passes a given
//! position. The cost, the gradient and the descent all hold to this.

mod algebra;
pub mod align;
pub mod error;
pub mod event;
pub mod eventset;
pub mod fit;
pub mod geometry;
pub mod gradient;
pub mod line;
pub mod matching;
pub mod optimizer;
pub mod residuals;
mod wide;
