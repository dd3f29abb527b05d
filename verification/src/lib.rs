//! A pointer-travel odometer: integrates successive screen positions into a
//! running distance total, held in integer nanometers, with a decimal text
//! codec for durable checkpoints and a time-gated checkpoint policy.

use vstd::prelude::*;

pub mod codec;
pub mod isqrt;
pub mod position;
pub mod tracker;

pub use position::Position;
pub use tracker::Tracker;

verus! {

} // verus!
