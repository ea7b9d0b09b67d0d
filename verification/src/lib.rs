//! Randomness primitives for differential-privacy mechanisms.
//!
//! The core of the library is an exact fixed-point Laplace sampler: it builds
//! a signed 64-bit sample bit by bit, comparing fresh random words against a
//! per-bit bias, and escalates to ever finer bias precision whenever a
//! comparison is too close to call.  The comparison and escalation logic is
//! verified; the arbitrary-precision bias values themselves come from an
//! outside arbitrary-precision library behind a trusted interface.

pub mod bias;
pub mod compare;
pub mod mechanisms;
pub mod params;
pub mod rng;
pub mod samplers;
