//! Verified building blocks of a small ray tracer.
//!
//! Rendering arithmetic runs on machine reals that a verifier cannot model,
//! so the crate draws the line where exact reasoning is possible: pixel
//! storage, portable-pixmap serialization, intersection bookkeeping (ordering,
//! hit selection, shadow occlusion), and stripe-texture parity all live here
//! with full functional contracts. Callers hand measurements across the
//! boundary as plain integers: a color channel already scaled to a whole
//! number, and a ray distance as an order-preserving key of its bit pattern.

pub mod canvas;
pub mod intersection;
pub mod ppm;
pub mod stripe;
