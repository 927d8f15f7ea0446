//! A reverse-mode automatic-differentiation engine over scalar values, kept in an
//! index-addressed arena, and a small feed-forward classifier built on top of it.

pub mod engine;
pub mod nn;
pub mod loss;
