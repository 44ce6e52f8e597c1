//! Synthesis of balanced mixer trees for a target fluid concentration, and the
//! storage analysis of the resulting mix schedule.
pub mod text;
pub mod number;
pub mod fluid;
pub mod analysis;
pub mod error;
pub mod expr;
pub mod ir;
pub mod liveness;
pub mod interference;
pub mod normalize;
pub mod design;
