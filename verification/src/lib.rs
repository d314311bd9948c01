//! A label-addressed store for the managed entities of a frame-stepped 2D
//! game runtime, together with the ordered pipeline of per-frame logic
//! stages that run against it.

pub mod laws;
pub mod pipeline;
pub mod sprite;
pub mod state;
pub mod store;
pub mod text;
pub mod traits;
