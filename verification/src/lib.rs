//! Core of a real-time scene engine: a generation-checked handle pool, a
//! scene graph of polymorphic nodes, a keyframe animation engine with
//! retargeting and signals, a debug line renderer with per-pass statistics,
//! and the state handed between a background loader and the frame loop.

pub mod animation;
pub mod error;
pub mod graph;
pub mod loader;
pub mod math;
pub mod pool;
pub mod renderer;
pub mod scene;
