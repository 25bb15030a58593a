//! The engine's error taxonomy.

use vstd::prelude::*;

verus! {

/// Why an engine operation was rejected. Per-frame lookups prefer a silent
/// skip; these errors are for operations whose caller must know.
#[derive(Clone, Copy, PartialEq, Eq, Structural, Debug)]
pub enum EngineError {
    /// A stale or out-of-range handle was presented.
    InvalidHandle,
    /// A reparent would have made a node its own ancestor.
    CycleDetected,
    /// A background load ended without producing a scene.
    ResourceLoadFailure,
}

} // verus!
