//! A render-graph execution core for a single-queue GPU renderer.
//!
//! Rendering code describes a frame as a set of passes operating on typed
//! resources; the library computes a dependency-respecting execution order,
//! resource lifetimes (with memory aliasing for transients), and the
//! barriers and layout transitions needed between consecutive accesses.
//! Temporal resources persist across frames in a name-keyed cache, and a
//! small state machine coordinates the rotating per-frame recording slots.

pub mod access;
pub mod compile;
pub mod frame;
pub mod graph;
pub mod handle;
pub mod sampler;
pub mod temporal;

use vstd::prelude::*;

verus! {

/// Errors surfaced by graph construction, compilation and frame retirement.
/// All of them are fatal for the operation that raised them; none is retried.
#[derive(Debug, PartialEq, Eq)]
pub enum GraphError {
    /// The declared pass dependencies form a cycle: a client-code bug.
    /// Reported with the passes that could not be scheduled (indices and
    /// names): the cycle's members together with every pass waiting on
    /// them — each reported pass waits on another reported pass.
    GraphCycle { passes: Vec<usize>, names: Vec<String> },
    /// A temporal entry was requested again with a different descriptor.
    ResourceShapeMismatch,
    /// A handle from another (or already retired) graph instance was used,
    /// or a handle version predating the latest write to its resource.
    StaleHandle,
    /// Waiting for GPU completion of a frame slot timed out.
    DeviceLost,
}

} // verus!
