//! Typed, copyable references to graph resources, and their descriptors.
//!
//! A `Handle` carries a resource index, a version tag bumped on every
//! declared write (so code cannot reference a pre-write state), and the id
//! of the graph instance that issued it (so a handle from a retired graph
//! is detected as stale by a cheap equality check).

use vstd::prelude::*;
use crate::access::AccessKind;

verus! {

/// The immutable shape of a resource: format, dimensions and usage flags.
/// Two resources may only alias, and a temporal entry may only be reused,
/// when their descriptors are equal.
#[derive(Clone, Copy, PartialEq, Eq, Structural, Debug)]
pub struct ResourceDesc {
    /// Pixel/element format tag.
    pub format: u32,
    pub width: u32,
    pub height: u32,
    pub depth: u32,
    /// Bitmask of the access kinds that are legal on this resource.
    pub usage: u32,
}

/// The lifetime class of a resource.
#[derive(Clone, Copy, PartialEq, Eq, Structural, Debug)]
pub enum LifetimeClass {
    /// Graph-owned, created and destroyed within one frame; may alias.
    Transient,
    /// Graph-owned, persists across frames under a stable name; never aliases.
    Temporal,
    /// Owned outside the graph (e.g. a presentation surface); never aliases.
    Imported,
}

/// A typed reference to a resource of one graph instance.
/// Valid only while `graph` matches the issuing graph's id and `version`
/// matches the resource's current write version.
#[derive(Clone, Copy, PartialEq, Eq, Structural, Debug)]
pub struct Handle {
    /// Index into the graph's resource table.
    pub id: usize,
    /// Write version of the resource this handle refers to.
    pub version: usize,
    /// Id of the graph instance that issued the handle.
    pub graph: u64,
}

/// A graph output returned to the caller, tagged with the access state the
/// caller must treat the resource as being in. The backing memory remains
/// engine-owned.
#[derive(Clone, Copy, PartialEq, Eq, Structural, Debug)]
pub struct ExportedHandle {
    /// Index into the graph's resource table.
    pub id: usize,
    /// The access state the resource is left in for the caller.
    pub access: AccessKind,
    /// Id of the graph instance that issued the handle.
    pub graph: u64,
}

} // verus!
