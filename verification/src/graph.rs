//! The render graph: pass and resource declaration, and the compiler that
//! turns the declared accesses into an ordered, barrier-annotated plan.
//!
//! Rendering code declares passes and, per pass, which resources it reads
//! and writes and with which access kind. Records are kept in declaration
//! order: for one resource that order is the hazard timeline the barrier
//! synthesizer serializes. The compiler derives dependency edges from the
//! records, orders the passes topologically (ties broken by declaration
//! order, so identical inputs compile to identical plans), computes each
//! transient's live range in the final order, aliases transients whose
//! ranges do not overlap, and synthesizes the barriers of every resource.

use vstd::prelude::*;
use crate::GraphError;
use crate::access::AccessKind;
use crate::access::spec_is_write;
use crate::handle::ExportedHandle;
use crate::handle::Handle;
use crate::handle::LifetimeClass;
use crate::handle::ResourceDesc;
use crate::temporal::TemporalCache;

verus! {

/// One declared pass: its name and nothing else. The deferred recording
/// callback is owned by the caller and invoked by pass index when the
/// compiled plan is executed, after the pass's barriers are issued.
pub struct PassInfo {
    pub name: String,
}

/// One declared access: which resource, how, and by which pass.
/// Declaration order is semantically significant.
#[derive(Clone, Copy, PartialEq, Eq, Structural, Debug)]
pub struct AccessRecord {
    pub resource: usize,
    pub kind: AccessKind,
    pub pass: usize,
}

/// The graph's view of one resource.
#[derive(Clone, Copy, Debug)]
pub struct ResourceInfo {
    pub desc: ResourceDesc,
    pub class: LifetimeClass,
    /// The access state the resource enters the frame in: `None` for a
    /// fresh transient, the imported state for an imported resource, the
    /// previous frame's committed state for a temporal one.
    pub init_access: Option<AccessKind>,
    /// Current write version; a handle is valid only at this version.
    pub version: usize,
    /// For temporal resources, the backing id in the temporal cache.
    pub temporal_slot: Option<usize>,
    /// Set once the resource is exported; exported resources never alias.
    pub export_access: Option<AccessKind>,
}

/// One graph instance, built afresh each frame.
pub struct RenderGraph {
    /// Instance id; handles carry it and go stale with the instance.
    pub id: u64,
    pub resources: Vec<ResourceInfo>,
    pub passes: Vec<PassInfo>,
    pub records: Vec<AccessRecord>,
}

impl RenderGraph {
    /// Well-formed: records point into the tables, and write versions are
    /// bounded by the number of records (each write appends one).
    pub open spec fn wf(self) -> bool {
        &&& forall|k: int|
            0 <= k < self.records@.len() ==> (#[trigger] self.records@[k]).resource
                < self.resources@.len() && self.records@[k].pass < self.passes@.len()
        &&& forall|r: int|
            0 <= r < self.resources@.len() ==> (#[trigger] self.resources@[r]).version
                <= self.records@.len()
    }

    /// A handle is valid for this graph exactly when it was issued by this
    /// instance and still refers to the latest version of its resource.
    pub open spec fn spec_valid_handle(self, h: Handle) -> bool {
        &&& h.graph == self.id
        &&& h.id < self.resources@.len()
        &&& h.version == self.resources@[h.id as int].version
    }

    /// A fresh, empty graph instance.
    pub fn new(id: u64) -> (g: RenderGraph)
        ensures
            g.wf(),
            g.id == id,
            g.resources@.len() == 0,
            g.passes@.len() == 0,
            g.records@.len() == 0,
    {
        RenderGraph { id, resources: Vec::new(), passes: Vec::new(), records: Vec::new() }
    }

    /// Declares a new pass and returns its index.
    pub fn add_pass(&mut self, name: String) -> (p: usize)
        requires
            old(self).wf(),
        ensures
            final(self).wf(),
            p == old(self).passes@.len(),
            final(self).passes@ == old(self).passes@.push((PassInfo { name })),
            final(self).resources == old(self).resources,
            final(self).records == old(self).records,
            final(self).id == old(self).id,
    {
        let p = self.passes.len();
        self.passes.push(PassInfo { name });
        p
    }

    /// Creates a transient resource and returns its handle, valid within
    /// this graph instance only.
    pub fn create(&mut self, desc: ResourceDesc) -> (h: Handle)
        requires
            old(self).wf(),
        ensures
            final(self).wf(),
            h.id == old(self).resources@.len(),
            h.version == 0,
            h.graph == old(self).id,
            final(self).spec_valid_handle(h),
            final(self).resources@ == old(self).resources@.push(
                (ResourceInfo {
                    desc,
                    class: LifetimeClass::Transient,
                    init_access: Option::None,
                    version: 0,
                    temporal_slot: Option::None,
                    export_access: Option::None,
                }),
            ),
            final(self).passes == old(self).passes,
            final(self).records == old(self).records,
            final(self).id == old(self).id,
    {
        let id = self.resources.len();
        self.resources.push(
            ResourceInfo {
                desc,
                class: LifetimeClass::Transient,
                init_access: Option::None,
                version: 0,
                temporal_slot: Option::None,
                export_access: Option::None,
            },
        );
        Handle { id, version: 0, graph: self.id }
    }

    /// Imports a resource the graph did not allocate (e.g. a presentation
    /// surface), declaring the access state it is currently in.
    pub fn import(&mut self, desc: ResourceDesc, current: AccessKind) -> (h: Handle)
        requires
            old(self).wf(),
        ensures
            final(self).wf(),
            h.id == old(self).resources@.len(),
            h.version == 0,
            h.graph == old(self).id,
            final(self).spec_valid_handle(h),
            final(self).resources@ == old(self).resources@.push(
                (ResourceInfo {
                    desc,
                    class: LifetimeClass::Imported,
                    init_access: Option::Some(current),
                    version: 0,
                    temporal_slot: Option::None,
                    export_access: Option::None,
                }),
            ),
            final(self).passes == old(self).passes,
            final(self).records == old(self).records,
            final(self).id == old(self).id,
    {
        let id = self.resources.len();
        self.resources.push(
            ResourceInfo {
                desc,
                class: LifetimeClass::Imported,
                init_access: Option::Some(current),
                version: 0,
                temporal_slot: Option::None,
                export_access: Option::None,
            },
        );
        Handle { id, version: 0, graph: self.id }
    }

    /// Requests a temporal resource by stable name. On first use within
    /// the cache's lifetime a fresh backing is allocated and `first_use`
    /// is `true` (so client code can seed initial content exactly once).
    /// On later frames the same backing is returned and the access state
    /// the previous frame left it in becomes the timeline's initial state.
    /// A request under an existing name with a different descriptor fails
    /// with `ResourceShapeMismatch` and changes nothing.
    pub fn get_or_create_temporal(
        &mut self,
        cache: &mut TemporalCache,
        name: String,
        desc: ResourceDesc,
    ) -> (r: Result<(Handle, bool), GraphError>)
        requires
            old(self).wf(),
            old(cache).wf(),
        ensures
            final(self).wf(),
            final(cache).wf(),
            r is Err <==> (old(cache).spec_has(name@) && old(cache).spec_entry(name@).desc
                != desc),
            r is Err ==> r == Err::<(Handle, bool), GraphError>(GraphError::ResourceShapeMismatch)
                && *final(self) == *old(self) && *final(cache) == *old(cache),
            r is Ok ==> ({
                let h = r->Ok_0.0;
                let first = r->Ok_0.1;
                &&& h.graph == old(self).id
                &&& h.id == old(self).resources@.len()
                &&& h.version == 0
                &&& final(self).spec_valid_handle(h)
                &&& first == !old(cache).spec_has(name@)
                &&& final(cache).spec_has(name@)
                &&& final(cache).spec_entry(name@).desc == desc
                &&& final(self).resources@ == old(self).resources@.push(
                    (ResourceInfo {
                        desc,
                        class: LifetimeClass::Temporal,
                        init_access: if first {
                            Option::None
                        } else {
                            old(cache).spec_entry(name@).last_access
                        },
                        version: 0,
                        temporal_slot: Option::Some(final(cache).spec_entry(name@).backing),
                        export_access: Option::None,
                    }),
                )
                &&& final(self).passes == old(self).passes
                &&& final(self).records == old(self).records
                &&& final(self).id == old(self).id
            }),
            r is Ok && !old(cache).spec_has(name@) ==> final(cache).entries@.len() == old(
                cache,
            ).entries@.len() + 1 && (forall|i: int|
                0 <= i < old(cache).entries@.len() ==> final(cache).entries@[i] == old(
                    cache,
                ).entries@[i]),
            r is Ok && old(cache).spec_has(name@) ==> *final(cache) == *old(cache),
    {
        match cache.get_or_create(name, desc) {
            Result::Err(_) => Err(GraphError::ResourceShapeMismatch),
            Result::Ok((backing, first, last)) => {
                let id = self.resources.len();
                let init: Option<AccessKind> = if first {
                    Option::None
                } else {
                    last
                };
                self.resources.push(
                    ResourceInfo {
                        desc,
                        class: LifetimeClass::Temporal,
                        init_access: init,
                        version: 0,
                        temporal_slot: Option::Some(backing),
                        export_access: Option::None,
                    },
                );
                Ok((Handle { id, version: 0, graph: self.id }, first))
            },
        }
    }

    /// Declares that pass `pass` reads through `h` with a read access kind.
    /// Fails with `StaleHandle` exactly when the handle does not belong to
    /// this instance or predates the latest write to its resource.
    pub fn declare_read(&mut self, pass: usize, h: Handle, kind: AccessKind) -> (r: Result<
        (),
        GraphError,
    >)
        requires
            old(self).wf(),
            !spec_is_write(kind),
            pass < old(self).passes@.len(),
        ensures
            final(self).wf(),
            r is Ok <==> old(self).spec_valid_handle(h),
            r is Ok ==> r == Ok::<(), GraphError>(()) && final(self).records@ == old(
                self,
            ).records@.push((AccessRecord { resource: h.id, kind, pass })) && final(self).resources
                == old(self).resources && final(self).passes == old(self).passes && final(self).id
                == old(self).id,
            r is Err ==> r == Err::<(), GraphError>(GraphError::StaleHandle) && *final(self)
                == *old(self),
    {
        if h.graph == self.id && h.id < self.resources.len() && h.version
            == self.resources[h.id].version {
            self.records.push(AccessRecord { resource: h.id, kind, pass });
            Ok(())
        } else {
            Err(GraphError::StaleHandle)
        }
    }

    /// Declares that pass `pass` writes through `h` with a write access
    /// kind, and returns the new handle version; the old handle becomes
    /// stale, so later code cannot reference the pre-write state.
    /// Fails with `StaleHandle` exactly when the handle is not valid.
    pub fn declare_write(&mut self, pass: usize, h: Handle, kind: AccessKind) -> (r: Result<
        Handle,
        GraphError,
    >)
        requires
            old(self).wf(),
            spec_is_write(kind),
            pass < old(self).passes@.len(),
        ensures
            final(self).wf(),
            r is Ok <==> old(self).spec_valid_handle(h),
            r is Ok ==> ({
                let nh = r->Ok_0;
                &&& nh.id == h.id
                &&& nh.version == h.version + 1
                &&& nh.graph == h.graph
                &&& final(self).spec_valid_handle(nh)
                &&& !final(self).spec_valid_handle(h)
                &&& final(self).records@ == old(self).records@.push(
                    (AccessRecord { resource: h.id, kind, pass }),
                )
                &&& final(self).resources@ == old(self).resources@.update(
                    h.id as int,
                    (ResourceInfo {
                        version: (h.version + 1) as usize,
                        ..old(self).resources@[h.id as int]
                    }),
                )
                &&& final(self).passes == old(self).passes
                &&& final(self).id == old(self).id
            }),
            r is Err ==> r == Err::<Handle, GraphError>(GraphError::StaleHandle) && *final(self)
                == *old(self),
    {
        if h.graph == self.id && h.id < self.resources.len() && h.version
            == self.resources[h.id].version {
            self.records.push(AccessRecord { resource: h.id, kind, pass });
            let n = self.records.len();
            let mut info = self.resources[h.id];
            assert(info.version + 1 <= n);
            info.version = info.version + 1;
            self.resources.set(h.id, info);
            Ok(Handle { id: h.id, version: h.version + 1, graph: h.graph })
        } else {
            Err(GraphError::StaleHandle)
        }
    }

    /// Exports the resource behind `h` to the caller, tagged with the
    /// access state the caller must treat it as being in. The compiler
    /// transitions the resource into that state at the end of the plan and
    /// excludes it from aliasing. Fails with `StaleHandle` exactly when
    /// the handle is not valid.
    pub fn export(&mut self, h: Handle, access: AccessKind) -> (r: Result<
        ExportedHandle,
        GraphError,
    >)
        requires
            old(self).wf(),
        ensures
            final(self).wf(),
            r is Ok <==> old(self).spec_valid_handle(h),
            r is Ok ==> r == Ok::<ExportedHandle, GraphError>(
                (ExportedHandle { id: h.id, access, graph: h.graph }),
            ) && final(self).resources@ == old(self).resources@.update(
                h.id as int,
                (ResourceInfo {
                    export_access: Option::Some(access),
                    ..old(self).resources@[h.id as int]
                }),
            ) && final(self).passes == old(self).passes && final(self).records == old(self).records
                && final(self).id == old(self).id,
            r is Err ==> r == Err::<ExportedHandle, GraphError>(GraphError::StaleHandle)
                && *final(self) == *old(self),
    {
        if h.graph == self.id && h.id < self.resources.len() && h.version
            == self.resources[h.id].version {
            let mut info = self.resources[h.id];
            info.export_access = Option::Some(access);
            self.resources.set(h.id, info);
            Ok(ExportedHandle { id: h.id, access, graph: h.graph })
        } else {
            Err(GraphError::StaleHandle)
        }
    }

    /// The name of a declared pass (e.g. for reporting a cycle).
    pub fn pass_name(&self, pass: usize) -> (r: &String)
        requires
            pass < self.passes@.len(),
        ensures
            r@ == self.passes@[pass as int].name@,
    {
        &self.passes[pass].name
    }
}

} // verus!
