//! The temporal resource cache: a per-renderer store mapping a stable name
//! to a backing resource and the access state its last use left it in.
//!
//! Entries are created on first request and persist across frames, so a
//! frame can read the previous frame's output. A later request under the
//! same name must carry the same descriptor: a mismatch is a configuration
//! error (`ResourceShapeMismatch`), never a silent reallocation. An entry
//! may be explicitly invalidated when a shape change is intentional, which
//! forces a fresh backing resource on the next request.

use vstd::prelude::*;
use crate::GraphError;
use crate::access::AccessKind;
use crate::handle::ResourceDesc;

verus! {

/// One named entry of the cache. `backing` identifies the backing resource
/// (it equals the entry's index and is never reused); `live` is cleared by
/// `invalidate` so that the name can be re-bound to a fresh backing.
pub struct TemporalEntry {
    pub name: String,
    pub backing: usize,
    pub desc: ResourceDesc,
    /// The access state the resource was last left in; `None` until the
    /// first frame using it has committed.
    pub last_access: Option<AccessKind>,
    pub live: bool,
}

/// The cache itself: owned by one renderer instance, mutated only on the
/// single recording thread during graph construction and commit.
pub struct TemporalCache {
    pub entries: Vec<TemporalEntry>,
}

impl TemporalCache {
    /// Well-formed: backings equal indices (so they are unique and never
    /// reused), and at most one live entry exists per name.
    pub open spec fn wf(self) -> bool {
        &&& forall|i: int|
            0 <= i < self.entries@.len() ==> (#[trigger] self.entries@[i]).backing == i
        &&& forall|i: int, j: int|
            0 <= i < j < self.entries@.len() && (#[trigger] self.entries@[i]).live && (
            #[trigger] self.entries@[j]).live ==> self.entries@[i].name@ != self.entries@[j].name@
    }

    /// Whether a live entry under `name` exists.
    pub open spec fn spec_has(self, name: Seq<char>) -> bool {
        exists|i: int|
            0 <= i < self.entries@.len() && (#[trigger] self.entries@[i]).live
                && self.entries@[i].name@ == name
    }

    /// The index of the live entry under `name` (unique when well-formed).
    pub open spec fn spec_index_of(self, name: Seq<char>) -> int {
        choose|i: int|
            0 <= i < self.entries@.len() && (#[trigger] self.entries@[i]).live
                && self.entries@[i].name@ == name
    }

    /// The live entry under `name`.
    pub open spec fn spec_entry(self, name: Seq<char>) -> TemporalEntry {
        self.entries@[self.spec_index_of(name)]
    }

    /// In a well-formed cache, any live entry under `name` is the one
    /// `spec_index_of` denotes.
    pub proof fn lemma_index_unique(self, name: Seq<char>, i: int)
        requires
            self.wf(),
            0 <= i < self.entries@.len(),
            self.entries@[i].live,
            self.entries@[i].name@ == name,
        ensures
            self.spec_has(name),
            self.spec_index_of(name) == i,
    {
        assert(self.spec_has(name));
        let j = self.spec_index_of(name);
        assert(0 <= j < self.entries@.len() && self.entries@[j].live && self.entries@[j].name@
            == name);
        if i < j {
            assert(self.entries@[i].name@ != self.entries@[j].name@);
        } else if j < i {
            assert(self.entries@[j].name@ != self.entries@[i].name@);
        }
    }

    /// An empty cache.
    pub fn new() -> (r: TemporalCache)
        ensures
            r.wf(),
            r.entries@.len() == 0,
    {
        TemporalCache { entries: Vec::new() }
    }

    /// Looks the name up; on first use allocates a fresh backing resource
    /// and reports `first_use = true`. On a later request under the same
    /// name with the same descriptor, returns the same backing together
    /// with the access state its last use left it in. A request under an
    /// existing name with a different descriptor fails with
    /// `ResourceShapeMismatch` and leaves the cache unchanged.
    ///
    /// The `Ok` payload is `(backing, first_use, last_access)`.
    pub fn get_or_create(&mut self, name: String, desc: ResourceDesc) -> (r: Result<
        (usize, bool, Option<AccessKind>),
        GraphError,
    >)
        requires
            old(self).wf(),
        ensures
            final(self).wf(),
            r is Ok <==> (!old(self).spec_has(name@) || old(self).spec_entry(name@).desc == desc),
            r is Err ==> r == Err::<(usize, bool, Option<AccessKind>), GraphError>(
                GraphError::ResourceShapeMismatch,
            ) && *final(self) == *old(self),
            old(self).spec_has(name@) && old(self).spec_entry(name@).desc == desc ==> r == Ok::<
                (usize, bool, Option<AccessKind>),
                GraphError,
            >(
                (
                    old(self).spec_entry(name@).backing,
                    false,
                    old(self).spec_entry(name@).last_access,
                ),
            ) && *final(self) == *old(self),
            !old(self).spec_has(name@) ==> r == Ok::<(usize, bool, Option<AccessKind>), GraphError>(
                (old(self).entries@.len() as usize, true, Option::None),
            ) && final(self).entries@.len() == old(self).entries@.len() + 1 && (forall|i: int|
                0 <= i < old(self).entries@.len() ==> final(self).entries@[i] == old(
                    self,
                ).entries@[i]),
            final(self).spec_has(name@),
            r is Ok ==> final(self).spec_entry(name@).backing == r->Ok_0.0
                && final(self).spec_entry(name@).desc == desc,
    {
        let n = self.entries.len();
        let mut i: usize = 0;
        while i < n
            invariant
                self.wf(),
                n == self.entries@.len(),
                i <= n,
                forall|j: int|
                    0 <= j < i ==> !((#[trigger] self.entries@[j]).live && self.entries@[j].name@
                        == name@),
            decreases n - i,
        {
            let live = self.entries[i].live;
            let matches_name = self.entries[i].name == name;
            if live && matches_name {
                proof {
                    self.lemma_index_unique(name@, i as int);
                }
                if self.entries[i].desc == desc {
                    let backing = self.entries[i].backing;
                    let last = self.entries[i].last_access;
                    return Ok((backing, false, last));
                } else {
                    return Err(GraphError::ResourceShapeMismatch);
                }
            }
            i = i + 1;
        }
        assert(!self.spec_has(name@));
        let backing = self.entries.len();
        self.entries.push(
            TemporalEntry { name, backing, desc, last_access: Option::None, live: true },
        );
        proof {
            assert forall|i: int, j: int|
                0 <= i < j < self.entries@.len() && (#[trigger] self.entries@[i]).live && (
                #[trigger] self.entries@[j]).live implies self.entries@[i].name@
                != self.entries@[j].name@ by {
                if j == self.entries@.len() - 1 {
                    assert(!(self.entries@[i].live && self.entries@[i].name@ == name@));
                }
            }
            self.lemma_index_unique(name@, self.entries@.len() - 1);
        }
        Ok((backing, true, Option::None))
    }

    /// Records the access state a frame left a temporal resource in, keyed
    /// by its backing id. Fails with `StaleHandle` when the backing does
    /// not denote a live entry.
    pub fn commit_last_access(&mut self, backing: usize, access: AccessKind) -> (r: Result<
        (),
        GraphError,
    >)
        requires
            old(self).wf(),
        ensures
            final(self).wf(),
            r is Ok <==> (backing < old(self).entries@.len() && old(
                self,
            ).entries@[backing as int].live),
            r is Ok ==> final(self).entries@ == old(self).entries@.update(
                backing as int,
                (TemporalEntry {
                    last_access: Option::Some(access),
                    ..old(self).entries@[backing as int]
                }),
            ),
            r is Err ==> r == Err::<(), GraphError>(GraphError::StaleHandle) && *final(self)
                == *old(self),
    {
        if backing < self.entries.len() {
            let live = self.entries[backing].live;
            if live {
                let name = self.entries[backing].name.clone();
                let desc = self.entries[backing].desc;
                self.entries.set(
                    backing,
                    TemporalEntry {
                        name,
                        backing,
                        desc,
                        last_access: Option::Some(access),
                        live: true,
                    },
                );
                assert(self.entries@[backing as int] == (TemporalEntry {
                    last_access: Option::Some(access),
                    ..old(self).entries@[backing as int]
                }));
                return Ok(());
            }
        }
        Err(GraphError::StaleHandle)
    }

    /// Drops the live entry under `name`, forcing the next request to
    /// allocate a fresh backing resource (used when a descriptor change is
    /// intentional, e.g. a window resize). Returns whether an entry existed.
    pub fn invalidate(&mut self, name: &String) -> (found: bool)
        requires
            old(self).wf(),
        ensures
            final(self).wf(),
            found == old(self).spec_has(name@),
            !final(self).spec_has(name@),
            final(self).entries@.len() == old(self).entries@.len(),
            forall|i: int|
                0 <= i < old(self).entries@.len() && !((#[trigger] old(self).entries@[i]).live
                    && old(self).entries@[i].name@ == name@) ==> final(self).entries@[i] == old(
                    self,
                ).entries@[i],
            forall|i: int|
                0 <= i < old(self).entries@.len() && (#[trigger] old(self).entries@[i]).live && old(
                    self,
                ).entries@[i].name@ == name@ ==> final(self).entries@[i] == (TemporalEntry {
                    live: false,
                    ..old(self).entries@[i]
                }),
    {
        let n = self.entries.len();
        let mut i: usize = 0;
        let mut found: bool = false;
        while i < n
            invariant
                n == self.entries@.len(),
                n == old(self).entries@.len(),
                i <= n,
                found == exists|j: int|
                    0 <= j < i && (#[trigger] old(self).entries@[j]).live
                        && old(self).entries@[j].name@ == name@,
                forall|j: int|
                    i <= j < n ==> #[trigger] self.entries@[j] == old(self).entries@[j],
                forall|j: int|
                    0 <= j < i && !((#[trigger] old(self).entries@[j]).live
                        && old(self).entries@[j].name@ == name@) ==> self.entries@[j] == old(
                        self,
                    ).entries@[j],
                forall|j: int|
                    0 <= j < i && (#[trigger] old(self).entries@[j]).live
                        && old(self).entries@[j].name@ == name@ ==> self.entries@[j]
                        == (TemporalEntry { live: false, ..old(self).entries@[j] }),
                old(self).wf(),
            decreases n - i,
        {
            proof {
                assert(self.entries@[i as int] == old(self).entries@[i as int]);
            }
            let live = self.entries[i].live;
            if live && self.entries[i].name.eq(name) {
                let backing = self.entries[i].backing;
                let desc = self.entries[i].desc;
                let last = self.entries[i].last_access;
                let entry_name = self.entries[i].name.clone();
                self.entries.set(
                    i,
                    TemporalEntry {
                        name: entry_name,
                        backing,
                        desc,
                        last_access: last,
                        live: false,
                    },
                );
                assert(self.entries@[i as int] == (TemporalEntry {
                    live: false,
                    ..old(self).entries@[i as int]
                }));
                found = true;
            }
            i = i + 1;
        }
        proof {
            assert forall|i: int|
                0 <= i < self.entries@.len() implies (#[trigger] self.entries@[i]).backing
                == i by {
                assert(old(self).entries@[i].backing == i);
            }
            assert forall|i: int, j: int|
                0 <= i < j < self.entries@.len() && (#[trigger] self.entries@[i]).live && (
                #[trigger] self.entries@[j]).live implies self.entries@[i].name@
                != self.entries@[j].name@ by {
                assert(old(self).entries@[i].live && old(self).entries@[j].live);
            }
        }
        proof {
            if old(self).spec_has(name@) {
                let i = old(self).spec_index_of(name@);
                assert(!self.entries@[i].live);
            }
            assert(!self.spec_has(name@)) by {
                if self.spec_has(name@) {
                    let i = self.spec_index_of(name@);
                    assert(old(self).entries@[i].live && old(self).entries@[i].name@ == name@);
                    assert(!self.entries@[i].live);
                }
            }
        }
        found
    }
}

} // verus!
