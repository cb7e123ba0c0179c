//! Access kinds, image layouts, and the per-resource barrier synthesizer.
//!
//! Given the ordered access timeline of one resource, the synthesizer walks
//! consecutive pairs and emits a barrier exactly when the pair is a hazard:
//! at least one side writes, or the two accesses require different layouts.
//! Two reads in the same layout are compatible and need no barrier.

use vstd::prelude::*;

verus! {

/// How a resource is used at one point of the graph.
#[derive(Clone, Copy, PartialEq, Eq, Structural, Debug)]
pub enum AccessKind {
    /// Read through a sampler in a shader.
    SampledRead,
    /// Read as a storage image/buffer.
    StorageRead,
    /// Read as the source of a transfer (copy) operation.
    TransferRead,
    /// Written as a storage image/buffer.
    StorageWrite,
    /// Written as a color/depth attachment.
    AttachmentWrite,
    /// Written as the destination of a transfer (copy) operation.
    TransferWrite,
}

/// The underlying image layout / cache domain an access kind requires.
#[derive(Clone, Copy, PartialEq, Eq, Structural, Debug)]
pub enum Layout {
    ShaderRead,
    General,
    Attachment,
    TransferSrc,
    TransferDst,
}

pub open spec fn spec_is_write(k: AccessKind) -> bool {
    match k {
        AccessKind::StorageWrite => true,
        AccessKind::AttachmentWrite => true,
        AccessKind::TransferWrite => true,
        _ => false,
    }
}

pub open spec fn spec_layout_of(k: AccessKind) -> Layout {
    match k {
        AccessKind::SampledRead => Layout::ShaderRead,
        AccessKind::StorageRead => Layout::General,
        AccessKind::TransferRead => Layout::TransferSrc,
        AccessKind::StorageWrite => Layout::General,
        AccessKind::AttachmentWrite => Layout::Attachment,
        AccessKind::TransferWrite => Layout::TransferDst,
    }
}

/// True when two consecutive accesses to one resource require a barrier:
/// at least one of them writes, or they use different layouts.
/// Equivalently: false exactly when both are reads in a common layout.
pub open spec fn spec_needs_barrier(prev: AccessKind, next: AccessKind) -> bool {
    spec_is_write(prev) || spec_is_write(next) || spec_layout_of(prev) != spec_layout_of(next)
}

/// Whether `k` writes the resource.
pub fn is_write(k: AccessKind) -> (r: bool)
    ensures
        r == spec_is_write(k),
{
    match k {
        AccessKind::StorageWrite => true,
        AccessKind::AttachmentWrite => true,
        AccessKind::TransferWrite => true,
        _ => false,
    }
}

/// The layout `k` keeps the resource in.
pub fn layout_of(k: AccessKind) -> (r: Layout)
    ensures
        r == spec_layout_of(k),
{
    match k {
        AccessKind::SampledRead => Layout::ShaderRead,
        AccessKind::StorageRead => Layout::General,
        AccessKind::TransferRead => Layout::TransferSrc,
        AccessKind::StorageWrite => Layout::General,
        AccessKind::AttachmentWrite => Layout::Attachment,
        AccessKind::TransferWrite => Layout::TransferDst,
    }
}

/// Whether a barrier is required between consecutive accesses `prev`, `next`.
pub fn needs_barrier(prev: AccessKind, next: AccessKind) -> (r: bool)
    ensures
        r == spec_needs_barrier(prev, next),
{
    is_write(prev) || is_write(next) || layout_of(prev) != layout_of(next)
}

/// One synchronization directive, placed immediately before `before_pass`.
/// `prev`/`next` are the two accesses the barrier orders; they determine
/// whether a memory barrier and a layout transition are involved.
#[derive(Clone, Copy, PartialEq, Eq, Structural, Debug)]
pub struct Barrier {
    /// The resource whose accesses are being ordered.
    pub resource: usize,
    /// The access that produced the current contents/layout.
    pub prev: AccessKind,
    /// The consuming access the barrier must complete before.
    pub next: AccessKind,
    /// The pass performing `next`; the barrier is issued right before it.
    pub before_pass: usize,
}

impl Barrier {
    /// A memory (visibility) barrier is needed when the producer wrote.
    pub open spec fn spec_is_memory(self) -> bool {
        spec_is_write(self.prev)
    }

    /// A layout transition is needed when the two layouts differ.
    pub open spec fn spec_is_transition(self) -> bool {
        spec_layout_of(self.prev) != spec_layout_of(self.next)
    }

    /// Whether this barrier carries a memory (visibility) dependency.
    pub fn is_memory(&self) -> (r: bool)
        ensures
            r == self.spec_is_memory(),
    {
        is_write(self.prev)
    }

    /// Whether this barrier performs a layout transition.
    pub fn is_transition(&self) -> (r: bool)
        ensures
            r == self.spec_is_transition(),
    {
        layout_of(self.prev) != layout_of(self.next)
    }
}

/// One access in a resource's timeline: the pass performing it and its kind.
pub type TimelineEntry = (usize, AccessKind);

/// The barriers required by the timeline `tl` of resource `resource`,
/// when the state left by the preceding access is `prev`.
pub open spec fn barrier_seq(resource: usize, prev: AccessKind, tl: Seq<TimelineEntry>) -> Seq<
    Barrier,
>
    decreases tl.len(),
{
    if tl.len() == 0 {
        Seq::empty()
    } else {
        let rest = barrier_seq(resource, tl[0].1, tl.drop_first());
        if spec_needs_barrier(prev, tl[0].1) {
            seq![
                (Barrier { resource, prev, next: tl[0].1, before_pass: tl[0].0 }),
            ] + rest
        } else {
            rest
        }
    }
}

/// The barriers required by a full timeline, where `init` is the access
/// state the resource enters the frame in: `None` for a freshly created
/// transient (its first access needs no barrier), `Some(k)` for a temporal
/// or imported resource whose prior use left it in state `k`.
pub open spec fn barrier_seq_init(
    resource: usize,
    init: Option<AccessKind>,
    tl: Seq<TimelineEntry>,
) -> Seq<Barrier> {
    match init {
        Option::Some(k) => barrier_seq(resource, k, tl),
        Option::None => if tl.len() == 0 {
            Seq::empty()
        } else {
            barrier_seq(resource, tl[0].1, tl.drop_first())
        },
    }
}

/// The access state in force just before timeline entry `i` runs, given
/// the entry state `init`; `None` only for the first access of a transient.
pub open spec fn state_before(
    init: Option<AccessKind>,
    tl: Seq<TimelineEntry>,
    i: int,
) -> Option<AccessKind> {
    if i == 0 {
        init
    } else {
        Option::Some(tl[i - 1].1)
    }
}

/// Synthesizes the barriers for one resource's execution-ordered timeline.
/// The result is exactly `barrier_seq_init(resource, init, timeline@)`:
/// one barrier per consecutive hazard, placed before the consuming pass,
/// in timeline order, and nothing else.
pub fn synthesize(
    resource: usize,
    init: Option<AccessKind>,
    timeline: &Vec<TimelineEntry>,
) -> (r: Vec<Barrier>)
    ensures
        r@ == barrier_seq_init(resource, init, timeline@),
{
    let mut r: Vec<Barrier> = Vec::new();
    let n = timeline.len();
    let mut i: usize = 0;
    let mut prev: AccessKind;
    match init {
        Option::Some(k) => {
            prev = k;
            assert(timeline@.skip(0) =~= timeline@);
        },
        Option::None => {
            if n == 0 {
                assert(r@ =~= barrier_seq_init(resource, init, timeline@));
                return r;
            }
            prev = timeline[0].1;
            i = 1;
            assert(timeline@.drop_first() =~= timeline@.skip(1));
        },
    }
    assert(r@ + barrier_seq(resource, prev, timeline@.skip(i as int)) =~= barrier_seq_init(
        resource,
        init,
        timeline@,
    ));
    while i < n
        invariant
            n == timeline@.len(),
            i <= n,
            r@ + barrier_seq(resource, prev, timeline@.skip(i as int)) == barrier_seq_init(
                resource,
                init,
                timeline@,
            ),
        decreases n - i,
    {
        let ghost tail = timeline@.skip(i as int);
        proof {
            assert(tail.len() > 0);
            assert(tail[0] == timeline@[i as int]);
            assert(tail.drop_first() =~= timeline@.skip(i as int + 1));
        }
        let (p, k) = timeline[i];
        if needs_barrier(prev, k) {
            r.push(Barrier { resource, prev, next: k, before_pass: p });
        }
        proof {
            assert(r@ + barrier_seq(resource, k, timeline@.skip(i as int + 1)) =~= barrier_seq_init(
                resource,
                init,
                timeline@,
            ));
        }
        prev = k;
        i = i + 1;
    }
    proof {
        assert(timeline@.skip(n as int) =~= Seq::<TimelineEntry>::empty());
        assert(r@ =~= barrier_seq_init(resource, init, timeline@));
    }
    r
}

/// Law: the synthesizer never omits a required barrier. For every position
/// `i` of the timeline whose preceding state `prev` forms a hazard with the
/// access at `i` (not both compatible reads), the barrier ordering that pair,
/// placed before the consuming pass, occurs in `barrier_seq`.
pub proof fn lemma_barrier_seq_complete(
    resource: usize,
    prev: AccessKind,
    tl: Seq<TimelineEntry>,
    i: int,
)
    requires
        0 <= i < tl.len(),
        spec_needs_barrier(state_before(Option::Some(prev), tl, i).unwrap(), tl[i].1),
    ensures
        barrier_seq(resource, prev, tl).contains(
            (Barrier {
                resource,
                prev: state_before(Option::Some(prev), tl, i).unwrap(),
                next: tl[i].1,
                before_pass: tl[i].0,
            }),
        ),
    decreases i,
{
    let s = barrier_seq(resource, prev, tl);
    if i == 0 {
        assert(s[0] == (Barrier { resource, prev, next: tl[0].1, before_pass: tl[0].0 }));
    } else {
        let rest = barrier_seq(resource, tl[0].1, tl.drop_first());
        lemma_barrier_seq_complete(resource, tl[0].1, tl.drop_first(), i - 1);
        let b = (Barrier {
            resource,
            prev: state_before(Option::Some(prev), tl, i).unwrap(),
            next: tl[i].1,
            before_pass: tl[i].0,
        });
        assert(tl.drop_first()[i - 1] == tl[i]);
        if i - 1 == 0 {
            assert(state_before(Option::Some(tl[0].1), tl.drop_first(), 0).unwrap() == tl[0].1);
            assert(state_before(Option::Some(prev), tl, i).unwrap() == tl[0].1);
        } else {
            assert(tl.drop_first()[i - 2] == tl[i - 1]);
        }
        assert(rest.contains(b));
        let j = choose|j: int| 0 <= j < rest.len() && rest[j] == b;
        if spec_needs_barrier(prev, tl[0].1) {
            assert(s[j + 1] == b);
        } else {
            assert(s[j] == b);
        }
    }
}

/// Law: the synthesizer is sound. Every emitted barrier orders a genuine
/// hazard pair of this resource's timeline: its `prev`/`next` states form a
/// hazard, and they occur consecutively in the timeline with `next` performed
/// by `before_pass`.
pub proof fn lemma_barrier_seq_sound(
    resource: usize,
    prev: AccessKind,
    tl: Seq<TimelineEntry>,
    j: int,
)
    requires
        0 <= j < barrier_seq(resource, prev, tl).len(),
    ensures
        ({
            let b = barrier_seq(resource, prev, tl)[j];
            &&& spec_needs_barrier(b.prev, b.next)
            &&& b.resource == resource
            &&& exists|i: int|
                0 <= i < tl.len() && tl[i] == (b.before_pass, b.next) && state_before(
                    Option::Some(prev),
                    tl,
                    i,
                ).unwrap() == b.prev
        }),
    decreases tl.len(),
{
    let s = barrier_seq(resource, prev, tl);
    let b = s[j];
    let rest = barrier_seq(resource, tl[0].1, tl.drop_first());
    if spec_needs_barrier(prev, tl[0].1) && j == 0 {
        assert(tl[0] == (b.before_pass, b.next));
        assert(state_before(Option::Some(prev), tl, 0).unwrap() == b.prev);
    } else {
        let j2: int = if spec_needs_barrier(prev, tl[0].1) {
            j - 1
        } else {
            j
        };
        assert(rest[j2] == b);
        lemma_barrier_seq_sound(resource, tl[0].1, tl.drop_first(), j2);
        let i2 = choose|i2: int|
            0 <= i2 < tl.drop_first().len() && tl.drop_first()[i2] == (b.before_pass, b.next)
                && state_before(Option::Some(tl[0].1), tl.drop_first(), i2).unwrap() == b.prev;
        assert(tl.drop_first()[i2] == tl[i2 + 1]);
        if i2 == 0 {
            assert(state_before(Option::Some(prev), tl, 1).unwrap() == tl[0].1);
        } else {
            assert(tl.drop_first()[i2 - 1] == tl[i2]);
        }
        assert(tl[i2 + 1] == (b.before_pass, b.next) && state_before(
            Option::Some(prev),
            tl,
            i2 + 1,
        ).unwrap() == b.prev);
    }
}

/// Law (no hazard window): for a full timeline with entry state `init`,
/// whenever the state before access `i` is a known access kind that forms a
/// hazard with access `i`, the synthesized barrier list contains the barrier
/// that closes that window, placed before the consuming pass.
pub proof fn lemma_no_hazard_window(
    resource: usize,
    init: Option<AccessKind>,
    tl: Seq<TimelineEntry>,
    i: int,
)
    requires
        0 <= i < tl.len(),
        state_before(init, tl, i).is_some(),
        spec_needs_barrier(state_before(init, tl, i).unwrap(), tl[i].1),
    ensures
        barrier_seq_init(resource, init, tl).contains(
            (Barrier {
                resource,
                prev: state_before(init, tl, i).unwrap(),
                next: tl[i].1,
                before_pass: tl[i].0,
            }),
        ),
{
    match init {
        Option::Some(k) => {
            lemma_barrier_seq_complete(resource, k, tl, i);
        },
        Option::None => {
            assert(i >= 1);
            lemma_barrier_seq_complete(resource, tl[0].1, tl.drop_first(), i - 1);
            assert(tl.drop_first()[i - 1] == tl[i]);
            if i - 1 == 0 {
                assert(state_before(init, tl, 1).unwrap() == tl[0].1);
            } else {
                assert(tl.drop_first()[i - 2] == tl[i - 1]);
            }
        },
    }
}

} // verus!
