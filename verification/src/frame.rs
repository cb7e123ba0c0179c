//! The frame/device synchronization context: N rotating frame slots, each
//! owning per-frame recording resources, coordinating CPU recording of the
//! next frame while the GPU may still be executing the previous one.
//!
//! Per-slot state machine: `Idle -> Recording -> Submitted -> Retiring ->
//! Idle`. Acquiring a slot blocks only on that slot's own prior
//! submission: a slot in `Idle` is handed out immediately no matter what
//! any other slot is doing, which is what gives one frame of CPU/GPU
//! overlap with two slots. A slot is reset (made `Idle`) only after the
//! completion signal of its own prior submission was observed; a timeout
//! while waiting is fatal (`DeviceLost`), never retried.

use vstd::prelude::*;
use crate::GraphError;

verus! {

/// The lifecycle state of one frame slot. The fence value identifies the
/// submission whose completion the slot's reuse must wait for.
#[derive(Clone, Copy, PartialEq, Eq, Structural, Debug)]
pub enum SlotState {
    /// Prior GPU work (if any) confirmed complete; transient pool reset.
    Idle,
    /// The CPU is recording the compiled plan into this slot.
    Recording,
    /// Commands handed to the GPU queue; the CPU moved on.
    Submitted { fence: u64 },
    /// About to be reused: waiting for the prior submission's completion.
    Retiring { fence: u64 },
}

/// What the caller must do after asking for the current slot.
#[derive(Clone, Copy, PartialEq, Eq, Structural, Debug)]
pub enum AcquireAction {
    /// The slot is ready; recording may begin immediately.
    Ready,
    /// The slot's prior submission is still in flight: wait (bounded) for
    /// this fence, then report the outcome via `complete_wait`.
    WaitFence { fence: u64 },
}

/// The rotating frame slots of one renderer instance.
pub struct FrameSync {
    pub slots: Vec<SlotState>,
    /// Index of the slot the next frame records into.
    pub current: usize,
    /// The fence value the next submission will signal.
    pub next_fence: u64,
}

impl FrameSync {
    pub open spec fn wf(self) -> bool {
        &&& self.slots@.len() >= 1
        &&& self.current < self.slots@.len()
    }

    /// A context with `n` slots, all idle, recording into slot 0 first.
    pub fn new(n: usize) -> (s: FrameSync)
        requires
            n >= 1,
        ensures
            s.wf(),
            s.slots@.len() == n,
            forall|i: int| 0 <= i < n ==> (#[trigger] s.slots@[i]) == SlotState::Idle,
            s.current == 0,
            s.next_fence == 0,
    {
        let mut slots: Vec<SlotState> = Vec::new();
        let mut i: usize = 0;
        while i < n
            invariant
                i <= n,
                slots@.len() == i,
                forall|j: int| 0 <= j < i ==> (#[trigger] slots@[j]) == SlotState::Idle,
            decreases n - i,
        {
            slots.push(SlotState::Idle);
            i = i + 1;
        }
        FrameSync { slots, current: 0, next_fence: 0 }
    }

    /// The action acquiring the current slot demands, as a function of
    /// that slot's state alone.
    pub open spec fn acquire_action(self) -> AcquireAction {
        match self.slots@[self.current as int] {
            SlotState::Submitted { fence } => AcquireAction::WaitFence { fence },
            _ => AcquireAction::Ready,
        }
    }

    /// Asks for the current slot. An idle slot is handed out at once — no
    /// other slot's state is consulted or changed, so recording one slot
    /// is never blocked by another slot still being in flight. A slot
    /// whose prior submission is still pending enters `Retiring` and the
    /// caller must wait for that slot's own fence; only a completed wait
    /// (`complete_wait`) resets it to `Idle`.
    pub fn acquire(&mut self) -> (r: AcquireAction)
        requires
            old(self).wf(),
            old(self).slots@[old(self).current as int] is Idle || old(self).slots@[old(
                self,
            ).current as int] is Submitted,
        ensures
            final(self).wf(),
            final(self).current == old(self).current,
            final(self).next_fence == old(self).next_fence,
            final(self).slots@.len() == old(self).slots@.len(),
            forall|i: int|
                0 <= i < old(self).slots@.len() && i != old(self).current ==> final(self).slots@[i] == #[trigger] old(self).slots@[i],
            r == old(self).acquire_action(),
            r is Ready <==> old(self).slots@[old(self).current as int] is Idle,
            old(self).slots@[old(self).current as int] is Idle ==> r == AcquireAction::Ready
                && final(self).slots@[old(self).current as int] == SlotState::Recording,
            forall|f: u64|
                old(self).slots@[old(self).current as int] == (SlotState::Submitted { fence: f })
                    ==> r == (AcquireAction::WaitFence { fence: f }) && final(self).slots@[old(
                    self,
                ).current as int] == (SlotState::Retiring { fence: f }),
    {
        let c = self.current;
        match self.slots[c] {
            SlotState::Idle => {
                self.slots.set(c, SlotState::Recording);
                AcquireAction::Ready
            },
            SlotState::Submitted { fence } => {
                self.slots.set(c, SlotState::Retiring { fence });
                AcquireAction::WaitFence { fence }
            },
            _ => {
                proof {
                    assert(false);
                }
                AcquireAction::Ready
            },
        }
    }

    /// Reports the outcome of waiting for the current slot's fence. On
    /// completion the slot's transient pool is reset and it returns to
    /// `Idle` (the next `acquire` hands it out). A timeout is device loss:
    /// fatal, the context unchanged, nothing retried.
    pub fn complete_wait(&mut self, completed: bool) -> (r: Result<(), GraphError>)
        requires
            old(self).wf(),
            old(self).slots@[old(self).current as int] is Retiring,
        ensures
            final(self).wf(),
            final(self).current == old(self).current,
            final(self).next_fence == old(self).next_fence,
            final(self).slots@.len() == old(self).slots@.len(),
            forall|i: int|
                0 <= i < old(self).slots@.len() && i != old(self).current ==> final(self).slots@[i] == #[trigger] old(self).slots@[i],
            completed ==> r == Ok::<(), GraphError>(()) && final(self).slots@[old(
                self,
            ).current as int] == SlotState::Idle,
            !completed ==> r == Err::<(), GraphError>(GraphError::DeviceLost) && *final(self)
                == *old(self),
    {
        if completed {
            let c = self.current;
            self.slots.set(c, SlotState::Idle);
            Ok(())
        } else {
            Err(GraphError::DeviceLost)
        }
    }

    /// Law: the acquire decision is local to the current slot. Two
    /// contexts whose current slots agree demand the same action, whatever
    /// every other slot is doing — so with two slots, recording into one
    /// is never blocked while the other is still `Submitted`; and a
    /// submitted slot's reuse always waits for that slot's own fence.
    pub proof fn lemma_acquire_local(s1: FrameSync, s2: FrameSync)
        requires
            s1.wf(),
            s2.wf(),
            s1.current == s2.current,
            s1.slots@[s1.current as int] == s2.slots@[s2.current as int],
        ensures
            s1.acquire_action() == s2.acquire_action(),
            s1.slots@[s1.current as int] is Idle ==> s1.acquire_action()
                == AcquireAction::Ready,
            forall|f: u64|
                s1.slots@[s1.current as int] == (SlotState::Submitted { fence: f })
                    ==> s1.acquire_action() == (AcquireAction::WaitFence { fence: f }),
    {
    }

    /// Hands the recorded commands to the GPU queue: the slot becomes
    /// `Submitted` under a fresh fence (returned, to be signaled by the
    /// GPU), and the context advances to the next slot without blocking.
    pub fn submit(&mut self) -> (fence: u64)
        requires
            old(self).wf(),
            old(self).slots@[old(self).current as int] is Recording,
            old(self).next_fence < u64::MAX,
        ensures
            final(self).wf(),
            fence == old(self).next_fence,
            final(self).next_fence == old(self).next_fence + 1,
            final(self).slots@.len() == old(self).slots@.len(),
            final(self).slots@[old(self).current as int] == (SlotState::Submitted {
                fence: old(self).next_fence,
            }),
            forall|i: int|
                0 <= i < old(self).slots@.len() && i != old(self).current ==> final(self).slots@[i] == #[trigger] old(self).slots@[i],
            final(self).current == ((old(self).current + 1) as usize) % (old(
                self,
            ).slots@.len() as usize),
    {
        let c = self.current;
        let n = self.slots.len();
        let fence = self.next_fence;
        self.slots.set(c, SlotState::Submitted { fence });
        self.next_fence = fence + 1;
        self.current = (c + 1) % n;
        fence
    }
}

} // verus!
