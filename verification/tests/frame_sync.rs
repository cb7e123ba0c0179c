use framegraph::GraphError;
use framegraph::frame::AcquireAction;
use framegraph::frame::FrameSync;
use framegraph::frame::SlotState;

// A simulated GPU that signals each submitted fence a fixed number of
// steps after submission.
struct SimulatedGpu {
    delay: u64,
    step: u64,
    submissions: Vec<(u64, u64)>, // (fence, submitted at step)
}

impl SimulatedGpu {
    fn new(delay: u64) -> SimulatedGpu {
        SimulatedGpu { delay, step: 0, submissions: Vec::new() }
    }

    fn submit(&mut self, fence: u64) {
        let at = self.step;
        self.submissions.push((fence, at));
    }

    fn tick(&mut self) {
        self.step += 1;
    }

    fn is_complete(&self, fence: u64) -> bool {
        self.submissions
            .iter()
            .any(|&(f, at)| f == fence && at + self.delay <= self.step)
    }
}

#[test]
fn two_slots_overlap_without_blocking_each_other() {
    let mut fs = FrameSync::new(2);
    let mut gpu = SimulatedGpu::new(1);

    // frame 0: slot 0 is idle, handed out immediately
    assert!(matches!(fs.acquire(), AcquireAction::Ready));
    let f0 = fs.submit();
    gpu.submit(f0);

    // frame 1: slot 1 is idle and is handed out immediately even though
    // slot 0 is still Submitted (no blocking across slots)
    assert!(matches!(fs.slots[0], SlotState::Submitted { .. }));
    assert!(matches!(fs.acquire(), AcquireAction::Ready));
    let f1 = fs.submit();
    gpu.submit(f1);
    gpu.tick();

    // frame 2 reuses slot 0: it must wait for slot 0's own fence
    let fence = match fs.acquire() {
        AcquireAction::WaitFence { fence } => fence,
        AcquireAction::Ready => panic!("slot reuse must wait for its prior submission"),
    };
    assert_eq!(fence, f0);
    // the simulated GPU has completed f0 by now (fixed delay of one step)
    assert!(gpu.is_complete(f0));
    fs.complete_wait(true).unwrap();
    assert!(matches!(fs.slots[0], SlotState::Idle));
    assert!(matches!(fs.acquire(), AcquireAction::Ready));
    let f2 = fs.submit();
    gpu.submit(f2);
    assert_eq!((f0, f1, f2), (0, 1, 2));
}

#[test]
fn retirement_timeout_is_device_loss() {
    let mut fs = FrameSync::new(2);
    let gpu = SimulatedGpu::new(1000);
    assert!(matches!(fs.acquire(), AcquireAction::Ready));
    let f0 = fs.submit();
    assert!(matches!(fs.acquire(), AcquireAction::Ready));
    let _f1 = fs.submit();
    // back at slot 0: its fence never completes within the bounded wait
    match fs.acquire() {
        AcquireAction::WaitFence { fence } => assert_eq!(fence, f0),
        AcquireAction::Ready => panic!("expected a wait"),
    }
    assert!(!gpu.is_complete(f0));
    match fs.complete_wait(false) {
        Err(GraphError::DeviceLost) => {}
        _ => panic!("a timed-out retirement is fatal"),
    }
    // the slot was not reset
    assert!(matches!(fs.slots[0], SlotState::Retiring { .. }));
}
