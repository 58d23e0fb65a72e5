use vstd::prelude::*;

verus! {

/// Where the frame protocol stands.
#[derive(Clone, Copy, Debug, PartialEq, Eq, Structural)]
pub enum Phase {
    /// No frame under way.
    Idle,
    /// Waiting for the swapchain to be recreated.
    Recreating,
    /// Waiting for the next presentable image.
    Acquiring,
    /// Waiting for the frame's submission and presentation.
    Submitting,
    /// The last frame was submitted; its completion token is the previous one.
    Presented,
}

/// How recreating the swapchain went.
#[derive(Clone, Copy, Debug, PartialEq, Eq, Structural)]
pub enum RecreateOutcome {
    /// New images of this size.
    Created { width: u32, height: u32 },
    /// The window's current size is not supported; try again next frame.
    UnsupportedExtent,
    /// Any other failure.
    Failed,
}

/// How acquiring the next image went.
#[derive(Clone, Copy, Debug, PartialEq, Eq, Structural)]
pub enum AcquireOutcome {
    /// This image index is ready to render into.
    Acquired { image: u32 },
    /// The swapchain no longer matches the window.
    OutOfDate,
    /// Any other failure.
    Failed,
}

/// How submitting and presenting the frame went.
#[derive(Clone, Copy, Debug, PartialEq, Eq, Structural)]
pub enum SubmitOutcome {
    /// Submitted and queued for presentation; a completion token is at hand.
    Submitted,
    /// The swapchain no longer matches the window.
    OutOfDate,
    /// Any other failure.
    Failed,
}

/// What the driver of the frame loop reports.
#[derive(Clone, Copy, Debug, PartialEq, Eq, Structural)]
pub enum FrameEvent {
    /// A frame is requested; finished work of the previous one was cleaned up.
    Begin,
    Recreated(RecreateOutcome),
    Acquired(AcquireOutcome),
    Submitted(SubmitOutcome),
}

/// What the driver of the frame loop does next.
#[derive(Clone, Copy, Debug, PartialEq, Eq, Structural)]
pub enum FrameAction {
    /// Recreate the swapchain for the window's current size.
    RecreateSwapchain,
    /// Acquire the next presentable image.
    Acquire,
    /// Compile the frame for this image, submit it after the previous
    /// completion token and the acquisition, and present the image.
    Render { image: u32 },
    /// Keep the submission's completion token as the previous one.
    KeepToken,
    /// Replace the previous completion token by a fresh one that is already
    /// complete; the frame is lost, the loop goes on.
    FreshToken,
    /// End this frame without presenting anything.
    Abort,
    /// An unrecoverable device failure.
    Fatal,
    /// The event does not belong to the current phase; nothing changes.
    Ignore,
}

/// The presentation state machine: the phase of the current frame, whether
/// the swapchain must be recreated before the next acquisition, and the size
/// its images were created for.
#[derive(Clone, Copy, Debug, PartialEq, Eq, Structural)]
pub struct FrameLoop {
    pub phase: Phase,
    pub stale: bool,
    pub width: u32,
    pub height: u32,
}

/// The loop `s` in phase `p`, its other fields kept.
pub open spec fn in_phase(s: FrameLoop, p: Phase) -> FrameLoop {
    FrameLoop { phase: p, ..s }
}

/// The state and action that follow event `e` in state `s`.
pub open spec fn next(s: FrameLoop, e: FrameEvent) -> (FrameLoop, FrameAction) {
    match (s.phase, e) {
        (Phase::Idle, FrameEvent::Begin) | (Phase::Presented, FrameEvent::Begin) => if s.stale {
            (in_phase(s, Phase::Recreating), FrameAction::RecreateSwapchain)
        } else {
            (in_phase(s, Phase::Acquiring), FrameAction::Acquire)
        },
        (Phase::Recreating, FrameEvent::Recreated(o)) => match o {
            RecreateOutcome::Created { width, height } => (
                FrameLoop { phase: Phase::Acquiring, stale: false, width, height },
                FrameAction::Acquire,
            ),
            RecreateOutcome::UnsupportedExtent => (in_phase(s, Phase::Idle), FrameAction::Abort),
            RecreateOutcome::Failed => (in_phase(s, Phase::Idle), FrameAction::Fatal),
        },
        (Phase::Acquiring, FrameEvent::Acquired(o)) => match o {
            AcquireOutcome::Acquired { image } => (in_phase(s, Phase::Submitting), FrameAction::Render { image }),
            AcquireOutcome::OutOfDate => (
                FrameLoop { phase: Phase::Idle, stale: true, ..s },
                FrameAction::Abort,
            ),
            AcquireOutcome::Failed => (in_phase(s, Phase::Idle), FrameAction::Fatal),
        },
        (Phase::Submitting, FrameEvent::Submitted(o)) => match o {
            SubmitOutcome::Submitted => (in_phase(s, Phase::Presented), FrameAction::KeepToken),
            SubmitOutcome::OutOfDate => (
                FrameLoop { phase: Phase::Presented, stale: true, ..s },
                FrameAction::FreshToken,
            ),
            SubmitOutcome::Failed => (in_phase(s, Phase::Presented), FrameAction::FreshToken),
        },
        _ => (s, FrameAction::Ignore),
    }
}

impl FrameLoop {
    /// A loop with no frame under way, whose swapchain images have the given
    /// size.
    pub fn new(width: u32, height: u32) -> (r: Self)
        ensures
            r == (FrameLoop { phase: Phase::Idle, stale: false, width, height }),
    {
        FrameLoop { phase: Phase::Idle, stale: false, width, height }
    }

    /// Notes a resize or invalidation: the swapchain is recreated before the
    /// next acquisition. Nothing else happens now.
    pub fn mark_dirty(&mut self)
        ensures
            *final(self) == (FrameLoop { stale: true, ..*old(self) }),
    {
        self.stale = true;
    }

    /// Takes event `e` and returns what to do next (see `next`).
    pub fn step(&mut self, e: FrameEvent) -> (r: FrameAction)
        ensures
            (*final(self), r) == next(*old(self), e),
    {
        let s = *self;
        let (n, a) = match (s.phase, e) {
            (Phase::Idle, FrameEvent::Begin) | (Phase::Presented, FrameEvent::Begin) => if s.stale {
                (FrameLoop { phase: Phase::Recreating, ..s }, FrameAction::RecreateSwapchain)
            } else {
                (FrameLoop { phase: Phase::Acquiring, ..s }, FrameAction::Acquire)
            },
            (Phase::Recreating, FrameEvent::Recreated(o)) => match o {
                RecreateOutcome::Created { width, height } => (
                    FrameLoop { phase: Phase::Acquiring, stale: false, width, height },
                    FrameAction::Acquire,
                ),
                RecreateOutcome::UnsupportedExtent => (FrameLoop { phase: Phase::Idle, ..s }, FrameAction::Abort),
                RecreateOutcome::Failed => (FrameLoop { phase: Phase::Idle, ..s }, FrameAction::Fatal),
            },
            (Phase::Acquiring, FrameEvent::Acquired(o)) => match o {
                AcquireOutcome::Acquired { image } => (
                    FrameLoop { phase: Phase::Submitting, ..s },
                    FrameAction::Render { image },
                ),
                AcquireOutcome::OutOfDate => (FrameLoop { phase: Phase::Idle, stale: true, ..s }, FrameAction::Abort),
                AcquireOutcome::Failed => (FrameLoop { phase: Phase::Idle, ..s }, FrameAction::Fatal),
            },
            (Phase::Submitting, FrameEvent::Submitted(o)) => match o {
                SubmitOutcome::Submitted => (FrameLoop { phase: Phase::Presented, ..s }, FrameAction::KeepToken),
                SubmitOutcome::OutOfDate => (
                    FrameLoop { phase: Phase::Presented, stale: true, ..s },
                    FrameAction::FreshToken,
                ),
                SubmitOutcome::Failed => (FrameLoop { phase: Phase::Presented, ..s }, FrameAction::FreshToken),
            },
            _ => (s, FrameAction::Ignore),
        };
        *self = n;
        a
    }
}

/// An out-of-date acquisition ends the frame without presenting and leaves
/// the loop stale, so the next frame starts by recreating the swapchain.
pub proof fn lemma_out_of_date_recreates(s: FrameLoop)
    requires
        s.phase == Phase::Acquiring,
    ensures
        ({
            let (s1, a1) = next(s, FrameEvent::Acquired(AcquireOutcome::OutOfDate));
            let (s2, a2) = next(s1, FrameEvent::Begin);
            &&& a1 == FrameAction::Abort
            &&& s1.stale
            &&& a2 == FrameAction::RecreateSwapchain
        }),
{
}

} // verus!
