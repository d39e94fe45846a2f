use vstd::prelude::*;

verus! {

/// What the poll loop has observed.
#[derive(PartialEq, Eq, Structural, Clone, Copy, Debug)]
pub enum SchedulerEvent {
    /// The polling interval has elapsed.
    IntervalElapsed,
    /// The running reconciliation cycle has completed.
    CycleCompleted,
    /// A shutdown was requested.
    ShutdownRequested,
}

/// What the poll loop is to do next.
#[derive(PartialEq, Eq, Structural, Clone, Copy, Debug)]
pub enum SchedulerAction {
    /// Start a reconciliation cycle.
    StartCycle,
    /// Wait for the polling interval.
    Sleep,
    /// Keep waiting for the running cycle.
    Wait,
    /// Stop the loop.
    Exit,
}

/// The state of the poll loop: whether a cycle is in flight and whether a shutdown was
/// requested.
#[derive(PartialEq, Eq, Structural, Clone, Copy, Debug)]
pub struct SchedulerState {
    pub cycle_running: bool,
    pub shutdown_requested: bool,
}

/// The poll loop's rule: one cycle at a time, a shutdown never interrupts a cycle, and the
/// loop stops as soon as no cycle is in flight after a shutdown request.
pub open spec fn schedule(s: SchedulerState, e: SchedulerEvent) -> (SchedulerState, SchedulerAction) {
    match e {
        SchedulerEvent::IntervalElapsed => if s.cycle_running {
            (s, SchedulerAction::Wait)
        } else if s.shutdown_requested {
            (s, SchedulerAction::Exit)
        } else {
            (SchedulerState { cycle_running: true, ..s }, SchedulerAction::StartCycle)
        },
        SchedulerEvent::CycleCompleted => {
            let t = SchedulerState { cycle_running: false, ..s };
            if s.shutdown_requested {
                (t, SchedulerAction::Exit)
            } else {
                (t, SchedulerAction::Sleep)
            }
        },
        SchedulerEvent::ShutdownRequested => {
            let t = SchedulerState { shutdown_requested: true, ..s };
            if s.cycle_running {
                (t, SchedulerAction::Wait)
            } else {
                (t, SchedulerAction::Exit)
            }
        },
    }
}

impl SchedulerState {
    pub fn new() -> (r: SchedulerState)
        ensures
            !r.cycle_running,
            !r.shutdown_requested,
    {
        SchedulerState { cycle_running: false, shutdown_requested: false }
    }

    /// Takes in an event and says what to do next.
    pub fn step(&mut self, e: SchedulerEvent) -> (a: SchedulerAction)
        ensures
            (*final(self), a) == schedule(*old(self), e),
    {
        match e {
            SchedulerEvent::IntervalElapsed => {
                if self.cycle_running {
                    SchedulerAction::Wait
                } else if self.shutdown_requested {
                    SchedulerAction::Exit
                } else {
                    self.cycle_running = true;
                    SchedulerAction::StartCycle
                }
            },
            SchedulerEvent::CycleCompleted => {
                self.cycle_running = false;
                if self.shutdown_requested {
                    SchedulerAction::Exit
                } else {
                    SchedulerAction::Sleep
                }
            },
            SchedulerEvent::ShutdownRequested => {
                self.shutdown_requested = true;
                if self.cycle_running {
                    SchedulerAction::Wait
                } else {
                    SchedulerAction::Exit
                }
            },
        }
    }
}

/// A cycle is never started while another is in flight, nor after a shutdown request,
/// and the loop stops only with no cycle in flight.
pub proof fn lemma_no_overlapping_cycles(s: SchedulerState, e: SchedulerEvent)
    ensures
        schedule(s, e).1 == SchedulerAction::StartCycle ==> !s.cycle_running && !s.shutdown_requested,
        schedule(s, e).1 == SchedulerAction::Exit ==> !schedule(s, e).0.cycle_running,
{
}

} // verus!
