//! The service lifecycle: the one shared flag that says whether the
//! service is running, and the decisions of the listener's accept loop.
//!
//! The flag itself lives in the process as an atomic boolean shared by
//! the listener and every handler; these functions fix what each
//! transition and each loop iteration does with its value. Only the
//! listener's `run` and `stop` ever change it.

use vstd::prelude::*;

verus! {

/// The lifecycle flag's value: false at construction, true while the
/// service accepts and serves, false again after `stop`.
pub struct ServiceState {
    pub running: bool,
}

impl ServiceState {
    /// A freshly constructed service is not yet running.
    pub fn new() -> (s: Self)
        ensures
            !s.running,
    {
        ServiceState { running: false }
    }

    /// Entering the accept loop marks the service running.
    pub fn start(&mut self)
        ensures
            final(self).running,
    {
        self.running = true;
    }

    /// Stopping always leaves the service not running, and reports
    /// whether it was running — stopping twice is a no-op worth only a
    /// warning.
    pub fn stop(&mut self) -> (was_running: bool)
        ensures
            !final(self).running,
            was_running == old(self).running,
    {
        let was = self.running;
        self.running = false;
        was
    }
}

/// What one accept attempt on the non-blocking listening socket produced.
#[derive(Clone, Copy, Debug, PartialEq, Eq, Structural)]
pub enum AcceptEvent {
    /// A new connection is pending.
    Connection,
    /// No connection is pending yet.
    WouldBlock,
    /// The accept failed for any other reason.
    Failed,
}

/// What the accept loop does with one iteration.
#[derive(Clone, Copy, Debug, PartialEq, Eq, Structural)]
pub enum AcceptAction {
    /// Hand the new connection to a handler task of its own and keep
    /// accepting.
    Spawn,
    /// Sleep one poll interval, then keep accepting.
    Sleep,
    /// A non-fatal accept failure: log it and keep accepting.
    Continue,
    /// The flag is false: accept nothing more and return.
    Stop,
}

/// The accept loop's decision: the flag is consulted first, and no
/// failure of a single accept ends the loop.
pub open spec fn spec_accept_action(running: bool, ev: AcceptEvent) -> AcceptAction {
    if !running {
        AcceptAction::Stop
    } else {
        match ev {
            AcceptEvent::Connection => AcceptAction::Spawn,
            AcceptEvent::WouldBlock => AcceptAction::Sleep,
            AcceptEvent::Failed => AcceptAction::Continue,
        }
    }
}

/// One iteration of the accept loop: `running` is the flag as observed
/// at the top of the iteration, `event` what the accept attempt produced.
pub fn accept_step(running: bool, event: &AcceptEvent) -> (a: AcceptAction)
    ensures
        a == spec_accept_action(running, *event),
{
    if !running {
        return AcceptAction::Stop;
    }
    match event {
        AcceptEvent::Connection => AcceptAction::Spawn,
        AcceptEvent::WouldBlock => AcceptAction::Sleep,
        AcceptEvent::Failed => AcceptAction::Continue,
    }
}

/// Once the flag is false, no event makes the listener admit a
/// connection or keep accepting.
pub proof fn lemma_stopped_accepts_nothing(ev: AcceptEvent)
    ensures
        spec_accept_action(false, ev) == AcceptAction::Stop,
        spec_accept_action(false, ev) != AcceptAction::Spawn,
{
}

} // verus!
