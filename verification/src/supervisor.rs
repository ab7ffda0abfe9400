//! Supervision of persistent child processes as a state machine.
//!
//! The caller owns the I/O: it polls the children, watches for an external
//! interrupt, performs the actions this machine asks for (sleep, request
//! termination), and feeds the observations back in. The machine decides:
//! while running, any child's exit or an interrupt moves it to shutting
//! down; termination of the stragglers finishes it.

use vstd::prelude::*;

verus! {

/// Poll interval while running, in milliseconds.
pub const POLL_INTERVAL_MS: u64 = 500;

/// Grace period after asking a child to terminate, in milliseconds.
pub const TERMINATION_GRACE_MS: u64 = 250;

#[derive(PartialEq, Eq, Structural, Clone, Copy, Debug)]
pub enum SupervisorState {
    Running,
    ShuttingDown,
    Done,
}

/// What the caller must do next.
#[derive(PartialEq, Eq, Structural, Clone, Copy, Debug)]
pub enum SupervisorAction {
    /// Sleep for the given milliseconds, then poll again.
    Sleep(u64),
    /// Ask every still-running child to terminate gracefully, allowing the
    /// given grace period each, then report back.
    Terminate(u64),
}

/// Supervisor of a run's persistent process handles (child process ids).
pub struct Supervisor {
    state: SupervisorState,
    handles: Vec<u32>,
}

impl Supervisor {
    pub closed spec fn state(self) -> SupervisorState {
        self.state
    }

    pub closed spec fn handles(self) -> Seq<u32> {
        self.handles@
    }

    /// Take ownership of the run's persistent handles and start supervising.
    pub fn new(handles: Vec<u32>) -> (r: Supervisor)
        ensures
            r.state() == SupervisorState::Running,
            r.handles() == handles@,
    {
        Supervisor { state: SupervisorState::Running, handles }
    }

    /// The handles still owned, for the caller to poll or terminate.
    pub fn handle_at(&self, i: usize) -> (r: u32)
        requires
            i < self.handles().len(),
        ensures
            r == self.handles()[i as int],
    {
        self.handles[i]
    }

    /// The machine's current phase.
    pub fn phase(&self) -> (r: SupervisorState)
        ensures
            r == self.state(),
    {
        self.state
    }

    pub fn handle_count(&self) -> (r: usize)
        ensures
            r == self.handles().len(),
    {
        self.handles.len()
    }

    /// One poll while running: if there is nothing left to supervise, some
    /// child has exited, or an interrupt was observed, move to shutting down
    /// and ask for termination of the rest; otherwise stay running and ask
    /// for a sleep until the next poll. A crash and a clean exit end
    /// supervision identically, and no restart is ever attempted.
    pub fn on_poll(&mut self, any_exited: bool, interrupted: bool) -> (a: SupervisorAction)
        requires
            old(self).state() == SupervisorState::Running,
        ensures
            final(self).handles() == old(self).handles(),
            if old(self).handles().len() == 0 || any_exited || interrupted {
                final(self).state() == SupervisorState::ShuttingDown && a
                    == SupervisorAction::Terminate(TERMINATION_GRACE_MS)
            } else {
                final(self).state() == SupervisorState::Running && a == SupervisorAction::Sleep(
                    POLL_INTERVAL_MS,
                )
            },
    {
        if self.handles.len() == 0 || any_exited || interrupted {
            self.state = SupervisorState::ShuttingDown;
            SupervisorAction::Terminate(TERMINATION_GRACE_MS)
        } else {
            SupervisorAction::Sleep(POLL_INTERVAL_MS)
        }
    }

    /// The caller reports that every remaining child was asked to terminate
    /// (or was terminated forcibly where no graceful request exists): the
    /// supervision is done and control may return.
    pub fn on_terminated(&mut self) -> (done: bool)
        requires
            old(self).state() == SupervisorState::ShuttingDown,
        ensures
            final(self).state() == SupervisorState::Done,
            final(self).handles() == old(self).handles(),
            done,
    {
        self.state = SupervisorState::Done;
        true
    }
}

} // verus!
