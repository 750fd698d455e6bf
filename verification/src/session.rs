//! One assembly at a time: parallel runs would clear the same folder.

use vstd::prelude::*;

verus! {

/// Whether a run is under way, and whether it was asked to stop.
pub struct Session {
    busy: bool,
    cancelled: bool,
}

pub struct SessionView {
    pub busy: bool,
    pub cancelled: bool,
}

impl View for Session {
    type V = SessionView;

    closed spec fn view(&self) -> SessionView {
        SessionView { busy: self.busy, cancelled: self.cancelled }
    }
}

/// Proof that a run was started; handing it back ends the run.
pub struct Ticket {
    started: (),
}

impl Default for Session {
    fn default() -> (r: Session)
        ensures
            r@ == (SessionView { busy: false, cancelled: false }),
    {
        Session { busy: false, cancelled: false }
    }
}

/// What `start` leaves behind and whether it grants a run.
pub open spec fn start_of(s: SessionView) -> (SessionView, bool) {
    if s.busy {
        (s, false)
    } else {
        (SessionView { busy: true, cancelled: false }, true)
    }
}

/// What `cancel` leaves behind.
pub open spec fn cancel_of(s: SessionView) -> SessionView {
    SessionView { cancelled: true, ..s }
}

/// What `finish` leaves behind.
pub open spec fn finish_of(s: SessionView) -> SessionView {
    SessionView { busy: false, ..s }
}

impl Session {
    /// Starts a run unless one is under way; a new run starts uncancelled.
    pub fn start(&mut self) -> (r: Option<Ticket>)
        ensures
            final(self)@ == start_of(old(self)@).0,
            r is Some == start_of(old(self)@).1,
    {
        if self.busy {
            return None;
        }
        self.busy = true;
        self.cancelled = false;
        Some(Ticket { started: () })
    }

    /// Asks the current run to stop.
    pub fn cancel(&mut self)
        ensures
            final(self)@ == cancel_of(old(self)@),
    {
        self.cancelled = true;
    }

    /// Ends the run that `ticket` stands for.
    pub fn finish(&mut self, ticket: Ticket)
        ensures
            final(self)@ == finish_of(old(self)@),
    {
        self.busy = false;
    }

    /// Whether the current run was asked to stop.
    pub fn is_cancelled(&self) -> (r: bool)
        ensures
            r == self@.cancelled,
    {
        self.cancelled
    }

    /// Whether a run is under way.
    pub fn is_busy(&self) -> (r: bool)
        ensures
            r == self@.busy,
    {
        self.busy
    }
}

/// Law: while a run is under way, a second one is refused and changes
/// nothing.
pub proof fn law_one_run_at_a_time(s: SessionView)
    ensures
        start_of(s).1 ==> !start_of(start_of(s).0).1,
        start_of(start_of(s).0).0 == start_of(s).0,
{
}

/// Law: while a run is under way, every start is refused and changes
/// nothing, whether or not that run was asked to stop: a cancelled run is
/// still the one run until its ticket is handed back.
pub proof fn law_busy_session_refuses_every_start(s: SessionView)
    requires
        s.busy,
    ensures
        !start_of(s).1,
        start_of(s).0 == s,
{
}

/// Law: a start is granted exactly when no run is under way, and a granted
/// run begins busy and uncancelled.
pub proof fn law_start_is_granted_only_when_idle(s: SessionView)
    ensures
        start_of(s).1 == !s.busy,
        start_of(s).1 ==> start_of(s).0.busy && !start_of(s).0.cancelled,
{
}

/// Law: cancelling a run does not end it, and a run started after the
/// previous one finished is not cancelled.
pub proof fn law_cancel_reaches_only_the_current_run(s: SessionView)
    ensures
        cancel_of(s).busy == s.busy,
        cancel_of(s).cancelled,
        start_of(finish_of(cancel_of(s))).1,
        !start_of(finish_of(cancel_of(s))).0.cancelled,
{
}

} // verus!
