//! Coordinated shutdown: who asked first, and what the process exits with.

use vstd::prelude::*;

verus! {

/// Why the relay stops.
#[derive(Debug, Clone, Copy, PartialEq, Eq)]
pub enum Cause {
    /// A termination signal arrived; the field is its number.
    Signal(i32),
    /// The input socket could not be reached at startup.
    ConnectFailed,
    /// A part of the pipeline ended though no stop had been requested.
    PipelineClosed,
}

/// The exit status that goes with the first cause of a shutdown, `None`
/// standing for a process that was never asked to stop: success for that and
/// for a signal, failure for anything that went wrong.
pub open spec fn exit_status(cause: Option<Cause>) -> u8 {
    match cause {
        None => 0,
        Some(Cause::Signal(_)) => 0,
        Some(Cause::ConnectFailed) => 1,
        Some(Cause::PipelineClosed) => 2,
    }
}

/// What is remembered after a request with `cause`: the first cause stays.
pub open spec fn asked(current: Option<Cause>, cause: Cause) -> Option<Cause> {
    match current {
        None => Some(cause),
        Some(first) => Some(first),
    }
}

/// What is remembered after the requests `causes`, made one after the other.
pub open spec fn asked_all(current: Option<Cause>, causes: Seq<Cause>) -> Option<Cause>
    decreases causes.len(),
{
    if causes.len() == 0 {
        current
    } else {
        asked(asked_all(current, causes.drop_last()), causes.last())
    }
}

/// Shutdown is idempotent: once it has been asked for, no further request
/// changes the cause, and so none changes the exit status.
pub proof fn lemma_first_cause_stays(first: Cause, later: Seq<Cause>)
    ensures
        asked_all(Some(first), later) == Some(first),
    decreases later.len(),
{
    if later.len() > 0 {
        lemma_first_cause_stays(first, later.drop_last());
    }
}

/// The shutdown coordinator.  It remembers the first request to stop; later
/// ones change nothing.
#[derive(Debug, Clone, Copy, PartialEq, Eq)]
pub struct Shutdown {
    cause: Option<Cause>,
}

impl View for Shutdown {
    type V = Option<Cause>;

    /// The cause of the first request, if there was one.
    closed spec fn view(&self) -> Option<Cause> {
        self.cause
    }
}

impl Shutdown {
    /// A coordinator that nobody has asked to stop.
    pub fn new() -> (s: Shutdown)
        ensures
            s@ is None,
    {
        Shutdown { cause: None }
    }

    /// Asks for the shutdown.  The answer is `true` for the first request:
    /// the caller then tells every loop to stop, once.
    pub fn request(&mut self, cause: Cause) -> (first: bool)
        ensures
            first == (old(self)@ is None),
            final(self)@ == asked(old(self)@, cause),
    {
        match self.cause {
            None => {
                self.cause = Some(cause);
                true
            },
            Some(_) => false,
        }
    }

    /// Whether the shutdown has been asked for.
    pub fn is_stopping(&self) -> (b: bool)
        ensures
            b == (self@ is Some),
    {
        self.cause.is_some()
    }

    /// The cause of the first request, if there was one.
    pub fn cause(&self) -> (c: Option<Cause>)
        ensures
            c == self@,
    {
        self.cause
    }

    /// The status that the process exits with.
    pub fn exit_code(&self) -> (code: u8)
        ensures
            code == exit_status(self@),
    {
        match self.cause {
            None => 0,
            Some(Cause::Signal(_)) => 0,
            Some(Cause::ConnectFailed) => 1,
            Some(Cause::PipelineClosed) => 2,
        }
    }
}

} // verus!
