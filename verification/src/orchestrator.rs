use vstd::prelude::*;

use crate::errors::{same_error, PipeError};

verus! {

/// What the interactive loop should log after a tick.
#[derive(Debug, PartialEq)]
pub enum LogAction {
    /// Nothing worth saying: still fine, or the same error as before.
    Quiet,
    /// A new error — log it once.
    AnnounceError,
    /// A previously held error went away.
    AnnounceResolved,
}

/// The debounced retry state of the interactive loop: idle, or holding the
/// last pass error while retrying every tick. Repeats of the held error are
/// suppressed so a broken pipeline file does not flood the log.
pub struct ErrorHold {
    pub held: Option<PipeError>,
}

impl ErrorHold {
    /// Starts idle, with nothing held.
    pub fn new() -> (r: Self)
        ensures
            r.held is None,
    {
        Self { held: None }
    }

    /// Feeds one tick's outcome in. A success clears any held error and
    /// announces the recovery; a failure is held, and announced only when
    /// it differs from the error already held. The returned flag is whether
    /// pass logging should be on for the next tick: on after a success, off
    /// while an error is held.
    pub fn tick(&mut self, outcome: Result<(), PipeError>) -> (r: (LogAction, bool))
        ensures
            outcome is Ok ==> {
                &&& final(self).held is None
                &&& r.1 == true
                &&& (old(self).held is Some ==> r.0 is AnnounceResolved)
                &&& (old(self).held is None ==> r.0 is Quiet)
            },
            outcome matches Err(e) ==> {
                &&& final(self).held matches Some(h) && h@ == e@
                &&& r.1 == false
                &&& (old(self).held is None ==> r.0 is AnnounceError)
                &&& (old(self).held matches Some(h0) ==> (r.0 is AnnounceError <==> h0@ != e@) && (
                r.0 is Quiet <==> h0@ == e@))
            },
    {
        match outcome {
            Ok(()) => {
                let was_held = match &self.held {
                    Some(_) => true,
                    None => false,
                };
                self.held = None;
                if was_held {
                    (LogAction::AnnounceResolved, true)
                } else {
                    (LogAction::Quiet, true)
                }
            },
            Err(e) => {
                let announce = match &self.held {
                    None => true,
                    Some(h0) => !same_error(h0, &e),
                };
                self.held = Some(e);
                if announce {
                    (LogAction::AnnounceError, false)
                } else {
                    (LogAction::Quiet, false)
                }
            },
        }
    }
}

} // verus!
