//! A terminal whose mode changes are recorded.
//!
//! [`enter`](crate::terminal::enter) and [`leave`](crate::terminal::leave) reach the terminal
//! only through [`Recorded`], which writes down every mode change it makes and what that
//! change reported; nothing outside this module can reach the terminal past it, so the
//! record is complete for every implementation of [`TerminalOps`].

use vstd::prelude::*;

use crate::terminal::{TerminalOps, TerminalStep};

verus! {

/// A terminal and the mode changes made on it so far, in order, each with its outcome.
pub struct Recorded<T: TerminalOps> {
    ops: T,
    log: Ghost<Seq<(TerminalStep, Result<(), T::Error>)>>,
}

impl<T: TerminalOps> Recorded<T> {
    /// The mode changes made so far, in order, each with its outcome.
    pub closed spec fn history(&self) -> Seq<(TerminalStep, Result<(), T::Error>)> {
        self.log@
    }

    /// Start recording on `ops`, with no change made yet.
    pub fn new(ops: T) -> (r: Self)
        ensures
            r.history() == Seq::<(TerminalStep, Result<(), T::Error>)>::empty(),
    {
        Recorded { ops, log: Ghost(Seq::empty()) }
    }

    /// The terminal, for reading only.
    pub fn inner(&self) -> &T {
        &self.ops
    }

    /// Raw mode on.
    pub fn enable_raw(&mut self) -> (r: Result<(), T::Error>)
        ensures
            final(self).history() == old(self).history().push((TerminalStep::EnableRaw, r)),
    {
        let r = self.ops.enable_raw();
        proof {
            self.log@ = self.log@.push((TerminalStep::EnableRaw, r));
        }
        r
    }

    /// Raw mode off.
    pub fn disable_raw(&mut self) -> (r: Result<(), T::Error>)
        ensures
            final(self).history() == old(self).history().push((TerminalStep::DisableRaw, r)),
    {
        let r = self.ops.disable_raw();
        proof {
            self.log@ = self.log@.push((TerminalStep::DisableRaw, r));
        }
        r
    }

    /// Alternate screen on.
    pub fn enter_alternate(&mut self) -> (r: Result<(), T::Error>)
        ensures
            final(self).history() == old(self).history().push((TerminalStep::EnterAlternate, r)),
    {
        let r = self.ops.enter_alternate();
        proof {
            self.log@ = self.log@.push((TerminalStep::EnterAlternate, r));
        }
        r
    }

    /// Alternate screen off.
    pub fn leave_alternate(&mut self) -> (r: Result<(), T::Error>)
        ensures
            final(self).history() == old(self).history().push((TerminalStep::LeaveAlternate, r)),
    {
        let r = self.ops.leave_alternate();
        proof {
            self.log@ = self.log@.push((TerminalStep::LeaveAlternate, r));
        }
        r
    }

    /// Cursor shown.
    pub fn show_cursor(&mut self) -> (r: Result<(), T::Error>)
        ensures
            final(self).history() == old(self).history().push((TerminalStep::ShowCursor, r)),
    {
        let r = self.ops.show_cursor();
        proof {
            self.log@ = self.log@.push((TerminalStep::ShowCursor, r));
        }
        r
    }
}

} // verus!
