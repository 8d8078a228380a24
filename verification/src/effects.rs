//! The outside work an action asks for, and the record of it.
//!
//! Actions read the process rows, deliver signals and wait for signalled processes through
//! [`Effects`], which holds the three callbacks that do that work and a record of every call
//! made through it, in order, with what came back. Nothing outside this module can call the
//! callbacks except through it, so the record is complete, and the contracts of the actions
//! state exactly which calls they make.

use vstd::prelude::*;

use crate::model::ProcRow;
use crate::process::{filter_value, FilterSpec};
use crate::signal::Signal;

verus! {

/// One call made through [`Effects`], with its outcome.
pub enum Effect {
    /// The rows that pass `filter` were read, and `rows` came back.
    Refresh { filter: Option<FilterSpec>, rows: Seq<ProcRow> },
    /// `signal` was delivered to `pid`, with this outcome.
    Send { pid: i32, signal: Signal, outcome: Result<(), String> },
    /// The wait for process `target` to leave the table.
    Await { target: i32 },
}

/// `refresh` may hand back `rows` when asked for the rows that pass `filter`.
pub open spec fn refreshes<R>(refresh: R, filter: Option<FilterSpec>, rows: Seq<ProcRow>) -> bool where
    R: FnMut(Option<&FilterSpec>) -> Vec<ProcRow>,
 {
    exists|arg: Option<&FilterSpec>, out: Vec<ProcRow>|
        #[trigger] call_ensures(refresh, (arg,), out) && filter_value(arg) == filter && out@ == rows
}

/// The callbacks that read rows (`refresh_rows`), deliver signals (`sender`) and wait for a
/// signalled process to go (`await_pid_gone`), and the calls made through them so far.
pub struct Effects<R, S, W> {
    refresh_rows: R,
    sender: S,
    await_pid_gone: W,
    log: Ghost<Seq<Effect>>,
}

impl<R, S, W> Effects<R, S, W> where
    R: FnMut(Option<&FilterSpec>) -> Vec<ProcRow>,
    S: FnMut(i32, Signal) -> Result<(), String>,
    W: FnMut(i32),
 {
    /// The calls made so far, in order, with their outcomes.
    pub closed spec fn log(&self) -> Seq<Effect> {
        self.log@
    }

    /// The callback that reads rows.
    pub closed spec fn refresher(&self) -> R {
        self.refresh_rows
    }

    /// The callback that delivers signals.
    pub closed spec fn signaller(&self) -> S {
        self.sender
    }

    /// The callback that waits for a signalled process.
    pub closed spec fn waiter(&self) -> W {
        self.await_pid_gone
    }

    /// Rows can be read with any filter.
    pub open spec fn can_refresh(&self) -> bool {
        forall|arg: Option<&FilterSpec>| call_requires(self.refresher(), (arg,))
    }

    /// `signal` can be delivered to `pid`, and the wait for `pid` can follow every delivery
    /// that succeeds.
    pub open spec fn can_signal(&self, pid: i32, signal: Signal) -> bool {
        &&& call_requires(self.signaller(), (pid, signal))
        &&& forall|out: Result<(), String>|
            call_ensures(self.signaller(), (pid, signal), out) && out is Ok ==> call_requires(
                self.waiter(),
                (pid,),
            )
    }

    /// The same callbacks as `other`.
    pub open spec fn same_callbacks(&self, other: &Self) -> bool {
        &&& self.refresher() == other.refresher()
        &&& self.signaller() == other.signaller()
        &&& self.waiter() == other.waiter()
    }

    /// Hold the three callbacks, with no call made yet.
    pub fn new(refresh_rows: R, sender: S, await_pid_gone: W) -> (fx: Self)
        ensures
            fx.log() == Seq::<Effect>::empty(),
            fx.refresher() == refresh_rows,
            fx.signaller() == sender,
            fx.waiter() == await_pid_gone,
    {
        Effects { refresh_rows, sender, await_pid_gone, log: Ghost(Seq::empty()) }
    }

    /// Read the rows that pass `filter`.
    pub fn refresh(&mut self, filter: Option<&FilterSpec>) -> (rows: Vec<ProcRow>)
        requires
            old(self).can_refresh(),
        ensures
            final(self).same_callbacks(old(self)),
            final(self).log() == old(self).log().push(
                Effect::Refresh { filter: filter_value(filter), rows: rows@ },
            ),
            call_ensures(old(self).refresher(), (filter,), rows),
            refreshes(old(self).refresher(), filter_value(filter), rows@),
    {
        assert(call_requires(self.refresher(), (filter,)));
        let rows = (self.refresh_rows)(filter);
        proof {
            self.log@ = self.log@.push(Effect::Refresh { filter: filter_value(filter), rows: rows@ });
        }
        rows
    }

    /// Deliver `signal` to `pid`.
    pub fn send(&mut self, pid: i32, signal: Signal) -> (outcome: Result<(), String>)
        requires
            call_requires(old(self).signaller(), (pid, signal)),
        ensures
            final(self).same_callbacks(old(self)),
            final(self).log() == old(self).log().push(Effect::Send { pid, signal, outcome }),
            call_ensures(old(self).signaller(), (pid, signal), outcome),
    {
        let outcome = (self.sender)(pid, signal);
        proof {
            self.log@ = self.log@.push(Effect::Send { pid, signal, outcome });
        }
        outcome
    }

    /// Wait for process `pid` to leave the table.
    pub fn await_gone(&mut self, pid: i32)
        requires
            call_requires(old(self).waiter(), (pid,)),
        ensures
            final(self).same_callbacks(old(self)),
            final(self).log() == old(self).log().push(Effect::Await { target: pid }),
            call_ensures(old(self).waiter(), (pid,), ()),
    {
        (self.await_pid_gone)(pid);
        proof {
            self.log@ = self.log@.push(Effect::Await { target: pid });
        }
    }
}

} // verus!
