//! Unix signals sent from the process table, and the wait for a signalled process to vanish.

use vstd::prelude::*;

verus! {

/// A Unix signal this program can send.
#[allow(non_camel_case_types)]
#[derive(Clone, Copy, Debug, PartialEq, Eq, Structural)]
pub enum Signal {
    /// Hangup.
    SIGHUP,
    /// Interrupt.
    SIGINT,
    /// Quit.
    SIGQUIT,
    /// Illegal instruction.
    SIGILL,
    /// Trace trap.
    SIGTRAP,
    /// Abort.
    SIGABRT,
    /// Bus error.
    SIGBUS,
    /// Floating-point exception.
    SIGFPE,
    /// Kill.
    SIGKILL,
    /// Continue a stopped process.
    SIGCONT,
}

/// The signal bound to a digit key: 1-9 map to the signals numbered 1-9.
pub open spec fn spec_signal_from_digit(digit: u8) -> Option<Signal> {
    if digit == 1 {
        Some(Signal::SIGHUP)
    } else if digit == 2 {
        Some(Signal::SIGINT)
    } else if digit == 3 {
        Some(Signal::SIGQUIT)
    } else if digit == 4 {
        Some(Signal::SIGILL)
    } else if digit == 5 {
        Some(Signal::SIGTRAP)
    } else if digit == 6 {
        Some(Signal::SIGABRT)
    } else if digit == 7 {
        Some(Signal::SIGBUS)
    } else if digit == 8 {
        Some(Signal::SIGFPE)
    } else if digit == 9 {
        Some(Signal::SIGKILL)
    } else {
        None
    }
}

/// Map keyboard digits 1-9 to Unix signals.
pub fn signal_from_digit(digit: u8) -> (r: Option<Signal>)
    ensures
        r == spec_signal_from_digit(digit),
        r is Some <==> 1 <= digit <= 9,
{
    match digit {
        1 => Some(Signal::SIGHUP),
        2 => Some(Signal::SIGINT),
        3 => Some(Signal::SIGQUIT),
        4 => Some(Signal::SIGILL),
        5 => Some(Signal::SIGTRAP),
        6 => Some(Signal::SIGABRT),
        7 => Some(Signal::SIGBUS),
        8 => Some(Signal::SIGFPE),
        9 => Some(Signal::SIGKILL),
        _ => None,
    }
}

/// Conventional name of a signal.
pub open spec fn signal_name(signal: Signal) -> Seq<char> {
    match signal {
        Signal::SIGHUP => "SIGHUP"@,
        Signal::SIGINT => "SIGINT"@,
        Signal::SIGQUIT => "SIGQUIT"@,
        Signal::SIGILL => "SIGILL"@,
        Signal::SIGTRAP => "SIGTRAP"@,
        Signal::SIGABRT => "SIGABRT"@,
        Signal::SIGBUS => "SIGBUS"@,
        Signal::SIGFPE => "SIGFPE"@,
        Signal::SIGKILL => "SIGKILL"@,
        Signal::SIGCONT => "SIGCONT"@,
    }
}

impl Signal {
    /// Conventional name of the signal, such as `SIGHUP`.
    pub fn name(&self) -> (r: &'static str)
        ensures
            r@ == signal_name(*self),
    {
        match self {
            Signal::SIGHUP => "SIGHUP",
            Signal::SIGINT => "SIGINT",
            Signal::SIGQUIT => "SIGQUIT",
            Signal::SIGILL => "SIGILL",
            Signal::SIGTRAP => "SIGTRAP",
            Signal::SIGABRT => "SIGABRT",
            Signal::SIGBUS => "SIGBUS",
            Signal::SIGFPE => "SIGFPE",
            Signal::SIGKILL => "SIGKILL",
            Signal::SIGCONT => "SIGCONT",
        }
    }
}

/// Next move while waiting for a signalled process to leave the process table.
#[derive(Clone, Copy, Debug, PartialEq, Eq, Structural)]
pub enum PidWaitStep {
    /// Stop waiting; `true` when the process is gone.
    Finished(bool),
    /// Sleep this many nanoseconds, then probe again.
    Sleep(u128),
}

/// Decide the next move of the wait from the latest probe: stop when the process is gone or
/// the time is up, else sleep for the poll interval, cut short at the deadline.
pub fn pid_wait_step(gone: bool, elapsed_nanos: u128, timeout_nanos: u128, interval_nanos: u128) -> (r:
    PidWaitStep)
    ensures
        gone ==> r == PidWaitStep::Finished(true),
        !gone && elapsed_nanos >= timeout_nanos ==> r == PidWaitStep::Finished(false),
        !gone && elapsed_nanos < timeout_nanos ==> r == PidWaitStep::Sleep(
            if interval_nanos <= (timeout_nanos - elapsed_nanos) as u128 {
                interval_nanos
            } else {
                (timeout_nanos - elapsed_nanos) as u128
            },
        ),
{
    if gone {
        return PidWaitStep::Finished(true);
    }
    if elapsed_nanos >= timeout_nanos {
        return PidWaitStep::Finished(false);
    }
    let remaining = timeout_nanos - elapsed_nanos;
    PidWaitStep::Sleep(if interval_nanos <= remaining { interval_nanos } else { remaining })
}

} // verus!
