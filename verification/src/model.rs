//! Domain data for process rows shown in the process table.

use vstd::prelude::*;

verus! {

/// Scheduler state of a process, as the process table reports it.
#[derive(Clone, Copy, Debug, PartialEq, Eq, Structural)]
pub enum ProcStatus {
    /// Running or runnable.
    Run,
    /// Interruptible sleep.
    Sleep,
    /// Idle kernel thread.
    Idle,
    /// Waking up.
    Waking,
    /// Parked kernel thread.
    Parked,
    /// Suspended.
    Suspended,
    /// Stopped by a job-control signal.
    Stop,
    /// Stopped by a debugger.
    Tracing,
    /// Uninterruptible disk sleep.
    UninterruptibleDiskSleep,
    /// Blocked on a lock.
    LockBlocked,
    /// Woken only to be killed.
    Wakekill,
    /// Exited but not reaped.
    Zombie,
    /// Dead.
    Dead,
    /// A state code this library does not name.
    Unknown(u32),
}

/// A single process row rendered in the process table.
#[derive(Clone, Debug, PartialEq, Eq)]
pub struct ProcRow {
    /// Process identifier.
    pub pid: i32,
    /// Process start time, used to tell a reused pid from the process that had it before.
    pub start_time: u64,
    /// Parent process identifier when available.
    pub ppid: Option<i32>,
    /// Ancestor pid chain from the immediate parent upward.
    pub ancestor_chain: Vec<i32>,
    /// Resolved user name or fallback identifier.
    pub user: String,
    /// Scheduler state.
    pub status: ProcStatus,
    /// CPU usage in tenths of a percent, used for ordering.
    pub cpu_usage_tenths: u32,
    /// Resident memory usage in bytes, used for ordering.
    pub memory_bytes: u64,
    /// Short process name.
    pub name: String,
    /// Full command line, when available.
    pub cmd: String,
}

} // verus!
