//! Synthetic process rows for developing the table without a live system: every status,
//! a small process tree, and pseudo-random users, commands and resource figures.

use vstd::prelude::*;
use vstd::wrapping::u64_specs;

use crate::model::{ProcRow, ProcStatus};
use crate::text::{decimal, push_decimal};

verus! {

/// Most rows the synthetic table holds.
pub const MAX_DEBUG_ROWS: usize = 21;

/// The statuses of the synthetic rows, one row each, in row order.
pub open spec fn debug_status_list() -> Seq<ProcStatus> {
    seq![
        ProcStatus::Run,
        ProcStatus::Sleep,
        ProcStatus::Idle,
        ProcStatus::Waking,
        ProcStatus::Parked,
        ProcStatus::Suspended,
        ProcStatus::Stop,
        ProcStatus::Tracing,
        ProcStatus::UninterruptibleDiskSleep,
        ProcStatus::LockBlocked,
        ProcStatus::Wakekill,
        ProcStatus::Zombie,
        ProcStatus::Dead,
        ProcStatus::Unknown(99),
    ]
}

/// The statuses of the synthetic rows.
pub fn debug_statuses() -> (r: Vec<ProcStatus>)
    ensures
        r@ == debug_status_list(),
{
    let r = vec![
        ProcStatus::Run,
        ProcStatus::Sleep,
        ProcStatus::Idle,
        ProcStatus::Waking,
        ProcStatus::Parked,
        ProcStatus::Suspended,
        ProcStatus::Stop,
        ProcStatus::Tracing,
        ProcStatus::UninterruptibleDiskSleep,
        ProcStatus::LockBlocked,
        ProcStatus::Wakekill,
        ProcStatus::Zombie,
        ProcStatus::Dead,
        ProcStatus::Unknown(99),
    ];
    assert(r@ =~= debug_status_list());
    r
}

/// Short lowercase label of a status.
pub open spec fn status_label_text(status: ProcStatus) -> Seq<char> {
    match status {
        ProcStatus::Run => "run"@,
        ProcStatus::Sleep => "sleep"@,
        ProcStatus::Idle => "idle"@,
        ProcStatus::Waking => "waking"@,
        ProcStatus::Parked => "parked"@,
        ProcStatus::Suspended => "suspended"@,
        ProcStatus::Stop => "stop"@,
        ProcStatus::Tracing => "tracing"@,
        ProcStatus::UninterruptibleDiskSleep => "disk"@,
        ProcStatus::LockBlocked => "blocked"@,
        ProcStatus::Wakekill => "wakekill"@,
        ProcStatus::Zombie => "zombie"@,
        ProcStatus::Dead => "dead"@,
        ProcStatus::Unknown(_) => "unknown"@,
    }
}

/// Short lowercase label of a status.
pub fn status_label(status: &ProcStatus) -> (r: &'static str)
    ensures
        r@ == status_label_text(*status),
{
    match status {
        ProcStatus::Run => "run",
        ProcStatus::Sleep => "sleep",
        ProcStatus::Idle => "idle",
        ProcStatus::Waking => "waking",
        ProcStatus::Parked => "parked",
        ProcStatus::Suspended => "suspended",
        ProcStatus::Stop => "stop",
        ProcStatus::Tracing => "tracing",
        ProcStatus::UninterruptibleDiskSleep => "disk",
        ProcStatus::LockBlocked => "blocked",
        ProcStatus::Wakekill => "wakekill",
        ProcStatus::Zombie => "zombie",
        ProcStatus::Dead => "dead",
        ProcStatus::Unknown(_) => "unknown",
    }
}

/// User names the synthetic rows draw from.
pub open spec fn debug_users() -> Seq<Seq<char>> {
    seq!["root"@, "alice"@, "bob"@, "carol"@, "daemon"@]
}

/// Name stems of the synthetic rows, by row.
pub open spec fn debug_names() -> Seq<Seq<char>> {
    seq![
        "palette"@,
        "renderer"@,
        "watcher"@,
        "worker"@,
        "io"@,
        "sync"@,
        "cache"@,
        "input"@,
        "signal"@,
        "layout"@,
        "theme"@,
        "metrics"@,
        "terminal"@,
        "preview"@,
    ]
}

/// Command-line flags the synthetic rows draw from.
pub open spec fn debug_flags() -> Seq<Seq<char>> {
    seq![
        "--inspect"@,
        "--keys"@,
        "--colors"@,
        "--tree"@,
        "--layout"@,
        "--signals"@,
        "--focus"@,
        "--preview"@,
    ]
}

fn debug_user(k: usize) -> (r: &'static str)
    requires
        k < 5,
    ensures
        r@ == debug_users()[k as int],
{
    match k {
        0 => "root",
        1 => "alice",
        2 => "bob",
        3 => "carol",
        _ => "daemon",
    }
}

fn debug_name(k: usize) -> (r: &'static str)
    requires
        k < 14,
    ensures
        r@ == debug_names()[k as int],
{
    match k {
        0 => "palette",
        1 => "renderer",
        2 => "watcher",
        3 => "worker",
        4 => "io",
        5 => "sync",
        6 => "cache",
        7 => "input",
        8 => "signal",
        9 => "layout",
        10 => "theme",
        11 => "metrics",
        12 => "terminal",
        _ => "preview",
    }
}

fn debug_flag(k: usize) -> (r: &'static str)
    requires
        k < 8,
    ensures
        r@ == debug_flags()[k as int],
{
    match k {
        0 => "--inspect",
        1 => "--keys",
        2 => "--colors",
        3 => "--tree",
        4 => "--layout",
        5 => "--signals",
        6 => "--focus",
        _ => "--preview",
    }
}

/// One step of the pseudo-random sequence: multiply and add one, wrapping.
pub open spec fn lcg_step(seed: u64) -> u64 {
    u64_specs::wrapping_add(u64_specs::wrapping_mul(seed, 6364136223846793005u64), 1u64)
}

/// Next seed of the pseudo-random sequence.
pub fn next_seed(seed: u64) -> (r: u64)
    ensures
        r == lcg_step(seed),
{
    seed.wrapping_mul(6364136223846793005).wrapping_add(1)
}

/// State of the generator for `seed` after `k` draws.
pub open spec fn rng_state(seed: u64, k: nat) -> u64
    decreases k,
{
    if k == 0 {
        seed ^ 0x9E37_79B9_7F4A_7C15u64
    } else {
        lcg_step(rng_state(seed, (k - 1) as nat))
    }
}

/// The pseudo-random generator of the synthetic rows.
struct DebugRng {
    state: u64,
}

impl DebugRng {
    fn new(seed: u64) -> (r: Self)
        ensures
            r.state == rng_state(seed, 0),
    {
        DebugRng { state: seed ^ 0x9E37_79B9_7F4A_7C15 }
    }

    fn next_u64(&mut self) -> (r: u64)
        ensures
            r == lcg_step(old(self).state),
            final(self).state == r,
    {
        self.state = next_seed(self.state);
        self.state
    }

    fn next_index(&mut self, len: usize) -> (r: usize)
        requires
            len > 0,
        ensures
            final(self).state == lcg_step(old(self).state),
            r == final(self).state % (len as u64),
    {
        (self.next_u64() % len as u64) as usize
    }

    fn next_in_range(&mut self, start: u64, end: u64) -> (r: u64)
        requires
            start < end,
        ensures
            final(self).state == lcg_step(old(self).state),
            r == start + final(self).state % ((end - start) as u64),
    {
        start + (self.next_u64() % (end - start))
    }
}

/// Row index of the synthetic parent of row `index`, if it has one.
pub open spec fn parent_slot(index: nat) -> Option<nat> {
    if index == 0 || index == 1 || index == 4 || index == 8 || index == 12 {
        None
    } else if index == 2 || index == 3 {
        Some(1)
    } else if 5 <= index <= 7 {
        Some(4)
    } else if 9 <= index <= 11 {
        Some(8)
    } else {
        Some((index - 1) as nat)
    }
}

/// Row indices of the synthetic ancestors of row `index`, parent first.
pub open spec fn ancestor_slots(index: nat) -> Seq<nat>
    decreases index,
{
    match parent_slot(index) {
        Some(p) => seq![p] + ancestor_slots(p),
        None => Seq::empty(),
    }
}

/// Pid of synthetic row `index`.
pub open spec fn debug_pid(index: nat) -> i32 {
    (4000 + 17 * index) as i32
}

fn parent_index(index: usize) -> (r: Option<usize>)
    ensures
        match (r, parent_slot(index as nat)) {
            (Some(a), Some(b)) => a == b,
            (None, None) => true,
            _ => false,
        },
{
    match index {
        0 | 1 | 4 | 8 | 12 => None,
        2 | 3 => Some(1),
        5..=7 => Some(4),
        9..=11 => Some(8),
        _ => Some(index - 1),
    }
}

/// Parent pid and ancestor pids of row `index`, given the pids of all rows.
fn parentage(index: usize, pids: &Vec<i32>) -> (r: (Option<i32>, Vec<i32>))
    requires
        index < pids@.len(),
        forall|k: int| 0 <= k < pids@.len() ==> #[trigger] pids@[k] == debug_pid(k as nat),
    ensures
        r.1@ == ancestor_slots(index as nat).map_values(|k: nat| debug_pid(k)),
        r.0 == if r.1@.len() > 0 {
            Some(r.1@[0])
        } else {
            None
        },
{
    let mut ancestors: Vec<i32> = Vec::new();
    let mut current = parent_index(index);
    let ghost mut at: nat = index as nat;
    while current.is_some()
        invariant
            forall|k: int| 0 <= k < pids@.len() ==> #[trigger] pids@[k] == debug_pid(k as nat),
            at < pids@.len(),
            match (current, parent_slot(at)) {
                (Some(a), Some(b)) => a == b,
                (None, None) => true,
                _ => false,
            },
            ancestors@ + ancestor_slots(at).map_values(|k: nat| debug_pid(k)) == ancestor_slots(
                index as nat,
            ).map_values(|k: nat| debug_pid(k)),
        decreases at,
    {
        let parent_idx = match current {
            Some(p) => p,
            None => 0,
        };
        proof {
            assert(ancestor_slots(at) == seq![parent_idx as nat] + ancestor_slots(parent_idx as nat));
            assert(ancestor_slots(at).map_values(|k: nat| debug_pid(k)) =~= seq![
                debug_pid(parent_idx as nat),
            ] + ancestor_slots(parent_idx as nat).map_values(|k: nat| debug_pid(k)));
        }
        ancestors.push(pids[parent_idx]);
        proof {
            assert(ancestors@ + ancestor_slots(parent_idx as nat).map_values(|k: nat| debug_pid(k))
                =~= ancestor_slots(index as nat).map_values(|k: nat| debug_pid(k)));
            at = parent_idx as nat;
        }
        current = parent_index(parent_idx);
    }
    proof {
        assert(ancestor_slots(at) =~= Seq::<nat>::empty());
        assert(ancestors@ =~= ancestors@ + ancestor_slots(at).map_values(|k: nat| debug_pid(k)));
    }
    let first = if ancestors.len() > 0 { Some(ancestors[0]) } else { None };
    (first, ancestors)
}

/// What synthetic row `index` of `seed` holds: its pid, start time, place in the tree and
/// status are fixed; its user, command flag and slot, cpu and memory come from the five
/// draws of the generator that belong to the row.
pub open spec fn debug_row_ok(seed: u64, index: nat, row: ProcRow) -> bool {
    let user_draw = rng_state(seed, 5 * index + 1);
    let flag_draw = rng_state(seed, 5 * index + 2);
    let slot_draw = rng_state(seed, 5 * index + 3);
    let cpu_draw = rng_state(seed, 5 * index + 4);
    let memory_draw = rng_state(seed, 5 * index + 5);
    let status = debug_status_list()[index as int];
    let chain = ancestor_slots(index).map_values(|k: nat| debug_pid(k));
    &&& row.pid == debug_pid(index)
    &&& row.start_time == 10000 + index
    &&& row.ancestor_chain@ == chain
    &&& row.ppid == if chain.len() > 0 {
        Some(chain[0])
    } else {
        None
    }
    &&& row.user@ == debug_users()[(user_draw % 5) as int]
    &&& row.status == status
    &&& row.cpu_usage_tenths == cpu_draw % 999
    &&& row.memory_bytes == 32768 + memory_draw % 536838144u64
    &&& row.name@ == debug_names()[(index % 14) as int] + "-"@ + status_label_text(status)
    &&& row.cmd@ == "/usr/bin/"@ + row.name@ + " "@ + debug_flags()[(flag_draw % 8) as int]
        + " --slot="@ + decimal((1 + slot_draw % 9) as nat)
}

/// Build the synthetic rows for `seed`: one per status, see `debug_row_ok`.
#[verifier::rlimit(30)]
pub fn build_debug_rows(seed: u64) -> (r: Vec<ProcRow>)
    ensures
        r@.len() == debug_status_list().len(),
        forall|i: int| 0 <= i < r@.len() ==> debug_row_ok(seed, i as nat, #[trigger] r@[i]),
{
    let mut rng = DebugRng::new(seed);
    let statuses = debug_statuses();
    let mut pids: Vec<i32> = Vec::new();
    let mut i: usize = 0;
    while i < statuses.len()
        invariant
            statuses@ == debug_status_list(),
            i <= statuses@.len(),
            pids@.len() == i,
            forall|k: int| 0 <= k < i ==> #[trigger] pids@[k] == debug_pid(k as nat),
        decreases statuses@.len() - i,
    {
        pids.push(4000 + i as i32 * 17);
        i = i + 1;
    }
    let mut rows: Vec<ProcRow> = Vec::new();
    let mut index: usize = 0;
    while index < statuses.len()
        invariant
            statuses@ == debug_status_list(),
            pids@.len() == statuses@.len(),
            forall|k: int| 0 <= k < pids@.len() ==> #[trigger] pids@[k] == debug_pid(k as nat),
            index <= statuses@.len(),
            rows@.len() == index,
            rng.state == rng_state(seed, (5 * index) as nat),
            forall|k: int| 0 <= k < index ==> debug_row_ok(seed, k as nat, #[trigger] rows@[k]),
        decreases statuses@.len() - index,
    {
        let status = statuses[index];
        let (ppid, ancestor_chain) = parentage(index, &pids);
        let user_at = rng.next_index(5);
        let user = String::from_str(debug_user(user_at));
        let mut name = String::from_str(debug_name(index % 14));
        name.append("-");
        name.append(status_label(&status));
        let flag_at = rng.next_index(8);
        let slot = rng.next_in_range(1, 10);
        let mut cmd = String::from_str("/usr/bin/");
        cmd.append(name.as_str());
        cmd.append(" ");
        cmd.append(debug_flag(flag_at));
        cmd.append(" --slot=");
        push_decimal(&mut cmd, slot);
        let cpu = rng.next_in_range(0, 999);
        let memory = rng.next_in_range(32_768, 536_870_912);
        let row = ProcRow {
            pid: pids[index],
            start_time: 10_000 + index as u64,
            ppid,
            ancestor_chain,
            user,
            status,
            cpu_usage_tenths: cpu as u32,
            memory_bytes: memory,
            name,
            cmd,
        };
        proof {
            let n = index as nat;
            assert(rng_state(seed, 5 * n + 1) == lcg_step(rng_state(seed, 5 * n)));
            assert(rng_state(seed, 5 * n + 2) == lcg_step(rng_state(seed, 5 * n + 1)));
            assert(rng_state(seed, 5 * n + 3) == lcg_step(rng_state(seed, 5 * n + 2)));
            assert(rng_state(seed, 5 * n + 4) == lcg_step(rng_state(seed, 5 * n + 3)));
            assert(rng_state(seed, 5 * n + 5) == lcg_step(rng_state(seed, 5 * n + 4)));
            assert(debug_row_ok(seed, n, row));
        }
        rows.push(row);
        index = index + 1;
    }
    rows
}

/// The signal sender of the synthetic table: it never delivers anything.
pub fn debug_signal_sender(_pid: i32, _signal: crate::signal::Signal) -> (r: Result<(), String>)
    ensures
        r matches Err(text) && text@ == "debug tui: signal suppressed"@,
{
    Err(String::from_str("debug tui: signal suppressed"))
}

} // verus!

verus! {

/// The synthetic rows keep their identities across seeds: pid, start time, status and place
/// in the tree of a row do not depend on the seed.
pub proof fn lemma_debug_identities_stable(seed_a: u64, seed_b: u64, index: nat, a: ProcRow, b: ProcRow)
    requires
        debug_row_ok(seed_a, index, a),
        debug_row_ok(seed_b, index, b),
    ensures
        a.pid == b.pid,
        a.start_time == b.start_time,
        a.status == b.status,
        a.ppid == b.ppid,
        a.ancestor_chain@ == b.ancestor_chain@,
{
}

} // verus!
