//! Application state and interaction logic.

use vstd::prelude::*;
use std::collections::HashSet;

use crate::model::ProcRow;
use crate::process::{FilterSpec, filter_value};
use crate::signal::{Signal, signal_from_digit, spec_signal_from_digit, signal_name};
use crate::text::{decimal, push_decimal, push_signed_decimal, signed_decimal};
use crate::tree::{
    DisplayRow, display_facts, display_order_indices, display_rows, display_view,
    lemma_collapse_keeps_row, lemma_display_collapse, lemma_drawn_rows_distinct, lemma_first_pid_at,
};

verus! {

broadcast use vstd::std_specs::hash::group_hash_axioms;

/// Selection state of the process table: the selected visible row, if any.
#[derive(Clone, Copy, Debug)]
pub struct TableState {
    selected: Option<usize>,
}

impl View for TableState {
    type V = Option<usize>;

    closed spec fn view(&self) -> Option<usize> {
        self.selected
    }
}

impl TableState {
    /// A table with no row selected.
    pub fn new() -> (r: Self)
        ensures
            r@ == None::<usize>,
    {
        TableState { selected: None }
    }

    /// The selected visible row index.
    pub fn selected(&self) -> (r: Option<usize>)
        ensures
            r == self@,
    {
        self.selected
    }

    /// Select a visible row index, or nothing.
    pub fn select(&mut self, index: Option<usize>)
        ensures
            final(self)@ == index,
    {
        self.selected = index;
    }
}

impl Default for TableState {
    fn default() -> (r: Self)
        ensures
            r@ == None::<usize>,
    {
        TableState::new()
    }
}

/// State for the interactive `/` filter prompt.
#[derive(Debug)]
pub struct FilterInput {
    /// Raw text typed so far.
    pub text: String,
    /// Compiled substring filter for `text`; `None` when `text` is empty.
    pub compiled: Option<FilterSpec>,
}

/// Pending signal action that requires user confirmation.
#[derive(Clone, Debug, PartialEq, Eq)]
pub struct SignalConfirmation {
    /// Digit key 1-9 entered by the user.
    pub digit: u8,
    /// Signal bound to `digit`.
    pub signal: Signal,
    /// Target process id.
    pub pid: i32,
    /// Target process start time, to tell a reused pid from the target.
    pub start_time: u64,
    /// Target process name.
    pub process_name: String,
}

/// Mutable application state shared between input handling and rendering.
#[derive(Debug)]
pub struct App {
    /// Process filter text, from the command line or the filter prompt.
    pub filter: Option<String>,
    /// Compiled form of the committed filter.
    pub compiled_filter: Option<FilterSpec>,
    /// Current table rows.
    pub rows: Vec<ProcRow>,
    /// Selected visible row.
    pub table_state: TableState,
    /// Footer status message.
    pub status: String,
    /// Pending signal confirmation.
    pub pending_confirmation: Option<SignalConfirmation>,
    /// Pids whose descendants are hidden in the tree.
    pub collapsed_pids: HashSet<i32>,
    /// Active interactive filter prompt; `Some` while the user is typing `/`.
    pub filter_input: Option<FilterInput>,
}

/// The application state as plain values.
pub struct AppView {
    /// Process filter text.
    pub filter: Option<String>,
    /// Compiled committed filter.
    pub compiled_filter: Option<FilterSpec>,
    /// Table rows.
    pub rows: Seq<ProcRow>,
    /// Selected visible row.
    pub selected: Option<usize>,
    /// Footer status text.
    pub status: Seq<char>,
    /// Pending signal confirmation.
    pub pending: Option<SignalConfirmation>,
    /// Pids whose descendants are hidden.
    pub collapsed: Set<i32>,
    /// Filter prompt.
    pub filter_input: Option<FilterInput>,
}

impl View for App {
    type V = AppView;

    open spec fn view(&self) -> AppView {
        AppView {
            filter: self.filter,
            compiled_filter: self.compiled_filter,
            rows: self.rows@,
            selected: self.table_state@,
            status: self.status@,
            pending: self.pending_confirmation,
            collapsed: self.collapsed_pids@,
            filter_input: self.filter_input,
        }
    }
}

/// Identity of a process across refreshes: pid and start time.
pub open spec fn identity(row: ProcRow) -> (i32, u64) {
    (row.pid, row.start_time)
}

/// Identities of the rows whose pid is collapsed.
pub open spec fn collapsed_identities(rows: Seq<ProcRow>, collapsed: Set<i32>) -> Set<(i32, u64)> {
    Set::new(
        |id: (i32, u64)|
            exists|i: int| 0 <= i < rows.len() && collapsed.contains(#[trigger] rows[i].pid) && identity(rows[i]) == id,
    )
}

/// Collapsed pids after the rows are replaced: the pids of new rows whose identity was a
/// collapsed row before. A reused pid with a new start time is not kept.
pub open spec fn kept_collapsed(old_rows: Seq<ProcRow>, collapsed: Set<i32>, new_rows: Seq<ProcRow>) -> Set<i32> {
    Set::new(
        |pid: i32|
            exists|j: int|
                0 <= j < new_rows.len() && (#[trigger] new_rows[j]).pid == pid
                    && collapsed_identities(old_rows, collapsed).contains(identity(new_rows[j])),
    )
}

/// The drawn row at position `k` shows a process with identity `id`.
pub open spec fn shows_identity(
    rows: Seq<ProcRow>,
    v: Seq<(usize, Seq<char>, bool, bool)>,
    id: (i32, u64),
    k: int,
) -> bool {
    identity(rows[v[k].0 as int]) == id
}

/// First drawn position showing a process with identity `id`, if any.
pub open spec fn first_position_of(
    rows: Seq<ProcRow>,
    v: Seq<(usize, Seq<char>, bool, bool)>,
    id: (i32, u64),
) -> Option<int> {
    if exists|k: int| 0 <= k < v.len() && shows_identity(rows, v, id, k) {
        Some(
            choose|k: int|
                0 <= k < v.len() && shows_identity(rows, v, id, k) && forall|l: int|
                    0 <= l < k ==> !shows_identity(rows, v, id, l),
        )
    } else {
        None
    }
}

/// Selection after the rows are replaced: nothing when no row is drawn; else the first drawn
/// row of the previously selected process (same pid and start time); else the previous
/// index (0 when nothing was selected), clamped to the last drawn row.
pub open spec fn reselect(
    v: Seq<(usize, Seq<char>, bool, bool)>,
    rows: Seq<ProcRow>,
    prev: Option<ProcRow>,
    prev_selected: Option<usize>,
) -> Option<usize> {
    let before: int = match prev_selected {
        Some(i) => i as int,
        None => 0,
    };
    let fallback = if before < v.len() - 1 {
        before as usize
    } else {
        (v.len() - 1) as usize
    };
    if v.len() == 0 {
        None
    } else {
        match prev {
            Some(p) => match first_position_of(rows, v, identity(p)) {
                Some(k) => Some(k as usize),
                None => Some(fallback),
            },
            None => Some(fallback),
        }
    }
}

/// Status text after a signal was delivered.
pub open spec fn sent_message(signal: Signal, digit: u8, pid: i32) -> Seq<char> {
    "sent "@ + signal_name(signal) + " ("@ + decimal(digit as nat) + ") to pid "@ + signed_decimal(
        pid as int,
    )
}

/// Status text after delivering a signal failed.
pub open spec fn failed_message(pid: i32, err: Seq<char>) -> Seq<char> {
    "failed to signal pid "@ + signed_decimal(pid as int) + ": "@ + err
}

/// Status text for the outcome of delivering a signal.
pub open spec fn outcome_message(signal: Signal, digit: u8, pid: i32, out: Result<(), String>) -> Seq<
    char,
> {
    match out {
        Ok(()) => sent_message(signal, digit, pid),
        Err(e) => failed_message(pid, e@),
    }
}

/// Status text when a confirmation target no longer matches the rows.
pub open spec fn aborted_message(name: Seq<char>, pid: i32) -> Seq<char> {
    "aborted: process "@ + name + " ("@ + signed_decimal(pid as int)
        + ") no longer matches confirmation target"@
}

/// Prompt text of a pending confirmation.
pub open spec fn prompt_message(pending: SignalConfirmation) -> Seq<char> {
    "confirm sending "@ + signal_name(pending.signal) + " ("@ + decimal(pending.digit as nat)
        + ") to process "@ + pending.process_name@ + " ("@ + signed_decimal(pending.pid as int)
        + ") (y/n)"@
}

impl AppView {
    /// Rows in drawing order.
    pub open spec fn visible(self) -> Seq<(usize, Seq<char>, bool, bool)> {
        display_view(self.rows, self.collapsed)
    }

    /// The drawn row under the selection, if the selection points at one.
    pub open spec fn selected_visible(self) -> Option<(usize, Seq<char>, bool, bool)> {
        match self.selected {
            Some(i) => if i < self.visible().len() {
                Some(self.visible()[i as int])
            } else {
                None
            },
            None => None,
        }
    }

    /// The process row under the selection, if any.
    pub open spec fn selected_proc(self) -> Option<ProcRow> {
        match self.selected_visible() {
            Some(d) => Some(self.rows[d.0 as int]),
            None => None,
        }
    }

    /// The filter rows are matched and highlighted with: the prompt's compiled filter while it
    /// has one, else the committed filter.
    pub open spec fn active_filter(self) -> Option<FilterSpec> {
        match self.filter_input {
            Some(fi) => match fi.compiled {
                Some(c) => Some(c),
                None => self.compiled_filter,
            },
            None => self.compiled_filter,
        }
    }

    /// The same state with another selection.
    pub open spec fn with_selection(self, selected: Option<usize>) -> AppView {
        AppView { selected, ..self }
    }

    /// The same state with another status text.
    pub open spec fn with_status(self, status: Seq<char>) -> AppView {
        AppView { status, ..self }
    }

    /// The same state with another pending confirmation.
    pub open spec fn with_pending(self, pending: Option<SignalConfirmation>) -> AppView {
        AppView { pending, ..self }
    }

    /// The same state with another collapsed set.
    pub open spec fn with_collapsed(self, collapsed: Set<i32>) -> AppView {
        AppView { collapsed, ..self }
    }

    /// The same state with another filter prompt.
    pub open spec fn with_filter_input(self, filter_input: Option<FilterInput>) -> AppView {
        AppView { filter_input, ..self }
    }

    /// Rows replaced: collapsed pids follow process identity and the selection follows the
    /// selected process (see `reselect`); the status text stays.
    pub open spec fn with_rows(self, rows: Seq<ProcRow>) -> AppView {
        let collapsed = kept_collapsed(self.rows, self.collapsed, rows);
        AppView {
            rows,
            collapsed,
            selected: reselect(display_view(rows, collapsed), rows, self.selected_proc(), self.selected),
            ..self
        }
    }

    /// Rows replaced as by `with_rows`, and the status text cleared.
    pub open spec fn refreshed(self, rows: Seq<ProcRow>) -> AppView {
        self.with_rows(rows).with_status(Seq::empty())
    }

    /// Selection one row up, when there is a row above.
    pub open spec fn moved_up(self) -> AppView {
        match self.selected {
            Some(s) => if s > 0 {
                self.with_selection(Some((s - 1) as usize))
            } else {
                self
            },
            None => self,
        }
    }

    /// Selection one row down, when there is a row below; the first row when nothing is
    /// selected and some row is drawn.
    pub open spec fn moved_down(self) -> AppView {
        let count = self.visible().len();
        match self.selected {
            Some(s) => if s + 1 < count {
                self.with_selection(Some((s + 1) as usize))
            } else {
                self
            },
            None => if count > 0 {
                self.with_selection(Some(0))
            } else {
                self
            },
        }
    }

    /// Selection `step` rows up, stopping at the first row; nothing moves for a zero step or
    /// without a selection.
    pub open spec fn paged_up(self, step: usize) -> AppView {
        if step == 0 {
            self
        } else {
            match self.selected {
                Some(s) => self.with_selection(
                    Some(
                        if s >= step {
                            (s - step) as usize
                        } else {
                            0
                        },
                    ),
                ),
                None => self,
            }
        }
    }

    /// Selection `step` rows down, stopping at the last drawn row; without a selection the
    /// row `step - 1` (clamped) is selected; with no drawn row the selection is cleared.
    pub open spec fn paged_down(self, step: usize) -> AppView {
        let count = self.visible().len();
        if step == 0 {
            self
        } else {
            match self.selected {
                Some(s) => if count == 0 {
                    self.with_selection(None)
                } else {
                    self.with_selection(
                        Some(
                            if s + step < count - 1 {
                                (s + step) as usize
                            } else {
                                (count - 1) as usize
                            },
                        ),
                    )
                },
                None => if count == 0 {
                    self
                } else {
                    self.with_selection(
                        Some(
                            if step - 1 < count - 1 {
                                (step - 1) as usize
                            } else {
                                (count - 1) as usize
                            },
                        ),
                    )
                },
            }
        }
    }

    /// Selection on the first drawn row, or nothing when no row is drawn.
    pub open spec fn first_selected(self) -> AppView {
        if self.visible().len() > 0 {
            self.with_selection(Some(0))
        } else {
            self.with_selection(None)
        }
    }

    /// Pid of the selected row when it shows its children.
    pub open spec fn collapse_target(self) -> Option<i32> {
        match self.selected_visible() {
            Some(d) => if d.2 && !d.3 {
                Some(self.rows[d.0 as int].pid)
            } else {
                None
            },
            None => None,
        }
    }

    /// Pid of the selected row when it hides its children.
    pub open spec fn expand_target(self) -> Option<i32> {
        match self.selected_visible() {
            Some(d) => if d.3 {
                Some(self.rows[d.0 as int].pid)
            } else {
                None
            },
            None => None,
        }
    }

    /// The selected row's children hidden, when it shows them.
    pub open spec fn collapsed_selection(self) -> AppView {
        match self.collapse_target() {
            Some(pid) => self.with_collapsed(self.collapsed.insert(pid)),
            None => self,
        }
    }

    /// The selected row's children shown again, when it hides them.
    pub open spec fn expanded_selection(self) -> AppView {
        match self.expand_target() {
            Some(pid) => self.with_collapsed(self.collapsed.remove(pid)),
            None => self,
        }
    }

    /// The confirmation that digit `digit` asks for: its signal, aimed at the selected
    /// process; none for a digit outside 1-9 or without a selected process.
    pub open spec fn signal_target(self, digit: u8) -> Option<SignalConfirmation> {
        match (spec_signal_from_digit(digit), self.selected_proc()) {
            (Some(signal), Some(row)) => Some(
                SignalConfirmation {
                    digit,
                    signal,
                    pid: row.pid,
                    start_time: row.start_time,
                    process_name: row.name,
                },
            ),
            _ => None,
        }
    }

    /// A confirmation opened for `digit`, when it names a signal and a process is selected.
    pub open spec fn begun_confirmation(self, digit: u8) -> AppView {
        match self.signal_target(digit) {
            Some(c) => self.with_pending(Some(c)),
            None => self,
        }
    }

    /// The pending confirmation dropped and the outcome of delivering its signal reported.
    pub open spec fn confirmed(self, out: Result<(), String>) -> AppView {
        match self.pending {
            Some(p) => self.with_pending(None).with_status(
                outcome_message(p.signal, p.digit, p.pid, out),
            ),
            None => self,
        }
    }

    /// Whether some row still has the pending target's pid and start time.
    pub open spec fn target_matches(self) -> bool {
        match self.pending {
            Some(p) => exists|i: int|
                0 <= i < self.rows.len() && (#[trigger] self.rows[i]).pid == p.pid
                    && self.rows[i].start_time == p.start_time,
            None => false,
        }
    }

    /// The pending confirmation dropped with the abort message, when there is one.
    pub open spec fn aborted(self) -> AppView {
        match self.pending {
            Some(p) => self.with_pending(None).with_status(aborted_message(p.process_name@, p.pid)),
            None => self,
        }
    }
}

impl App {
    /// Build app state from a filter and initial rows.
    pub fn with_rows(filter: Option<String>, rows: Vec<ProcRow>) -> (r: Self)
        ensures
            r@ == (AppView {
                filter,
                compiled_filter: None,
                rows: rows@,
                selected: if rows@.len() == 0 {
                    None
                } else {
                    Some(0usize)
                },
                status: Seq::empty(),
                pending: None,
                collapsed: Set::empty(),
                filter_input: None,
            }),
    {
        let mut table_state = TableState::new();
        table_state.select(if rows.len() == 0 { None } else { Some(0) });
        App {
            filter,
            compiled_filter: None,
            rows,
            table_state,
            status: String::new(),
            pending_confirmation: None,
            collapsed_pids: HashSet::new(),
            filter_input: None,
        }
    }

    /// The configured filter text.
    pub fn filter(&self) -> (r: Option<&str>)
        ensures
            match (r, self.filter) {
                (Some(text), Some(f)) => text@ == f@,
                (None, None) => true,
                _ => false,
            },
    {
        match &self.filter {
            Some(f) => Some(f.as_str()),
            None => None,
        }
    }

    /// The filter text the table title shows: the prompt's text while the prompt is open,
    /// else the committed filter.
    pub fn title_filter(&self) -> (r: Option<&str>)
        ensures
            match (r, self.filter_input, self.filter) {
                (Some(text), Some(fi), _) => text@ == fi.text@,
                (Some(text), None, Some(f)) => text@ == f@,
                (None, None, None) => true,
                _ => false,
            },
    {
        match &self.filter_input {
            Some(fi) => Some(fi.text.as_str()),
            None => self.filter(),
        }
    }

    /// The compiled filter used for row matching and highlighting: the prompt's while it has
    /// one, else the committed filter.
    pub fn active_filter(&self) -> (r: Option<&FilterSpec>)
        ensures
            filter_value(r) == self@.active_filter(),
    {
        match &self.filter_input {
            Some(fi) => match &fi.compiled {
                Some(c) => Some(c),
                None => self.compiled_filter.as_ref(),
            },
            None => self.compiled_filter.as_ref(),
        }
    }

    /// Number of drawn rows.
    fn visible_row_count(&self) -> (r: usize)
        ensures
            r == self@.visible().len(),
    {
        display_order_indices(&self.rows, &self.collapsed_pids).len()
    }

    /// The process row under the selection.
    fn selected_row(&self) -> (r: Option<&ProcRow>)
        ensures
            match (r, self@.selected_proc()) {
                (Some(row), Some(p)) => *row == p,
                (None, None) => true,
                _ => false,
            },
    {
        let selected = match self.table_state.selected() {
            Some(i) => i,
            None => return None,
        };
        let order = display_order_indices(&self.rows, &self.collapsed_pids);
        if selected < order.len() {
            let row_index = order[selected];
            proof {
                assert(row_index == self@.visible()[selected as int].0);
            }
            Some(&self.rows[row_index])
        } else {
            None
        }
    }

    /// The drawn row under the selection.
    fn selected_display_row(&self) -> (r: Option<DisplayRow>)
        ensures
            match r {
                Some(d) => self@.selected_visible() == Some(d@),
                None => self@.selected_visible() is None,
            },
            display_facts(self.rows@, self.collapsed_pids@, self@.visible()),
    {
        let mut drawn = display_rows(&self.rows, &self.collapsed_pids);
        match self.table_state.selected() {
            Some(i) => if i < drawn.len() {
                Some(drawn.swap_remove(i))
            } else {
                None
            },
            None => None,
        }
    }
}

} // verus!

verus! {

/// Identities of the rows whose pid is collapsed.
fn collect_collapsed_identities(rows: &Vec<ProcRow>, collapsed: &HashSet<i32>) -> (r: Vec<(i32, u64)>)
    ensures
        forall|id: (i32, u64)| r@.contains(id) <==> collapsed_identities(rows@, collapsed@).contains(id),
{
    let mut ids: Vec<(i32, u64)> = Vec::new();
    let mut i: usize = 0;
    while i < rows.len()
        invariant
            i <= rows@.len(),
            forall|id: (i32, u64)|
                ids@.contains(id) <==> exists|k: int|
                    0 <= k < i && collapsed@.contains(#[trigger] rows@[k].pid) && identity(rows@[k]) == id,
        decreases rows@.len() - i,
    {
        let ghost before = ids@;
        if collapsed.contains(&rows[i].pid) {
            ids.push((rows[i].pid, rows[i].start_time));
            proof {
                assert forall|id: (i32, u64)| ids@.contains(id) <==> exists|k: int|
                    0 <= k < i + 1 && collapsed@.contains(#[trigger] rows@[k].pid) && identity(rows@[k]) == id by {
                    if ids@.contains(id) {
                        let n = ids@.index_of(id);
                        if n < before.len() {
                            assert(before.contains(id));
                        } else {
                            assert(identity(rows@[i as int]) == id);
                        }
                    }
                    if exists|k: int| 0 <= k < i + 1 && collapsed@.contains(#[trigger] rows@[k].pid) && identity(rows@[k]) == id {
                        let k = choose|k: int| 0 <= k < i + 1 && collapsed@.contains(#[trigger] rows@[k].pid) && identity(rows@[k]) == id;
                        if k < i {
                            assert(before.contains(id));
                            let n = before.index_of(id);
                            assert(ids@[n] == id);
                        } else {
                            assert(ids@[before.len() as int] == id);
                        }
                    }
                }
            }
        } else {
            proof {
                assert forall|id: (i32, u64)| ids@.contains(id) <==> exists|k: int|
                    0 <= k < i + 1 && collapsed@.contains(#[trigger] rows@[k].pid) && identity(rows@[k]) == id by {
                    if exists|k: int| 0 <= k < i + 1 && collapsed@.contains(#[trigger] rows@[k].pid) && identity(rows@[k]) == id {
                        let k = choose|k: int| 0 <= k < i + 1 && collapsed@.contains(#[trigger] rows@[k].pid) && identity(rows@[k]) == id;
                        assert(k < i);
                    }
                }
            }
        }
        i = i + 1;
    }
    ids
}

/// Whether `ids` holds the identity `(pid, start_time)`.
fn has_identity(ids: &Vec<(i32, u64)>, pid: i32, start_time: u64) -> (r: bool)
    ensures
        r == ids@.contains((pid, start_time)),
{
    let mut i: usize = 0;
    while i < ids.len()
        invariant
            i <= ids@.len(),
            forall|k: int| 0 <= k < i ==> #[trigger] ids@[k] != (pid, start_time),
        decreases ids@.len() - i,
    {
        if ids[i].0 == pid && ids[i].1 == start_time {
            assert(ids@[i as int] == (pid, start_time));
            return true;
        }
        i = i + 1;
    }
    false
}

/// Pids of the rows whose identity is in `ids`.
fn pids_with_identity_in(rows: &Vec<ProcRow>, ids: &Vec<(i32, u64)>) -> (r: HashSet<i32>)
    ensures
        r@ == Set::new(
            |pid: i32|
                exists|j: int|
                    0 <= j < rows@.len() && (#[trigger] rows@[j]).pid == pid && ids@.contains(identity(rows@[j])),
        ),
{
    let mut kept: HashSet<i32> = HashSet::new();
    let mut j: usize = 0;
    while j < rows.len()
        invariant
            j <= rows@.len(),
            kept@ == Set::new(
                |pid: i32|
                    exists|k: int|
                        0 <= k < j && (#[trigger] rows@[k]).pid == pid && ids@.contains(identity(rows@[k])),
            ),
        decreases rows@.len() - j,
    {
        let ghost before = kept@;
        if has_identity(ids, rows[j].pid, rows[j].start_time) {
            kept.insert(rows[j].pid);
        }
        proof {
            let next = Set::new(
                |pid: i32|
                    exists|k: int|
                        0 <= k < j + 1 && (#[trigger] rows@[k]).pid == pid && ids@.contains(identity(rows@[k])),
            );
            assert forall|pid: i32| kept@.contains(pid) <==> next.contains(pid) by {
                if next.contains(pid) {
                    let k = choose|k: int|
                        0 <= k < j + 1 && (#[trigger] rows@[k]).pid == pid && ids@.contains(identity(rows@[k]));
                    if k < j {
                        assert(before.contains(pid));
                    }
                }
                if kept@.contains(pid) && !before.contains(pid) {
                    assert(rows@[j as int].pid == pid);
                }
            }
            assert(kept@ =~= next);
        }
        j = j + 1;
    }
    kept
}

/// Position in `order` of the first row with identity `(pid, start_time)`.
fn position_of_identity(rows: &Vec<ProcRow>, order: &Vec<usize>, pid: i32, start_time: u64) -> (r:
    Option<usize>)
    requires
        forall|k: int| 0 <= k < order@.len() ==> #[trigger] order@[k] < rows@.len(),
    ensures
        match r {
            Some(k) => k < order@.len() && identity(rows@[order@[k as int] as int]) == (pid, start_time)
                && forall|l: int| 0 <= l < k ==> identity(#[trigger] rows@[order@[l] as int]) != (pid, start_time),
            None => forall|l: int|
                0 <= l < order@.len() ==> identity(#[trigger] rows@[order@[l] as int]) != (pid, start_time),
        },
{
    let mut k: usize = 0;
    while k < order.len()
        invariant
            k <= order@.len(),
            forall|l: int| 0 <= l < order@.len() ==> #[trigger] order@[l] < rows@.len(),
            forall|l: int| 0 <= l < k ==> identity(#[trigger] rows@[order@[l] as int]) != (pid, start_time),
        decreases order@.len() - k,
    {
        let row = &rows[order[k]];
        if row.pid == pid && row.start_time == start_time {
            return Some(k);
        }
        k = k + 1;
    }
    None
}

/// When some drawn row shows the identity, a first such row exists.
proof fn lemma_first_match_exists(
    rows: Seq<ProcRow>,
    v: Seq<(usize, Seq<char>, bool, bool)>,
    id: (i32, u64),
    k: int,
)
    requires
        0 <= k < v.len(),
        shows_identity(rows, v, id, k),
    ensures
        exists|m: int|
            0 <= m < v.len() && shows_identity(rows, v, id, m) && forall|l: int|
                0 <= l < m ==> !shows_identity(rows, v, id, l),
    decreases k,
{
    if exists|l: int| 0 <= l < k && shows_identity(rows, v, id, l) {
        let l = choose|l: int| 0 <= l < k && shows_identity(rows, v, id, l);
        lemma_first_match_exists(rows, v, id, l);
    } else {
        assert(forall|l: int| 0 <= l < k ==> !shows_identity(rows, v, id, l));
    }
}

/// The position `first_position_of` names, when there is one, shows the identity and no
/// earlier drawn row does.
pub proof fn lemma_first_position_shows(
    rows: Seq<ProcRow>,
    v: Seq<(usize, Seq<char>, bool, bool)>,
    id: (i32, u64),
)
    ensures
        first_position_of(rows, v, id) matches Some(k) ==> 0 <= k < v.len() && shows_identity(
            rows,
            v,
            id,
            k,
        ) && forall|l: int| 0 <= l < k ==> !shows_identity(rows, v, id, l),
        first_position_of(rows, v, id) is None ==> forall|l: int|
            0 <= l < v.len() ==> !shows_identity(rows, v, id, l),
{
    if exists|k: int| 0 <= k < v.len() && shows_identity(rows, v, id, k) {
        let k = choose|k: int| 0 <= k < v.len() && shows_identity(rows, v, id, k);
        lemma_first_match_exists(rows, v, id, k);
    }
}

/// The first match is the position `first_position_of` names.
proof fn lemma_first_position(
    rows: Seq<ProcRow>,
    v: Seq<(usize, Seq<char>, bool, bool)>,
    id: (i32, u64),
    k: int,
)
    requires
        0 <= k < v.len(),
        shows_identity(rows, v, id, k),
        forall|l: int| 0 <= l < k ==> !shows_identity(rows, v, id, l),
    ensures
        first_position_of(rows, v, id) == Some(k),
{
    let c = choose|c: int|
        0 <= c < v.len() && shows_identity(rows, v, id, c) && forall|l: int|
            0 <= l < c ==> !shows_identity(rows, v, id, l);
    assert(0 <= c < v.len() && shows_identity(rows, v, id, c) && forall|l: int|
        0 <= l < c ==> !shows_identity(rows, v, id, l));
    if c < k {
        assert(!shows_identity(rows, v, id, c));
    }
    if c > k {
        assert(!shows_identity(rows, v, id, k));
    }
}

/// Text of a signal delivery outcome.
fn outcome_text(signal: Signal, digit: u8, pid: i32, out: &Result<(), String>) -> (r: String)
    ensures
        r@ == outcome_message(signal, digit, pid, *out),
{
    match out {
        Ok(()) => {
            let mut text = String::from_str("sent ");
            text.append(signal.name());
            text.append(" (");
            push_decimal(&mut text, digit as u64);
            text.append(") to pid ");
            push_signed_decimal(&mut text, pid);
            text
        },
        Err(err) => {
            let mut text = String::from_str("failed to signal pid ");
            push_signed_decimal(&mut text, pid);
            text.append(": ");
            text.append(err.as_str());
            text
        },
    }
}

impl App {
    /// Update rows, carry collapsed pids and the selection over by process identity, and
    /// clamp the selection to the drawn rows.
    fn apply_rows(&mut self, rows: Vec<ProcRow>)
        ensures
            final(self)@ == old(self)@.with_rows(rows@),
    {
        let ghost old_view = self@;
        let selected_before: usize = match self.table_state.selected() {
            Some(i) => i,
            None => 0,
        };
        let selected_identity: Option<(i32, u64)> = match self.selected_row() {
            Some(row) => Some((row.pid, row.start_time)),
            None => None,
        };
        let ids = collect_collapsed_identities(&self.rows, &self.collapsed_pids);
        self.rows = rows;
        let kept = pids_with_identity_in(&self.rows, &ids);
        proof {
            assert(kept@ =~= kept_collapsed(old_view.rows, old_view.collapsed, self.rows@));
        }
        self.collapsed_pids = kept;
        let order = display_order_indices(&self.rows, &self.collapsed_pids);
        let ghost v = display_view(self.rows@, self.collapsed_pids@);
        let count = order.len();
        proof {
            assert forall|k: int| 0 <= k < order@.len() implies #[trigger] order@[k] < self.rows@.len() by {
                assert(order@[k] == v[k].0);
            }
        }
        if count == 0 {
            self.table_state.select(None);
        } else {
            let found = match selected_identity {
                Some(id) => position_of_identity(&self.rows, &order, id.0, id.1),
                None => None,
            };
            match found {
                Some(k) => {
                    proof {
                        let id = selected_identity->0;
                        assert forall|l: int| 0 <= l < k implies !shows_identity(self.rows@, v, id, l) by {
                            assert(order@[l] == v[l].0);
                        }
                        assert(order@[k as int] == v[k as int].0);
                        lemma_first_position(self.rows@, v, id, k as int);
                    }
                    self.table_state.select(Some(k));
                },
                None => {
                    proof {
                        if selected_identity is Some {
                            let id = selected_identity->0;
                            assert forall|l: int| 0 <= l < v.len() implies !shows_identity(self.rows@, v, id, l) by {
                                assert(order@[l] == v[l].0);
                            }
                        }
                    }
                    let last = count - 1;
                    self.table_state.select(Some(if selected_before < last { selected_before } else { last }));
                },
            }
        }
    }

    /// Replace row data, keep the selection on the same process where it is still drawn, and
    /// clear the status text.
    pub fn refresh(&mut self, rows: Vec<ProcRow>)
        ensures
            final(self)@ == old(self)@.refreshed(rows@),
    {
        self.apply_rows(rows);
        self.status = String::new();
    }

    /// Replace row data as `refresh` does, keeping the status text.
    pub fn refresh_preserving_status(&mut self, rows: Vec<ProcRow>)
        ensures
            final(self)@ == old(self)@.with_rows(rows@),
    {
        self.apply_rows(rows);
    }

    /// Move selection one row up.
    pub fn move_up(&mut self)
        ensures
            final(self)@ == old(self)@.moved_up(),
    {
        if let Some(selected) = self.table_state.selected() {
            if selected > 0 {
                self.table_state.select(Some(selected - 1));
            }
        }
    }

    /// Move selection one row down.
    pub fn move_down(&mut self)
        ensures
            final(self)@ == old(self)@.moved_down(),
    {
        let visible_count = self.visible_row_count();
        if let Some(selected) = self.table_state.selected() {
            if visible_count > 0 && selected < visible_count - 1 {
                self.table_state.select(Some(selected + 1));
            }
        } else if visible_count > 0 {
            self.table_state.select(Some(0));
        }
    }

    /// Move selection one page up by the provided step.
    pub fn page_up(&mut self, step: usize)
        ensures
            final(self)@ == old(self)@.paged_up(step),
    {
        if step == 0 {
            return;
        }
        if let Some(selected) = self.table_state.selected() {
            self.table_state.select(Some(selected.saturating_sub(step)));
        }
    }

    /// Move selection one page down by the provided step.
    pub fn page_down(&mut self, step: usize)
        ensures
            final(self)@ == old(self)@.paged_down(step),
    {
        if step == 0 {
            return;
        }
        if let Some(selected) = self.table_state.selected() {
            let visible_count = self.visible_row_count();
            if visible_count == 0 {
                self.table_state.select(None);
                return;
            }
            let last_index = visible_count - 1;
            let next_index = selected.saturating_add(step);
            self.table_state.select(Some(if next_index < last_index { next_index } else { last_index }));
        } else {
            let visible_count = self.visible_row_count();
            if visible_count == 0 {
                return;
            }
            let last_index = visible_count - 1;
            self.table_state.select(Some(if step - 1 < last_index { step - 1 } else { last_index }));
        }
    }

    /// Select the first drawn row, or nothing when no row is drawn.
    pub fn select_first(&mut self)
        ensures
            final(self)@ == old(self)@.first_selected(),
    {
        let visible_count = self.visible_row_count();
        if visible_count > 0 {
            self.table_state.select(Some(0));
        } else {
            self.table_state.select(None);
        }
    }

    /// Collapse the selected row when it currently shows descendants.
    pub fn collapse_selected(&mut self) -> (r: bool)
        ensures
            r == old(self)@.collapse_target() is Some,
            final(self)@ == old(self)@.collapsed_selection(),
    {
        let display_row = match self.selected_display_row() {
            Some(d) => d,
            None => return false,
        };
        if !display_row.has_children || display_row.is_collapsed {
            return false;
        }
        proof {
            let k = self.table_state@->0 as int;
            assert(self@.visible()[k] == display_row@);
        }
        let pid = self.rows[display_row.row_index].pid;
        self.collapsed_pids.insert(pid)
    }

    /// Expand the selected row when it currently hides descendants.
    pub fn expand_selected(&mut self) -> (r: bool)
        ensures
            r == old(self)@.expand_target() is Some,
            final(self)@ == old(self)@.expanded_selection(),
    {
        let display_row = match self.selected_display_row() {
            Some(d) => d,
            None => return false,
        };
        if !display_row.is_collapsed {
            return false;
        }
        proof {
            let k = self.table_state@->0 as int;
            assert(self@.visible()[k] == display_row@);
        }
        let pid = self.rows[display_row.row_index].pid;
        self.collapsed_pids.remove(&pid)
    }
}


/// Text of the confirmation prompt.
fn prompt_text(pending: &SignalConfirmation) -> (r: String)
    ensures
        r@ == prompt_message(*pending),
{
    let mut text = String::from_str("confirm sending ");
    text.append(pending.signal.name());
    text.append(" (");
    push_decimal(&mut text, pending.digit as u64);
    text.append(") to process ");
    text.append(pending.process_name.as_str());
    text.append(" (");
    push_signed_decimal(&mut text, pending.pid);
    text.append(") (y/n)");
    text
}

/// Text of the abort message.
fn aborted_text(name: &String, pid: i32) -> (r: String)
    ensures
        r@ == aborted_message(name@, pid),
{
    let mut text = String::from_str("aborted: process ");
    text.append(name.as_str());
    text.append(" (");
    push_signed_decimal(&mut text, pid);
    text.append(") no longer matches confirmation target");
    text
}

impl App {
    /// Send the signal bound to `digit` to the selected process through `sender`, and report
    /// the outcome in the status text. Nothing happens for a digit outside 1-9 or without a
    /// selected process.
    pub fn send_digit<F>(&mut self, digit: u8, sender: &mut F)
        where F: FnMut(i32, Signal) -> Result<(), String>,
        requires
            forall|pid: i32, signal: Signal| call_requires(*old(sender), (pid, signal)),
        ensures
            match old(self)@.signal_target(digit) {
                Some(c) => exists|out: Result<(), String>|
                    call_ensures(*old(sender), (c.pid, c.signal), out) && final(self)@ == old(
                        self,
                    )@.with_status(outcome_message(c.signal, digit, c.pid, out)),
                None => final(self)@ == old(self)@,
            },
    {
        let signal = match signal_from_digit(digit) {
            Some(value) => value,
            None => return,
        };
        let pid = match self.selected_row() {
            Some(row) => row.pid,
            None => return,
        };
        let ghost target = old(self)@.signal_target(digit);
        assert(target matches Some(c) && c.pid == pid && c.signal == signal);
        let out = sender(pid, signal);
        self.status = outcome_text(signal, digit, pid, &out);
        assert(call_ensures(*old(sender), (pid, signal), out));
        assert(self@ == old(self)@.with_status(outcome_message(signal, digit, pid, out)));
    }

    /// Prepare a confirmation for the signal bound to `digit`, aimed at the selected process.
    pub fn begin_signal_confirmation(&mut self, digit: u8)
        ensures
            final(self)@ == old(self)@.begun_confirmation(digit),
    {
        let signal = match signal_from_digit(digit) {
            Some(value) => value,
            None => return,
        };
        let confirmation = match self.selected_row() {
            Some(row) => SignalConfirmation {
                digit,
                signal,
                pid: row.pid,
                start_time: row.start_time,
                process_name: row.name.clone(),
            },
            None => return,
        };
        self.pending_confirmation = Some(confirmation);
    }

    /// Cancel any pending signal confirmation.
    pub fn cancel_signal_confirmation(&mut self)
        ensures
            final(self)@ == old(self)@.with_pending(None),
    {
        self.pending_confirmation = None;
    }

    /// Deliver the pending signal through `sender`, drop the confirmation and report the
    /// outcome in the status text. Returns the signalled pid when delivery succeeded.
    pub fn confirm_signal<F>(&mut self, sender: &mut F) -> (r: Option<i32>)
        where F: FnMut(i32, Signal) -> Result<(), String>,
        requires
            forall|pid: i32, signal: Signal| call_requires(*old(sender), (pid, signal)),
        ensures
            match old(self)@.pending {
                Some(p) => exists|out: Result<(), String>|
                    call_ensures(*old(sender), (p.pid, p.signal), out) && final(self)@ == old(
                        self,
                    )@.with_pending(None).with_status(outcome_message(p.signal, p.digit, p.pid, out))
                        && r == if out is Ok {
                        Some(p.pid)
                    } else {
                        None
                    },
                None => r is None && final(self)@ == old(self)@,
            },
    {
        let pending = match self.pending_confirmation.take() {
            Some(p) => p,
            None => return None,
        };
        let out = sender(pending.pid, pending.signal);
        self.status = outcome_text(pending.signal, pending.digit, pending.pid, &out);
        match out {
            Ok(()) => Some(pending.pid),
            Err(_) => None,
        }
    }

    /// Drop the pending confirmation and report the outcome of delivering its signal.
    pub fn settle_confirmation(&mut self, outcome: Result<(), String>)
        ensures
            final(self)@ == old(self)@.confirmed(outcome),
    {
        let pending = match self.pending_confirmation.take() {
            Some(p) => p,
            None => return,
        };
        self.status = outcome_text(pending.signal, pending.digit, pending.pid, &outcome);
    }

    /// Whether some current row still has the pending target's pid and start time.
    pub fn pending_target_matches_current_rows(&self) -> (r: bool)
        ensures
            r == self@.target_matches(),
    {
        let pending = match &self.pending_confirmation {
            Some(p) => p,
            None => return false,
        };
        let mut i: usize = 0;
        while i < self.rows.len()
            invariant
                i <= self.rows@.len(),
                self.pending_confirmation == Some(*pending),
                forall|k: int|
                    0 <= k < i ==> !((#[trigger] self.rows@[k]).pid == pending.pid
                        && self.rows@[k].start_time == pending.start_time),
            decreases self.rows@.len() - i,
        {
            if self.rows[i].pid == pending.pid && self.rows[i].start_time == pending.start_time {
                return true;
            }
            i = i + 1;
        }
        false
    }

    /// Drop the pending confirmation because its target no longer matches the rows.
    pub fn abort_pending_target_changed(&mut self)
        ensures
            final(self)@ == old(self)@.aborted(),
    {
        let pending = match self.pending_confirmation.take() {
            Some(p) => p,
            None => return,
        };
        self.status = aborted_text(&pending.process_name, pending.pid);
    }

    /// The confirmation prompt for the pending action.
    pub fn confirmation_prompt(&self) -> (r: Option<String>)
        ensures
            match (r, self.pending_confirmation) {
                (Some(text), Some(p)) => text@ == prompt_message(p),
                (None, None) => true,
                _ => false,
            },
    {
        match &self.pending_confirmation {
            Some(pending) => Some(prompt_text(pending)),
            None => None,
        }
    }
}

} // verus!

verus! {

/// After the rows are replaced the selection is on a drawn row, and it is empty only when no
/// row is drawn.
pub proof fn lemma_refresh_selection_in_bounds(a: AppView, rows: Seq<ProcRow>)
    ensures
        a.with_rows(rows).selected is Some <==> a.with_rows(rows).visible().len() > 0,
        a.with_rows(rows).selected matches Some(i) ==> i < a.with_rows(rows).visible().len(),
{
    let b = a.with_rows(rows);
    let v = b.visible();
    if let Some(p) = a.selected_proc() {
        lemma_first_position_shows(rows, v, identity(p));
    }
}

/// A selected process that is still drawn after the rows are replaced stays selected: the
/// selection moves to a drawn row with the same pid and start time.
pub proof fn lemma_refresh_keeps_selected_process(a: AppView, rows: Seq<ProcRow>)
    requires
        a.selected_proc() is Some,
        a.with_rows(rows).visible().len() <= usize::MAX,
        exists|k: int|
            0 <= k < a.with_rows(rows).visible().len() && shows_identity(
                rows,
                a.with_rows(rows).visible(),
                identity(a.selected_proc()->0),
                k,
            ),
    ensures
        a.with_rows(rows).selected_proc() matches Some(p) && identity(p) == identity(
            a.selected_proc()->0,
        ),
{
    let b = a.with_rows(rows);
    let v = b.visible();
    let id = identity(a.selected_proc()->0);
    lemma_first_position_shows(rows, v, id);
    let k = first_position_of(rows, v, id)->0;
    assert(b.selected == Some(k as usize));
}

/// Moving down and then up comes back to the same row when there is a row below (and the
/// drawn rows fit in memory).
pub proof fn lemma_move_down_then_up(a: AppView)
    requires
        a.selected matches Some(s) && s + 1 < a.visible().len(),
        a.visible().len() <= usize::MAX,
    ensures
        a.moved_down().moved_up() == a,
{
}

/// Moving up and then down comes back to the same drawn row when there is a row above.
pub proof fn lemma_move_up_then_down(a: AppView)
    requires
        a.selected matches Some(s) && 0 < s < a.visible().len(),
    ensures
        a.moved_up().moved_down() == a,
{
}

/// Navigation keeps the selection on a drawn row: from a selection on a drawn row (or none),
/// every move, page and jump to the first row leaves it on a drawn row (or none).
pub proof fn lemma_navigation_stays_in_bounds(a: AppView, step: usize)
    requires
        a.selected matches Some(s) ==> s < a.visible().len(),
    ensures
        a.moved_up().selected matches Some(t) ==> t < a.visible().len(),
        a.moved_down().selected matches Some(t) ==> t < a.visible().len(),
        a.paged_up(step).selected matches Some(t) ==> t < a.visible().len(),
        a.paged_down(step).selected matches Some(t) ==> t < a.visible().len(),
        a.first_selected().selected matches Some(t) ==> t < a.visible().len(),
{
}

} // verus!

verus! {

/// Opening a confirmation and cancelling it leaves the state as it was.
pub proof fn lemma_cancel_undoes_begin(a: AppView, digit: u8)
    requires
        a.pending is None,
    ensures
        a.begun_confirmation(digit).with_pending(None) == a,
{
}

/// Refreshing with the same rows changes nothing, when every process identity occurs once,
/// every collapsed pid is a row's pid, and the selection is on a drawn row (or nothing is
/// drawn and nothing selected).
pub proof fn lemma_refresh_same_rows_keeps_state(a: AppView)
    requires
        forall|i: int, j: int|
            0 <= i < j < a.rows.len() ==> identity(#[trigger] a.rows[i]) != identity(
                #[trigger] a.rows[j],
            ),
        forall|p: i32|
            #[trigger] a.collapsed.contains(p) ==> exists|j: int|
                0 <= j < a.rows.len() && (#[trigger] a.rows[j]).pid == p,
        match a.selected {
            Some(s) => s < a.visible().len(),
            None => a.visible().len() == 0,
        },
    ensures
        a.with_rows(a.rows) == a,
{
    let rows = a.rows;
    let kept = kept_collapsed(rows, a.collapsed, rows);
    assert forall|p: i32| kept.contains(p) <==> a.collapsed.contains(p) by {
        if kept.contains(p) {
            let j = choose|j: int|
                0 <= j < rows.len() && (#[trigger] rows[j]).pid == p && collapsed_identities(
                    rows,
                    a.collapsed,
                ).contains(identity(rows[j]));
            let i = choose|i: int|
                0 <= i < rows.len() && a.collapsed.contains(#[trigger] rows[i].pid) && identity(
                    rows[i],
                ) == identity(rows[j]);
            assert(rows[i].pid == rows[j].pid);
        }
        if a.collapsed.contains(p) {
            let j = choose|j: int| 0 <= j < rows.len() && (#[trigger] rows[j]).pid == p;
            assert(collapsed_identities(rows, a.collapsed).contains(identity(rows[j])));
        }
    }
    assert(kept =~= a.collapsed);
    let v = a.visible();
    if let Some(s) = a.selected {
        lemma_drawn_rows_distinct(rows, a.collapsed);
        let id = identity(rows[v[s as int].0 as int]);
        assert forall|l: int| 0 <= l < s implies !shows_identity(rows, v, id, l) by {
            assert(v[l].0 != v[s as int].0);
            if shows_identity(rows, v, id, l) {
                if v[l].0 < v[s as int].0 {
                    assert(identity(rows[v[l].0 as int]) != identity(rows[v[s as int].0 as int]));
                } else {
                    assert(identity(rows[v[s as int].0 as int]) != identity(rows[v[l].0 as int]));
                }
            }
        }
        lemma_first_position(rows, v, id, s as int);
    }
}

} // verus!

verus! {

/// Collapsing the selected row and expanding it again gives back the same state, when every
/// row has its own pid.
pub proof fn lemma_collapse_then_expand(a: AppView)
    requires
        forall|i: int, j: int|
            0 <= i < j < a.rows.len() ==> (#[trigger] a.rows[i]).pid != (#[trigger] a.rows[j]).pid,
        a.collapse_target() is Some,
    ensures
        a.collapsed_selection().expand_target() == a.collapse_target(),
        a.collapsed_selection().expanded_selection() == a,
{
    let v = a.visible();
    let s = a.selected->0 as int;
    let d = v[s];
    let p = a.rows[d.0 as int].pid;
    lemma_drawn_rows_distinct(a.rows, a.collapsed);
    assert(!a.collapsed.contains(p));
    lemma_collapse_keeps_row(a.rows, a.collapsed, s);
    let b = a.collapsed_selection();
    assert(b == a.with_collapsed(a.collapsed.insert(p)));
    assert(b.visible()[s].0 == d.0);
    assert(b.expand_target() == Some(p));
    assert(a.collapsed.insert(p).remove(p) =~= a.collapsed);
}

} // verus!

verus! {

/// Collapsing the selected row leaves the selection where it was, still on a drawn row and
/// on the same process, when every row has its own pid and the selection was on a drawn row.
pub proof fn lemma_collapse_keeps_selection_drawn(a: AppView)
    requires
        forall|i: int, j: int|
            0 <= i < j < a.rows.len() ==> (#[trigger] a.rows[i]).pid != (#[trigger] a.rows[j]).pid,
        a.selected matches Some(i) ==> i < a.visible().len(),
    ensures
        a.collapsed_selection().selected == a.selected,
        a.collapsed_selection().selected matches Some(i) ==> i < a.collapsed_selection().visible().len(),
        a.collapsed_selection().selected_proc() == a.selected_proc(),
{
    if a.collapse_target() is Some {
        let s = a.selected->0 as int;
        lemma_collapse_keeps_row(a.rows, a.collapsed, s);
    }
}

} // verus!

verus! {

/// After the rows are replaced, every collapsed pid is the pid of one of the new rows.
pub proof fn lemma_refresh_keeps_only_present_pids(a: AppView, rows: Seq<ProcRow>)
    ensures
        forall|p: i32|
            #[trigger] a.with_rows(rows).collapsed.contains(p) ==> exists|j: int|
                0 <= j < rows.len() && (#[trigger] rows[j]).pid == p,
{
}

} // verus!

verus! {

/// Expanding the selected row and collapsing it again gives back the same state, when every
/// row has its own pid.
pub proof fn lemma_expand_then_collapse(a: AppView)
    requires
        forall|i: int, j: int|
            0 <= i < j < a.rows.len() ==> (#[trigger] a.rows[i]).pid != (#[trigger] a.rows[j]).pid,
        a.expand_target() is Some,
    ensures
        a.expanded_selection().collapse_target() == a.expand_target(),
        a.expanded_selection().collapsed_selection() == a,
{
    let rows = a.rows;
    let v = a.visible();
    let s = a.selected->0 as int;
    let d = v[s];
    let p = rows[d.0 as int].pid;
    lemma_drawn_rows_distinct(rows, a.collapsed);
    assert(d.2 && a.collapsed.contains(p));
    let base = a.collapsed.remove(p);
    assert(base.insert(p) =~= a.collapsed);
    let b = a.expanded_selection();
    assert(b == a.with_collapsed(base));
    let v0 = b.visible();
    lemma_display_collapse(rows, base, p);
    lemma_drawn_rows_distinct(rows, base);
    if forall|k: int| 0 <= k < v0.len() ==> rows[(#[trigger] v0[k]).0 as int].pid != p {
        assert(v == v0);
        assert(rows[v0[s].0 as int].pid != p);
    }
    let k0 = choose|k: int| 0 <= k < v0.len() && rows[(#[trigger] v0[k]).0 as int].pid == p;
    let k = lemma_first_pid_at(rows, v0, p, k0);
    assert(v[k] == (v0[k].0, v0[k].1, v0[k].2, v0[k].2));
    if k != s {
        let x = v[k].0 as int;
        let y = v[s].0 as int;
        if x < y {
            assert(rows[x].pid != rows[y].pid);
        } else if y < x {
            assert(rows[y].pid != rows[x].pid);
        }
    }
    assert(k == s);
    assert(b.collapse_target() == Some(p));
    assert(b.collapsed_selection() == b.with_collapsed(base.insert(p)));
}

} // verus!

verus! {

/// Opening a confirmation for a digit that names a signal, with a process selected, aims it
/// at that process: it records the selected row's pid, start time and name and the digit's
/// signal, so on the same rows the target matches right after opening.
pub proof fn lemma_confirmation_records_selected_identity(a: AppView, digit: u8)
    requires
        a.selected_proc() is Some,
        spec_signal_from_digit(digit) is Some,
    ensures
        a.begun_confirmation(digit).pending matches Some(c) && c.pid == a.selected_proc()->0.pid
            && c.start_time == a.selected_proc()->0.start_time && c.process_name
            == a.selected_proc()->0.name && c.signal == spec_signal_from_digit(digit)->0
            && c.digit == digit,
        a.begun_confirmation(digit).rows == a.rows,
        a.begun_confirmation(digit).target_matches(),
{
    let s = a.selected->0 as int;
    let d = a.visible()[s];
    lemma_drawn_rows_distinct(a.rows, a.collapsed);
    assert(d.0 < a.rows.len());
    let b = a.begun_confirmation(digit);
    assert(b.rows[d.0 as int].pid == b.pending->0.pid);
}

/// After a refresh in which no drawn row shows the selected process any more (same pid and
/// start time), or when no process was selected, the selection keeps its index while that
/// index still names a drawn row, and otherwise moves to the last drawn row.
pub proof fn lemma_refresh_keeps_index_of_gone_selection(a: AppView, rows: Seq<ProcRow>, i: usize)
    requires
        a.selected == Some(i),
        a.with_rows(rows).visible().len() > 0,
        a.selected_proc() matches Some(p) ==> forall|k: int|
            0 <= k < a.with_rows(rows).visible().len() ==> identity(
                rows[(#[trigger] a.with_rows(rows).visible()[k]).0 as int],
            ) != identity(p),
    ensures
        a.with_rows(rows).selected == Some(
            if i < a.with_rows(rows).visible().len() {
                i
            } else {
                (a.with_rows(rows).visible().len() - 1) as usize
            },
        ),
{
    let b = a.with_rows(rows);
    let v = b.visible();
    if a.selected_proc() is Some {
        let p = a.selected_proc()->0;
        assert(!exists|k: int| 0 <= k < v.len() && shows_identity(rows, v, identity(p), k)) by {
            assert forall|k: int| 0 <= k < v.len() implies !shows_identity(rows, v, identity(p), k) by {
                assert(identity(rows[v[k].0 as int]) != identity(p));
            }
        }
        assert(first_position_of(rows, v, identity(p)) is None);
    }
}

} // verus!
