//! Input mapping and the application of actions to the application state.

use vstd::prelude::*;
use vstd::utf8::is_ascii_chars;

use crate::app::{App, AppView, FilterInput, aborted_message};
use crate::effects::{Effect, Effects};
use crate::model::ProcRow;
use crate::process::{FilterSpec, compile_filter, unicode_lowercase};
use crate::signal::Signal;
use crate::text::{pop_char, push_char};

verus! {

/// Number of rows moved by page navigation actions.
pub const PAGE_STEP: usize = 10;

/// A key of the keyboard, as far as the key bindings tell keys apart.
#[derive(Clone, Copy, Debug, PartialEq, Eq, Structural)]
pub enum KeyCode {
    /// A character key.
    Char(char),
    /// Enter.
    Enter,
    /// Escape.
    Esc,
    /// Backspace.
    Backspace,
    /// Arrow up.
    Up,
    /// Arrow down.
    Down,
    /// Page up.
    PageUp,
    /// Page down.
    PageDown,
    /// Arrow left.
    Left,
    /// Arrow right.
    Right,
    /// A function key.
    F(u8),
    /// Any other key.
    Other,
}

/// Whether a key event is a press, a repeat or a release.
#[derive(Clone, Copy, Debug, PartialEq, Eq, Structural)]
pub enum KeyEventKind {
    /// Key pressed.
    Press,
    /// Key held down.
    Repeat,
    /// Key released.
    Release,
}

/// A terminal input event, as far as the event loop tells events apart.
#[derive(Clone, Copy, Debug, PartialEq, Eq, Structural)]
pub enum Event {
    /// A key event.
    Key(KeyCode, KeyEventKind),
    /// The terminal was resized to these columns and rows.
    Resize(u16, u16),
    /// Any other event (focus, mouse, paste).
    Other,
}

/// Mapped high-level actions produced from key input.
#[derive(Clone, Copy, Debug, PartialEq, Eq, Structural)]
pub enum Action {
    /// Exit the main event loop.
    Quit,
    /// Refresh process rows from the system.
    Refresh,
    /// Move selection one row up.
    MoveUp,
    /// Move selection one row down.
    MoveDown,
    /// Move selection one page up.
    PageUp,
    /// Move selection one page down.
    PageDown,
    /// Collapse the selected tree row.
    CollapseTree,
    /// Expand the selected tree row.
    ExpandTree,
    /// Open signal confirmation for a digit-mapped signal.
    BeginSignalConfirmation(u8),
    /// Confirm and dispatch the pending signal action.
    ConfirmPendingSignal,
    /// Cancel the pending signal action.
    CancelPendingSignal,
    /// Open the interactive `/` filter prompt.
    BeginInteractiveFilter,
    /// Append a character to the interactive filter input.
    FilterInputChar(char),
    /// Remove the last character from the interactive filter input.
    FilterInputBackspace,
    /// Confirm and apply the interactive filter.
    FilterConfirm,
    /// Discard the interactive filter and restore the previous state.
    FilterCancel,
    /// Intentionally perform no state change.
    Noop,
}

/// Outcome of applying an action to application state.
#[derive(Clone, Copy, Debug, PartialEq, Eq, Structural)]
pub struct ActionResult {
    /// Whether the event loop should exit after this action.
    pub should_quit: bool,
    /// Whether the screen should be redrawn after this action.
    pub needs_redraw: bool,
}

/// The action a key selects: while a confirmation is pending only y/Y/Enter (confirm) and
/// n/N/Esc (cancel) count; in the filter prompt characters are typed and navigation keys
/// still move; otherwise q quits, r refreshes, / opens the prompt, arrows and page keys
/// navigate and the digits 1-9 ask to send a signal.
pub open spec fn key_action(key: KeyCode, pending_confirmation: bool, in_filter_mode: bool) -> Action {
    if pending_confirmation {
        match key {
            KeyCode::Char(c) => if c == 'y' || c == 'Y' {
                Action::ConfirmPendingSignal
            } else if c == 'n' || c == 'N' {
                Action::CancelPendingSignal
            } else {
                Action::Noop
            },
            KeyCode::Enter => Action::ConfirmPendingSignal,
            KeyCode::Esc => Action::CancelPendingSignal,
            _ => Action::Noop,
        }
    } else if in_filter_mode {
        match key {
            KeyCode::Char(c) => Action::FilterInputChar(c),
            KeyCode::Backspace => Action::FilterInputBackspace,
            KeyCode::Enter => Action::FilterConfirm,
            KeyCode::Esc => Action::FilterCancel,
            KeyCode::Up => Action::MoveUp,
            KeyCode::Down => Action::MoveDown,
            KeyCode::PageUp => Action::PageUp,
            KeyCode::PageDown => Action::PageDown,
            KeyCode::Left => Action::CollapseTree,
            KeyCode::Right => Action::ExpandTree,
            _ => Action::Noop,
        }
    } else {
        match key {
            KeyCode::Char(c) => if c == 'q' {
                Action::Quit
            } else if c == 'r' {
                Action::Refresh
            } else if c == '/' {
                Action::BeginInteractiveFilter
            } else if '1' <= c <= '9' {
                Action::BeginSignalConfirmation((c as u32 - '0' as u32) as u8)
            } else {
                Action::Noop
            },
            KeyCode::Up => Action::MoveUp,
            KeyCode::Down => Action::MoveDown,
            KeyCode::PageUp => Action::PageUp,
            KeyCode::PageDown => Action::PageDown,
            KeyCode::Left => Action::CollapseTree,
            KeyCode::Right => Action::ExpandTree,
            _ => Action::Noop,
        }
    }
}

/// Map a key press to a runtime action.
pub fn map_key_event_to_action(key_code: KeyCode, pending_confirmation: bool, in_filter_mode: bool) -> (r:
    Action)
    ensures
        r == key_action(key_code, pending_confirmation, in_filter_mode),
{
    if pending_confirmation {
        return match key_code {
            KeyCode::Char('y') | KeyCode::Char('Y') | KeyCode::Enter => Action::ConfirmPendingSignal,
            KeyCode::Char('n') | KeyCode::Char('N') | KeyCode::Esc => Action::CancelPendingSignal,
            _ => Action::Noop,
        };
    }
    if in_filter_mode {
        return match key_code {
            KeyCode::Char(c) => Action::FilterInputChar(c),
            KeyCode::Backspace => Action::FilterInputBackspace,
            KeyCode::Enter => Action::FilterConfirm,
            KeyCode::Esc => Action::FilterCancel,
            KeyCode::Up => Action::MoveUp,
            KeyCode::Down => Action::MoveDown,
            KeyCode::PageUp => Action::PageUp,
            KeyCode::PageDown => Action::PageDown,
            KeyCode::Left => Action::CollapseTree,
            KeyCode::Right => Action::ExpandTree,
            _ => Action::Noop,
        };
    }
    match key_code {
        KeyCode::Char('q') => Action::Quit,
        KeyCode::Char('r') => Action::Refresh,
        KeyCode::Char('/') => Action::BeginInteractiveFilter,
        KeyCode::Up => Action::MoveUp,
        KeyCode::Down => Action::MoveDown,
        KeyCode::PageUp => Action::PageUp,
        KeyCode::PageDown => Action::PageDown,
        KeyCode::Left => Action::CollapseTree,
        KeyCode::Right => Action::ExpandTree,
        KeyCode::Char(c) => if '1' <= c && c <= '9' {
            Action::BeginSignalConfirmation((c as u32 - '0' as u32) as u8)
        } else {
            Action::Noop
        },
        _ => Action::Noop,
    }
}

} // verus!

verus! {

/// The prompt's filter for `text`: none for empty text, else a case-insensitive substring
/// filter holding the text, its lowercase form and whether it is ASCII.
pub open spec fn substring_filter_of(text: Seq<char>, compiled: Option<FilterSpec>) -> bool {
    if text.len() == 0 {
        compiled is None
    } else {
        compiled matches Some(FilterSpec::Substring { raw, lowered, ascii_only }) && raw@ == text
            && lowered@ == unicode_lowercase(text) && ascii_only == is_ascii_chars(text)
    }
}

/// Text the prompt opens with: the committed filter's text when it is a substring filter.
pub open spec fn prefill(compiled_filter: Option<FilterSpec>) -> Seq<char> {
    match compiled_filter {
        Some(FilterSpec::Substring { raw, .. }) => raw@,
        _ => Seq::empty(),
    }
}

/// Prompt text after a backspace: the last character removed, if any.
pub open spec fn backspaced(text: Seq<char>) -> Seq<char> {
    if text.len() == 0 {
        text
    } else {
        text.drop_last()
    }
}

/// Result of an action that changed what is shown.
pub open spec fn redraw() -> ActionResult {
    ActionResult { should_quit: false, needs_redraw: true }
}

/// Result of an action that changed nothing shown.
pub open spec fn idle() -> ActionResult {
    ActionResult { should_quit: false, needs_redraw: false }
}

/// Result of a navigation action: redraw when the selection changed.
pub open spec fn moved(before: AppView, after: AppView) -> ActionResult {
    ActionResult { should_quit: false, needs_redraw: after.selected != before.selected }
}

/// The rows a read handed back (none for other calls).
pub open spec fn rows_read(e: Effect) -> Seq<ProcRow> {
    match e {
        Effect::Refresh { rows, .. } => rows,
        _ => Seq::empty(),
    }
}

/// The filter a read was made with (none for other calls).
pub open spec fn filter_read(e: Effect) -> Option<FilterSpec> {
    match e {
        Effect::Refresh { filter, .. } => filter,
        _ => None,
    }
}

/// The outcome of a delivery (success for other calls).
pub open spec fn outcome_of(e: Effect) -> Result<(), String> {
    match e {
        Effect::Send { outcome, .. } => outcome,
        _ => Ok(()),
    }
}

/// A read of the rows that pass `filter`.
pub open spec fn is_refresh_with(e: Effect, filter: Option<FilterSpec>) -> bool {
    e is Refresh && filter_read(e) == filter
}

/// The calls an action made: those in `after` beyond the `before` it started from.
pub open spec fn calls_since(before: Seq<Effect>, after: Seq<Effect>) -> Seq<Effect> {
    after.skip(before.len() as int)
}

/// The prompt set to `text` with its substring filter, the rows read once with that filter
/// and the first row selected.
pub open spec fn prompt_step(before: AppView, after: AppView, text: Seq<char>, calls: Seq<Effect>) -> bool {
    exists|fi: FilterInput|
        #![trigger before.with_filter_input(Some(fi))]
        fi.text@ == text && substring_filter_of(text, fi.compiled) && calls.len() == 1
            && is_refresh_with(calls[0], fi.compiled) && after == before.with_filter_input(
            Some(fi),
        ).with_rows(rows_read(calls[0])).first_selected()
}

/// Committing the prompt: its text becomes the filter (none when empty) and its compiled
/// filter, or the substring filter of its text, the committed filter; the prompt closes;
/// then the rows are read once with the committed filter and the status cleared.
pub open spec fn commit_step(before: AppView, after: AppView, calls: Seq<Effect>) -> bool {
    let c = filter_read(calls[0]);
    let rows = rows_read(calls[0]);
    &&& calls.len() == 1
    &&& calls[0] is Refresh
    &&& match before.filter_input {
        Some(fi) => (fi.compiled is Some ==> c == fi.compiled) && (fi.compiled is None
            ==> substring_filter_of(fi.text@, c)) && after == (AppView {
            filter: if fi.text@.len() == 0 {
                None
            } else {
                Some(fi.text)
            },
            compiled_filter: c,
            filter_input: None,
            ..before
        }).refreshed(rows),
        None => c == before.compiled_filter && after == before.refreshed(rows),
    }
}

/// Confirming a pending signal: the rows are read first. If the target process is gone (no
/// row with its pid and start time) the confirmation is aborted and nothing else is called.
/// Otherwise the pending signal is delivered to the pending pid; only after a successful
/// delivery comes the wait for that pid; the outcome is reported and the rows read again.
pub open spec fn confirm_step(before: AppView, after: AppView, calls: Seq<Effect>) -> bool {
    let mid = before.with_rows(rows_read(calls[0]));
    let p = before.pending->0;
    let outcome = outcome_of(calls[1]);
    let last: int = if outcome is Ok {
        3
    } else {
        2
    };
    &&& calls.len() >= 1
    &&& is_refresh_with(calls[0], before.compiled_filter)
    &&& if !mid.target_matches() {
        calls.len() == 1 && after == mid.aborted()
    } else {
        &&& calls.len() == last + 1
        &&& calls[1] == Effect::Send { pid: p.pid, signal: p.signal, outcome }
        &&& outcome is Ok ==> calls[2] == Effect::Await { target: p.pid }
        &&& is_refresh_with(calls[last], before.compiled_filter)
        &&& after == mid.confirmed(outcome).with_rows(rows_read(calls[last]))
    }
}

/// What applying `action` does, given the calls it made: the state it leaves, its result,
/// and which calls those are, in order. Actions that need no rows, signal or wait make no
/// call at all.
pub open spec fn action_step(
    action: Action,
    before: AppView,
    after: AppView,
    r: ActionResult,
    calls: Seq<Effect>,
) -> bool {
    match action {
        Action::Quit => after == before && r == ActionResult { should_quit: true, needs_redraw: false }
            && calls.len() == 0,
        Action::Refresh => r == redraw() && calls.len() == 1 && is_refresh_with(
            calls[0],
            before.compiled_filter,
        ) && after == before.refreshed(rows_read(calls[0])),
        Action::MoveUp => after == before.moved_up() && r == moved(before, after) && calls.len() == 0,
        Action::MoveDown => after == before.moved_down() && r == moved(before, after) && calls.len()
            == 0,
        Action::PageUp => after == before.paged_up(PAGE_STEP) && r == moved(before, after)
            && calls.len() == 0,
        Action::PageDown => after == before.paged_down(PAGE_STEP) && r == moved(before, after)
            && calls.len() == 0,
        Action::CollapseTree => after == before.collapsed_selection() && r == (ActionResult {
            should_quit: false,
            needs_redraw: before.collapse_target() is Some,
        }) && calls.len() == 0,
        Action::ExpandTree => after == before.expanded_selection() && r == (ActionResult {
            should_quit: false,
            needs_redraw: before.expand_target() is Some,
        }) && calls.len() == 0,
        Action::BeginSignalConfirmation(digit) => after == before.begun_confirmation(digit) && r == (
        ActionResult {
            should_quit: false,
            needs_redraw: (after.pending is Some) != (before.pending is Some),
        }) && calls.len() == 0,
        Action::ConfirmPendingSignal => r == redraw() && confirm_step(before, after, calls),
        Action::CancelPendingSignal => after == before.with_pending(None) && r == (ActionResult {
            should_quit: false,
            needs_redraw: before.pending is Some,
        }) && calls.len() == 0,
        Action::BeginInteractiveFilter => r == redraw() && prompt_step(
            before,
            after,
            prefill(before.compiled_filter),
            calls,
        ),
        Action::FilterInputChar(c) => match before.filter_input {
            Some(fi) => r == redraw() && prompt_step(before, after, fi.text@.push(c), calls),
            None => after == before && r == idle() && calls.len() == 0,
        },
        Action::FilterInputBackspace => match before.filter_input {
            Some(fi) => r == redraw() && prompt_step(before, after, backspaced(fi.text@), calls),
            None => after == before && r == idle() && calls.len() == 0,
        },
        Action::FilterConfirm => r == redraw() && commit_step(before, after, calls),
        Action::FilterCancel => match before.filter_input {
            Some(_) => r == redraw() && calls.len() == 1 && is_refresh_with(
                calls[0],
                before.compiled_filter,
            ) && after == before.with_filter_input(None).with_rows(rows_read(calls[0])).first_selected(),
            None => after == before && r == idle() && calls.len() == 0,
        },
        Action::Noop => after == before && r == idle() && calls.len() == 0,
    }
}

/// What the callbacks must accept for `action` on state `app`: every read, and for a
/// confirmation the pending delivery and, after it succeeds, the wait.
pub open spec fn callbacks_ready<R, S, W>(fx: &Effects<R, S, W>, app: AppView, action: Action) -> bool where
    R: FnMut(Option<&FilterSpec>) -> Vec<ProcRow>,
    S: FnMut(i32, Signal) -> Result<(), String>,
    W: FnMut(i32),
 {
    &&& fx.can_refresh()
    &&& action == Action::ConfirmPendingSignal ==> (app.pending matches Some(p) ==> fx.can_signal(
        p.pid,
        p.signal,
    ))
}

/// The prompt's compiled filter for `text`.
fn compile_substring(text: &String) -> (r: Option<FilterSpec>)
    ensures
        substring_filter_of(text@, r),
{
    if text.as_str().is_empty() {
        return None;
    }
    match compile_filter(Some(text.clone()), false) {
        Ok(compiled) => compiled,
        Err(_) => None,
    }
}

/// Whether two selections differ.
fn selection_changed(a: Option<usize>, b: Option<usize>) -> (r: bool)
    ensures
        r == (a != b),
{
    match (a, b) {
        (Some(x), Some(y)) => x != y,
        (None, None) => false,
        _ => true,
    }
}


/// Read the rows with the committed filter.
fn refresh_with_committed_filter<R, S, W>(app: &mut App, fx: &mut Effects<R, S, W>, keep_status: bool)
    where
        R: FnMut(Option<&FilterSpec>) -> Vec<ProcRow>,
        S: FnMut(i32, Signal) -> Result<(), String>,
        W: FnMut(i32),
    requires
        old(fx).can_refresh(),
    ensures
        final(fx).same_callbacks(old(fx)),
        final(fx).log() == old(fx).log().push(final(fx).log().last()),
        is_refresh_with(final(fx).log().last(), old(app)@.compiled_filter),
        final(app)@ == if keep_status {
            old(app)@.with_rows(rows_read(final(fx).log().last()))
        } else {
            old(app)@.refreshed(rows_read(final(fx).log().last()))
        },
{
    let rows = fx.refresh(app.compiled_filter.as_ref());
    if keep_status {
        app.refresh_preserving_status(rows);
    } else {
        app.refresh(rows);
    }
}

/// Set the prompt to `fi`, read the rows with its filter and select the first row.
fn show_prompt<R, S, W>(app: &mut App, fi: FilterInput, fx: &mut Effects<R, S, W>)
    where
        R: FnMut(Option<&FilterSpec>) -> Vec<ProcRow>,
        S: FnMut(i32, Signal) -> Result<(), String>,
        W: FnMut(i32),
    requires
        old(fx).can_refresh(),
    ensures
        final(fx).same_callbacks(old(fx)),
        final(fx).log() == old(fx).log().push(final(fx).log().last()),
        is_refresh_with(final(fx).log().last(), fi.compiled),
        final(app)@ == old(app)@.with_filter_input(Some(fi)).with_rows(
            rows_read(final(fx).log().last()),
        ).first_selected(),
{
    let rows = fx.refresh(fi.compiled.as_ref());
    let ghost seen = rows@;
    let ghost f = fi;
    app.filter_input = Some(fi);
    app.refresh_preserving_status(rows);
    app.select_first();
    assert(app@ == old(app)@.with_filter_input(Some(f)).with_rows(seen).first_selected());
}

/// Apply a mapped action. Rows are read, signals delivered and signalled processes waited
/// for through `fx`, which records each call; the contract names the calls made.
pub fn apply_action<R, S, W>(app: &mut App, action: Action, fx: &mut Effects<R, S, W>) -> (r: ActionResult)
    where
        R: FnMut(Option<&FilterSpec>) -> Vec<ProcRow>,
        S: FnMut(i32, Signal) -> Result<(), String>,
        W: FnMut(i32),
    requires
        callbacks_ready(old(fx), old(app)@, action),
    ensures
        final(fx).same_callbacks(old(fx)),
        final(fx).log() == old(fx).log() + calls_since(old(fx).log(), final(fx).log()),
        action_step(action, old(app)@, final(app)@, r, calls_since(old(fx).log(), final(fx).log())),
{
    let ghost log0 = fx.log();
    let ghost start = app@;
    let r = match action {
        Action::Quit => ActionResult { should_quit: true, needs_redraw: false },
        Action::Refresh => {
            refresh_with_committed_filter(app, fx, false);
            ActionResult { should_quit: false, needs_redraw: true }
        },
        Action::MoveUp => {
            let selected_before = app.table_state.selected();
            app.move_up();
            ActionResult {
                should_quit: false,
                needs_redraw: selection_changed(app.table_state.selected(), selected_before),
            }
        },
        Action::MoveDown => {
            let selected_before = app.table_state.selected();
            app.move_down();
            ActionResult {
                should_quit: false,
                needs_redraw: selection_changed(app.table_state.selected(), selected_before),
            }
        },
        Action::PageUp => {
            let selected_before = app.table_state.selected();
            app.page_up(PAGE_STEP);
            ActionResult {
                should_quit: false,
                needs_redraw: selection_changed(app.table_state.selected(), selected_before),
            }
        },
        Action::PageDown => {
            let selected_before = app.table_state.selected();
            app.page_down(PAGE_STEP);
            ActionResult {
                should_quit: false,
                needs_redraw: selection_changed(app.table_state.selected(), selected_before),
            }
        },
        Action::CollapseTree => {
            let changed = app.collapse_selected();
            ActionResult { should_quit: false, needs_redraw: changed }
        },
        Action::ExpandTree => {
            let changed = app.expand_selected();
            ActionResult { should_quit: false, needs_redraw: changed }
        },
        Action::BeginSignalConfirmation(digit) => {
            let had_pending = app.pending_confirmation.is_some();
            app.begin_signal_confirmation(digit);
            ActionResult {
                should_quit: false,
                needs_redraw: app.pending_confirmation.is_some() != had_pending,
            }
        },
        Action::ConfirmPendingSignal => {
            confirm_pending(app, fx);
            ActionResult { should_quit: false, needs_redraw: true }
        },
        Action::CancelPendingSignal => {
            let had_pending = app.pending_confirmation.is_some();
            app.cancel_signal_confirmation();
            ActionResult { should_quit: false, needs_redraw: had_pending }
        },
        Action::BeginInteractiveFilter => {
            let pre_fill: String = match &app.compiled_filter {
                Some(FilterSpec::Substring { raw, .. }) => raw.clone(),
                _ => String::new(),
            };
            let compiled = compile_substring(&pre_fill);
            show_prompt(app, FilterInput { text: pre_fill, compiled }, fx);
            ActionResult { should_quit: false, needs_redraw: true }
        },
        Action::FilterInputChar(c) => {
            match app.filter_input.take() {
                Some(fi) => {
                    let mut fi = fi;
                    push_char(&mut fi.text, c);
                    fi.compiled = compile_substring(&fi.text);
                    let ghost shown = fi;
                    assert(app@.with_filter_input(Some(shown)) == start.with_filter_input(Some(shown)));
                    show_prompt(app, fi, fx);
                    ActionResult { should_quit: false, needs_redraw: true }
                },
                None => ActionResult { should_quit: false, needs_redraw: false },
            }
        },
        Action::FilterInputBackspace => {
            match app.filter_input.take() {
                Some(fi) => {
                    let mut fi = fi;
                    pop_char(&mut fi.text);
                    fi.compiled = compile_substring(&fi.text);
                    let ghost shown = fi;
                    assert(app@.with_filter_input(Some(shown)) == start.with_filter_input(Some(shown)));
                    show_prompt(app, fi, fx);
                    ActionResult { should_quit: false, needs_redraw: true }
                },
                None => ActionResult { should_quit: false, needs_redraw: false },
            }
        },
        Action::FilterConfirm => {
            commit_filter(app, fx);
            ActionResult { should_quit: false, needs_redraw: true }
        },
        Action::FilterCancel => {
            let was_active = match app.filter_input.take() {
                Some(_) => true,
                None => false,
            };
            if was_active {
                refresh_with_committed_filter(app, fx, true);
                app.select_first();
            }
            ActionResult { should_quit: false, needs_redraw: was_active }
        },
        Action::Noop => ActionResult { should_quit: false, needs_redraw: false },
    };
    proof {
        let added = calls_since(log0, fx.log());
        if fx.log() == log0 {
            assert(added =~= Seq::<Effect>::empty());
        } else if fx.log() == log0.push(fx.log().last()) {
            assert(added =~= seq![fx.log().last()]);
        }
        assert(fx.log() =~= log0 + added);
    }
    r
}

/// Commit the prompt as the filter, then read the rows and clear the status.
fn commit_filter<R, S, W>(app: &mut App, fx: &mut Effects<R, S, W>)
    where
        R: FnMut(Option<&FilterSpec>) -> Vec<ProcRow>,
        S: FnMut(i32, Signal) -> Result<(), String>,
        W: FnMut(i32),
    requires
        old(fx).can_refresh(),
    ensures
        final(fx).same_callbacks(old(fx)),
        final(fx).log() == old(fx).log().push(final(fx).log().last()),
        commit_step(old(app)@, final(app)@, seq![final(fx).log().last()]),
{
    if let Some(fi) = app.filter_input.take() {
        let FilterInput { text, compiled } = fi;
        let compiled = match compiled {
            Some(c) => Some(c),
            None => compile_substring(&text),
        };
        app.filter = if text.as_str().is_empty() {
            None
        } else {
            Some(text)
        };
        app.compiled_filter = compiled;
    }
    refresh_with_committed_filter(app, fx, false);
}

/// Read the rows; if the pending target is gone, abort; otherwise deliver the pending signal,
/// wait for the pid after a successful delivery, report the outcome and read the rows again.
fn confirm_pending<R, S, W>(app: &mut App, fx: &mut Effects<R, S, W>)
    where
        R: FnMut(Option<&FilterSpec>) -> Vec<ProcRow>,
        S: FnMut(i32, Signal) -> Result<(), String>,
        W: FnMut(i32),
    requires
        old(fx).can_refresh(),
        old(app)@.pending matches Some(p) ==> old(fx).can_signal(p.pid, p.signal),
    ensures
        final(fx).same_callbacks(old(fx)),
        final(fx).log() == old(fx).log() + calls_since(old(fx).log(), final(fx).log()),
        confirm_step(old(app)@, final(app)@, calls_since(old(fx).log(), final(fx).log())),
{
    let ghost log0 = fx.log();
    let ghost before = app@;
    refresh_with_committed_filter(app, fx, true);
    let ghost first = fx.log().last();
    let ghost mid = app@;
    if !app.pending_target_matches_current_rows() {
        app.abort_pending_target_changed();
        assert(calls_since(log0, fx.log()) =~= seq![first]);
        return;
    }
    let (pid, signal) = match &app.pending_confirmation {
        Some(p) => (p.pid, p.signal),
        None => {
            assert(false);
            return;
        },
    };
    let outcome = fx.send(pid, signal);
    let delivered = outcome.is_ok();
    let ghost sent = fx.log().last();
    app.settle_confirmation(outcome);
    if delivered {
        fx.await_gone(pid);
    }
    let ghost waited = fx.log().last();
    refresh_with_committed_filter(app, fx, true);
    let ghost second = fx.log().last();
    proof {
        let added = calls_since(log0, fx.log());
        if delivered {
            assert(added =~= seq![first, sent, waited, second]);
        } else {
            assert(added =~= seq![first, sent, second]);
        }
        assert(fx.log() =~= log0 + added);
    }
}

/// Handle one input event: a resize asks for a redraw; a key press is mapped to an action
/// and applied; anything else is ignored and makes no call.
pub fn handle_event<R, S, W>(app: &mut App, event: Event, fx: &mut Effects<R, S, W>) -> (r: ActionResult)
    where
        R: FnMut(Option<&FilterSpec>) -> Vec<ProcRow>,
        S: FnMut(i32, Signal) -> Result<(), String>,
        W: FnMut(i32),
    requires
        old(fx).can_refresh(),
        old(app)@.pending matches Some(p) ==> old(fx).can_signal(p.pid, p.signal),
    ensures
        final(fx).same_callbacks(old(fx)),
        final(fx).log() == old(fx).log() + calls_since(old(fx).log(), final(fx).log()),
        match event {
            Event::Key(code, KeyEventKind::Press) => action_step(
                key_action(code, old(app)@.pending is Some, old(app)@.filter_input is Some),
                old(app)@,
                final(app)@,
                r,
                calls_since(old(fx).log(), final(fx).log()),
            ),
            Event::Resize(_, _) => final(app)@ == old(app)@ && r == redraw() && calls_since(
                old(fx).log(),
                final(fx).log(),
            ).len() == 0,
            _ => final(app)@ == old(app)@ && r == idle() && calls_since(old(fx).log(), final(fx).log()).len()
                == 0,
        },
{
    match event {
        Event::Resize(_, _) => {
            assert(calls_since(fx.log(), fx.log()) =~= Seq::<Effect>::empty());
            ActionResult { should_quit: false, needs_redraw: true }
        },
        Event::Key(code, KeyEventKind::Press) => {
            let action = map_key_event_to_action(
                code,
                app.pending_confirmation.is_some(),
                app.filter_input.is_some(),
            );
            apply_action(app, action, fx)
        },
        _ => {
            assert(calls_since(fx.log(), fx.log()) =~= Seq::<Effect>::empty());
            ActionResult { should_quit: false, needs_redraw: false }
        },
    }
}

} // verus!

verus! {

/// Only the quit action ends the event loop.
pub proof fn lemma_only_quit_quits(
    action: Action,
    before: AppView,
    after: AppView,
    r: ActionResult,
    calls: Seq<Effect>,
)
    requires
        action_step(action, before, after, r, calls),
    ensures
        r.should_quit <==> action == Action::Quit,
{
}

/// While a confirmation is pending, a key can only confirm it, cancel it or do nothing.
pub proof fn lemma_pending_confirmation_captures_keys(key: KeyCode, in_filter_mode: bool)
    ensures
        key_action(key, true, in_filter_mode) == Action::ConfirmPendingSignal || key_action(
            key,
            true,
            in_filter_mode,
        ) == Action::CancelPendingSignal || key_action(key, true, in_filter_mode) == Action::Noop,
{
}

/// A signal is only delivered to the process the confirmation was opened for: when the
/// target is gone from the rows read first, the rows are the only call made (no delivery,
/// no wait), the confirmation is dropped and the abort is reported.
pub proof fn lemma_confirm_aborts_for_changed_target(before: AppView, after: AppView, calls: Seq<Effect>)
    requires
        confirm_step(before, after, calls),
        !before.with_rows(rows_read(calls[0])).target_matches(),
    ensures
        calls.len() == 1,
        (calls[0] is Refresh),
        (after.pending is None),
        after.status == match before.pending {
            Some(p) => aborted_message(p.process_name@, p.pid),
            None => before.status,
        },
{
}

/// A confirmed signal goes to the pending pid and no other, after the rows were read; the
/// wait for that pid follows only a successful delivery, and nothing else is delivered or
/// waited for.
pub proof fn lemma_confirm_sends_once_and_waits_only_after_success(
    before: AppView,
    after: AppView,
    calls: Seq<Effect>,
)
    requires
        confirm_step(before, after, calls),
        before.with_rows(rows_read(calls[0])).target_matches(),
    ensures
        (calls[0] is Refresh),
        (calls[1] matches Effect::Send { pid, signal, .. } && pid == before.pending->0.pid
            && signal == before.pending->0.signal),
        forall|i: int| 1 < i < calls.len() ==> !(#[trigger] calls[i] is Send),
        (exists|i: int| 0 <= i < calls.len() && #[trigger] calls[i] is Await) <==> (outcome_of(
            calls[1],
        ) is Ok),
        forall|i: int|
            0 <= i < calls.len() && #[trigger] calls[i] is Await ==> (calls[i] == (Effect::Await {
                target: before.pending->0.pid,
            })),
{
    if outcome_of(calls[1]) is Ok {
        assert(calls[2] is Await);
    } else {
        assert forall|i: int| 0 <= i < calls.len() implies !(#[trigger] calls[i] is Await) by {
            if i == 0 {
                assert(calls[0] is Refresh);
            }
        }
    }
}

} // verus!

verus! {

/// A backspace takes back the character typed last.
pub proof fn lemma_backspace_undoes_typing(text: Seq<char>, c: char)
    ensures
        backspaced(text.push(c)) == text,
{
    assert(text.push(c).drop_last() =~= text);
}

/// Cancelling the filter prompt closes it and keeps the committed filter.
pub proof fn lemma_filter_cancel_keeps_committed_filter(
    before: AppView,
    after: AppView,
    r: ActionResult,
    calls: Seq<Effect>,
)
    requires
        action_step(Action::FilterCancel, before, after, r, calls),
    ensures
        after.filter_input is None,
        after.filter == before.filter,
        after.compiled_filter == before.compiled_filter,
        after.status == before.status,
{
}

} // verus!

verus! {

/// While a confirmation is pending, whether or not the filter prompt is open, exactly y, Y
/// and Enter confirm it and exactly n, N and Esc cancel it.
pub proof fn lemma_confirmation_keys(key: KeyCode, in_filter_mode: bool)
    ensures
        key_action(key, true, in_filter_mode) == Action::ConfirmPendingSignal <==> (key
            == KeyCode::Char('y') || key == KeyCode::Char('Y') || key == KeyCode::Enter),
        key_action(key, true, in_filter_mode) == Action::CancelPendingSignal <==> (key
            == KeyCode::Char('n') || key == KeyCode::Char('N') || key == KeyCode::Esc),
{
}

/// With no confirmation pending and the prompt closed, q quits, r refreshes, / opens the
/// filter prompt and each digit 1 to 9 asks to send the signal bound to that digit; with
/// the prompt open, every character key is typed into it.
pub proof fn lemma_command_keys(c: char)
    ensures
        key_action(KeyCode::Char('q'), false, false) == Action::Quit,
        key_action(KeyCode::Char('r'), false, false) == Action::Refresh,
        key_action(KeyCode::Char('/'), false, false) == Action::BeginInteractiveFilter,
        '1' <= c <= '9' ==> key_action(KeyCode::Char(c), false, false)
            == Action::BeginSignalConfirmation((c as u32 - '0' as u32) as u8),
        key_action(KeyCode::Char(c), false, true) == Action::FilterInputChar(c),
{
}

} // verus!
