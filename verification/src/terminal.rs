//! Terminal lifecycle: entering and leaving full-screen mode.
//!
//! The order of the mode changes and what happens when one fails live in [`enter`] and
//! [`leave`], which work on any [`TerminalOps`] through [`Recorded`], the record of every
//! mode change made; a real terminal implements that trait outside this library.

use vstd::prelude::*;

use crate::recorded::Recorded;

verus! {

/// One terminal mode change.
#[derive(Clone, Copy, Debug, PartialEq, Eq, Structural)]
pub enum TerminalStep {
    /// Raw mode on.
    EnableRaw,
    /// Raw mode off.
    DisableRaw,
    /// Alternate screen on.
    EnterAlternate,
    /// Alternate screen off.
    LeaveAlternate,
    /// Cursor shown.
    ShowCursor,
}

/// The terminal mode changes the full-screen lifecycle performs; each method makes one
/// change and reports whether it worked.
pub trait TerminalOps {
    /// What a failed mode change reports.
    type Error;

    /// Put the terminal into raw mode, so keys arrive unbuffered and unechoed.
    fn enable_raw(&mut self) -> Result<(), Self::Error>;

    /// Return the terminal to cooked mode.
    fn disable_raw(&mut self) -> Result<(), Self::Error>;

    /// Switch to the alternate screen, preserving the user's scrollback.
    fn enter_alternate(&mut self) -> Result<(), Self::Error>;

    /// Switch back to the primary screen.
    fn leave_alternate(&mut self) -> Result<(), Self::Error>;

    /// Make the cursor visible again.
    fn show_cursor(&mut self) -> Result<(), Self::Error>;
}

/// What entering full-screen mode leaves in the history after `before`: raw mode fails and
/// its error is returned; or both raw mode and the alternate screen succeed; or the alternate
/// screen fails, raw mode is turned off again whatever that reports, and the alternate
/// screen's error is returned.
pub open spec fn entered<E>(
    before: Seq<(TerminalStep, Result<(), E>)>,
    after: Seq<(TerminalStep, Result<(), E>)>,
    r: Result<(), E>,
) -> bool {
    ||| exists|e: E|
        after == before.push((TerminalStep::EnableRaw, Err(e))) && r == Err::<(), E>(e)
    ||| after == before.push((TerminalStep::EnableRaw, Ok(()))).push(
        (TerminalStep::EnterAlternate, Ok(())),
    ) && r == Ok::<(), E>(())
    ||| exists|e: E, undo: Result<(), E>|
        after == before.push((TerminalStep::EnableRaw, Ok(()))).push(
            (TerminalStep::EnterAlternate, Err(e)),
        ).push((TerminalStep::DisableRaw, undo)) && r == Err::<(), E>(e)
}

/// What leaving full-screen mode leaves in the history after `before`: raw mode off, the
/// primary screen back and the cursor shown, each attempted whatever the others reported.
pub open spec fn left<E>(before: Seq<(TerminalStep, Result<(), E>)>, after: Seq<(TerminalStep, Result<(), E>)>) -> bool {
    exists|a: Result<(), E>, b: Result<(), E>, c: Result<(), E>|
        after == before.push((TerminalStep::DisableRaw, a)).push((TerminalStep::LeaveAlternate, b)).push(
            (TerminalStep::ShowCursor, c),
        )
}

/// Enter full-screen mode: raw mode first, then the alternate screen. When the alternate
/// screen fails, raw mode is turned off again (its own failure ignored) and the alternate
/// screen's error is returned, so a failed start never leaves the shell in raw mode.
pub fn enter<T: TerminalOps>(term: &mut Recorded<T>) -> (r: Result<(), T::Error>)
    ensures
        entered(old(term).history(), final(term).history(), r),
{
    let ghost h0 = term.history();
    let first = term.enable_raw();
    let ghost g = first;
    match first {
        Ok(u) => {
            assert(u == ());
        },
        Err(e) => return Err(e),
    }
    assert(g == Ok::<(), T::Error>(()));
    let second = term.enter_alternate();
    let ghost h2 = term.history();
    let ghost g2 = second;
    match second {
        Ok(u) => {
            assert(u == ());
            assert(g2 == Ok::<(), T::Error>(()));
            Ok(())
        },
        Err(e) => {
            let undo = term.disable_raw();
            assert(term.history() == h2.push((TerminalStep::DisableRaw, undo)));
            Err(e)
        },
    }
}

/// Leave full-screen mode, undoing [`enter`] in reverse: raw mode off, primary screen back,
/// cursor shown. Every step is attempted whatever the earlier ones reported.
pub fn leave<T: TerminalOps>(term: &mut Recorded<T>)
    ensures
        left(old(term).history(), final(term).history()),
{
    let a = term.disable_raw();
    let b = term.leave_alternate();
    let c = term.show_cursor();
    assert(term.history() == old(term).history().push((TerminalStep::DisableRaw, a)).push(
        (TerminalStep::LeaveAlternate, b),
    ).push((TerminalStep::ShowCursor, c)));
}

/// A successful [`enter`] followed by [`leave`] records, after what came before, exactly
/// this: raw mode on and the alternate screen on, both succeeding, then raw mode off, the
/// primary screen back and the cursor shown, whatever those report. Each change `enter` made
/// is undone, in reverse order, and leaving turns nothing on.
pub proof fn lemma_enter_then_leave<E>(
    before: Seq<(TerminalStep, Result<(), E>)>,
    inside: Seq<(TerminalStep, Result<(), E>)>,
    after: Seq<(TerminalStep, Result<(), E>)>,
)
    requires
        entered(before, inside, Ok::<(), E>(())),
        left(inside, after),
    ensures
        exists|a: Result<(), E>, b: Result<(), E>, c: Result<(), E>|
            after == before + seq![
                (TerminalStep::EnableRaw, Ok::<(), E>(())),
                (TerminalStep::EnterAlternate, Ok::<(), E>(())),
                (TerminalStep::DisableRaw, a),
                (TerminalStep::LeaveAlternate, b),
                (TerminalStep::ShowCursor, c),
            ],
{
    assert(inside == before.push((TerminalStep::EnableRaw, Ok::<(), E>(()))).push(
        (TerminalStep::EnterAlternate, Ok::<(), E>(())),
    ));
    let (a, b, c) = choose|a: Result<(), E>, b: Result<(), E>, c: Result<(), E>|
        after == inside.push((TerminalStep::DisableRaw, a)).push((TerminalStep::LeaveAlternate, b)).push(
            (TerminalStep::ShowCursor, c),
        );
    assert(after =~= before + seq![
        (TerminalStep::EnableRaw, Ok::<(), E>(())),
        (TerminalStep::EnterAlternate, Ok::<(), E>(())),
        (TerminalStep::DisableRaw, a),
        (TerminalStep::LeaveAlternate, b),
        (TerminalStep::ShowCursor, c),
    ]);
}

} // verus!
