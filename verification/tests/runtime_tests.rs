use psn::app::{App, FilterInput};
use psn::effects::Effects;
use psn::model::{ProcRow, ProcStatus};
use psn::process::{compile_filter, FilterSpec};
use psn::runtime::{
    apply_action, handle_event, map_key_event_to_action, Action, ActionResult, Event, KeyCode,
    KeyEventKind,
};
use psn::signal::Signal;

/// Stand-in for the production `await_pid_gone` callback.
fn noop_await(_: i32) {}

#[test]
fn noop_await_runs() {
    noop_await(0);
}

/// Panicking `await_pid_gone` stand-in for tests that require the callback not to run.
fn must_not_run(_: i32) {
    panic!("await_pid_gone must not be called when sender fails");
}

#[test]
#[should_panic(expected = "await_pid_gone must not be called when sender fails")]
fn must_not_run_panics_when_called() {
    must_not_run(0);
}

fn row(pid: i32, name: &str) -> ProcRow {
    ProcRow {
        pid,
        start_time: 0,
        ppid: None,
        ancestor_chain: Vec::new(),
        user: "u".to_string(),
        status: ProcStatus::Run,
        cpu_usage_tenths: 0,
        memory_bytes: 0,
        name: name.to_string(),
        cmd: format!("/bin/{name}"),
    }
}

#[test]
fn map_key_event_to_action_maps_regular_actions() {
    assert_eq!(
        map_key_event_to_action(KeyCode::Char('q'), false, false),
        Action::Quit
    );
    assert_eq!(
        map_key_event_to_action(KeyCode::Char('r'), false, false),
        Action::Refresh
    );
    assert_eq!(
        map_key_event_to_action(KeyCode::Up, false, false),
        Action::MoveUp
    );
    assert_eq!(
        map_key_event_to_action(KeyCode::Down, false, false),
        Action::MoveDown
    );
    assert_eq!(
        map_key_event_to_action(KeyCode::PageUp, false, false),
        Action::PageUp
    );
    assert_eq!(
        map_key_event_to_action(KeyCode::PageDown, false, false),
        Action::PageDown
    );
    assert_eq!(
        map_key_event_to_action(KeyCode::Left, false, false),
        Action::CollapseTree
    );
    assert_eq!(
        map_key_event_to_action(KeyCode::Right, false, false),
        Action::ExpandTree
    );
    assert_eq!(
        map_key_event_to_action(KeyCode::Char('1'), false, false),
        Action::BeginSignalConfirmation(1)
    );
    assert_eq!(
        map_key_event_to_action(KeyCode::Char('0'), false, false),
        Action::Noop
    );
}

#[test]
fn map_key_event_to_action_maps_pending_confirmation_actions() {
    assert_eq!(
        map_key_event_to_action(KeyCode::Enter, true, false),
        Action::ConfirmPendingSignal
    );
    assert_eq!(
        map_key_event_to_action(KeyCode::Char('Y'), true, false),
        Action::ConfirmPendingSignal
    );
    assert_eq!(
        map_key_event_to_action(KeyCode::Esc, true, false),
        Action::CancelPendingSignal
    );
    assert_eq!(
        map_key_event_to_action(KeyCode::Up, true, false),
        Action::Noop
    );
}

#[test]
fn apply_action_confirm_pending_signal_refreshes_and_sends() {
    let mut app = App::with_rows(None, vec![row(11, "foo")]);
    app.begin_signal_confirmation(1);
    let mut refresh_calls = 0;
    let mut refresh = |_: Option<&FilterSpec>| {
        refresh_calls += 1;
        vec![row(11, "foo")]
    };
    let mut sent = false;
    let mut sender = |pid: i32, signal: Signal| {
        sent = true;
        assert_eq!(pid, 11);
        assert_eq!(signal, Signal::SIGHUP);
        Ok(())
    };

    assert_eq!(
        apply_action(&mut app, Action::ConfirmPendingSignal, &mut Effects::new(&mut refresh, &mut sender, &mut (noop_await as fn(i32)))),
        ActionResult {
            should_quit: false,
            needs_redraw: true
        }
    );
    assert!(sent);
    assert_eq!(refresh_calls, 2);
    assert!(app.pending_confirmation.is_none());
}

#[test]
fn apply_action_confirm_pending_signal_invokes_await_pid_gone_with_signaled_pid() {
    let mut app = App::with_rows(None, vec![row(11, "foo")]);
    app.begin_signal_confirmation(1);
    let mut refresh = |_: Option<&FilterSpec>| vec![row(11, "foo")];
    let mut sender = |_: i32, _: Signal| Ok(());
    let mut awaited: Option<i32> = None;
    let mut await_pid_gone = |pid: i32| {
        awaited = Some(pid);
    };

    apply_action(&mut app, Action::ConfirmPendingSignal, &mut Effects::new(&mut refresh, &mut sender, &mut await_pid_gone));

    assert_eq!(awaited, Some(11));
}

#[test]
fn apply_action_confirm_pending_signal_skips_await_when_sender_fails() {
    let mut app = App::with_rows(None, vec![row(11, "foo")]);
    app.begin_signal_confirmation(1);
    let mut refresh = |_: Option<&FilterSpec>| vec![row(11, "foo")];
    let mut sender = |_: i32, _: Signal| Err("denied".to_string());

    // `must_not_run` panics if invoked; reaching the assert means the await
    // hook was correctly skipped on the sender-failure path.
    apply_action(&mut app, Action::ConfirmPendingSignal, &mut Effects::new(&mut refresh, &mut sender, &mut (must_not_run as fn(i32))));

    assert!(app.status.contains("failed"));
}

#[test]
fn apply_action_cancel_pending_signal_clears_confirmation() {
    let mut app = App::with_rows(None, vec![row(11, "foo")]);
    app.begin_signal_confirmation(1);
    let mut refresh = |_: Option<&FilterSpec>| vec![row(11, "foo")];
    let mut sender = |_: i32, _: Signal| Ok(());

    assert_eq!(
        apply_action(&mut app, Action::CancelPendingSignal, &mut Effects::new(&mut refresh, &mut sender, &mut (noop_await as fn(i32)))),
        ActionResult {
            should_quit: false,
            needs_redraw: true
        }
    );
    assert!(app.pending_confirmation.is_none());
}

#[test]
fn apply_action_quit_returns_true() {
    let mut app = App::with_rows(None, vec![row(11, "foo")]);
    let mut refresh = |_: Option<&FilterSpec>| vec![row(11, "foo")];
    let mut sender = |_: i32, _: Signal| Ok(());
    assert_eq!(
        apply_action(&mut app, Action::Quit, &mut Effects::new(&mut refresh, &mut sender, &mut (noop_await as fn(i32)))),
        ActionResult {
            should_quit: true,
            needs_redraw: false
        }
    );
}

#[test]
fn apply_action_refresh_reloads_rows() {
    let mut app = App::with_rows(None, vec![row(11, "foo")]);
    let mut refresh = |_: Option<&FilterSpec>| vec![row(22, "bar")];
    let mut sender = |_: i32, _: Signal| Ok(());
    assert_eq!(
        apply_action(&mut app, Action::Refresh, &mut Effects::new(&mut refresh, &mut sender, &mut (noop_await as fn(i32)))),
        ActionResult {
            should_quit: false,
            needs_redraw: true
        }
    );
    assert_eq!(app.rows[0].pid, 22);
}

#[test]
fn apply_action_move_actions_change_selection() {
    let mut app = App::with_rows(None, vec![row(11, "foo"), row(22, "bar"), row(33, "baz")]);
    let rows = vec![row(11, "foo"), row(22, "bar"), row(33, "baz")];
    let mut refresh = |_: Option<&FilterSpec>| rows.clone();
    let mut sender = |_: i32, _: Signal| Ok(());
    // Exercise the refresh closure so its body is covered.
    apply_action(&mut app, Action::Refresh, &mut Effects::new(&mut refresh, &mut sender, &mut (noop_await as fn(i32))));

    assert_eq!(
        apply_action(&mut app, Action::MoveDown, &mut Effects::new(&mut refresh, &mut sender, &mut (noop_await as fn(i32)))),
        ActionResult {
            should_quit: false,
            needs_redraw: true
        }
    );
    assert_eq!(app.table_state.selected(), Some(1));

    assert_eq!(
        apply_action(&mut app, Action::MoveUp, &mut Effects::new(&mut refresh, &mut sender, &mut (noop_await as fn(i32)))),
        ActionResult {
            should_quit: false,
            needs_redraw: true
        }
    );
    assert_eq!(app.table_state.selected(), Some(0));
}

#[test]
fn apply_action_page_actions_change_selection() {
    let rows: Vec<ProcRow> = (0..25).map(|i| row(i + 1, "p")).collect();
    let mut app = App::with_rows(None, rows.clone());
    let mut refresh = |_: Option<&FilterSpec>| rows.clone();
    let mut sender = |_: i32, _: Signal| Ok(());

    assert_eq!(
        apply_action(&mut app, Action::PageDown, &mut Effects::new(&mut refresh, &mut sender, &mut (noop_await as fn(i32)))),
        ActionResult {
            should_quit: false,
            needs_redraw: true
        }
    );
    assert_eq!(app.table_state.selected(), Some(10));

    assert_eq!(
        apply_action(&mut app, Action::PageUp, &mut Effects::new(&mut refresh, &mut sender, &mut (noop_await as fn(i32)))),
        ActionResult {
            should_quit: false,
            needs_redraw: true
        }
    );
    assert_eq!(app.table_state.selected(), Some(0));
}

#[test]
fn apply_action_tree_actions_toggle_collapsed_state() {
    let rows = vec![
        ProcRow {
            pid: 2,
            start_time: 0,
            ppid: Some(1),
            ancestor_chain: vec![1],
            user: "u".to_string(),
            status: ProcStatus::Run,
            cpu_usage_tenths: 0,
            memory_bytes: 0,
            name: "service".to_string(),
            cmd: "/bin/service".to_string(),
        },
        ProcRow {
            pid: 3,
            start_time: 0,
            ppid: Some(2),
            ancestor_chain: vec![2, 1],
            user: "u".to_string(),
            status: ProcStatus::Run,
            cpu_usage_tenths: 0,
            memory_bytes: 0,
            name: "worker".to_string(),
            cmd: "/bin/worker".to_string(),
        },
    ];
    let mut app = App::with_rows(None, rows.clone());
    let mut refresh = |_: Option<&FilterSpec>| rows.clone();
    let mut sender = |_: i32, _: Signal| Ok(());

    assert_eq!(
        apply_action(&mut app, Action::CollapseTree, &mut Effects::new(&mut refresh, &mut sender, &mut (noop_await as fn(i32)))),
        ActionResult {
            should_quit: false,
            needs_redraw: true
        }
    );
    assert!(app.collapsed_pids.contains(&2));

    assert_eq!(
        apply_action(&mut app, Action::ExpandTree, &mut Effects::new(&mut refresh, &mut sender, &mut (noop_await as fn(i32)))),
        ActionResult {
            should_quit: false,
            needs_redraw: true
        }
    );
    assert!(!app.collapsed_pids.contains(&2));
}

#[test]
fn apply_action_begin_signal_confirmation_sets_pending() {
    let mut app = App::with_rows(None, vec![row(11, "foo")]);
    let mut refresh = |_: Option<&FilterSpec>| vec![row(11, "foo")];
    let mut sender = |_: i32, _: Signal| Ok(());

    assert_eq!(
        apply_action(&mut app, Action::BeginSignalConfirmation(1), &mut Effects::new(&mut refresh, &mut sender, &mut (noop_await as fn(i32)))),
        ActionResult {
            should_quit: false,
            needs_redraw: true
        }
    );
    assert!(app.pending_confirmation.is_some());
}

#[test]
fn apply_action_confirm_pending_signal_aborts_on_target_change() {
    let mut app = App::with_rows(None, vec![row(11, "foo")]);
    app.begin_signal_confirmation(1);
    let mut refresh = |_: Option<&FilterSpec>| vec![row(22, "bar")];
    let mut sender = |_: i32, _: Signal| Ok(());

    assert_eq!(
        apply_action(&mut app, Action::ConfirmPendingSignal, &mut Effects::new(&mut refresh, &mut sender, &mut (noop_await as fn(i32)))),
        ActionResult {
            should_quit: false,
            needs_redraw: true
        }
    );
    assert!(app.status.contains("aborted"));
}

#[test]
fn apply_action_noop_is_noop() {
    let mut app = App::with_rows(None, vec![row(11, "foo")]);
    let mut refresh = |_: Option<&FilterSpec>| vec![row(11, "foo")];
    let mut sender = |_: i32, _: Signal| Ok(());
    let selected = app.table_state.selected();
    assert_eq!(
        apply_action(&mut app, Action::Noop, &mut Effects::new(&mut refresh, &mut sender, &mut (noop_await as fn(i32)))),
        ActionResult {
            should_quit: false,
            needs_redraw: false
        }
    );
    assert_eq!(app.table_state.selected(), selected);
}

#[test]
fn map_key_event_to_action_maps_filter_mode_actions() {
    assert_eq!(
        map_key_event_to_action(KeyCode::Char('/'), false, false),
        Action::BeginInteractiveFilter
    );
    assert_eq!(
        map_key_event_to_action(KeyCode::Char('a'), false, true),
        Action::FilterInputChar('a')
    );
    assert_eq!(
        map_key_event_to_action(KeyCode::Backspace, false, true),
        Action::FilterInputBackspace
    );
    assert_eq!(
        map_key_event_to_action(KeyCode::Enter, false, true),
        Action::FilterConfirm
    );
    assert_eq!(
        map_key_event_to_action(KeyCode::Esc, false, true),
        Action::FilterCancel
    );
    // Normal keys are noop in filter mode.
    assert_eq!(
        map_key_event_to_action(KeyCode::Char('q'), false, true),
        Action::FilterInputChar('q')
    );
}

#[test]
fn apply_action_begin_interactive_filter_opens_prompt() {
    let mut app = App::with_rows(None, vec![row(11, "foo")]);
    let mut refresh = |_: Option<&FilterSpec>| vec![row(11, "foo")];
    let mut sender = |_: i32, _: Signal| Ok(());

    assert_eq!(
        apply_action(&mut app, Action::BeginInteractiveFilter, &mut Effects::new(&mut refresh, &mut sender, &mut (noop_await as fn(i32)))),
        ActionResult {
            should_quit: false,
            needs_redraw: true
        }
    );
    assert!(app.filter_input.is_some());
    assert_eq!(app.filter_input.as_ref().unwrap().text, "");
}

#[test]
fn apply_action_filter_input_char_appends_and_refilters() {
    let mut app = App::with_rows(None, vec![row(11, "foo"), row(22, "bar")]);
    app.filter_input = Some(FilterInput {
        text: String::new(),
        compiled: None,
    });
    let mut refresh = |_: Option<&FilterSpec>| vec![row(11, "foo"), row(22, "bar")];
    let mut sender = |_: i32, _: Signal| Ok(());

    apply_action(&mut app, Action::FilterInputChar('f'), &mut Effects::new(&mut refresh, &mut sender, &mut (noop_await as fn(i32))));
    let fi = app.filter_input.as_ref().unwrap();
    assert_eq!(fi.text, "f");
    assert!(fi.compiled.is_some());
}

#[test]
fn apply_action_filter_input_backspace_removes_char() {
    let mut app = App::with_rows(None, vec![row(11, "foo")]);
    app.filter_input = Some(FilterInput {
        text: "fo".to_string(),
        compiled: None,
    });
    let mut refresh = |_: Option<&FilterSpec>| vec![row(11, "foo")];
    let mut sender = |_: i32, _: Signal| Ok(());

    apply_action(&mut app, Action::FilterInputBackspace, &mut Effects::new(&mut refresh, &mut sender, &mut (noop_await as fn(i32))));
    assert_eq!(app.filter_input.as_ref().unwrap().text, "f");
}

#[test]
fn apply_action_filter_confirm_commits_filter() {
    let mut app = App::with_rows(None, vec![row(11, "foo"), row(22, "bar")]);
    app.filter_input = Some(FilterInput {
        text: "foo".to_string(),
        compiled: None,
    });
    let mut refresh = |_: Option<&FilterSpec>| vec![row(11, "foo")];
    let mut sender = |_: i32, _: Signal| Ok(());

    apply_action(&mut app, Action::FilterConfirm, &mut Effects::new(&mut refresh, &mut sender, &mut (noop_await as fn(i32))));
    assert!(app.filter_input.is_none());
    assert_eq!(app.filter.as_deref(), Some("foo"));
    assert!(app.compiled_filter.is_some());
}

#[test]
fn apply_action_filter_cancel_restores_state() {
    let mut app = App::with_rows(None, vec![row(11, "foo")]);
    app.filter_input = Some(FilterInput {
        text: "bar".to_string(),
        compiled: None,
    });
    let mut refresh = |_: Option<&FilterSpec>| vec![row(11, "foo")];
    let mut sender = |_: i32, _: Signal| Ok(());

    let result = apply_action(&mut app, Action::FilterCancel, &mut Effects::new(&mut refresh, &mut sender, &mut (noop_await as fn(i32))));
    assert!(app.filter_input.is_none());
    assert!(result.needs_redraw);
}

#[test]
fn map_key_event_to_action_filter_mode_allows_navigation_keys() {
    assert_eq!(
        map_key_event_to_action(KeyCode::Up, false, true),
        Action::MoveUp
    );
    assert_eq!(
        map_key_event_to_action(KeyCode::Down, false, true),
        Action::MoveDown
    );
    assert_eq!(
        map_key_event_to_action(KeyCode::PageUp, false, true),
        Action::PageUp
    );
    assert_eq!(
        map_key_event_to_action(KeyCode::PageDown, false, true),
        Action::PageDown
    );
    assert_eq!(
        map_key_event_to_action(KeyCode::Left, false, true),
        Action::CollapseTree
    );
    assert_eq!(
        map_key_event_to_action(KeyCode::Right, false, true),
        Action::ExpandTree
    );
}

#[test]
fn map_key_event_to_action_filter_mode_noop_for_unknown_key() {
    assert_eq!(
        map_key_event_to_action(KeyCode::F(1), false, true),
        Action::Noop
    );
}

#[test]
fn map_key_event_to_action_noop_for_unknown_key_in_normal_mode() {
    assert_eq!(
        map_key_event_to_action(KeyCode::F(1), false, false),
        Action::Noop
    );
}

#[test]
fn apply_action_begin_interactive_filter_prefills_existing_substring() {
    let mut app = App::with_rows(None, vec![row(11, "foo")]);
    app.compiled_filter = compile_filter(Some("foo".to_string()), false)
        .ok()
        .flatten();
    let mut refresh = |_: Option<&FilterSpec>| vec![row(11, "foo")];
    let mut sender = |_: i32, _: Signal| Ok(());

    apply_action(&mut app, Action::BeginInteractiveFilter, &mut Effects::new(&mut refresh, &mut sender, &mut (noop_await as fn(i32))));
    let fi = app.filter_input.as_ref().unwrap();
    assert_eq!(fi.text, "foo");
    assert!(fi.compiled.is_some());
}

#[test]
fn apply_action_filter_input_char_noop_when_not_in_filter_mode() {
    let mut app = App::with_rows(None, vec![row(11, "foo")]);
    let mut refresh = |_: Option<&FilterSpec>| vec![row(22, "bar")];
    let mut sender = |_: i32, _: Signal| Ok(());

    let result = apply_action(&mut app, Action::FilterInputChar('x'), &mut Effects::new(&mut refresh, &mut sender, &mut (noop_await as fn(i32))));
    assert!(!result.needs_redraw);
    // Rows must not change since filter mode is not active.
    assert_eq!(app.rows[0].pid, 11);
}

#[test]
fn apply_action_filter_input_backspace_noop_when_not_in_filter_mode() {
    let mut app = App::with_rows(None, vec![row(11, "foo")]);
    let mut refresh = |_: Option<&FilterSpec>| vec![row(22, "bar")];
    let mut sender = |_: i32, _: Signal| Ok(());

    let result = apply_action(&mut app, Action::FilterInputBackspace, &mut Effects::new(&mut refresh, &mut sender, &mut (noop_await as fn(i32))));
    assert!(!result.needs_redraw);
    assert_eq!(app.rows[0].pid, 11);
}

#[test]
fn apply_action_filter_input_backspace_clears_compiled_when_text_becomes_empty() {
    let mut app = App::with_rows(None, vec![row(11, "foo"), row(22, "bar")]);
    app.filter_input = Some(FilterInput {
        text: "f".to_string(),
        compiled: compile_filter(Some("f".to_string()), false)
            .ok()
            .flatten(),
    });
    let mut refresh = |_: Option<&FilterSpec>| vec![row(11, "foo"), row(22, "bar")];
    let mut sender = |_: i32, _: Signal| Ok(());

    apply_action(&mut app, Action::FilterInputBackspace, &mut Effects::new(&mut refresh, &mut sender, &mut (noop_await as fn(i32))));
    let fi = app.filter_input.as_ref().unwrap();
    assert_eq!(fi.text, "");
    assert!(fi.compiled.is_none());
}

#[test]
fn apply_action_filter_confirm_noop_when_not_in_filter_mode() {
    let mut app = App::with_rows(None, vec![row(11, "foo")]);
    let mut refresh = |_: Option<&FilterSpec>| vec![row(11, "foo")];
    let mut sender = |_: i32, _: Signal| Ok(());

    apply_action(&mut app, Action::FilterConfirm, &mut Effects::new(&mut refresh, &mut sender, &mut (noop_await as fn(i32))));
    // filter_input was None, compiled_filter stays None, rows refresh with None filter.
    assert!(app.filter_input.is_none());
    assert!(app.compiled_filter.is_none());
}

#[test]
fn apply_action_filter_confirm_with_empty_text_clears_filter() {
    let mut app = App::with_rows(None, vec![row(11, "foo"), row(22, "bar")]);
    app.filter_input = Some(FilterInput {
        text: String::new(),
        compiled: None,
    });
    let mut refresh = |_: Option<&FilterSpec>| vec![row(11, "foo"), row(22, "bar")];
    let mut sender = |_: i32, _: Signal| Ok(());

    apply_action(&mut app, Action::FilterConfirm, &mut Effects::new(&mut refresh, &mut sender, &mut (noop_await as fn(i32))));
    assert!(app.filter_input.is_none());
    assert!(app.filter.is_none());
    assert!(app.compiled_filter.is_none());
}

#[test]
fn apply_action_filter_cancel_noop_when_not_active() {
    let mut app = App::with_rows(None, vec![row(11, "foo")]);
    let mut refresh = |_: Option<&FilterSpec>| vec![row(22, "bar")];
    let mut sender = |_: i32, _: Signal| Ok(());

    let result = apply_action(&mut app, Action::FilterCancel, &mut Effects::new(&mut refresh, &mut sender, &mut (noop_await as fn(i32))));
    assert!(!result.needs_redraw);
    // Rows must not change since there was nothing to cancel.
    assert_eq!(app.rows[0].pid, 11);
}

#[test]
fn apply_action_begin_interactive_filter_applies_prefill_immediately() {
    // Start with two rows; refresh returns only foo when given a substring filter.
    let mut app = App::with_rows(None, vec![row(11, "foo"), row(22, "bar")]);
    app.compiled_filter = compile_filter(Some("foo".to_string()), false)
        .ok()
        .flatten();
    // Simulate the live process list: only foo matches the pre-filled filter.
    let mut refresh = |f: Option<&FilterSpec>| {
        if f.is_some() {
            vec![row(11, "foo")]
        } else {
            vec![row(11, "foo"), row(22, "bar")]
        }
    };
    let mut sender = |_: i32, _: Signal| Ok(());

    apply_action(&mut app, Action::BeginInteractiveFilter, &mut Effects::new(&mut refresh, &mut sender, &mut (noop_await as fn(i32))));
    // The row list must already reflect the pre-filled filter.
    assert_eq!(app.rows.len(), 1);
    assert_eq!(app.rows[0].pid, 11);
}

#[test]
fn apply_action_filter_cancel_resets_selection_to_first() {
    let mut app = App::with_rows(None, vec![row(11, "foo"), row(22, "bar")]);
    app.filter_input = Some(FilterInput {
        text: "x".to_string(),
        compiled: None,
    });
    app.table_state.select(Some(1)); // selection somewhere other than first
    let mut refresh = |_: Option<&FilterSpec>| vec![row(11, "foo"), row(22, "bar")];
    let mut sender = |_: i32, _: Signal| Ok(());

    apply_action(&mut app, Action::FilterCancel, &mut Effects::new(&mut refresh, &mut sender, &mut (noop_await as fn(i32))));
    assert_eq!(app.table_state.selected(), Some(0));
}

#[test]
fn apply_action_filter_input_char_resets_selection_to_first() {
    let mut app = App::with_rows(None, vec![row(11, "foo"), row(22, "bar")]);
    app.filter_input = Some(FilterInput {
        text: String::new(),
        compiled: None,
    });
    app.table_state.select(Some(1)); // pre-select last row
    let mut refresh = |_: Option<&FilterSpec>| vec![row(11, "foo"), row(22, "bar")];
    let mut sender = |_: i32, _: Signal| Ok(());

    apply_action(&mut app, Action::FilterInputChar('f'), &mut Effects::new(&mut refresh, &mut sender, &mut (noop_await as fn(i32))));
    assert_eq!(app.table_state.selected(), Some(0));
}

#[test]
fn handle_event_redraws_on_resize_and_quits_on_q() {
    let mut app = App::with_rows(None, vec![row(11, "foo")]);
    let mut refresh = |_: Option<&FilterSpec>| vec![row(11, "foo")];
    let mut sender = |_: i32, _: Signal| Ok(());
    let mut wait = noop_await as fn(i32);
    assert_eq!(
        handle_event(&mut app, Event::Resize(100, 20), &mut Effects::new(&mut refresh, &mut sender, &mut wait)),
        ActionResult {
            should_quit: false,
            needs_redraw: true
        }
    );
    assert_eq!(
        handle_event(&mut app, Event::Key(KeyCode::Char('q'), KeyEventKind::Press), &mut Effects::new(&mut refresh, &mut sender, &mut wait)),
        ActionResult {
            should_quit: true,
            needs_redraw: false
        }
    );
}

#[test]
fn handle_event_ignores_releases_and_other_events() {
    let mut app = App::with_rows(None, vec![row(11, "foo"), row(12, "bar")]);
    let mut refresh = |_: Option<&FilterSpec>| vec![row(11, "foo"), row(12, "bar")];
    let mut sender = |_: i32, _: Signal| Ok(());
    let mut wait = noop_await as fn(i32);
    let idle = ActionResult {
        should_quit: false,
        needs_redraw: false,
    };
    assert_eq!(
        handle_event(&mut app, Event::Key(KeyCode::Down, KeyEventKind::Release), &mut Effects::new(&mut refresh, &mut sender, &mut wait)),
        idle
    );
    assert_eq!(
        handle_event(&mut app, Event::Other, &mut Effects::new(&mut refresh, &mut sender, &mut wait)),
        idle
    );
    assert_eq!(app.table_state.selected(), Some(0));
    handle_event(&mut app, Event::Key(KeyCode::Down, KeyEventKind::Press), &mut Effects::new(&mut refresh, &mut sender, &mut wait));
    assert_eq!(app.table_state.selected(), Some(1));
}

#[test]
fn handle_event_routes_keys_by_mode() {
    let mut app = App::with_rows(None, vec![row(11, "foo")]);
    let mut refresh = |_: Option<&FilterSpec>| vec![row(11, "foo")];
    let mut sender = |_: i32, _: Signal| Ok(());
    let mut wait = noop_await as fn(i32);
    handle_event(&mut app, Event::Key(KeyCode::Char('/'), KeyEventKind::Press), &mut Effects::new(&mut refresh, &mut sender, &mut wait));
    handle_event(&mut app, Event::Key(KeyCode::Char('q'), KeyEventKind::Press), &mut Effects::new(&mut refresh, &mut sender, &mut wait));
    assert_eq!(app.filter_input.as_ref().unwrap().text, "q");
    handle_event(&mut app, Event::Key(KeyCode::Esc, KeyEventKind::Press), &mut Effects::new(&mut refresh, &mut sender, &mut wait));
    assert!(app.filter_input.is_none());
    handle_event(&mut app, Event::Key(KeyCode::Char('9'), KeyEventKind::Press), &mut Effects::new(&mut refresh, &mut sender, &mut wait));
    assert_eq!(app.confirmation_prompt().as_deref(), Some("confirm sending SIGKILL (9) to process foo (11) (y/n)"));
    assert_eq!(
        map_key_event_to_action(KeyCode::Char('5'), false, false),
        Action::BeginSignalConfirmation(5)
    );
    assert_eq!(
        map_key_event_to_action(KeyCode::Char('n'), true, true),
        Action::CancelPendingSignal
    );
}

#[test]
fn apply_action_filter_prompt_applies_the_typed_filter_to_refreshes() {
    let mut app = App::with_rows(None, vec![row(11, "foo"), row(22, "bar")]);
    let mut seen: Vec<Option<String>> = Vec::new();
    let mut refresh = |f: Option<&FilterSpec>| {
        seen.push(match f {
            Some(FilterSpec::Substring { raw, .. }) => Some(raw.clone()),
            _ => None,
        });
        vec![row(11, "foo")]
    };
    let mut sender = |_: i32, _: Signal| Ok(());
    apply_action(&mut app, Action::BeginInteractiveFilter, &mut Effects::new(&mut refresh, &mut sender, &mut (noop_await as fn(i32))));
    apply_action(&mut app, Action::FilterInputChar('F'), &mut Effects::new(&mut refresh, &mut sender, &mut (noop_await as fn(i32))));
    apply_action(&mut app, Action::FilterConfirm, &mut Effects::new(&mut refresh, &mut sender, &mut (noop_await as fn(i32))));
    assert_eq!(seen, vec![None, Some("F".to_string()), Some("F".to_string())]);
    assert_eq!(app.filter.as_deref(), Some("F"));
    match &app.compiled_filter {
        Some(FilterSpec::Substring { lowered, .. }) => assert_eq!(lowered, "f"),
        _ => panic!("the committed filter must be a substring filter"),
    }
}

#[test]
fn apply_action_calls_no_callback_for_actions_without_outside_work() {
    let mut app = App::with_rows(None, vec![row(11, "foo"), row(22, "bar")]);
    let mut refresh = |_: Option<&FilterSpec>| -> Vec<ProcRow> { panic!("no read expected") };
    let mut sender = |_: i32, _: Signal| -> Result<(), String> { panic!("no delivery expected") };
    let mut wait = |_: i32| -> () { panic!("no wait expected") };
    for action in [
        Action::Noop,
        Action::MoveDown,
        Action::MoveUp,
        Action::PageDown,
        Action::PageUp,
        Action::CollapseTree,
        Action::ExpandTree,
        Action::BeginSignalConfirmation(9),
        Action::CancelPendingSignal,
        Action::FilterInputChar('x'),
        Action::FilterInputBackspace,
        Action::FilterCancel,
        Action::Quit,
    ] {
        apply_action(&mut app, action, &mut Effects::new(&mut refresh, &mut sender, &mut wait));
    }
}

#[test]
fn apply_action_abort_reads_rows_once_and_delivers_nothing() {
    let mut app = App::with_rows(None, vec![row(11, "foo")]);
    app.begin_signal_confirmation(1);
    let mut reads = 0;
    let mut refresh = |_: Option<&FilterSpec>| {
        reads += 1;
        vec![row(22, "bar")]
    };
    let mut sender = |_: i32, _: Signal| -> Result<(), String> { panic!("no delivery expected") };
    let mut wait = |_: i32| -> () { panic!("no wait expected") };
    let result = apply_action(
        &mut app,
        Action::ConfirmPendingSignal,
        &mut Effects::new(&mut refresh, &mut sender, &mut wait),
    );
    assert_eq!(result, ActionResult { should_quit: false, needs_redraw: true });
    assert_eq!(reads, 1);
    assert!(app.status.contains("aborted"));
    assert!(app.pending_confirmation.is_none());
}
