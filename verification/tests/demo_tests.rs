use psn::demo::{
    build_debug_rows, debug_signal_sender, debug_statuses, next_seed, status_label,
    MAX_DEBUG_ROWS,
};
use psn::model::ProcStatus;
use psn::signal::Signal;
use std::collections::HashSet;

#[test]
fn build_debug_rows_stays_within_visual_limit() {
    let rows = build_debug_rows(123);
    assert!(!rows.is_empty());
    assert!(rows.len() <= MAX_DEBUG_ROWS);
}

#[test]
fn build_debug_rows_contains_every_status_variant() {
    let rows = build_debug_rows(456);
    let actual: HashSet<String> = rows
        .iter()
        .map(|row| status_label(&row.status).to_string())
        .collect();
    let expected: HashSet<String> = debug_statuses()
        .into_iter()
        .map(|status| status_label(&status).to_string())
        .collect();

    assert_eq!(actual, expected);
}

#[test]
fn status_label_maps_unknown_status() {
    assert_eq!(status_label(&ProcStatus::Unknown(7)), "unknown");
}

#[test]
fn build_debug_rows_keeps_identities_stable_across_refreshes() {
    let first = build_debug_rows(123);
    let second = build_debug_rows(456);

    assert_eq!(first.len(), second.len());
    for (first_row, second_row) in first.iter().zip(second.iter()) {
        assert_eq!(first_row.pid, second_row.pid);
        assert_eq!(first_row.start_time, second_row.start_time);
        assert_eq!(first_row.status, second_row.status);
    }
}

#[test]
fn debug_signal_sender_never_dispatches_real_signal() {
    let result = debug_signal_sender(1, Signal::SIGKILL);
    assert_eq!(result, Err("debug tui: signal suppressed".to_string()));
}

#[test]
fn build_debug_rows_form_the_fixed_tree() {
    let rows = build_debug_rows(7);
    assert_eq!(rows.len(), 14);
    assert_eq!(rows[0].pid, 4000);
    assert_eq!(rows[13].pid, 4000 + 13 * 17);
    assert_eq!(rows[13].start_time, 10_013);
    assert_eq!(rows[0].ppid, None);
    assert_eq!(rows[3].ppid, Some(4017));
    assert_eq!(rows[3].ancestor_chain, vec![4017]);
    assert_eq!(rows[13].ancestor_chain, vec![4204]);
    assert_eq!(rows[7].ancestor_chain, vec![4068]);
    assert!(rows[2].name.starts_with("watcher-idle"));
}

#[test]
fn build_debug_rows_draw_figures_from_the_seeded_generator() {
    let seed = 99u64;
    let rows = build_debug_rows(seed);
    let mut state = seed ^ 0x9E37_79B9_7F4A_7C15;
    let users = ["root", "alice", "bob", "carol", "daemon"];
    let flags = [
        "--inspect",
        "--keys",
        "--colors",
        "--tree",
        "--layout",
        "--signals",
        "--focus",
        "--preview",
    ];
    for row in &rows {
        state = next_seed(state);
        assert_eq!(row.user, users[(state % 5) as usize]);
        state = next_seed(state);
        let flag = flags[(state % 8) as usize];
        state = next_seed(state);
        let slot = 1 + state % 9;
        assert_eq!(row.cmd, format!("/usr/bin/{} {} --slot={}", row.name, flag, slot));
        state = next_seed(state);
        assert_eq!(row.cpu_usage_tenths as u64, state % 999);
        state = next_seed(state);
        assert_eq!(row.memory_bytes, 32_768 + state % (536_870_912 - 32_768));
    }
    assert_eq!(next_seed(0), 1);
    assert_eq!(next_seed(1), 6364136223846793006);
}
