use psn::app::App;
use psn::model::{ProcRow, ProcStatus};
use psn::process::compile_filter;
use psn::tree::display_order_with_prefix;
use psn::ui::{
    build_footer, build_help, build_title, display_name, highlight_matches, prompt_footer,
    status_text, Segment,
};
use std::collections::HashSet;

/// The text of each segment, and whether it is highlighted.
fn pieces<'a>(text: &'a str, segments: &[Segment]) -> Vec<(&'a str, bool)> {
    segments
        .iter()
        .map(|s| (&text[s.start..s.end], s.highlighted))
        .collect()
}

#[test]
fn build_title_handles_filter_and_plain_modes() {
    assert_eq!(build_title(None, 3), "process status");
    assert_eq!(
        build_title(Some("ssh"), 5),
        "process status - filter: \"ssh\""
    );
}

#[test]
fn build_help_contains_count() {
    assert!(build_help(9).contains("processes: 9"));
    assert!(build_help(9).contains("←/→: collapse/expand"));
}

#[test]
fn build_footer_handles_empty_and_non_empty_status() {
    assert_eq!(build_footer("help", ""), "help");
    assert_eq!(build_footer("help", "ok"), "help  —  ok");
}

#[test]
fn footer_and_cells_for_prompt_collapsed_rows_and_status() {
    assert_eq!(prompt_footer("psn"), "/ psn█");
    assert_eq!(display_name("service", true), "service [...]");
    assert_eq!(display_name("service", false), "service");
    assert_eq!(status_text(ProcStatus::Run), "Run");
    assert_eq!(status_text(ProcStatus::UninterruptibleDiskSleep), "UninterruptibleDiskSleep");
    assert_eq!(status_text(ProcStatus::Unknown(7)), "Unknown(7)");
    assert_eq!(
        build_help(120),
        "processes: 120 | ↑/↓: select | ←/→: collapse/expand | 1-9: send signal | /: filter | r: refresh | q: quit"
    );
}

#[test]
fn footer_shows_the_confirmation_prompt_text() {
    let mut app = App::with_rows(
        Some("psn".to_string()),
        vec![ProcRow {
            pid: 7,
            start_time: 0,
            ppid: None,
            ancestor_chain: Vec::new(),
            user: "alice".to_string(),
            status: ProcStatus::Run,
            cpu_usage_tenths: 0,
            memory_bytes: 0,
            name: "psn".to_string(),
            cmd: "psn --demo".to_string(),
        }],
    );
    app.begin_signal_confirmation(1);
    assert_eq!(
        app.confirmation_prompt().as_deref(),
        Some("confirm sending SIGHUP (1) to process psn (7) (y/n)")
    );
}

#[test]
fn highlight_matches_no_filter_returns_single_plain_span() {
    let text = "hello world";
    let spans = highlight_matches(text, None);
    assert_eq!(spans.len(), 1);
    assert_eq!(pieces(text, &spans), vec![("hello world", false)]);
}

#[test]
fn highlight_matches_substring_no_match_returns_plain_span() {
    let filter = compile_filter(Some("xyz".to_string()), false).ok().flatten();
    let text = "hello world";
    let spans = highlight_matches(text, filter.as_ref());
    assert_eq!(spans.len(), 1);
    assert_eq!(pieces(text, &spans)[0].0, "hello world");
}

#[test]
fn highlight_matches_substring_single_match_returns_three_spans() {
    let filter = compile_filter(Some("world".to_string()), false).ok().flatten();
    let text = "hello world!";
    let spans = highlight_matches(text, filter.as_ref());
    assert_eq!(spans.len(), 3);
    assert_eq!(
        pieces(text, &spans),
        vec![("hello ", false), ("world", true), ("!", false)]
    );
}

#[test]
fn highlight_matches_substring_multiple_matches() {
    let filter = compile_filter(Some("o".to_string()), false).ok().flatten();
    let text = "foo bar boo";
    let spans = highlight_matches(text, filter.as_ref());
    let highlighted: Vec<&str> = pieces(text, &spans)
        .into_iter()
        .filter(|(_, lit)| *lit)
        .map(|(piece, _)| piece)
        .collect();
    assert_eq!(highlighted.len(), 4);
    assert!(highlighted.iter().all(|&s| s == "o"));
}

#[test]
fn highlight_matches_regex_match() {
    let filter = compile_filter(Some("\\d+".to_string()), true).ok().flatten();
    let text = "proc123end";
    let spans = highlight_matches(text, filter.as_ref());
    assert_eq!(spans.len(), 3);
    assert_eq!(pieces(text, &spans)[1], ("123", true));
}

#[test]
fn highlight_matches_regex_no_match_returns_plain_span() {
    let filter = compile_filter(Some("\\d+".to_string()), true).ok().flatten();
    let text = "no digits here";
    let spans = highlight_matches(text, filter.as_ref());
    assert_eq!(spans.len(), 1);
    assert_eq!(pieces(text, &spans)[0], ("no digits here", false));
}

#[test]
fn highlight_matches_substring_non_ascii_filter() {
    let filter = compile_filter(Some("café".to_string()), false).ok().flatten();
    let text = "order café here";
    let spans = highlight_matches(text, filter.as_ref());
    let highlighted: Vec<&str> = pieces(text, &spans)
        .into_iter()
        .filter(|(_, lit)| *lit)
        .map(|(piece, _)| piece)
        .collect();
    assert_eq!(highlighted, vec!["café"]);
}

#[test]
fn highlight_matches_empty_text_returns_plain_empty_span() {
    let filter = compile_filter(Some("foo".to_string()), false).ok().flatten();
    let spans = highlight_matches("", filter.as_ref());
    assert_eq!(spans.len(), 1);
    assert_eq!(pieces("", &spans)[0].0, "");
}

#[test]
fn highlight_matches_is_case_insensitive_and_keeps_the_cell_case() {
    let filter = compile_filter(Some("SSH".to_string()), false).ok().flatten();
    let text = "/usr/bin/Ssh-agent";
    let spans = highlight_matches(text, filter.as_ref());
    assert_eq!(
        pieces(text, &spans),
        vec![("/usr/bin/", false), ("Ssh", true), ("-agent", false)]
    );
    assert_eq!(
        spans,
        vec![
            Segment { start: 0, end: 9, highlighted: false },
            Segment { start: 9, end: 12, highlighted: true },
            Segment { start: 12, end: 18, highlighted: false },
        ]
    );
}

#[test]
fn highlight_matches_adjacent_matches_have_no_plain_gap() {
    let filter = compile_filter(Some("ab".to_string()), false).ok().flatten();
    let text = "ababx";
    let spans = highlight_matches(text, filter.as_ref());
    assert_eq!(
        pieces(text, &spans),
        vec![("ab", true), ("ab", true), ("x", false)]
    );
}

#[test]
fn build_tree_order_nests_children_under_parent() {
    let rows = vec![
        ProcRow {
            pid: 1,
            start_time: 0,
            ppid: None,
            ancestor_chain: Vec::new(),
            user: "u".to_string(),
            status: ProcStatus::Run,
            cpu_usage_tenths: 100,
            memory_bytes: 0,
            name: "parent".to_string(),
            cmd: "/bin/parent".to_string(),
        },
        ProcRow {
            pid: 2,
            start_time: 0,
            ppid: Some(1),
            ancestor_chain: vec![1],
            user: "u".to_string(),
            status: ProcStatus::Run,
            cpu_usage_tenths: 0,
            memory_bytes: 0,
            name: "child".to_string(),
            cmd: "/bin/child".to_string(),
        },
        ProcRow {
            pid: 3,
            start_time: 0,
            ppid: Some(2),
            ancestor_chain: vec![2, 1],
            user: "u".to_string(),
            status: ProcStatus::Run,
            cpu_usage_tenths: 0,
            memory_bytes: 0,
            name: "grandchild".to_string(),
            cmd: "/bin/grandchild".to_string(),
        },
    ];
    let order = display_order_with_prefix(&rows, &HashSet::new());
    assert_eq!(
        order,
        vec![
            (0, "".to_string()),
            (1, "".to_string()),
            (2, "└─".to_string())
        ]
    );
}

#[test]
fn build_tree_order_draws_branch_segments() {
    let rows = vec![
        ProcRow {
            pid: 1,
            start_time: 0,
            ppid: None,
            ancestor_chain: Vec::new(),
            user: "u".to_string(),
            status: ProcStatus::Run,
            cpu_usage_tenths: 100,
            memory_bytes: 0,
            name: "parent".to_string(),
            cmd: "/bin/parent".to_string(),
        },
        ProcRow {
            pid: 2,
            start_time: 0,
            ppid: Some(1),
            ancestor_chain: vec![1],
            user: "u".to_string(),
            status: ProcStatus::Run,
            cpu_usage_tenths: 5,
            memory_bytes: 100,
            name: "child-a".to_string(),
            cmd: "/bin/child-a".to_string(),
        },
        ProcRow {
            pid: 3,
            start_time: 0,
            ppid: Some(1),
            ancestor_chain: vec![1],
            user: "u".to_string(),
            status: ProcStatus::Run,
            cpu_usage_tenths: 2,
            memory_bytes: 100,
            name: "child-b".to_string(),
            cmd: "/bin/child-b".to_string(),
        },
        ProcRow {
            pid: 4,
            start_time: 0,
            ppid: Some(2),
            ancestor_chain: vec![2, 1],
            user: "u".to_string(),
            status: ProcStatus::Run,
            cpu_usage_tenths: 0,
            memory_bytes: 0,
            name: "grandchild".to_string(),
            cmd: "/bin/grandchild".to_string(),
        },
    ];

    let order = display_order_with_prefix(&rows, &HashSet::new());
    assert_eq!(
        order,
        vec![
            (0, "".to_string()),
            (1, "".to_string()),
            (3, "└─".to_string()),
            (2, "".to_string())
        ]
    );
}

#[test]
fn build_tree_order_sorts_siblings_by_status_then_pid() {
    let rows = vec![
        ProcRow {
            pid: 1,
            start_time: 0,
            ppid: None,
            ancestor_chain: Vec::new(),
            user: "u".to_string(),
            status: ProcStatus::Run,
            cpu_usage_tenths: 100,
            memory_bytes: 0,
            name: "parent".to_string(),
            cmd: "/bin/parent".to_string(),
        },
        ProcRow {
            pid: 30,
            start_time: 0,
            ppid: Some(1),
            ancestor_chain: vec![1],
            user: "u".to_string(),
            status: ProcStatus::Sleep,
            cpu_usage_tenths: 0,
            memory_bytes: 0,
            name: "child-sleep".to_string(),
            cmd: "/bin/child-sleep".to_string(),
        },
        ProcRow {
            pid: 40,
            start_time: 0,
            ppid: Some(1),
            ancestor_chain: vec![1],
            user: "u".to_string(),
            status: ProcStatus::Run,
            cpu_usage_tenths: 10,
            memory_bytes: 100,
            name: "child-run-high".to_string(),
            cmd: "/bin/child-run-high".to_string(),
        },
        ProcRow {
            pid: 20,
            start_time: 0,
            ppid: Some(1),
            ancestor_chain: vec![1],
            user: "u".to_string(),
            status: ProcStatus::Run,
            cpu_usage_tenths: 20,
            memory_bytes: 100,
            name: "child-run-low".to_string(),
            cmd: "/bin/child-run-low".to_string(),
        },
    ];

    let order = display_order_with_prefix(&rows, &HashSet::new());
    assert_eq!(
        order,
        vec![
            (0, "".to_string()),
            (3, "".to_string()),
            (2, "".to_string()),
            (1, "".to_string())
        ]
    );
}

#[test]
fn build_tree_order_reattaches_to_nearest_visible_ancestor() {
    let rows = vec![
        ProcRow {
            pid: 1,
            start_time: 0,
            ppid: None,
            ancestor_chain: Vec::new(),
            user: "u".to_string(),
            status: ProcStatus::Run,
            cpu_usage_tenths: 0,
            memory_bytes: 0,
            name: "parent".to_string(),
            cmd: "/bin/parent".to_string(),
        },
        ProcRow {
            pid: 3,
            start_time: 0,
            ppid: Some(2),
            ancestor_chain: vec![2, 1],
            user: "u".to_string(),
            status: ProcStatus::Run,
            cpu_usage_tenths: 0,
            memory_bytes: 0,
            name: "grandchild".to_string(),
            cmd: "/bin/grandchild".to_string(),
        },
    ];
    let order = display_order_with_prefix(&rows, &HashSet::new());
    assert_eq!(order, vec![(0, "".to_string()), (1, "└─".to_string())]);
}


/// The segments run from the first byte to the last without gap or overlap.
fn assert_covers(text: &str, segments: &[Segment]) {
    assert!(!segments.is_empty());
    assert_eq!(segments[0].start, 0);
    assert_eq!(segments[segments.len() - 1].end, text.len());
    for pair in segments.windows(2) {
        assert_eq!(pair[0].end, pair[1].start);
    }
    for s in segments {
        assert!(s.start <= s.end);
    }
}

#[test]
fn highlight_matches_regex_segments_cover_the_text_in_order() {
    let text = "a1b22c333";
    for pattern in ["\\d+", "x*", "[a-c]", "^", "$"] {
        let filter = compile_filter(Some(pattern.to_string()), true).ok().flatten();
        let segments = highlight_matches(text, filter.as_ref());
        assert_covers(text, &segments);
    }
    let filter = compile_filter(Some("\\d+".to_string()), true).ok().flatten();
    let segments = highlight_matches(text, filter.as_ref());
    assert_eq!(
        pieces(text, &segments),
        vec![("a", false), ("1", true), ("b", false), ("22", true), ("c", false), ("333", true)]
    );
}

#[test]
fn highlight_matches_ascii_substring_segments_cover_the_text_in_order() {
    let text = "SshD and sshd";
    let filter = compile_filter(Some("SSH".to_string()), false).ok().flatten();
    let segments = highlight_matches(text, filter.as_ref());
    assert_covers(text, &segments);
    assert_eq!(
        pieces(text, &segments),
        vec![("Ssh", true), ("D and ", false), ("ssh", true), ("d", false)]
    );
}
