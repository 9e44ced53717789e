//! Launcher scenarios: the picker's items, filtering, selection and the
//! command that enter starts.

use roster::config::{compile_agents, RawAgent};
use roster::detector::Detector;
use roster::launcher::{
    command_cell, filter_hint, flicker, in_shine, launch_items, wordmark_revealed, LaunchItem,
    Launcher, LauncherState,
};
use roster::layout::Rect;

/// An agent's table with only its commands set.
fn table(match_command: &[&str], launch_command: Option<&str>) -> RawAgent {
    RawAgent {
        match_command: match_command.iter().map(|s| s.to_string()).collect(),
        launch_command: launch_command.map(|s| s.to_string()),
        blocked: vec![],
        working: vec![],
        idle: vec![],
        reason_blocked: None,
        reason_working: None,
        reason_ignore: vec![],
        activity_ignore: vec![],
        done_after_activity_secs: None,
    }
}

/// A detector over the given tables, in name order.
fn detector(tables: Vec<(&str, RawAgent)>) -> Detector {
    let raw = tables
        .into_iter()
        .map(|(name, t)| (name.to_string(), t))
        .collect();
    Detector::new(compile_agents(raw).unwrap())
}

/// The stock configuration: one agent, run as its bare binary.
fn items() -> Vec<LaunchItem> {
    launch_items(&detector(vec![("agent-code", table(&["agent"], None))]))
}

fn typed(text: &str) -> LauncherState {
    let mut state = LauncherState::new();
    for c in text.chars() {
        state.push(c);
    }
    state
}

#[test]
fn launch_items_lists_agents_only() {
    let items = items();
    let names: Vec<&str> = items.iter().map(|i| i.name.as_str()).collect();
    assert_eq!(names, vec!["agent-code"], "no plain-shell row");
    assert_eq!(items[0].command, "agent");
}

#[test]
fn launch_command_overrides_the_bare_binary() {
    let detector = detector(vec![
        (
            "agent-code",
            table(&["agent"], Some("agent --dangerously-skip-permissions")),
        ),
        ("worker", table(&["worker"], None)),
    ]);
    let items = launch_items(&detector);
    assert_eq!(items[0].name, "agent-code");
    assert_eq!(items[0].command, "agent --dangerously-skip-permissions");
    assert_eq!(items[1].command, "worker", "no override, bare binary");
}

#[test]
fn expand_pulls_the_selected_command_into_the_input() {
    let items = items();
    let mut state = typed("age");
    state.expand(&items);
    assert_eq!(state.input(), "agent");
    // Editing after expansion runs the edited text verbatim.
    for c in " --continue".chars() {
        state.push(c);
    }
    assert_eq!(state.command(&items).as_deref(), Some("agent --continue"));
    // Expanding with no match is a no-op.
    let mut none = typed("zzz");
    none.expand(&items);
    assert_eq!(none.input(), "zzz");
}

#[test]
fn typing_filters_and_enter_picks_the_match() {
    let items = items();
    let state = typed("age");
    let filtered = state.filtered(&items);
    assert_eq!(filtered.len(), 1);
    assert_eq!(filtered[0].name, "agent-code");
    assert_eq!(state.command(&items).as_deref(), Some("agent"));
}

#[test]
fn unmatched_input_runs_verbatim() {
    let items = items();
    let state = typed("npx some-agent --yolo");
    assert!(state.filtered(&items).is_empty());
    assert_eq!(
        state.command(&items).as_deref(),
        Some("npx some-agent --yolo")
    );
}

#[test]
fn empty_input_defaults_to_first_item() {
    let items = items();
    let state = LauncherState::new();
    assert_eq!(state.command(&items).as_deref(), Some("agent"));
}

#[test]
fn selection_wraps_and_backspace_refilters() {
    let detector = detector(vec![
        ("agent-code", table(&["agent"], None)),
        ("worker", table(&["worker"], None)),
    ]);
    let items = launch_items(&detector);
    let mut state = LauncherState::new();
    state.select_prev(&items);
    assert_eq!(state.selected(&items), Some(1));
    state.select_next(&items);
    assert_eq!(state.selected(&items), Some(0));

    state.push('z');
    state.push('z');
    assert!(state.filtered(&items).is_empty());
    assert_eq!(state.command(&items).as_deref(), Some("zz"));
    state.backspace();
    state.backspace();
    assert_eq!(state.filtered(&items).len(), 2);
}

#[test]
fn whitespace_only_input_launches_nothing() {
    let items = items();
    let spaces = typed("   ");
    assert!(spaces.filtered(&items).is_empty());
    assert_eq!(spaces.command(&items), None);

    // Trailing whitespace around a real command is trimmed, not fatal.
    let padded = typed("zzz  ");
    assert_eq!(padded.command(&items).as_deref(), Some("zzz"));
}

#[test]
fn height_clamped_list_refuses_clicks_on_undrawn_rows() {
    // More items than the clamped modal can show: rows land only above
    // the bottom border, and clicking the border (or below) must not
    // launch something never drawn.
    let items: Vec<LaunchItem> = (0..20)
        .map(|i| LaunchItem {
            name: format!("agent-{i}"),
            command: format!("cmd-{i}"),
        })
        .collect();
    let state = LauncherState::new();
    let area = Rect::new(0, 0, 80, 12);
    let launcher = Launcher::new(&items, &state);
    let modal = launcher.modal_rect(area);

    let border_row = modal.y + modal.height - 1;
    let last_item_row = border_row - 1;
    assert!(
        launcher.item_at(area, modal.x + 2, last_item_row).is_some(),
        "last drawn row should still hit"
    );
    assert_eq!(
        launcher.item_at(area, modal.x + 2, border_row),
        None,
        "border row hit an undrawn item"
    );
}

#[test]
fn launch_items_skip_agents_with_nothing_to_run() {
    let detector = detector(vec![
        ("empty", table(&[], None)),
        ("worker", table(&["worker", "w2"], None)),
    ]);
    let items = launch_items(&detector);
    assert_eq!(
        items,
        vec![LaunchItem {
            name: "worker".into(),
            command: "worker".into()
        }]
    );
}

#[test]
fn select_moves_the_row_and_keeps_the_input() {
    let detector = detector(vec![
        ("agent-code", table(&["agent"], None)),
        ("worker", table(&["worker"], None)),
    ]);
    let items = launch_items(&detector);
    let mut state = LauncherState::new();
    state.select(1);
    assert_eq!(state.selected(&items), Some(1));
    assert_eq!(state.command(&items).as_deref(), Some("worker"));
    // A row past the list clamps to the last one.
    state.select(7);
    assert_eq!(state.selected(&items), Some(1));
    assert_eq!(state.input(), "");
}

#[test]
fn wordmark_flicker_is_a_pure_function_of_cell_and_beat() {
    assert_eq!(flicker(0, 0, 0), Some('*'));
    assert_eq!(flicker(2, 1, 0), Some('+'));
    assert_eq!(flicker(21, 2, 2), Some('~'));
    assert_eq!(flicker(26, 0, 0), Some('#'));
    assert_eq!(flicker(1, 0, 0), None);
    // Two ticks make one beat.
    assert_eq!(flicker(26, 0, 1), Some('#'));
    assert_eq!(flicker(26, 0, 2), None);
}

#[test]
fn wide_char_commands_are_placed_by_cells() {
    // A launch command with wide chars is placed by cells: counted in
    // chars it would start too far right and paint through the border.
    let items = vec![LaunchItem {
        name: "agent-code".into(),
        command: "agent 二十文字のコマンド".into(),
    }];
    let state = LauncherState::new();
    let area = Rect::new(0, 0, 60, 20);
    let modal = Launcher::new(&items, &state).modal_rect(area);
    assert_eq!(modal, Rect::new(8, 5, 44, 5));
    let (x, text) = command_cell(&items[0], modal.x + 2, modal).unwrap();
    assert_eq!(text, "agent 二十文字のコマンド");
    // 24 cells, ending one column inside the right border's padding.
    assert_eq!(x, 26);
    assert!(x + 24 <= modal.x + modal.width - 2);
}

#[test]
fn long_commands_are_cut_or_dropped_beside_the_name() {
    let item = LaunchItem {
        name: "agent-code".into(),
        command: "npx some-very-long-agent --with --many --flags".into(),
    };
    let modal = Rect::new(8, 5, 44, 5);
    // Twenty-six cells of room: the command is cut with `…`.
    assert_eq!(
        command_cell(&item, 10, modal),
        Some((24, "npx some-very-long-agent …".to_string()))
    );
    // Under eight cells of room it is left out.
    let narrow = Rect::new(0, 0, 24, 5);
    assert_eq!(command_cell(&item, 2, narrow), None);
}

#[test]
fn an_empty_filter_hints_at_what_enter_runs() {
    assert_eq!(filter_hint(""), "type a command…");
    assert_eq!(filter_hint("   "), "type a command…");
    assert_eq!(filter_hint("  npx thing  "), "↵ run: npx thing");
}

#[test]
fn wordmark_sweeps_in_then_a_band_of_shine_drifts_across() {
    assert_eq!(wordmark_revealed(0, 52), 0);
    assert_eq!(wordmark_revealed(3, 52), 18);
    assert_eq!(wordmark_revealed(100, 52), 52);
    assert_eq!(wordmark_revealed(u64::MAX, 52), 52);
    // Not yet revealed: no shine.
    assert!(!in_shine(2, 3, 52));
    // Revealed at tick 9; the band starts at column 18 % 84 - 16 = 2.
    assert!(in_shine(2, 9, 52));
    assert!(in_shine(7, 9, 52));
    assert!(!in_shine(8, 9, 52));
    assert!(!in_shine(1, 9, 52));
}

#[test]
fn welcome_hints_sit_below_the_items_while_they_fit() {
    let items: Vec<LaunchItem> = (0..2)
        .map(|i| LaunchItem {
            name: format!("agent-{i}"),
            command: format!("cmd-{i}"),
        })
        .collect();
    let state = LauncherState::new();
    let area = Rect::new(0, 0, 80, 40);
    let welcome = Launcher::new(&items, &state).welcome(true);
    assert_eq!(welcome.modal_rect(area), Rect::new(13, 12, 53, 16));
    // Items sit on rows 23 and 24; the hints follow one row further down.
    assert_eq!(welcome.item_row(area, 1), Some(24));
    assert_eq!(welcome.hint_row(area, 0), Some(26));
    assert_eq!(welcome.hint_row(area, 1), Some(27));
    assert_eq!(welcome.hint_row(area, 2), None);
    // The modal picker shows no hints.
    assert_eq!(Launcher::new(&items, &state).hint_row(area, 0), None);
    // A frame too short for them drops them.
    let short = Rect::new(0, 0, 80, 16);
    assert_eq!(welcome.hint_row(short, 0), None);
}
