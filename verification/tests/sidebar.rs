//! Sidebar scenarios: which cards there are, their order, the row plan,
//! keyboard selection and the controls' columns.

use roster::config::{compile_agent, RawAgent};
use roster::detector::Detector;
use roster::layout::SplitDirection;
use roster::session::{AgentState, PaneId, Session};
use roster::sidebar::{
    auto_all_cols, auto_chip_cols, format_age, sidebar_entries, sidebar_rows, Message, SidebarEntry,
    SidebarRow, SidebarState,
};
use roster::widgets::{state_glyph, truncate};

fn detector() -> Detector {
    let table = RawAgent {
        match_command: vec!["agent".to_string()],
        launch_command: None,
        blocked: vec![],
        working: vec![],
        idle: vec![],
        reason_blocked: None,
        reason_working: None,
        reason_ignore: vec![],
        activity_ignore: vec![],
        done_after_activity_secs: None,
    };
    Detector::new(vec![compile_agent("agent-code".to_string(), table).unwrap()])
}

/// One second, in the nanoseconds the library's clock counts.
const SEC: u128 = 1_000_000_000;

const NOW: u128 = 1_000 * SEC;

fn secs_ago(secs: u128) -> u128 {
    NOW - secs * SEC
}

fn populated_session() -> (Session<()>, Vec<PaneId>) {
    let mut session = Session::<()>::new();
    let a = session.focused().unwrap();
    let b = session.split(a, SplitDirection::Horizontal).unwrap();
    let c = session.split(b, SplitDirection::Vertical).unwrap();
    let d = session.split(c, SplitDirection::Vertical).unwrap();
    session.set_command(a, Some("agent".into()));
    session.set_command(b, Some("agent".into()));
    session.set_command(c, Some("agent".into()));
    session.set_command(d, Some("zsh".into()));
    session.set_reading(a, AgentState::Working, Some("running tests".into()), secs_ago(5));
    session.set_reading(b, AgentState::Blocked, Some("Approve this command?".into()), secs_ago(30));
    session.set_reading(c, AgentState::Done, Some("finished".into()), secs_ago(2));
    (session, vec![a, b, c, d])
}

#[test]
fn entries_skip_non_agent_panes() {
    let (session, ids) = populated_session();
    let entries = sidebar_entries(&session, &detector(), NOW);
    assert_eq!(entries.len(), 3);
    assert!(entries.iter().all(|e| e.pane != ids[3]));
}

#[test]
fn entries_sort_blocked_then_done_then_working() {
    let (session, _) = populated_session();
    let entries = sidebar_entries(&session, &detector(), NOW);
    let states: Vec<AgentState> = entries.iter().map(|e| e.state).collect();
    assert_eq!(
        states,
        vec![AgentState::Blocked, AgentState::Done, AgentState::Working]
    );
    assert_eq!(entries[0].agent, "agent-code");
    assert_eq!(entries[0].age, Some(30 * SEC));
}

#[test]
fn longer_waiting_rows_lead_within_a_state() {
    let mut session = Session::<()>::new();
    let a = session.focused().unwrap();
    let b = session.split(a, SplitDirection::Horizontal).unwrap();
    session.set_command(a, Some("agent".into()));
    session.set_command(b, Some("agent".into()));
    session.set_reading(a, AgentState::Blocked, Some("q1".into()), secs_ago(3));
    session.set_reading(b, AgentState::Blocked, Some("q2".into()), secs_ago(60));
    let entries = sidebar_entries(&session, &detector(), NOW);
    assert_eq!(entries[0].pane, b);
    assert_eq!(entries[1].pane, a);
}

#[test]
fn sidebar_working_sinks_below_idle() {
    let mut session = Session::<()>::new();
    let a = session.focused().unwrap();
    let b = session.split(a, SplitDirection::Horizontal).unwrap();
    session.set_command(a, Some("agent".into()));
    session.set_command(b, Some("agent".into()));
    session.set_reading(a, AgentState::Working, Some("running tests".into()), secs_ago(600));
    session.set_reading(b, AgentState::Idle, None, secs_ago(5));
    let entries = sidebar_entries(&session, &detector(), NOW);
    assert_eq!(entries[0].pane, b);
    assert_eq!(entries[0].state, AgentState::Idle);
    assert_eq!(entries[1].pane, a);
    assert_eq!(entries[1].state, AgentState::Working);
}

#[test]
fn equal_priority_keeps_pane_order() {
    let mut session = Session::<()>::new();
    let a = session.focused().unwrap();
    let b = session.split(a, SplitDirection::Horizontal).unwrap();
    session.set_command(a, Some("agent".into()));
    session.set_command(b, Some("agent".into()));
    let at = secs_ago(30);
    session.set_reading(a, AgentState::Working, Some("w".into()), at);
    session.set_reading(b, AgentState::Working, Some("w".into()), at);
    let entries = sidebar_entries(&session, &detector(), NOW);
    assert_eq!(entries[0].pane, a);
    assert_eq!(entries[1].pane, b);
}

#[test]
fn entries_rank_across_workspaces_ignoring_grouping() {
    let mut session = Session::<()>::new();
    let a = session.focused().unwrap();
    session.set_command(a, Some("agent".into()));
    session.set_reading(a, AgentState::Idle, None, NOW);
    let b = session.new_window();
    session.set_command(b, Some("agent".into()));
    session.set_reading(b, AgentState::Blocked, Some("q".into()), NOW);
    let entries = sidebar_entries(&session, &detector(), NOW);
    assert_eq!(entries[0].window, 1);
    assert_eq!(entries[0].state, AgentState::Blocked);
    assert_eq!(entries[1].window, 0);
    assert_eq!(entries[1].state, AgentState::Idle);
}

#[test]
fn rows_are_a_flat_headerless_plan_across_workspaces() {
    let mut session = Session::<()>::new();
    let a = session.focused().unwrap();
    session.set_command(a, Some("agent".into()));
    session.set_reading(a, AgentState::Idle, None, NOW);
    let b = session.new_window();
    session.set_command(b, Some("agent".into()));
    session.set_reading(b, AgentState::Blocked, Some("q".into()), NOW);
    let entries = sidebar_entries(&session, &detector(), NOW);
    let rows = sidebar_rows(&entries, None);
    assert_eq!(
        rows,
        vec![
            SidebarRow::EntryName(0),
            SidebarRow::EntryDetail(0),
            SidebarRow::Blank,
            SidebarRow::EntryName(1),
            SidebarRow::EntryDetail(1),
            SidebarRow::Blank,
        ]
    );
}

#[test]
fn format_age_scales_units() {
    assert_eq!(format_age(12 * SEC), "12s");
    assert_eq!(format_age(90 * SEC), "1m");
    assert_eq!(format_age(3_700 * SEC), "1h");
    assert_eq!(format_age(86_399 * SEC), "23h");
    assert_eq!(format_age(86_400 * SEC), "1d");
    assert_eq!(format_age((86_400 * 6 + 3600) * SEC), "6d");
    assert_eq!(format_age(0), "0s");
}

#[test]
fn selection_wraps_both_ways_and_activates() {
    let (session, _) = populated_session();
    let entries = sidebar_entries(&session, &detector(), NOW);
    let mut state = SidebarState::new();
    assert_eq!(state.selected(&entries), Some(0));

    state.select_prev(&entries);
    assert_eq!(state.selected(&entries), Some(2));
    state.select_next(&entries);
    assert_eq!(state.selected(&entries), Some(0));

    assert_eq!(
        state.activate(&entries),
        Some(Message::JumpToPane(entries[0].pane))
    );
    assert_eq!(SidebarState::new().selected(&[]), None);
    assert_eq!(SidebarState::new().activate(&[]), None);
}

#[test]
fn selection_follows_its_pane_across_a_retriage() {
    let (mut session, ids) = populated_session();
    let entries = sidebar_entries(&session, &detector(), NOW);
    let state = SidebarState::anchored(&entries);
    let chosen = entries[0].pane;
    assert_eq!(chosen, ids[1], "the blocked pane leads the triage");

    session.set_reading(ids[1], AgentState::Working, Some("resumed".into()), NOW);
    let entries = sidebar_entries(&session, &detector(), NOW);
    assert_ne!(entries[0].pane, chosen, "the retriage must move the pane");

    let selected = state.selected(&entries).unwrap();
    assert_eq!(entries[selected].pane, chosen);
    assert_eq!(state.activate(&entries), Some(Message::JumpToPane(chosen)));
}

#[test]
fn selection_falls_back_to_the_held_row_when_its_pane_closes() {
    let (session, _) = populated_session();
    let entries = sidebar_entries(&session, &detector(), NOW);
    let mut state = SidebarState::new();
    state.select_next(&entries);
    let gone = entries[1].pane;

    let remaining: Vec<SidebarEntry> = entries
        .iter()
        .filter(|entry| entry.pane != gone)
        .cloned()
        .collect();
    assert_eq!(state.selected(&remaining), Some(1));
    assert_eq!(state.selected(&remaining[..1]), Some(0));
    assert_eq!(state.selected(&[]), None);
}

#[test]
fn blank_or_whitespace_title_falls_back_to_the_agent_name() {
    let (mut session, panes) = populated_session();
    session.set_title(panes[1], Some("   ".into()));
    session.set_title(panes[2], Some("".into()));
    session.set_title(panes[0], Some("  real task  ".into()));

    let entries = sidebar_entries(&session, &detector(), NOW);
    for entry in &entries {
        if entry.pane == panes[0] {
            assert_eq!(entry.display_name(), "real task");
        } else {
            assert_eq!(entry.display_name(), "agent-code", "pane {:?}", entry.pane);
        }
    }
}

#[test]
fn card_without_a_title_falls_back_to_the_session_name_then_the_agent() {
    let (mut session, panes) = populated_session();
    session.set_title(panes[1], Some("fixing the auth bug".into()));
    let mut entries = sidebar_entries(&session, &detector(), NOW);
    for entry in entries.iter_mut() {
        if entry.pane == panes[0] {
            entry.session_name = Some("Fix the auth flow".into());
        } else if entry.pane == panes[1] {
            entry.session_name = Some("Ship the sidebar".into());
        }
    }
    for entry in &entries {
        let expected = match entry.pane {
            p if p == panes[0] => "Fix the auth flow",
            p if p == panes[1] => "fixing the auth bug",
            _ => "agent-code",
        };
        assert_eq!(entry.display_name(), expected, "pane {:?}", entry.pane);
    }
}

#[test]
fn auto_all_cols_guard_narrow_widths() {
    assert_eq!(auto_all_cols(31), Some(20..30));
    assert_eq!(auto_all_cols(30), Some(19..29));
    assert_eq!(auto_all_cols(29), None);
    assert_eq!(auto_all_cols(0), None);
}

#[test]
fn auto_chip_cols_right_align_and_guard_narrow_widths() {
    assert_eq!(auto_chip_cols(31), Some(24..30));
    assert_eq!(auto_chip_cols(40), Some(33..39));
    assert_eq!(auto_chip_cols(20), Some(13..19));
    assert_eq!(auto_chip_cols(19), None);
    assert_eq!(auto_chip_cols(0), None);
}

#[test]
fn truncate_budgets_by_cells_not_chars() {
    assert_eq!(truncate("修复认证模", 5), "修复…");
    assert_eq!(truncate("修复认证模", 10), "修复认证模");
    assert_eq!(truncate("plain", 5), "plain");
    assert_eq!(truncate("plainer", 5), "plai…");
    assert_eq!(truncate("anything", 0), "");
}

#[test]
fn glyphs_are_distinct_and_working_animates() {
    assert_eq!(state_glyph(AgentState::Done, 0), "✓");
    assert_eq!(state_glyph(AgentState::Idle, 0), "○");
    assert_eq!(state_glyph(AgentState::Blocked, 0), "◉");
    assert_ne!(
        state_glyph(AgentState::Working, 0),
        state_glyph(AgentState::Working, 1)
    );
    assert_eq!(
        state_glyph(AgentState::Working, 0),
        state_glyph(AgentState::Working, 10)
    );
}

#[test]
fn cards_carry_reason_age_and_title() {
    let (mut session, panes) = populated_session();
    session.set_title(panes[2], Some("ship it".into()));
    let entries = sidebar_entries(&session, &detector(), NOW);
    assert_eq!(entries[0].reason.as_deref(), Some("Approve this command?"));
    assert_eq!(entries[1].title.as_deref(), Some("ship it"));
    assert_eq!(entries[1].age, Some(2 * SEC));
    assert_eq!(entries[2].age, Some(5 * SEC));
    assert!(entries.iter().all(|e| !e.auto_approve && e.telemetry.is_none()));
}

#[test]
fn blocked_count_counts_only_blocked_cards() {
    let (session, _) = populated_session();
    let entries = sidebar_entries(&session, &detector(), NOW);
    assert_eq!(roster::sidebar::blocked_count(&entries), 1);
    assert_eq!(roster::sidebar::blocked_count(&[]), 0);
}
