//! Sidebar panel layout scenarios: what each card row shows and where.

use roster::cards::{all_armed, chip_revealed, detail_row, empty_hint, header_summary, name_row};
use roster::layout::Rect;
use roster::session::{AgentState, PaneId};
use roster::sidebar::SidebarEntry;

fn entry(state: AgentState, reason: Option<&str>, age_ms: Option<u64>, window: usize) -> SidebarEntry {
    SidebarEntry {
        pane: PaneId::from_raw(1),
        window,
        agent: "agent-code".to_string(),
        state,
        reason: reason.map(|r| r.to_string()),
        age: age_ms.map(|ms| u128::from(ms) * 1_000_000),
        auto_approve: false,
        telemetry: None,
        title: None,
        session_name: None,
    }
}

#[test]
fn name_row_right_aligns_the_age_and_tags_the_workspace() {
    let e = entry(AgentState::Blocked, Some("q"), Some(30_000), 1);
    // One workspace: no tag; the age sits one column in from the edge.
    let row = name_row(0, 32, &e, 1);
    assert_eq!(row.age, Some((28, "30s".to_string())));
    assert_eq!(row.tag, None);
    assert_eq!(row.name_x, 4);
    assert_eq!(row.name, "agent-code");
    // Two workspaces: the tag sits a column left of the age.
    let row = name_row(0, 32, &e, 2);
    assert_eq!(row.tag, Some((25, "⧉2".to_string())));
    assert_eq!(row.name, "agent-code");
}

#[test]
fn workspace_tag_yields_to_the_glyph_on_a_narrow_sidebar() {
    let e = entry(AgentState::Blocked, Some("q"), Some(0), 0);
    let row = name_row(0, 32, &e, 2);
    assert!(row.tag.is_some(), "a roomy card carries the tag");
    // The narrowest card drops the tag rather than paint over the glyph.
    let row = name_row(0, 8, &e, 2);
    assert_eq!(row.tag, None);
    assert_eq!(row.age, Some((5, "0s".to_string())));
    assert_eq!(row.name, "…");
}

#[test]
fn wide_char_names_stay_inside_their_cell_budget() {
    let mut e = entry(AgentState::Blocked, Some("q"), Some(30_000), 0);
    e.title = Some("修复认证模块的错误处理逻辑然后重新运行测试".to_string());
    let row = name_row(0, 24, &e, 1);
    assert_eq!(row.age, Some((20, "30s".to_string())));
    // Sixteen cells between the indent and the age: seven wide chars and
    // the cut mark.
    assert_eq!(row.name, "修复认证模块的…");
}

#[test]
fn reasonless_cards_fall_back_to_the_state_word() {
    let e = entry(AgentState::Idle, None, None, 0);
    let (text, budget) = detail_row(32, &e);
    assert_eq!(text, "idle");
    // The reason stops a column short of the chip's columns.
    assert_eq!(budget, 20);
    let e = entry(AgentState::Blocked, Some("Approve this command before it runs?"), None, 0);
    assert_eq!(detail_row(32, &e).0, "Approve this comman…");
    // No chip on a narrow card: the reason runs to a column short of the edge.
    assert_eq!(detail_row(16, &e), ("Approve th…".to_string(), 11));
}

#[test]
fn unarmed_chip_reveals_on_hover_selection_and_focus() {
    assert!(chip_revealed(true, 0, None, None, None, None));
    assert!(!chip_revealed(false, 0, None, None, None, None));
    assert!(chip_revealed(false, 0, Some(0), None, None, None));
    assert!(chip_revealed(false, 0, None, Some(0), None, None));
    assert!(chip_revealed(false, 0, None, None, Some(0), None));
    assert!(chip_revealed(false, 0, None, None, None, Some(0)));
    assert!(!chip_revealed(false, 0, Some(1), Some(1), Some(1), Some(1)));
}

#[test]
fn header_counts_the_blocked_and_arms_the_fleet() {
    let mut entries = vec![
        entry(AgentState::Blocked, Some("q"), None, 0),
        entry(AgentState::Working, None, None, 0),
        entry(AgentState::Blocked, Some("r"), None, 0),
    ];
    assert_eq!(header_summary(&entries, 32), Some(("2 blocked".to_string(), 11)));
    assert_eq!(header_summary(&entries, 20), Some(("2 blocked".to_string(), 10)));
    assert!(!all_armed(&entries));
    for e in entries.iter_mut() {
        e.auto_approve = true;
    }
    assert!(all_armed(&entries));
    assert!(!all_armed(&[]));
    entries.retain(|e| e.state != AgentState::Blocked);
    assert_eq!(header_summary(&entries, 32), None);
}

#[test]
fn empty_panel_hint_centers_and_stays_above_the_bottom() {
    let area = Rect::new(0, 0, 32, 14);
    assert_eq!(empty_hint(area, 2, 13), (Some((9, 6)), Some((10, 8))));
    // A short panel keeps the hint below the header and drops what does
    // not fit.
    let short = Rect::new(0, 0, 32, 4);
    assert_eq!(empty_hint(short, 2, 4), (Some((9, 2)), None));
    assert_eq!(empty_hint(short, 2, 2), (None, None));
}
