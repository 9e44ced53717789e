//! Hit-testing scenarios: what a click at a cell of the frame lands on.

use roster::chrome::SidebarSide;
use roster::config::{compile_agent, RawAgent};
use roster::detector::Detector;
use roster::hit::{hit_test, pointer_for, Hit, HitContext, Pointer};
use roster::layout::{Rect, SplitDirection};
use roster::session::{AgentState, PaneId, Session};
use roster::sidebar::{sidebar_entries, ReportedLimits, SidebarEntry, TelemetrySummary};

/// A detector that knows one agent, run as `agent`.
fn detector() -> Detector {
    let table = RawAgent {
        match_command: vec!["agent".to_string()],
        launch_command: None,
        blocked: vec![],
        working: vec![],
        idle: vec![],
        reason_blocked: None,
        reason_working: None,
        reason_ignore: vec![],
        activity_ignore: vec![],
        done_after_activity_secs: None,
    };
    Detector::new(vec![compile_agent("agent-code".to_string(), table).unwrap()])
}

fn setup() -> (Session<()>, Vec<SidebarEntry>) {
    let now = 0u128;
    let mut session = Session::<()>::new();
    let a = session.focused().unwrap();
    let b = session.split(a, SplitDirection::Horizontal).unwrap();
    session.set_command(a, Some("agent".into()));
    session.set_command(b, Some("agent".into()));
    session.set_reading(a, AgentState::Working, Some("w".into()), now);
    session.set_reading(b, AgentState::Blocked, Some("b".into()), now);
    let entries = sidebar_entries(&session, &detector(), now);
    (session, entries)
}

#[test]
fn regions_resolve_left_sidebar_layout() {
    let (session, entries) = setup();
    let area = Rect::new(0, 0, 120, 30);
    // Chrome inset (2,1) → sidebar 2..34, panes 34..118, status row 28;
    // the margin itself is dead.
    assert_eq!(
        hit_test(
            area,
            &session,
            SidebarSide::Left,
            &entries,
            &HitContext {
                limits: None,
                zoomed: None,
                workspace_header: false
            },
            (5, 0)
        ),
        Hit::Outside
    );
    assert_eq!(
        hit_test(
            area,
            &session,
            SidebarSide::Left,
            &entries,
            &HitContext {
                limits: None,
                zoomed: None,
                workspace_header: false
            },
            (0, 5)
        ),
        Hit::Outside
    );
    // The sidebar's own header row is inert background.
    assert_eq!(
        hit_test(
            area,
            &session,
            SidebarSide::Left,
            &entries,
            &HitContext {
                limits: None,
                zoomed: None,
                workspace_header: false
            },
            (5, 1)
        ),
        Hit::Sidebar
    );
    // First card rows are 3 and 4 (header + blank above).
    assert_eq!(
        hit_test(
            area,
            &session,
            SidebarSide::Left,
            &entries,
            &HitContext {
                limits: None,
                zoomed: None,
                workspace_header: false
            },
            (5, 3)
        ),
        Hit::SidebarEntry(0)
    );
    assert_eq!(
        hit_test(
            area,
            &session,
            SidebarSide::Left,
            &entries,
            &HitContext {
                limits: None,
                zoomed: None,
                workspace_header: false
            },
            (5, 4)
        ),
        Hit::SidebarEntry(0)
    );
    // Spacer row, then the second card.
    assert_eq!(
        hit_test(
            area,
            &session,
            SidebarSide::Left,
            &entries,
            &HitContext {
                limits: None,
                zoomed: None,
                workspace_header: false
            },
            (5, 5)
        ),
        Hit::Sidebar
    );
    assert_eq!(
        hit_test(
            area,
            &session,
            SidebarSide::Left,
            &entries,
            &HitContext {
                limits: None,
                zoomed: None,
                workspace_header: false
            },
            (5, 6)
        ),
        Hit::SidebarEntry(1)
    );
    assert_eq!(
        hit_test(
            area,
            &session,
            SidebarSide::Left,
            &entries,
            &HitContext {
                limits: None,
                zoomed: None,
                workspace_header: false
            },
            (5, 28)
        ),
        Hit::Status
    );
    // The bottom margin row is outside the chrome.
    assert_eq!(
        hit_test(
            area,
            &session,
            SidebarSide::Left,
            &entries,
            &HitContext {
                limits: None,
                zoomed: None,
                workspace_header: false
            },
            (5, 29)
        ),
        Hit::Outside
    );
    // The pinned + new agent button owns the sidebar's bottom row;
    // breathing above it is background (the layout switcher lives on
    // the status row now).
    assert_eq!(
        hit_test(
            area,
            &session,
            SidebarSide::Left,
            &entries,
            &HitContext {
                limits: None,
                zoomed: None,
                workspace_header: false
            },
            (5, 27)
        ),
        Hit::SidebarNewAgent
    );
    assert_eq!(
        hit_test(
            area,
            &session,
            SidebarSide::Left,
            &entries,
            &HitContext {
                limits: None,
                zoomed: None,
                workspace_header: false
            },
            (4, 26)
        ),
        Hit::Sidebar
    );
    assert_eq!(
        hit_test(
            area,
            &session,
            SidebarSide::Left,
            &entries,
            &HitContext {
                limits: None,
                zoomed: None,
                workspace_header: false
            },
            (11, 26)
        ),
        Hit::Sidebar
    );
    assert_eq!(
        hit_test(
            area,
            &session,
            SidebarSide::Left,
            &entries,
            &HitContext {
                limits: None,
                zoomed: None,
                workspace_header: false
            },
            (5, 25)
        ),
        Hit::Sidebar
    );
}

#[test]
fn clicks_resolve_to_the_triage_ordered_cards() {
    // Creation order: pane a (working) then pane b (idle). Triage puts
    // the idle card first, and the click follows the reordered rows —
    // the top card jumps to pane b, not to the first-created pane.
    let now = 0u128;
    let mut session = Session::<()>::new();
    let a = session.focused().unwrap();
    let b = session.split(a, SplitDirection::Horizontal).unwrap();
    session.set_command(a, Some("agent".into()));
    session.set_command(b, Some("agent".into()));
    session.set_reading(a, AgentState::Working, Some("w".into()), now);
    session.set_reading(b, AgentState::Idle, None, now);
    let entries = sidebar_entries(&session, &detector(), now);

    let area = Rect::new(0, 0, 120, 30);
    let first = hit_test(
        area,
        &session,
        SidebarSide::Left,
        &entries,
        &HitContext {
            limits: None,
            zoomed: None,
            workspace_header: false,
        },
        (5, 3),
    );
    assert_eq!(first, Hit::SidebarEntry(0));
    assert_eq!(entries[0].pane, b);
    let second = hit_test(
        area,
        &session,
        SidebarSide::Left,
        &entries,
        &HitContext {
            limits: None,
            zoomed: None,
            workspace_header: false,
        },
        (5, 6),
    );
    assert_eq!(second, Hit::SidebarEntry(1));
    assert_eq!(entries[1].pane, a);
}

#[test]
fn auto_chip_cols_resolve_to_auto_hits_on_detail_rows_only() {
    let (session, entries) = setup();
    let area = Rect::new(0, 0, 120, 30);
    // The header row (y=1, inside the inset) hosts the auto-yes fleet
    // toggle at inner cols 20..30 → absolute 22..32; the rest of the
    // header is inert sidebar.
    assert_eq!(
        hit_test(
            area,
            &session,
            SidebarSide::Left,
            &entries,
            &HitContext {
                limits: None,
                zoomed: None,
                workspace_header: false
            },
            (22, 1)
        ),
        Hit::SidebarAutoAll
    );
    assert_eq!(
        hit_test(
            area,
            &session,
            SidebarSide::Left,
            &entries,
            &HitContext {
                limits: None,
                zoomed: None,
                workspace_header: false
            },
            (31, 1)
        ),
        Hit::SidebarAutoAll
    );
    assert_eq!(
        hit_test(
            area,
            &session,
            SidebarSide::Left,
            &entries,
            &HitContext {
                limits: None,
                zoomed: None,
                workspace_header: false
            },
            (32, 1)
        ),
        Hit::Sidebar
    );
    assert_eq!(
        hit_test(
            area,
            &session,
            SidebarSide::Left,
            &entries,
            &HitContext {
                limits: None,
                zoomed: None,
                workspace_header: false
            },
            (21, 1)
        ),
        Hit::Sidebar
    );

    // Sidebar inner is 31 wide, so every card's chip spans inner cols
    // 24..30 → absolute 26..32 of its detail row — rows 4 and 7.
    assert_eq!(
        hit_test(
            area,
            &session,
            SidebarSide::Left,
            &entries,
            &HitContext {
                limits: None,
                zoomed: None,
                workspace_header: false
            },
            (26, 4)
        ),
        Hit::SidebarAuto(0)
    );
    assert_eq!(
        hit_test(
            area,
            &session,
            SidebarSide::Left,
            &entries,
            &HitContext {
                limits: None,
                zoomed: None,
                workspace_header: false
            },
            (31, 4)
        ),
        Hit::SidebarAuto(0)
    );
    assert_eq!(
        hit_test(
            area,
            &session,
            SidebarSide::Left,
            &entries,
            &HitContext {
                limits: None,
                zoomed: None,
                workspace_header: false
            },
            (29, 7)
        ),
        Hit::SidebarAuto(1)
    );
    // Off the chip — before it, past it, or the name row above — the
    // click is the card.
    assert_eq!(
        hit_test(
            area,
            &session,
            SidebarSide::Left,
            &entries,
            &HitContext {
                limits: None,
                zoomed: None,
                workspace_header: false
            },
            (25, 4)
        ),
        Hit::SidebarEntry(0)
    );
    assert_eq!(
        hit_test(
            area,
            &session,
            SidebarSide::Left,
            &entries,
            &HitContext {
                limits: None,
                zoomed: None,
                workspace_header: false
            },
            (32, 4)
        ),
        Hit::SidebarEntry(0)
    );
    assert_eq!(
        hit_test(
            area,
            &session,
            SidebarSide::Left,
            &entries,
            &HitContext {
                limits: None,
                zoomed: None,
                workspace_header: false
            },
            (28, 3)
        ),
        Hit::SidebarEntry(0)
    );
}

#[test]
fn telemetry_rows_resolve_to_their_card_and_shift_the_rows_below() {
    let now = 0u128;
    let (mut session, entries) = setup();
    // Feed telemetry to the blocked pane — the first card, and the
    // focused pane (split moves focus to the new pane), so its card
    // grows the full third row and everything below shifts down one.
    let blocked = entries[0].pane;
    assert_eq!(session.focused(), Some(blocked));
    session.set_telemetry(blocked, Some(()));
    let mut entries = sidebar_entries(&session, &detector(), now);
    entries[0].telemetry = Some(TelemetrySummary { context_alert: None });
    let area = Rect::new(0, 0, 120, 30);
    // Card 0 spans rows 3-5 (name, detail, telemetry); the badge row is
    // the card, not a chip — clicking it jumps.
    assert_eq!(
        hit_test(
            area,
            &session,
            SidebarSide::Left,
            &entries,
            &HitContext {
                limits: None,
                zoomed: None,
                workspace_header: false
            },
            (5, 5)
        ),
        Hit::SidebarEntry(0)
    );
    assert_eq!(
        hit_test(
            area,
            &session,
            SidebarSide::Left,
            &entries,
            &HitContext {
                limits: None,
                zoomed: None,
                workspace_header: false
            },
            (29, 5)
        ),
        Hit::SidebarEntry(0),
        "the chip columns on a telemetry row are still the card"
    );
    // The second card sits a row lower than the two-line layout put it —
    // its chip included. (The full row plan is sidebar.rs's test.)
    assert_eq!(
        hit_test(
            area,
            &session,
            SidebarSide::Left,
            &entries,
            &HitContext {
                limits: None,
                zoomed: None,
                workspace_header: false
            },
            (5, 7)
        ),
        Hit::SidebarEntry(1)
    );
    assert_eq!(
        hit_test(
            area,
            &session,
            SidebarSide::Left,
            &entries,
            &HitContext {
                limits: None,
                zoomed: None,
                workspace_header: false
            },
            (29, 8)
        ),
        Hit::SidebarAuto(1)
    );
}

#[test]
fn view_switcher_pills_sit_on_the_status_row_and_hide_with_a_single_pane() {
    let now = 0u128;
    let mut session = Session::<()>::new();
    let only = session.focused().unwrap();
    session.set_command(only, Some("agent".into()));
    session.set_reading(only, AgentState::Idle, None, now);
    let entries = sidebar_entries(&session, &detector(), now);
    let area = Rect::new(0, 0, 120, 30);
    // One pane: no pills — the whole status row (y=28, inside the
    // inset) is plain status.
    for x in [100, 108, 115] {
        assert_eq!(
            hit_test(
                area,
                &session,
                SidebarSide::Left,
                &entries,
                &HitContext {
                    limits: None,
                    zoomed: None,
                    workspace_header: false
                },
                (x, 28)
            ),
            Hit::Status
        );
    }

    // A second pane brings the pills: with a single window (no ⧉
    // indicator) they end one column in from the chrome's right edge
    // (118) — solo at 111..117, grid at 104..110.
    let (session, entries) = setup();
    for (x, hit) in [
        (103, Hit::Status),
        (104, Hit::StatusViewGrid),
        (109, Hit::StatusViewGrid),
        (110, Hit::Status),
        (111, Hit::StatusViewSolo),
        (116, Hit::StatusViewSolo),
        (117, Hit::Status),
    ] {
        assert_eq!(
            hit_test(
                area,
                &session,
                SidebarSide::Left,
                &entries,
                &HitContext {
                    limits: None,
                    zoomed: None,
                    workspace_header: false
                },
                (x, 28)
            ),
            hit,
            "at x={x}"
        );
    }
}

#[test]
fn flat_clicks_follow_the_global_order_across_workspaces() {
    let now = 0u128;
    // Two workspaces, one pane each: window 0 idle, window 1 blocked.
    let mut session = Session::<()>::new();
    let a = session.focused().unwrap();
    session.set_command(a, Some("agent".into()));
    session.set_reading(a, AgentState::Idle, None, now);
    let b = session.new_window();
    session.set_command(b, Some("agent".into()));
    session.set_reading(b, AgentState::Blocked, Some("q".into()), now);
    let entries = sidebar_entries(&session, &detector(), now);
    let area = Rect::new(0, 0, 120, 30);

    // The flat plan has no workspace headers, so the top card row (3)
    // is the globally top-ranked agent — the blocked one in window 1.
    assert_eq!(
        hit_test(
            area,
            &session,
            SidebarSide::Left,
            &entries,
            &HitContext {
                limits: None,
                zoomed: None,
                workspace_header: false
            },
            (5, 3)
        ),
        Hit::SidebarEntry(0)
    );
    assert_eq!(entries[0].pane, b);

    // The removed triage switcher's old row resolves as inert sidebar
    // background, not a phantom toggle.
    assert_eq!(
        hit_test(
            area,
            &session,
            SidebarSide::Left,
            &entries,
            &HitContext {
                limits: None,
                zoomed: None,
                workspace_header: false
            },
            (3, 26)
        ),
        Hit::Sidebar
    );
}

#[test]
fn pane_titles_and_content_resolve() {
    let (session, entries) = setup();
    let area = Rect::new(0, 0, 120, 30);
    let panes = session.layout(84, 27);
    let (left_id, right_id) = (panes[0].0, panes[1].0);

    // Pane area starts at x=34, y=1 (chrome inset). The panel's top
    // border row is the title, rows below are content.
    assert_eq!(
        hit_test(
            area,
            &session,
            SidebarSide::Left,
            &entries,
            &HitContext {
                limits: None,
                zoomed: None,
                workspace_header: false
            },
            (40, 1)
        ),
        Hit::PaneTitle(left_id)
    );
    assert_eq!(
        hit_test(
            area,
            &session,
            SidebarSide::Left,
            &entries,
            &HitContext {
                limits: None,
                zoomed: None,
                workspace_header: false
            },
            (40, 10)
        ),
        Hit::Pane(left_id)
    );
    // Right half begins at local x 42 → absolute 76.
    assert_eq!(
        hit_test(
            area,
            &session,
            SidebarSide::Left,
            &entries,
            &HitContext {
                limits: None,
                zoomed: None,
                workspace_header: false
            },
            (80, 1)
        ),
        Hit::PaneTitle(right_id)
    );
    assert_eq!(
        hit_test(
            area,
            &session,
            SidebarSide::Left,
            &entries,
            &HitContext {
                limits: None,
                zoomed: None,
                workspace_header: false
            },
            (80, 20)
        ),
        Hit::Pane(right_id)
    );
    // Side and bottom borders are the pane — a click anywhere in the
    // panel focuses it.
    assert_eq!(
        hit_test(
            area,
            &session,
            SidebarSide::Left,
            &entries,
            &HitContext {
                limits: None,
                zoomed: None,
                workspace_header: false
            },
            (34, 10)
        ),
        Hit::Pane(left_id)
    );
    assert_eq!(
        hit_test(
            area,
            &session,
            SidebarSide::Left,
            &entries,
            &HitContext {
                limits: None,
                zoomed: None,
                workspace_header: false
            },
            (40, 27)
        ),
        Hit::Pane(left_id)
    );
}

#[test]
fn title_close_buttons_resolve_at_the_right_edge() {
    let (session, entries) = setup();
    let area = Rect::new(0, 0, 120, 30);
    let panes = session.layout(84, 27);
    let (left_id, right_id) = (panes[0].0, panes[1].0);

    // Left pane: local rect 0..42, ✕ target one column in from the
    // panel corner — local cols 38..41 → absolute 72..75.
    assert_eq!(
        hit_test(
            area,
            &session,
            SidebarSide::Left,
            &entries,
            &HitContext {
                limits: None,
                zoomed: None,
                workspace_header: false
            },
            (72, 1)
        ),
        Hit::PaneClose(left_id)
    );
    assert_eq!(
        hit_test(
            area,
            &session,
            SidebarSide::Left,
            &entries,
            &HitContext {
                limits: None,
                zoomed: None,
                workspace_header: false
            },
            (74, 1)
        ),
        Hit::PaneClose(left_id)
    );
    assert_eq!(
        hit_test(
            area,
            &session,
            SidebarSide::Left,
            &entries,
            &HitContext {
                limits: None,
                zoomed: None,
                workspace_header: false
            },
            (71, 1)
        ),
        Hit::PaneTitle(left_id)
    );
    // The corner itself is the title, not the ✕.
    assert_eq!(
        hit_test(
            area,
            &session,
            SidebarSide::Left,
            &entries,
            &HitContext {
                limits: None,
                zoomed: None,
                workspace_header: false
            },
            (75, 1)
        ),
        Hit::PaneTitle(left_id)
    );
    // Below the title row the same columns are pane content.
    assert_eq!(
        hit_test(
            area,
            &session,
            SidebarSide::Left,
            &entries,
            &HitContext {
                limits: None,
                zoomed: None,
                workspace_header: false
            },
            (74, 5)
        ),
        Hit::Pane(left_id)
    );
    // Right pane: local rect 42..84, ✕ target local 80..83 →
    // absolute 114..117.
    assert_eq!(
        hit_test(
            area,
            &session,
            SidebarSide::Left,
            &entries,
            &HitContext {
                limits: None,
                zoomed: None,
                workspace_header: false
            },
            (115, 1)
        ),
        Hit::PaneClose(right_id)
    );
}

#[test]
fn solo_view_maps_the_whole_pane_region_to_the_zoomed_pane() {
    let (session, entries) = setup();
    let area = Rect::new(0, 0, 120, 30);
    let panes = session.layout(84, 27);
    let (left_id, right_id) = (panes[0].0, panes[1].0);

    // With the left pane solo, positions that belong to the right pane
    // in the grid all resolve to the solo pane.
    let zoomed = Some(left_id);
    assert_eq!(
        hit_test(
            area,
            &session,
            SidebarSide::Left,
            &entries,
            &HitContext {
                limits: None,
                zoomed,
                workspace_header: false
            },
            (80, 10)
        ),
        Hit::Pane(left_id)
    );
    assert_eq!(
        hit_test(
            area,
            &session,
            SidebarSide::Left,
            &entries,
            &HitContext {
                limits: None,
                zoomed,
                workspace_header: false
            },
            (80, 1)
        ),
        Hit::PaneTitle(left_id)
    );
    // Full-width panel: 84 wide → ✕ at local 80..83 (absolute
    // 114..117).
    assert_eq!(
        hit_test(
            area,
            &session,
            SidebarSide::Left,
            &entries,
            &HitContext {
                limits: None,
                zoomed,
                workspace_header: false
            },
            (115, 1)
        ),
        Hit::PaneClose(left_id)
    );
    // The sidebar still resolves normally, so cards switch panes.
    assert_eq!(
        hit_test(
            area,
            &session,
            SidebarSide::Left,
            &entries,
            &HitContext {
                limits: None,
                zoomed,
                workspace_header: false
            },
            (5, 3)
        ),
        Hit::SidebarEntry(0)
    );
    let _ = right_id;
}

#[test]
fn agentless_windows_leave_no_sidebar_rows_in_the_flat_plan() {
    let now = 0u128;
    let mut session = Session::<()>::new();
    // Window 0: a plain shell, no agents — it contributes nothing to
    // the flat list. Window 1: a single agent, whose card leads.
    let shell = session.focused().unwrap();
    session.set_command(shell, Some("zsh".into()));
    let agent = session.new_window();
    session.set_command(agent, Some("agent".into()));
    session.set_reading(agent, AgentState::Working, Some("w".into()), now);
    let entries = sidebar_entries(&session, &detector(), now);

    let area = Rect::new(0, 0, 120, 30);
    // Rows: the agent's card at y3-4, then blank — no header or
    // placeholder rows for the agentless window.
    assert_eq!(
        hit_test(
            area,
            &session,
            SidebarSide::Left,
            &entries,
            &HitContext {
                limits: None,
                zoomed: None,
                workspace_header: false
            },
            (5, 3)
        ),
        Hit::SidebarEntry(0)
    );
    assert_eq!(
        hit_test(
            area,
            &session,
            SidebarSide::Left,
            &entries,
            &HitContext {
                limits: None,
                zoomed: None,
                workspace_header: false
            },
            (5, 4)
        ),
        Hit::SidebarEntry(0)
    );
    assert_eq!(
        hit_test(
            area,
            &session,
            SidebarSide::Left,
            &entries,
            &HitContext {
                limits: None,
                zoomed: None,
                workspace_header: false
            },
            (5, 5)
        ),
        Hit::Sidebar
    );
}

#[test]
fn status_indicator_resolves_only_with_multiple_windows() {
    let (mut session, entries) = setup();
    let area = Rect::new(0, 0, 120, 30);
    // One window: no ⧉ indicator — its columns fall to the solo pill
    // (two panes exist) and plain status beyond it.
    assert_eq!(
        hit_test(
            area,
            &session,
            SidebarSide::Left,
            &entries,
            &HitContext {
                limits: None,
                zoomed: None,
                workspace_header: false
            },
            (115, 28)
        ),
        Hit::StatusViewSolo
    );
    assert_eq!(
        hit_test(
            area,
            &session,
            SidebarSide::Left,
            &entries,
            &HitContext {
                limits: None,
                zoomed: None,
                workspace_header: false
            },
            (117, 28)
        ),
        Hit::Status
    );
    session.new_window();
    // Two windows: `⧉ 1/2` plus padding is 7 columns at the chrome's
    // right edge (111..118). The new window is active and holds a
    // single pane, so the pills hide with it — layouts to switch
    // between are the active window's.
    assert_eq!(
        hit_test(
            area,
            &session,
            SidebarSide::Left,
            &entries,
            &HitContext {
                limits: None,
                zoomed: None,
                workspace_header: false
            },
            (115, 28)
        ),
        Hit::StatusWindows
    );
    assert_eq!(
        hit_test(
            area,
            &session,
            SidebarSide::Left,
            &entries,
            &HitContext {
                limits: None,
                zoomed: None,
                workspace_header: false
            },
            (108, 28)
        ),
        Hit::Status
    );
    assert_eq!(
        hit_test(
            area,
            &session,
            SidebarSide::Left,
            &entries,
            &HitContext {
                limits: None,
                zoomed: None,
                workspace_header: false
            },
            (60, 28)
        ),
        Hit::Status
    );
}

#[test]
fn footer_rows_are_inert_and_never_phantom_cards() {
    // Enough agents that the row plan reaches past the footer's rows:
    // without the limits-aware shrink, a click on the footer would
    // resolve to a card render no longer draws there.
    let now = 0u128;
    let mut session = Session::<()>::new();
    let mut target = session.focused().unwrap();
    for _ in 0..7 {
        target = session.split(target, SplitDirection::Horizontal).unwrap();
    }
    let ids: Vec<PaneId> = session.panes().into_iter().map(|pane| pane.id).collect();
    for id in ids {
        session.set_command(id, Some("agent".into()));
        session.set_reading(id, AgentState::Idle, None, now);
    }
    let entries = sidebar_entries(&session, &detector(), now);
    assert_eq!(entries.len(), 8);
    let area = Rect::new(0, 0, 120, 30);
    // Footer-less, row 24 is the eighth card's name row…
    assert_eq!(
        hit_test(
            area,
            &session,
            SidebarSide::Left,
            &entries,
            &HitContext {
                limits: None,
                zoomed: None,
                workspace_header: false
            },
            (5, 24)
        ),
        Hit::SidebarEntry(7)
    );
    // …with the footer reserved (3 rows off the card region), the same
    // click is inert sidebar background, mirroring what render shows.
    assert_eq!(
        hit_test(
            area,
            &session,
            SidebarSide::Left,
            &entries,
            &HitContext {
                limits: Some(ReportedLimits { five_hour: true, seven_day: true }),
                zoomed: None,
                workspace_header: false
            },
            (5, 24)
        ),
        Hit::Sidebar
    );
    // Cards above the footer keep their targets.
    assert_eq!(
        hit_test(
            area,
            &session,
            SidebarSide::Left,
            &entries,
            &HitContext {
                limits: Some(ReportedLimits { five_hour: true, seven_day: true }),
                zoomed: None,
                workspace_header: false
            },
            (5, 21)
        ),
        Hit::SidebarEntry(6)
    );
}

#[test]
fn workspace_banner_rows_resolve_and_shift_everything_below_by_three() {
    let (session, entries) = setup();
    let area = Rect::new(0, 0, 120, 30);
    let ctx = HitContext {
        limits: None,
        zoomed: None,
        workspace_header: true,
    };
    // Title row (y=1, inset) is inert; the path row (y=2) is the
    // hoverable target; the divider (y=3) is inert too.
    assert_eq!(
        hit_test(area, &session, SidebarSide::Left, &entries, &ctx, (5, 1)),
        Hit::Sidebar
    );
    assert_eq!(
        hit_test(area, &session, SidebarSide::Left, &entries, &ctx, (5, 2)),
        Hit::SidebarWorkspace
    );
    assert_eq!(
        hit_test(area, &session, SidebarSide::Left, &entries, &ctx, (5, 3)),
        Hit::Sidebar
    );
    // The `agents` header and the first card each land three rows
    // later than the no-banner layout (rows 1 and 3 there).
    assert_eq!(
        hit_test(area, &session, SidebarSide::Left, &entries, &ctx, (22, 4)),
        Hit::SidebarAutoAll
    );
    assert_eq!(
        hit_test(area, &session, SidebarSide::Left, &entries, &ctx, (5, 6)),
        Hit::SidebarEntry(0)
    );
}

#[test]
fn out_of_frame_is_outside() {
    let (session, entries) = setup();
    let area = Rect::new(0, 0, 120, 30);
    assert_eq!(
        hit_test(
            area,
            &session,
            SidebarSide::Left,
            &entries,
            &HitContext {
                limits: None,
                zoomed: None,
                workspace_header: false
            },
            (121, 5)
        ),
        Hit::Outside
    );
    assert_eq!(
        hit_test(
            area,
            &session,
            SidebarSide::Left,
            &entries,
            &HitContext {
                limits: None,
                zoomed: None,
                workspace_header: false
            },
            (5, 30)
        ),
        Hit::Outside
    );
}

#[test]
fn the_pointer_is_a_hand_over_anything_clickable() {
    let (session, _) = setup();
    let a = session.focused().unwrap();
    for hit in [
        Hit::SidebarEntry(0),
        Hit::SidebarAutoAll,
        Hit::SidebarNewAgent,
        Hit::StatusViewGrid,
        Hit::PaneTitle(a),
        Hit::PaneClose(a),
        Hit::StatusWindows,
    ] {
        assert_eq!(pointer_for(hit), Pointer::Hand, "{hit:?}");
    }
    for hit in [Hit::Pane(a), Hit::Sidebar, Hit::Status, Hit::Outside] {
        assert_eq!(pointer_for(hit), Pointer::Default, "{hit:?}");
    }
}
