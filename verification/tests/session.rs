//! Session model scenarios: windows, splits, focus, closing, readings.

use roster::layout::SplitDirection;
use roster::session::{AgentState, PaneId, Session};

fn session() -> Session<()> {
    Session::new()
}

/// A stand-in for a pane's live telemetry reading.
#[derive(Clone, Debug, Default, PartialEq)]
struct Telemetry {
    model: Option<String>,
    context_pct: Option<f32>,
}

#[test]
fn new_session_has_one_focused_pane() {
    let s = session();
    assert_eq!(s.window_count(), 1);
    let focused = s.focused().unwrap();
    assert!(s.pane(focused).is_some());
    assert_eq!(s.layout(80, 24).len(), 1);
}

#[test]
fn split_creates_and_focuses_new_pane() {
    let mut s = session();
    let first = s.focused().unwrap();
    let second = s.split(first, SplitDirection::Horizontal).unwrap();
    assert_ne!(first, second);
    assert_eq!(s.focused(), Some(second));
    assert_eq!(s.layout(80, 24).len(), 2);
}

#[test]
fn split_unknown_pane_fails_cleanly() {
    let mut s = session();
    let bogus = PaneId::from_raw(999);
    assert_eq!(s.split(bogus, SplitDirection::Horizontal), None);
    assert_eq!(s.panes().len(), 1);
}

#[test]
fn layout_reflects_split_directions() {
    let mut s = session();
    let first = s.focused().unwrap();
    let second = s.split(first, SplitDirection::Horizontal).unwrap();
    s.split(second, SplitDirection::Vertical).unwrap();
    let rects = s.layout(80, 24);
    assert_eq!(rects.len(), 3);
    let total: u32 = rects
        .iter()
        .map(|(_, r)| u32::from(r.width) * u32::from(r.height))
        .sum();
    assert_eq!(total, 80 * 24);
}

#[test]
fn close_collapses_and_refocuses_sibling() {
    let mut s = session();
    let first = s.focused().unwrap();
    let second = s.split(first, SplitDirection::Horizontal).unwrap();
    assert!(s.close(second));
    assert_eq!(s.focused(), Some(first));
    assert_eq!(s.layout(80, 24).len(), 1);
    assert!(s.pane(second).is_none());
}

#[test]
fn close_unfocused_pane_keeps_focus() {
    let mut s = session();
    let first = s.focused().unwrap();
    let second = s.split(first, SplitDirection::Horizontal).unwrap();
    assert!(s.close(first));
    assert_eq!(s.focused(), Some(second));
}

#[test]
fn closing_last_pane_removes_window() {
    let mut s = session();
    let only = s.focused().unwrap();
    assert!(s.close(only));
    assert!(s.is_empty());
    assert_eq!(s.focused(), None);
    assert!(s.layout(80, 24).is_empty());
}

#[test]
fn closing_active_window_falls_back_to_previous() {
    let mut s = session();
    let first = s.focused().unwrap();
    let second = s.new_window();
    assert_eq!(s.active_window(), Some(1));
    assert!(s.close(second));
    assert_eq!(s.active_window(), Some(0));
    assert_eq!(s.focused(), Some(first));
}

#[test]
fn close_unknown_pane_is_false() {
    let mut s = session();
    assert!(!s.close(PaneId::from_raw(999)));
}

#[test]
fn focus_jumps_across_windows() {
    let mut s = session();
    let first = s.focused().unwrap();
    s.new_window();
    assert_eq!(s.active_window(), Some(1));
    assert!(s.focus(first));
    assert_eq!(s.active_window(), Some(0));
    assert_eq!(s.focused(), Some(first));
}

#[test]
fn focus_cycles_in_tree_order() {
    let mut s = session();
    let a = s.focused().unwrap();
    let b = s.split(a, SplitDirection::Horizontal).unwrap();
    let c = s.split(b, SplitDirection::Vertical).unwrap();
    s.focus(a);
    s.focus_next();
    assert_eq!(s.focused(), Some(b));
    s.focus_next();
    assert_eq!(s.focused(), Some(c));
    s.focus_next();
    assert_eq!(s.focused(), Some(a));
    s.focus_prev();
    assert_eq!(s.focused(), Some(c));
}

#[test]
fn adopt_and_replace_wire_elsewhere_allocated_ids() {
    let mut s = session();
    let first = s.focused().unwrap();
    let adopted = s.adopt_window(100).expect("adopt window");
    assert_eq!(adopted.raw(), 100);
    assert_eq!(s.focused(), Some(adopted));
    assert!(s.adopt_window(100).is_none(), "id taken");

    let split = s
        .adopt_split(adopted, 101, SplitDirection::Horizontal)
        .unwrap();
    assert_eq!(split.raw(), 101);
    assert_eq!(s.layout(80, 24).len(), 2);

    // Replace swaps the leaf in place and moves focus with it.
    s.focus(split);
    let swapped = s.replace_pane(split, 102).expect("replace");
    assert_eq!(s.focused(), Some(swapped));
    assert!(s.pane(split).is_none());
    assert_eq!(s.layout(80, 24).len(), 2);

    // Fresh ids allocate past adopted ones.
    let next = s.split(swapped, SplitDirection::Vertical).unwrap();
    assert!(next.raw() > 102);
    let _ = first;
}

#[test]
fn window_cycling_wraps_both_ways_and_activates_by_index() {
    let mut s = session();
    s.new_window();
    s.new_window();
    assert_eq!(s.active_window(), Some(2));
    s.next_window();
    assert_eq!(s.active_window(), Some(0));
    s.prev_window();
    assert_eq!(s.active_window(), Some(2));
    s.prev_window();
    assert_eq!(s.active_window(), Some(1));
    assert!(s.activate_window(0));
    assert_eq!(s.active_window(), Some(0));
    assert!(!s.activate_window(3));
    assert_eq!(s.active_window(), Some(0));
}

#[test]
fn new_window_activates_and_isolates_layout() {
    let mut s = session();
    let first = s.focused().unwrap();
    s.split(first, SplitDirection::Horizontal).unwrap();
    let solo = s.new_window();
    let rects = s.layout(80, 24);
    assert_eq!(rects.len(), 1);
    assert_eq!(rects[0].0, solo);
    s.next_window();
    assert_eq!(s.layout(80, 24).len(), 2);
}

#[test]
fn set_reading_moves_last_change_only_on_state_change() {
    let mut s = session();
    let id = s.focused().unwrap();
    let t0: u128 = 5_000_000_000;
    let t1 = t0 + 1_000_000_000;

    assert!(s.set_reading(id, AgentState::Working, Some("compiling".into()), t0));
    assert_eq!(s.pane(id).unwrap().state, AgentState::Working);
    assert_eq!(s.pane(id).unwrap().last_change, Some(t0));

    assert!(s.set_reading(id, AgentState::Working, Some("running tests".into()), t1));
    assert_eq!(s.pane(id).unwrap().last_change, Some(t0));
    assert_eq!(s.pane(id).unwrap().reason.as_deref(), Some("running tests"));

    let t2 = t0 + 2_000_000_000;
    assert!(s.set_reading(id, AgentState::Blocked, Some("Allow edit?".into()), t2));
    assert_eq!(s.pane(id).unwrap().last_change, Some(t2));
}

#[test]
fn set_reading_unknown_pane_is_false() {
    let mut s = session();
    assert!(!s.set_reading(
        PaneId::from_raw(999),
        AgentState::Idle,
        None,
        0
    ));
}

#[test]
fn set_telemetry_sets_and_clears_a_panes_readings() {
    let mut s: Session<Telemetry> = Session::new();
    let id = s.focused().unwrap();
    assert_eq!(s.pane(id).unwrap().telemetry, None);

    let telemetry = Telemetry {
        model: Some("Opus".into()),
        context_pct: Some(62.0),
        ..Telemetry::default()
    };
    assert!(s.set_telemetry(id, Some(telemetry.clone())));
    assert_eq!(s.pane(id).unwrap().telemetry, Some(telemetry));

    // A `None` reading clears — the feed aged out; the numbers go with
    // it rather than freezing.
    assert!(s.set_telemetry(id, None));
    assert_eq!(s.pane(id).unwrap().telemetry, None);

    assert!(!s.set_telemetry(PaneId::from_raw(999), None));
}

#[test]
fn set_title_sets_and_clears_a_panes_title() {
    let mut s = session();
    let id = s.focused().unwrap();
    assert_eq!(s.pane(id).unwrap().title, None);

    assert!(s.set_title(id, Some("fixing the auth bug".into())));
    assert_eq!(
        s.pane(id).unwrap().title.as_deref(),
        Some("fixing the auth bug")
    );

    // A reset title clears rather than freezing the last task.
    assert!(s.set_title(id, None));
    assert_eq!(s.pane(id).unwrap().title, None);

    assert!(!s.set_title(PaneId::from_raw(999), None));
}

#[test]
fn dividers_are_found_and_draggable() {
    let mut s = session();
    let a = s.focused().unwrap();
    s.split(a, SplitDirection::Horizontal).unwrap();
    // 80 wide at ratio 0.5 → first half 0..40, divider at column 39.
    assert_eq!(
        s.divider_at(80, 24, 39, 5),
        Some(SplitDirection::Horizontal)
    );
    assert_eq!(s.divider_at(80, 24, 20, 5), None);

    // Drag the divider to column 20: the first pane shrinks.
    let new_pos = s.drag_divider(80, 24, (39, 5), (20, 5)).unwrap();
    assert_eq!(new_pos, (20, 5));
    let rects = s.layout(80, 24);
    assert_eq!(rects[0].1.width, 21);
    assert_eq!(rects[1].1.width, 59);

    // Extreme drags clamp instead of collapsing a pane.
    s.drag_divider(80, 24, (20, 5), (0, 5)).unwrap();
    let rects = s.layout(80, 24);
    assert!(rects[0].1.width >= 1, "width: {}", rects[0].1.width);
}

#[test]
fn vertical_divider_sits_on_the_lower_panes_top_row() {
    let mut s = session();
    let a = s.focused().unwrap();
    s.split(a, SplitDirection::Vertical).unwrap();
    // 24 tall at 0.5 → first half rows 0..12, divider at row 12.
    assert_eq!(s.divider_at(80, 24, 10, 12), Some(SplitDirection::Vertical));
    assert_eq!(s.divider_at(80, 24, 10, 11), None);

    let new_pos = s.drag_divider(80, 24, (10, 12), (10, 6)).unwrap();
    assert_eq!(new_pos, (10, 6));
    let rects = s.layout(80, 24);
    assert_eq!(rects[0].1.height, 6);
    assert_eq!(rects[1].1.height, 18);
}

#[test]
fn window_of_locates_panes_across_windows() {
    let mut s = session();
    let a = s.focused().unwrap();
    let b = s.split(a, SplitDirection::Horizontal).unwrap();
    let c = s.new_window();
    assert_eq!(s.window_of(a), Some(0));
    assert_eq!(s.window_of(b), Some(0));
    assert_eq!(s.window_of(c), Some(1));
    assert_eq!(s.window_of(PaneId::from_raw(999)), None);
}

#[test]
fn panes_lists_all_in_id_order() {
    let mut s = session();
    let a = s.focused().unwrap();
    let b = s.split(a, SplitDirection::Horizontal).unwrap();
    let c = s.new_window();
    let ids: Vec<PaneId> = s.panes().iter().map(|p| p.id).collect();
    assert_eq!(ids, vec![a, b, c]);
}

#[test]
fn snapshot_restore_round_trips_layout_focus_and_commands() {
    let mut s = session();
    let a = s.focused().unwrap();
    let b = s.split(a, SplitDirection::Horizontal).unwrap();
    let c = s.split(b, SplitDirection::Vertical).unwrap();
    s.set_command(a, Some("agent".into()));
    s.set_command(b, Some("npx my-agent --flag x".into()));
    let d = s.new_window();
    s.set_command(d, Some("zsh".into()));
    s.focus(b);

    let blob = s.snapshot();
    let restored = Session::<()>::restore(&blob).expect("restore");
    assert_eq!(restored.window_count(), 2);
    assert_eq!(restored.active_window(), s.active_window());
    assert_eq!(restored.focused(), Some(b));
    assert_eq!(restored.pane(a).unwrap().command.as_deref(), Some("agent"));
    assert_eq!(
        restored.pane(b).unwrap().command.as_deref(),
        Some("npx my-agent --flag x")
    );
    assert_eq!(restored.pane(d).unwrap().command.as_deref(), Some("zsh"));
    // The split tree survives: same rects for the same area.
    assert_eq!(restored.layout(80, 24), s.layout(80, 24));
    let _ = c;
    assert_eq!(restored.snapshot(), blob, "snapshot is stable");
}

#[test]
fn window_names_set_clear_and_round_trip() {
    let mut s = session();
    let a = s.focused().unwrap();
    s.set_command(a, Some("agent".into()));
    s.new_window();
    assert_eq!(s.window_name(0), None);
    assert!(s.set_window_name(0, Some("fix auth bug".into())));
    assert!(s.set_window_name(1, Some("  ".into())), "blank clears");
    assert_eq!(s.window_name(0), Some("fix auth bug"));
    assert_eq!(s.window_name(1), None);
    assert!(!s.set_window_name(9, Some("x".into())));

    let restored = Session::<()>::restore(&s.snapshot()).expect("restore");
    assert_eq!(restored.window_name(0), Some("fix auth bug"));
    assert_eq!(restored.window_name(1), None);

    // Closing a pane inside the window keeps the name.
    let b = s.split(a, SplitDirection::Horizontal).unwrap();
    s.close(b);
    assert_eq!(s.window_name(0), Some("fix auth bug"));

    assert!(s.set_window_name(0, None));
    assert_eq!(s.window_name(0), None);
}

#[test]
fn restore_rejects_garbage() {
    assert!(Session::<()>::restore("").is_none());
    assert!(Session::<()>::restore("v2\n").is_none());
    assert!(Session::<()>::restore("v1\n").is_none(), "no windows");
    assert!(Session::<()>::restore("v1\nwindow focused=1 (l 1) trailing\n").is_none());
    assert!(Session::<()>::restore("v1\nwindow focused=9 (l 1)\nactive 0\n").is_none());
    assert!(Session::<()>::restore("v1\nwindow focused=1 (l 1)\nactive 5\n").is_none());
    assert!(
        Session::<()>::restore("v1\nwindow focused=1 (h 0.5 (l 1) (l 1))\nactive 0\n").is_none(),
        "duplicate pane ids"
    );
}

#[test]
fn snapshot_text_is_exact() {
    let mut s = session();
    let a = s.focused().unwrap();
    let b = s.split(a, SplitDirection::Vertical).unwrap();
    s.set_command(b, Some("agent\n--go".into()));
    assert!(s.set_window_name(0, Some("work".into())));
    assert_eq!(
        s.snapshot(),
        "v1\nwindow focused=2 (v 0.5000 (l 1) (l 2))\nactive 0\nwname 0 work\npane 2 agent --go\n"
    );
}

#[test]
fn restore_reads_ratios_signs_and_blank_lines() {
    let text = "v1\n\nwindow focused=+7 (h +1 (l 7) (v 0.25 (l 8) (l 9)))\nactive +0\npane 8 ls -la\n";
    let s = Session::<()>::restore(text).expect("restore");
    assert_eq!(s.focused(), Some(PaneId::from_raw(7)));
    assert_eq!(s.pane(PaneId::from_raw(8)).unwrap().command.as_deref(), Some("ls -la"));
    assert_eq!(
        s.snapshot(),
        "v1\nwindow focused=7 (h 1.0000 (l 7) (v 0.2500 (l 8) (l 9)))\nactive 0\npane 8 ls -la\n"
    );
}

#[test]
fn restore_rejects_out_of_range_ratios_and_unknown_panes() {
    assert!(Session::<()>::restore("v1\nwindow focused=1 (h 1.5 (l 1) (l 2))\nactive 0\n").is_none());
    assert!(Session::<()>::restore("v1\nwindow focused=1 (h 1.0001 (l 1) (l 2))\nactive 0\n").is_none());
    assert!(Session::<()>::restore("v1\nwindow focused=1 (l 1)\nactive 0\npane 2 zsh\n").is_none());
    assert!(Session::<()>::restore("v1\nwindow focused=1 (l 1)\nactive 0\nwname 3 x\n").is_none());
    assert!(Session::<()>::restore("v1\nwindow focused=1 (l 1)\nactive 0\nbogus\n").is_none());
    assert!(Session::<()>::restore("v1\nwindow focused=18446744073709551615 (l 18446744073709551615)\nactive 0\n").is_none());
}

#[test]
fn each_window_remembers_its_own_focus() {
    let mut session = Session::<()>::new();
    let a = session.focused().unwrap();
    let b = session.split(a, SplitDirection::Horizontal).unwrap();
    let c = session.new_window();
    assert_eq!(session.window_focused(0), Some(b));
    assert_eq!(session.window_focused(1), Some(c));
    assert_eq!(session.window_focused(2), None);
    assert_eq!(session.focused(), Some(c));
}

#[test]
fn closing_a_focused_pane_focuses_its_surviving_sibling_subtree() {
    let mut s = Session::<()>::new();
    let a = s.focused().unwrap();
    let b = s.split(a, SplitDirection::Horizontal).unwrap();
    let c = s.split(b, SplitDirection::Vertical).unwrap();
    // h(a, v(b, c)), c focused: its sibling subtree is the leaf b.
    assert!(s.close(c));
    assert!(s.pane(c).is_none());
    assert_eq!(s.layout(80, 24).len(), 2);
    assert_eq!(s.focused(), Some(b));
    // Closing b now collapses h(a, b) into a.
    assert!(s.close(b));
    assert_eq!(s.focused(), Some(a));
}
