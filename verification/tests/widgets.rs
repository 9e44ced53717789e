//! Text-fitting scenarios: pane titles with the exit marker, and styled
//! lines cut by display cells.

use roster::grid::Cursor;
use roster::layout::Rect;
use roster::widgets::{cell_cut, exited_notice, pane_cursor, scroll_chip, title_text, truncate_pieces};

#[test]
fn exited_marker_survives_a_long_title() {
    assert_eq!(title_text("agent-code", false, 4), "agent-code");
    assert_eq!(title_text("agent-code", true, 40), "agent-code · exited");
    // The name yields its cells; the marker stays whole.
    assert_eq!(title_text("a very long task title", true, 16), "a very… · exited");
    // Double-width names are cut by cells, not chars.
    assert_eq!(title_text("二十文字", true, 14), "二十… · exited");
    // No room at all for the name still keeps the marker.
    assert_eq!(title_text("agent-code", true, 5), " · exited");
}

#[test]
fn styled_lines_cut_by_cells_and_keep_their_pieces() {
    let pieces = vec!["Opus".to_string(), " · ".to_string(), "$12.34".to_string()];
    // Fits whole: left as it is.
    assert_eq!(truncate_pieces(&pieces, 13), None);
    // One cell short: the last piece is cut, one cell kept for the `…`.
    assert_eq!(
        truncate_pieces(&pieces, 12),
        Some(vec!["Opus".to_string(), " · ".to_string(), "$12.".to_string()])
    );
    // The cut lands inside the first piece and drops the rest.
    assert_eq!(truncate_pieces(&pieces, 3), Some(vec!["Op".to_string()]));
    // A width of one leaves room only for the `…`.
    assert_eq!(truncate_pieces(&pieces, 1), Some(vec![]));
    // A wide char that does not fit whole is dropped whole.
    let wide = vec!["二十".to_string()];
    assert_eq!(truncate_pieces(&wide, 2), Some(vec!["".to_string()]));
    assert_eq!(truncate_pieces(&wide, 3), Some(vec!["二".to_string()]));
    assert_eq!(cell_cut("二十", 3), 1);
}

#[test]
fn the_cursor_shows_on_the_focused_pane_only_when_nothing_covers_it() {
    let content = Rect::new(10, 2, 40, 12);
    let cursor = Cursor { col: 5, row: 3, visible: true };
    assert_eq!(pane_cursor(content, cursor, true, false), Some((15, 5)));
    assert_eq!(pane_cursor(content, cursor, false, false), None);
    assert_eq!(pane_cursor(content, cursor, true, true), None);
    let hidden = Cursor { visible: false, ..cursor };
    assert_eq!(pane_cursor(content, hidden, true, false), None);
    let outside = Cursor { col: 40, row: 0, visible: true };
    assert_eq!(pane_cursor(content, outside, true, false), None);
}

#[test]
fn scrolled_panes_carry_a_chip_with_the_offset() {
    let content = Rect::new(10, 2, 40, 12);
    assert_eq!(scroll_chip(content, 0), None);
    assert_eq!(scroll_chip(content, 120), Some((42, " ↑ 120 ".to_string())));
    // Too narrow for the chip and its margins.
    assert_eq!(scroll_chip(Rect::new(0, 0, 9, 4), 120), None);
    assert_eq!(scroll_chip(Rect::new(0, 0, 10, 4), 120), Some((2, " ↑ 120 ".to_string())));
}

#[test]
fn an_exited_strip_promises_a_close_button_only_where_there_is_one() {
    assert_eq!(exited_notice(127, true), " exited (127) — click ✕ to close ");
    assert_eq!(exited_notice(0, false), " exited (0) ");
}
