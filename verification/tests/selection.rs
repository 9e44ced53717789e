//! Drag-selection scenarios: what a selection between two points copies.

use roster::selection::selection_text;

fn lines(rows: &[&str]) -> Vec<Vec<char>> {
    rows.iter().map(|r| r.chars().collect()).collect()
}

#[test]
fn a_single_row_takes_the_cell_span_in_either_order() {
    let ls = lines(&["hello world   ", "second row    "]);
    assert_eq!(selection_text(&ls, (0, 0), (4, 0)), "hello");
    assert_eq!(selection_text(&ls, (4, 0), (0, 0)), "hello");
    // Trailing blanks inside the span are trimmed.
    assert_eq!(selection_text(&ls, (6, 0), (13, 0)), "world");
    // A start past the line's end selects nothing.
    assert_eq!(selection_text(&ls, (20, 0), (30, 0)), "");
}

#[test]
fn multi_row_selections_take_the_tail_the_middle_and_the_head() {
    let ls = lines(&["first line  ", "middle      ", "last line   "]);
    assert_eq!(selection_text(&ls, (6, 0), (3, 2)), "line\nmiddle\nlast");
    // Endpoints given backwards read the same.
    assert_eq!(selection_text(&ls, (3, 2), (6, 0)), "line\nmiddle\nlast");
    // Rows past the buffer clamp to its last line.
    assert_eq!(selection_text(&ls, (0, 1), (3, 99)), "middle\nlast");
}

#[test]
fn clamped_rows_on_one_line_still_span_the_columns() {
    let ls = lines(&["abc", "xyz"]);
    // Both rows clamp to the last line; the columns order themselves.
    assert_eq!(selection_text(&ls, (2, 7), (0, 5)), "xyz");
    assert_eq!(selection_text(&[], (0, 0), (5, 5)), "");
}
