//! Screen grid scenarios.

use roster::grid::{Cell, Grid};

#[test]
fn new_grid_is_blank() {
    let g = Grid::new(4, 2);
    assert_eq!(g.cols(), 4);
    assert_eq!(g.rows(), 2);
    assert_eq!(g.cell(3, 1), Some(&Cell::default()));
    assert_eq!(g.lines(), vec!["", ""]);
}

#[test]
fn from_text_preserves_layout() {
    let g = Grid::from_text("ab\n\nlonger line\n");
    assert_eq!(g.rows(), 3);
    assert_eq!(g.cols(), "longer line".len());
    assert_eq!(g.row_text(0).unwrap(), "ab");
    assert_eq!(g.row_text(1).unwrap(), "");
    assert_eq!(g.row_text(2).unwrap(), "longer line");
}

#[test]
fn from_text_keeps_blank_trailing_rows() {
    let g = Grid::from_text("prompt >\n\n");
    assert_eq!(g.rows(), 2);
    assert_eq!(g.lines(), vec!["prompt >", ""]);
}

#[test]
fn out_of_bounds_reads_are_none() {
    let g = Grid::new(2, 2);
    assert_eq!(g.cell(2, 0), None);
    assert_eq!(g.cell(0, 2), None);
    assert_eq!(g.row_text(2), None);
}

#[test]
fn out_of_bounds_writes_are_ignored() {
    let mut g = Grid::new(2, 2);
    g.set(5, 5, Cell::new('x'));
    assert_eq!(g.lines(), vec!["", ""]);
}

#[test]
fn set_and_read_back() {
    let mut g = Grid::new(3, 1);
    g.set(1, 0, Cell::new('x'));
    assert_eq!(g.cell(1, 0).unwrap().ch, 'x');
    assert_eq!(g.row_text(0).unwrap(), " x");
}

#[test]
fn row_text_trims_trailing_whitespace_only() {
    let mut g = Grid::new(5, 1);
    g.set(1, 0, Cell::new('a'));
    assert_eq!(g.row_text(0).unwrap(), " a");
}

#[test]
fn unicode_glyphs_round_trip() {
    let g = Grid::from_text("❯ done ✓");
    assert_eq!(g.row_text(0).unwrap(), "❯ done ✓");
}

#[test]
fn from_text_drops_carriage_returns_before_newlines() {
    let g = Grid::from_text("a\r\nbc\r\n");
    assert_eq!(g.rows(), 2);
    assert_eq!(g.cols(), 2);
    assert_eq!(g.lines(), vec!["a", "bc"]);
}

#[test]
fn empty_text_is_an_empty_grid() {
    let g = Grid::from_text("");
    assert_eq!(g.rows(), 0);
    assert_eq!(g.cols(), 0);
    assert!(g.lines().is_empty());
}

#[test]
fn row_text_trims_unicode_whitespace() {
    let g = Grid::from_text("x\u{3000}\t");
    assert_eq!(g.row_text(0).unwrap(), "x");
}
