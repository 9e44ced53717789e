//! The parsed screen grid: rows of styled cells plus a cursor.
//!
//! The emulator produces a grid from the raw PTY byte stream; detection and
//! rendering only ever consume one, so they can be driven entirely from
//! text fixtures. Wide-character and escape-sequence handling belong to
//! the emulator, not to this type.

use vstd::prelude::*;
use crate::text::{
    chars_of, is_whitespace, is_ws, lemma_max_len, lemma_trim_end_take, max_len, split_lines,
    string_from_chars, text_lines, trim_end_by,
};

verus! {

/// A terminal color, as reported by the emulator.
#[derive(Clone, Copy, Debug, PartialEq, Eq, Structural)]
pub enum Color {
    /// The terminal's default foreground or background.
    Default,
    /// One of the 16 named ANSI colors (0–15).
    Ansi(u8),
    /// An indexed color from the 256-color palette.
    Indexed(u8),
    /// A 24-bit truecolor value.
    Rgb(u8, u8, u8),
}

impl Default for Color {
    fn default() -> (c: Self)
        ensures
            c == Color::Default,
    {
        Color::Default
    }
}

/// Visual attributes of a single cell.
#[derive(Clone, Copy, Debug, PartialEq, Eq, Structural)]
pub struct CellStyle {
    /// Foreground color.
    pub fg: Color,
    /// Background color.
    pub bg: Color,
    /// Bold weight.
    pub bold: bool,
    /// Dim / faint intensity.
    pub dim: bool,
    /// Italic slant.
    pub italic: bool,
    /// Underline.
    pub underline: bool,
    /// Reverse video (fg/bg swapped).
    pub reverse: bool,
}

/// The default style: default colors, no attributes.
pub open spec fn plain_style() -> CellStyle {
    CellStyle {
        fg: Color::Default,
        bg: Color::Default,
        bold: false,
        dim: false,
        italic: false,
        underline: false,
        reverse: false,
    }
}

impl Default for CellStyle {
    fn default() -> (s: Self)
        ensures
            s == plain_style(),
    {
        CellStyle {
            fg: Color::Default,
            bg: Color::Default,
            bold: false,
            dim: false,
            italic: false,
            underline: false,
            reverse: false,
        }
    }
}

/// One character cell of the screen.
#[derive(Clone, Copy, Debug, PartialEq, Eq, Structural)]
pub struct Cell {
    /// The glyph in this cell.
    pub ch: char,
    /// The cell's visual attributes.
    pub style: CellStyle,
}

/// A cell holding `ch` with the default style.
pub open spec fn plain_cell(ch: char) -> Cell {
    Cell { ch, style: plain_style() }
}

/// A blank cell: a space with the default style.
pub open spec fn blank_cell() -> Cell {
    plain_cell(' ')
}

impl Cell {
    /// A cell holding `ch` with default styling.
    pub fn new(ch: char) -> (c: Self)
        ensures
            c == plain_cell(ch),
    {
        Cell { ch, style: CellStyle::default() }
    }
}

impl Default for Cell {
    fn default() -> (c: Self)
        ensures
            c == blank_cell(),
    {
        Cell::new(' ')
    }
}

/// The cursor position within a grid, in cell coordinates.
#[derive(Clone, Copy, Debug, PartialEq, Eq, Structural)]
pub struct Cursor {
    /// Zero-based column.
    pub col: usize,
    /// Zero-based row.
    pub row: usize,
    /// Whether the cursor is currently shown.
    pub visible: bool,
}

impl Default for Cursor {
    fn default() -> (c: Self)
        ensures
            c == (Cursor { col: 0, row: 0, visible: false }),
    {
        Cursor { col: 0, row: 0, visible: false }
    }
}

/// A grid as plain values: its size and its cells, row by row.
pub struct GridView {
    pub cols: nat,
    pub rows: nat,
    /// `cells[row][col]`; `rows` rows of `cols` cells each.
    pub cells: Seq<Seq<Cell>>,
    pub cursor: Cursor,
}

impl GridView {
    /// The grid holds `rows` rows of `cols` cells each.
    pub open spec fn shaped(self) -> bool {
        &&& self.cells.len() == self.rows
        &&& forall|r: int| 0 <= r < self.rows ==> (#[trigger] self.cells[r]).len() == self.cols
    }
}

/// The chars of one row of cells.
pub open spec fn row_chars(row: Seq<Cell>) -> Seq<char> {
    row.map_values(|c: Cell| c.ch)
}

/// A row's text as `Grid::row_text` gives it: trailing whitespace removed.
pub open spec fn row_text_of(row: Seq<Cell>) -> Seq<char> {
    trim_end_by(row_chars(row), |c: char| is_ws(c))
}

/// The cell a text fixture puts at (`col`, `row`): the line's char, or a
/// blank past its end.
pub open spec fn text_cell(lines: Seq<Seq<char>>, row: int, col: int) -> Cell {
    if col < lines[row].len() {
        plain_cell(lines[row][col])
    } else {
        blank_cell()
    }
}

/// A fixed-size screen of cells, row-major, plus a cursor.
#[derive(Clone, Debug, PartialEq, Eq)]
pub struct Grid {
    cols: usize,
    rows: usize,
    cells: Vec<Cell>,
    /// Cursor position and visibility.
    pub cursor: Cursor,
}

proof fn lemma_index_in_grid(cols: int, rows: int, col: int, row: int)
    requires
        0 <= col < cols,
        0 <= row < rows,
    ensures
        0 <= row * cols,
        0 <= row * cols + col < cols * rows,
        row * cols + cols <= cols * rows,
{
    assert(row * cols + cols <= cols * rows) by (nonlinear_arith)
        requires
            0 <= row < rows,
            0 <= cols,
    ;
    assert(0 <= row * cols) by (nonlinear_arith)
        requires
            0 <= row,
            0 <= cols,
    ;
}

impl View for Grid {
    type V = GridView;

    closed spec fn view(&self) -> GridView {
        GridView {
            cols: self.cols as nat,
            rows: self.rows as nat,
            cells: Seq::new(
                self.rows as nat,
                |r: int| Seq::new(self.cols as nat, |c: int| self.cells@[r * self.cols + c]),
            ),
            cursor: self.cursor,
        }
    }
}

/// Every grid has its shape: `rows` rows of `cols` cells.
pub proof fn lemma_grid_shaped(g: Grid)
    ensures
        g@.shaped(),
{
}

impl Grid {
    /// The flat cell store matches the grid's size.
    pub closed spec fn wf(&self) -> bool {
        &&& self.cells@.len() == self.cols * self.rows
        &&& self.cols * self.rows <= usize::MAX
    }

    /// An empty grid of `cols` × `rows` cells (all spaces, default style).
    pub fn new(cols: usize, rows: usize) -> (g: Self)
        requires
            cols * rows <= usize::MAX,
        ensures
            g.wf(),
            g@.shaped(),
            g@.cols == cols,
            g@.rows == rows,
            forall|r: int, c: int|
                0 <= r < rows && 0 <= c < cols ==> #[trigger] g@.cells[r][c] == blank_cell(),
            g@.cursor == (Cursor { col: 0, row: 0, visible: false }),
    {
        let n: usize = cols * rows;
        let mut cells: Vec<Cell> = Vec::new();
        let mut i: usize = 0;
        while i < n
            invariant
                i <= n,
                cells@.len() == i,
                forall|j: int| 0 <= j < i ==> cells@[j] == blank_cell(),
            decreases n - i,
        {
            cells.push(Cell::default());
            i += 1;
        }
        let g = Grid { cols, rows, cells, cursor: Cursor::default() };
        assert forall|r: int, c: int| 0 <= r < rows && 0 <= c < cols implies #[trigger] g@.cells[r][c]
            == blank_cell() by {
            lemma_index_in_grid(cols as int, rows as int, c, r);
        }
        g
    }

    /// Build a grid from plain text, one line per row.
    ///
    /// The grid is sized to the longest line and the line count; shorter
    /// lines are padded with blank cells. Blank interior and trailing lines
    /// are preserved, which is what makes text fixtures faithful to real
    /// screens where the prompt sits above empty rows.
    pub fn from_text(text: &str) -> (g: Self)
        requires
            max_len(text_lines(text@)) * text_lines(text@).len() <= usize::MAX,
        ensures
            g.wf(),
            g@.shaped(),
            g@.rows == text_lines(text@).len(),
            g@.cols == max_len(text_lines(text@)),
            forall|r: int, c: int|
                0 <= r < g@.rows && 0 <= c < g@.cols ==> #[trigger] g@.cells[r][c] == text_cell(
                    text_lines(text@),
                    r,
                    c,
                ),
            g@.cursor == (Cursor { col: 0, row: 0, visible: false }),
    {
        let chars = chars_of(text);
        let lines = split_lines(chars.as_slice());
        let ghost ls = text_lines(text@);
        assert(lines.deep_view() == ls);
        assert(lines@.len() == ls.len());
        assert(forall|i: int| 0 <= i < lines@.len() ==> #[trigger] lines@[i]@ == ls[i]) by {
            assert forall|i: int| 0 <= i < lines@.len() implies #[trigger] lines@[i]@ == ls[i] by {
                assert(lines.deep_view()[i] == lines@[i]@);
            }
        }
        let rows = lines.len();
        let mut cols: usize = 0;
        let mut i: usize = 0;
        while i < rows
            invariant
                rows == lines@.len(),
                rows == ls.len(),
                i <= rows,
                cols == max_len(ls.take(i as int)),
                forall|j: int| 0 <= j < lines@.len() ==> #[trigger] lines@[j]@ == ls[j],
            decreases rows - i,
        {
            assert(ls.take(i + 1).drop_last() =~= ls.take(i as int));
            if lines[i].len() > cols {
                cols = lines[i].len();
            }
            i += 1;
        }
        assert(ls.take(rows as int) =~= ls);
        proof {
            lemma_max_len(ls);
        }
        let mut g = Grid::new(cols, rows);
        let mut r: usize = 0;
        while r < rows
            invariant
                g.wf(),
                rows == lines@.len(),
                rows == ls.len(),
                cols == max_len(ls),
                r <= rows,
                g@.rows == rows,
                g@.cols == cols,
                g@.cursor == (Cursor { col: 0, row: 0, visible: false }),
                forall|j: int| 0 <= j < lines@.len() ==> #[trigger] lines@[j]@ == ls[j],
                forall|j: int| 0 <= j < ls.len() ==> #[trigger] ls[j].len() <= max_len(ls),
                forall|r2: int, c2: int|
                    0 <= r2 < rows && 0 <= c2 < cols ==> #[trigger] g@.cells[r2][c2] == if r2 < r {
                        text_cell(ls, r2, c2)
                    } else {
                        blank_cell()
                    },
            decreases rows - r,
        {
            let line = &lines[r];
            let mut c: usize = 0;
            while c < line.len()
                invariant
                    g.wf(),
                    rows == ls.len(),
                    cols == max_len(ls),
                    r < rows,
                    line@ == ls[r as int],
                    line@.len() <= cols,
                    c <= line@.len(),
                    g@.rows == rows,
                    g@.cols == cols,
                    g@.cursor == (Cursor { col: 0, row: 0, visible: false }),
                    forall|r2: int, c2: int|
                        0 <= r2 < rows && 0 <= c2 < cols ==> #[trigger] g@.cells[r2][c2] == if r2
                            < r || (r2 == r && c2 < c) {
                            text_cell(ls, r2, c2)
                        } else {
                            blank_cell()
                        },
                decreases line@.len() - c,
            {
                g.set(c, r, Cell::new(line[c]));
                c += 1;
            }
            r += 1;
        }
        g
    }

    /// Number of columns.
    pub fn cols(&self) -> (n: usize)
        ensures
            n == self@.cols,
    {
        self.cols
    }

    /// Number of rows.
    pub fn rows(&self) -> (n: usize)
        ensures
            n == self@.rows,
    {
        self.rows
    }

    /// The cell at (`col`, `row`), or `None` if out of bounds.
    pub fn cell(&self, col: usize, row: usize) -> (c: Option<&Cell>)
        requires
            self.wf(),
        ensures
            col < self@.cols && row < self@.rows ==> c == Some(&self@.cells[row as int][col as int]),
            !(col < self@.cols && row < self@.rows) ==> c is None,
    {
        if col < self.cols && row < self.rows {
            proof {
                lemma_index_in_grid(self.cols as int, self.rows as int, col as int, row as int);
            }
            Some(&self.cells[row * self.cols + col])
        } else {
            None
        }
    }

    /// Replace the cell at (`col`, `row`). Out-of-bounds writes are ignored.
    pub fn set(&mut self, col: usize, row: usize, cell: Cell)
        requires
            old(self).wf(),
        ensures
            final(self).wf(),
            final(self)@.shaped(),
            final(self)@.cols == old(self)@.cols,
            final(self)@.rows == old(self)@.rows,
            final(self)@.cursor == old(self)@.cursor,
            col < old(self)@.cols && row < old(self)@.rows ==> final(self)@.cells == old(
                self,
            )@.cells.update(row as int, old(self)@.cells[row as int].update(col as int, cell)),
            !(col < old(self)@.cols && row < old(self)@.rows) ==> final(self)@ == old(self)@,
    {
        if col < self.cols && row < self.rows {
            proof {
                lemma_index_in_grid(self.cols as int, self.rows as int, col as int, row as int);
            }
            let idx = row * self.cols + col;
            self.cells.set(idx, cell);
            proof {
                let cols = self.cols as int;
                let rows = self.rows as int;
                let expected = old(self)@.cells.update(
                    row as int,
                    old(self)@.cells[row as int].update(col as int, cell),
                );
                assert forall|r: int| 0 <= r < rows implies #[trigger] self@.cells[r]
                    =~= expected[r] by {
                    assert forall|c: int| 0 <= c < cols implies self@.cells[r][c]
                        == expected[r][c] by {
                        lemma_index_in_grid(cols, rows, c, r);
                        if r * cols + c == idx {
                            assert((r - row) * cols == col - c) by (nonlinear_arith)
                                requires
                                    r * cols + c == row * cols + col,
                            ;
                            if r != row {
                                assert(r - row >= 1 || r - row <= -1);
                                assert((r - row) * cols >= cols || (r - row) * cols <= -cols)
                                    by (nonlinear_arith)
                                    requires
                                        r - row >= 1 || r - row <= -1,
                                        cols >= 0,
                                ;
                            }
                        }
                    }
                }
                assert(self@.cells =~= expected);
            }
        }
    }

    /// The text of one row with trailing whitespace removed, or `None` if
    /// `row` is out of bounds.
    pub fn row_text(&self, row: usize) -> (s: Option<String>)
        requires
            self.wf(),
        ensures
            row < self@.rows ==> s is Some && s->Some_0@ == row_text_of(self@.cells[row as int]),
            row >= self@.rows ==> s is None,
    {
        if row >= self.rows {
            return None;
        }
        let ghost cells = self@.cells[row as int];
        let mut chars: Vec<char> = Vec::new();
        let mut c: usize = 0;
        while c < self.cols
            invariant
                self.wf(),
                row < self.rows,
                c <= self.cols,
                cells == self@.cells[row as int],
                chars@ == row_chars(cells).take(c as int),
            decreases self.cols - c,
        {
            proof {
                lemma_index_in_grid(self.cols as int, self.rows as int, c as int, row as int);
            }
            chars.push(self.cells[row * self.cols + c].ch);
            c += 1;
            assert(chars@ =~= row_chars(cells).take(c as int));
        }
        assert(chars@ =~= row_chars(cells));
        let mut end: usize = chars.len();
        while end > 0 && is_whitespace(chars[end - 1])
            invariant
                end <= chars@.len(),
                forall|j: int| end <= j < chars@.len() ==> is_ws(#[trigger] chars@[j]),
            decreases end,
        {
            end -= 1;
        }
        proof {
            lemma_trim_end_take(chars@, |c: char| is_ws(c), end as int);
        }
        let kept = vstd::slice::slice_subrange(chars.as_slice(), 0, end);
        assert(kept@ =~= chars@.take(end as int));
        Some(string_from_chars(kept))
    }

    /// All rows as trailing-trimmed text, top to bottom.
    pub fn lines(&self) -> (v: Vec<String>)
        requires
            self.wf(),
        ensures
            v@.len() == self@.rows,
            forall|r: int| 0 <= r < self@.rows ==> #[trigger] v@[r]@ == row_text_of(self@.cells[r]),
    {
        let mut v: Vec<String> = Vec::new();
        let mut r: usize = 0;
        while r < self.rows
            invariant
                self.wf(),
                r <= self.rows,
                v@.len() == r,
                forall|i: int| 0 <= i < r ==> #[trigger] v@[i]@ == row_text_of(self@.cells[i]),
            decreases self.rows - r,
        {
            let t = self.row_text(r);
            match t {
                Some(s) => v.push(s),
                None => {},
            }
            r += 1;
        }
        v
    }
}

} // verus!
