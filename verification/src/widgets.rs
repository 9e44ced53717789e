//! The text and geometry decisions of the smaller widgets: state glyphs and
//! labels, a pane's linear text selection, toast placement, and
//! cell-budgeted truncation.

use vstd::prelude::*;
use crate::chrome::{chrome_area, chrome_spec};
use crate::grid::{Cursor, Grid};
use crate::layout::{clamped_rect, Rect};
use crate::session::AgentState;
use crate::text::{chars_of, string_from_chars};

verus! {

/// The sidebar word for an agent state.
pub open spec fn state_word(state: AgentState) -> Seq<char> {
    match state {
        AgentState::Blocked => "blocked"@,
        AgentState::Working => "working"@,
        AgentState::Done => "done"@,
        AgentState::Idle => "idle"@,
    }
}

/// The sidebar label for an agent state.
pub fn state_label(state: AgentState) -> (s: &'static str)
    ensures
        s@ == state_word(state),
{
    match state {
        AgentState::Blocked => "blocked",
        AgentState::Working => "working",
        AgentState::Done => "done",
        AgentState::Idle => "idle",
    }
}

/// The working spinner's frames.
pub open spec fn spinner_frame(k: nat) -> Seq<char> {
    if k == 0 {
        "⠋"@
    } else if k == 1 {
        "⠙"@
    } else if k == 2 {
        "⠹"@
    } else if k == 3 {
        "⠸"@
    } else if k == 4 {
        "⠼"@
    } else if k == 5 {
        "⠴"@
    } else if k == 6 {
        "⠦"@
    } else if k == 7 {
        "⠧"@
    } else if k == 8 {
        "⠇"@
    } else {
        "⠏"@
    }
}

/// The status glyph for an agent state: a ringed dot for blocked, the
/// spinner frame `tick` selects for working, a check for done, a hollow
/// ring for idle.
pub open spec fn glyph_of(state: AgentState, tick: u64) -> Seq<char> {
    match state {
        AgentState::Blocked => "◉"@,
        AgentState::Working => spinner_frame((tick % 10) as nat),
        AgentState::Done => "✓"@,
        AgentState::Idle => "○"@,
    }
}

/// The status glyph for an agent state, the working spinner animated by
/// `tick`.
pub fn state_glyph(state: AgentState, tick: u64) -> (s: &'static str)
    ensures
        s@ == glyph_of(state, tick),
{
    match state {
        AgentState::Blocked => "◉",
        AgentState::Working => {
            let k = tick % 10;
            if k == 0 {
                "⠋"
            } else if k == 1 {
                "⠙"
            } else if k == 2 {
                "⠹"
            } else if k == 3 {
                "⠸"
            } else if k == 4 {
                "⠼"
            } else if k == 5 {
                "⠴"
            } else if k == 6 {
                "⠦"
            } else if k == 7 {
                "⠧"
            } else if k == 8 {
                "⠇"
            } else {
                "⠏"
            }
        },
        AgentState::Done => "✓",
        AgentState::Idle => "○",
    }
}

/// Frame ticks per phase of the done pulse.
pub const PULSE_TICKS: u64 = 4;

/// Whether a state's glyph is drawn reversed at `tick`: done pulses, one
/// phase of every two, each phase four ticks long; the rest hold steady.
pub fn glyph_reversed(state: AgentState, tick: u64) -> (b: bool)
    ensures
        b == (state == AgentState::Done && (tick / PULSE_TICKS) % 2 == 1),
{
    match state {
        AgentState::Done => (tick / PULSE_TICKS) % 2 == 1,
        _ => false,
    }
}

/// A `(col, row)` point in reading order: by row, then column.
pub open spec fn reading_le(a: (u16, u16), b: (u16, u16)) -> bool {
    a.1 < b.1 || (a.1 == b.1 && a.0 <= b.0)
}

/// Whether (`col`, `row`) falls inside the linear selection between two
/// endpoints, in either order: every cell from the earlier endpoint to the
/// later one in reading order.
pub open spec fn in_selection(sel: Option<((u16, u16), (u16, u16))>, col: int, row: int) -> bool {
    match sel {
        None => false,
        Some((a, b)) => {
            let (lo, hi) = if reading_le(a, b) { (a, b) } else { (b, a) };
            0 <= col <= u16::MAX && 0 <= row <= u16::MAX && reading_le(lo, (col as u16, row as u16))
                && reading_le((col as u16, row as u16), hi)
        },
    }
}

/// One pane's screen grid with an optional linear selection to highlight.
pub struct PaneView<'a> {
    /// The screen to draw.
    pub grid: &'a Grid,
    /// The selection's two `(col, row)` endpoints, in either order.
    pub selection: Option<((u16, u16), (u16, u16))>,
}

impl<'a> PaneView<'a> {
    /// A view over `grid`, nothing selected.
    pub fn new(grid: &'a Grid) -> (v: Self)
        ensures
            v.grid == grid,
            v.selection is None,
    {
        PaneView { grid, selection: None }
    }

    /// A linear text selection to highlight.
    pub fn selection(self, selection: Option<((u16, u16), (u16, u16))>) -> (v: Self)
        ensures
            v.grid == self.grid,
            v.selection == selection,
    {
        PaneView { grid: self.grid, selection }
    }

    /// Whether (`col`, `row`) falls inside the linear selection.
    pub fn selected(&self, col: usize, row: usize) -> (b: bool)
        ensures
            b == in_selection(self.selection, col as int, row as int),
    {
        match self.selection {
            None => false,
            Some((a, b)) => {
                let a_first = a.1 < b.1 || (a.1 == b.1 && a.0 <= b.0);
                let (lo, hi) = if a_first { (a, b) } else { (b, a) };
                if col > 65535 || row > 65535 {
                    return false;
                }
                let (c, r) = (col as u16, row as u16);
                (lo.1 < r || (lo.1 == r && lo.0 <= c)) && (r < hi.1 || (r == hi.1 && c <= hi.0))
            },
        }
    }
}

/// The display width of a string in terminal cells, as the renderer
/// measures it (Unicode width: wide chars take two cells).
pub uninterp spec fn text_width(s: Seq<char>) -> nat;

/// The renderer's display width of `s`: `Span::raw(s).width()`, a
/// function of the string alone.
#[verifier::external_body]
pub(crate) fn cell_width(s: &str) -> (n: usize)
    ensures
        n == text_width(s@),
{
    ratatui::text::Span::raw(s).width()
}

/// How loud a toast is.
#[derive(Clone, Copy, Debug, PartialEq, Eq, Structural)]
pub enum ToastLevel {
    /// A quiet confirmation.
    Info,
    /// A caution the user should notice soon.
    Warn,
    /// Something failed and the user should read it.
    Error,
}

/// A toast's height.
pub const TOAST_HEIGHT: u16 = 3;
/// A toast's widest.
pub const TOAST_MAX_WIDTH: u16 = 44;

/// A toast's width for text `cells` wide: six columns of glyph, spaces and
/// border around it, between 12 and 44, and no wider than the chrome
/// allows.
pub open spec fn toast_width(area: Rect, cells: nat) -> u16 {
    let c: int = if cells < TOAST_MAX_WIDTH { cells as int } else { TOAST_MAX_WIDTH as int };
    let w0 = c + 6;
    let w1: int = if w0 < 12 { 12 } else if w0 > TOAST_MAX_WIDTH { TOAST_MAX_WIDTH as int } else { w0 };
    let cap = area.width.saturating_sub(2);
    (if w1 < cap { w1 } else { cap as int }) as u16
}

/// The rects of the toasts from `k` on, stacked downward from row `y` at
/// the chrome's right edge; a toast that does not fit gets zero height and
/// takes no room.
pub open spec fn toast_layout(area: Rect, texts: Seq<Seq<char>>, k: int, y: int) -> Seq<Rect>
    decreases texts.len() - k,
{
    if k < 0 || k >= texts.len() {
        Seq::empty()
    } else {
        let width = toast_width(area, text_width(texts[k]));
        let x = area.x + area.width.saturating_sub((width + 1) as u16);
        let fits = y + TOAST_HEIGHT + 1 < area.y + area.height;
        let rect = clamped_rect(x as u16, y as u16, width, if fits { TOAST_HEIGHT } else { 0 });
        seq![rect] + toast_layout(area, texts, k + 1, if fits { y + TOAST_HEIGHT + 1 } else { y })
    }
}

/// The texts of a toast list.
pub open spec fn toast_texts(toasts: Seq<(&str, ToastLevel)>) -> Seq<Seq<char>> {
    toasts.map_values(|t: (&str, ToastLevel)| t.0@)
}

/// The rects the current toasts occupy, top-right of the chrome, newest
/// first, stacked downward; toasts that would not fit vertically get a
/// zero-height rect.
pub fn toast_rects(area: Rect, toasts: &[(&str, ToastLevel)]) -> (v: Vec<Rect>)
    requires
        area.fits(),
    ensures
        v@ == toast_layout(chrome_spec(area), toast_texts(toasts@), 0, chrome_spec(area).y + 1),
{
    let area = chrome_area(area);
    let ghost texts = toast_texts(toasts@);
    let mut y: u32 = area.y as u32 + 1;
    let mut out: Vec<Rect> = Vec::new();
    let mut k: usize = 0;
    while k < toasts.len()
        invariant
            area.fits(),
            texts == toast_texts(toasts@),
            k <= toasts@.len(),
            area.y + 1 <= y <= area.y + area.height + 1,
            out@ + toast_layout(area, texts, k as int, y as int) == toast_layout(area, texts, 0, area.y + 1),
        decreases toasts@.len() - k,
    {
        let (text, _) = toasts[k];
        assert(texts[k as int] == text@);
        let cells = cell_width(text);
        let c: u32 = if cells < TOAST_MAX_WIDTH as usize { cells as u32 } else { TOAST_MAX_WIDTH as u32 };
        let w0 = c + 6;
        let w1: u32 = if w0 < 12 { 12 } else if w0 > TOAST_MAX_WIDTH as u32 { TOAST_MAX_WIDTH as u32 } else { w0 };
        let cap = area.width.saturating_sub(2) as u32;
        let width: u16 = (if w1 < cap { w1 } else { cap }) as u16;
        let x = area.x + area.width.saturating_sub(width + 1);
        let fits = y + TOAST_HEIGHT as u32 + 1 < area.y as u32 + area.height as u32;
        let rect = Rect::clamped(x, y as u16, width, if fits { TOAST_HEIGHT } else { 0 });
        proof {
            assert(toast_layout(area, texts, k as int, y as int) == seq![rect] + toast_layout(
                area,
                texts,
                k + 1,
                if fits { y + TOAST_HEIGHT + 1 } else { y as int },
            ));
        }
        out.push(rect);
        if fits {
            y = y + TOAST_HEIGHT as u32 + 1;
        }
        k += 1;
        assert(out@ + toast_layout(area, texts, k as int, y as int) =~= toast_layout(area, texts, 0, area.y + 1));
    }
    assert(toast_layout(area, texts, k as int, y as int) =~= Seq::<Rect>::empty());
    assert(out@ =~= toast_layout(area, texts, 0, area.y + 1));
    out
}

/// The cells the first `n` chars of `s` take, char by char.
pub open spec fn chars_width(s: Seq<char>, n: int) -> nat
    decreases n,
{
    if n <= 0 {
        0
    } else {
        chars_width(s, n - 1) + text_width(seq![s[n - 1]])
    }
}

/// How many leading chars of `s` fit `budget` cells, stopping at the first
/// that does not fit whole.
pub open spec fn fitting_prefix(s: Seq<char>, budget: nat, k: int) -> int
    decreases s.len() - k,
{
    if k < 0 || k >= s.len() || chars_width(s, k + 1) > budget {
        k
    } else {
        fitting_prefix(s, budget, k + 1)
    }
}

/// `text` cut to at most `width` display cells: unchanged when it fits,
/// else the widest prefix fitting `width - 1` cells followed by `…`; a
/// wide char that does not fit whole is dropped whole.
pub open spec fn truncated(text: Seq<char>, width: nat) -> Seq<char> {
    if text_width(text) <= width {
        text
    } else if width == 0 {
        Seq::empty()
    } else {
        text.take(fitting_prefix(text, (width - 1) as nat, 0)).push('…')
    }
}

fn char_width(c: char) -> (n: usize)
    ensures
        n == text_width(seq![c]),
{
    let v = vec![c];
    let s = string_from_chars(v.as_slice());
    assert(s@ =~= seq![c]);
    cell_width(s.as_str())
}

/// How many leading chars of `text` fit `budget` display cells, a wide
/// char that does not fit whole dropped whole: the one cell-counting cut
/// both [`truncate`] and [`truncate_pieces`] rely on.
pub fn cell_cut(text: &str, budget: usize) -> (k: usize)
    ensures
        k == fitting_prefix(text@, budget as nat, 0),
        k <= text@.len(),
{
    let chars = chars_of(text);
    let mut used: u64 = 0;
    let mut k: usize = 0;
    while k < chars.len()
        invariant
            chars@ == text@,
            k <= chars@.len(),
            used == chars_width(text@, k as int),
            used <= budget,
            fitting_prefix(text@, budget as nat, 0) == fitting_prefix(text@, budget as nat, k as int),
        ensures
            k <= chars@.len(),
            fitting_prefix(text@, budget as nat, 0) == k,
        decreases chars@.len() - k,
    {
        let w = char_width(chars[k]);
        assert(chars_width(text@, k + 1) == chars_width(text@, k as int) + text_width(seq![text@[k as int]]));
        if w as u64 > budget as u64 - used {
            break;
        }
        used = used + w as u64;
        k += 1;
    }
    k
}

/// The first `k` chars of `chars`.
fn prefix(chars: &[char], k: usize) -> (out: Vec<char>)
    requires
        k <= chars@.len(),
    ensures
        out@ == chars@.take(k as int),
{
    let mut out: Vec<char> = Vec::new();
    let mut i: usize = 0;
    while i < k
        invariant
            k <= chars@.len(),
            i <= k,
            out@ == chars@.take(i as int),
        decreases k - i,
    {
        out.push(chars[i]);
        i += 1;
        assert(out@ =~= chars@.take(i as int));
    }
    out
}

/// Truncate `text` to at most `width` display cells, marking a cut with a
/// trailing `…`.
pub fn truncate(text: &str, width: usize) -> (s: String)
    ensures
        s@ == truncated(text@, width as nat),
{
    if cell_width(text) <= width {
        return string_from_chars(chars_of(text).as_slice());
    }
    if width == 0 {
        return string_from_chars(&[]);
    }
    let chars = chars_of(text);
    let k = cell_cut(text, width - 1);
    let mut out = prefix(chars.as_slice(), k);
    out.push('…');
    assert(out@ =~= text@.take(k as int).push('…'));
    string_from_chars(out.as_slice())
}

/// The cells a list of pieces takes, piece by piece.
pub open spec fn pieces_width(ps: Seq<Seq<char>>, n: int) -> nat
    decreases n,
{
    if n <= 0 {
        0
    } else {
        pieces_width(ps, n - 1) + text_width(ps[n - 1])
    }
}

/// The pieces kept from `k` on with `budget` cells left: whole pieces
/// while they fit, then the first that does not, cut by cells, and
/// nothing after it.
pub open spec fn kept_pieces(ps: Seq<Seq<char>>, k: int, budget: nat) -> Seq<Seq<char>>
    decreases ps.len() - k,
{
    if k < 0 || k >= ps.len() || budget == 0 {
        Seq::empty()
    } else if text_width(ps[k]) <= budget {
        seq![ps[k]] + kept_pieces(ps, k + 1, (budget - text_width(ps[k])) as nat)
    } else {
        seq![ps[k].take(fitting_prefix(ps[k], budget, 0))]
    }
}

/// A styled line of pieces cut to `width` cells: `None` when the whole
/// line fits and stays as it is; else the pieces kept (each a prefix of
/// the piece at its index, so a piece keeps its style) within
/// `width - 1` cells, the last cell left for the `…` that marks the cut.
pub open spec fn truncated_pieces(ps: Seq<Seq<char>>, width: nat) -> Option<Seq<Seq<char>>> {
    if pieces_width(ps, ps.len() as int) <= width {
        None
    } else {
        Some(kept_pieces(ps, 0, if width > 0 { (width - 1) as nat } else { 0 }))
    }
}

/// [`truncate`] for a styled line: the pieces that remain of `pieces` at
/// `width` cells, or `None` when the line fits whole. A hard clip would
/// leave a badge reading as a smaller number than it is (`$12.34` as
/// `$12`); the caller marks the cut with `…` instead.
pub fn truncate_pieces(pieces: &[String], width: usize) -> (r: Option<Vec<String>>)
    ensures
        match (r, truncated_pieces(pieces@.map_values(|p: String| p@), width as nat)) {
            (None, None) => true,
            (Some(v), Some(w)) => v@.map_values(|p: String| p@) == w,
            _ => false,
        },
{
    let ghost ps = pieces@.map_values(|p: String| p@);
    let mut total: u64 = 0;
    let mut k: usize = 0;
    let mut over = false;
    while k < pieces.len()
        invariant
            ps == pieces@.map_values(|p: String| p@),
            k <= pieces@.len(),
            !over ==> total == pieces_width(ps, k as int) && total <= width,
            over ==> pieces_width(ps, pieces@.len() as int) > width,
        decreases pieces@.len() - k,
    {
        if !over {
            let w = cell_width(pieces[k].as_str());
            assert(ps[k as int] == pieces@[k as int]@);
            if w as u64 > width as u64 - total {
                over = true;
                proof {
                    lemma_pieces_width_grows(ps, k + 1, pieces@.len() as int);
                }
            } else {
                total = total + w as u64;
            }
        }
        k += 1;
    }
    if !over {
        return None;
    }
    let mut budget: usize = if width > 0 { width - 1 } else { 0 };
    let ghost start = budget as nat;
    let mut out: Vec<String> = Vec::new();
    let mut i: usize = 0;
    while i < pieces.len() && budget > 0
        invariant
            ps == pieces@.map_values(|p: String| p@),
            i <= pieces@.len(),
            out@.map_values(|p: String| p@) + kept_pieces(ps, i as int, budget as nat) == kept_pieces(ps, 0, start),
        decreases pieces@.len() - i, budget,
    {
        let ghost before = out@.map_values(|p: String| p@);
        let piece = &pieces[i];
        assert(ps[i as int] == piece@);
        let w = cell_width(piece.as_str());
        if w <= budget {
            out.push(string_from_chars(chars_of(piece.as_str()).as_slice()));
            assert(out@.map_values(|p: String| p@) =~= before.push(ps[i as int]));
            assert(before.push(ps[i as int]) + kept_pieces(ps, i + 1, (budget - w) as nat) =~= before + (seq![ps[i as int]]
                + kept_pieces(ps, i + 1, (budget - w) as nat)));
            budget = budget - w;
            i += 1;
        } else {
            let cut = cell_cut(piece.as_str(), budget);
            let chars = chars_of(piece.as_str());
            let head = prefix(chars.as_slice(), cut);
            out.push(string_from_chars(head.as_slice()));
            assert(out@.map_values(|p: String| p@) =~= before.push(ps[i as int].take(cut as int)));
            assert(before.push(ps[i as int].take(cut as int)) =~= before + seq![ps[i as int].take(cut as int)]);
            budget = 0;
            i = pieces.len();
            assert(kept_pieces(ps, i as int, 0) =~= Seq::<Seq<char>>::empty());
        }
    }
    assert(kept_pieces(ps, i as int, budget as nat) =~= Seq::<Seq<char>>::empty());
    assert(out@.map_values(|p: String| p@) =~= kept_pieces(ps, 0, start));
    Some(out)
}

proof fn lemma_pieces_width_grows(ps: Seq<Seq<char>>, a: int, b: int)
    requires
        0 <= a <= b,
    ensures
        pieces_width(ps, a) <= pieces_width(ps, b),
    decreases b - a,
{
    if a < b {
        lemma_pieces_width_grows(ps, a, b - 1);
    }
}

/// The marker an exited pane's title carries.
pub open spec fn exited_suffix() -> Seq<char> {
    seq![' ', '·', ' ', 'e', 'x', 'i', 't', 'e', 'd']
}

/// What a pane's title shows for a name budget of `budget` cells: the
/// label, or, for an exited pane, the label cut by cells to leave the
/// marker room, then the marker: a cut name still reads, a cut marker
/// would vanish.
pub open spec fn title_spec(label: Seq<char>, exited: bool, budget: nat) -> Seq<char> {
    if exited {
        let room: nat = if budget > 9 { (budget - 9) as nat } else { 0 };
        truncated(label, room) + exited_suffix()
    } else {
        label
    }
}

/// A pane title's text for a name budget of `budget` cells.
pub fn title_text(label: &str, exited: bool, budget: usize) -> (s: String)
    ensures
        s@ == title_spec(label@, exited, budget as nat),
{
    if !exited {
        let chars = chars_of(label);
        return string_from_chars(chars.as_slice());
    }
    let room = budget.saturating_sub(9);
    let cut = truncate(label, room);
    let mut chars = chars_of(cut.as_str());
    let suffix = vec![' ', '·', ' ', 'e', 'x', 'i', 't', 'e', 'd'];
    let mut k: usize = 0;
    while k < suffix.len()
        invariant
            suffix@ == exited_suffix(),
            k <= suffix@.len(),
            chars@ == cut@ + suffix@.take(k as int),
        decreases suffix@.len() - k,
    {
        chars.push(suffix[k]);
        assert(suffix@.take(k + 1) =~= suffix@.take(k as int).push(suffix@[k as int]));
        k += 1;
    }
    assert(suffix@.take(9) =~= suffix@);
    string_from_chars(chars.as_slice())
}

/// Where the terminal cursor goes for a pane: at the pane's own cursor
/// within its content rect, for the focused pane only, while no modal owns
/// the keyboard, the program shows its cursor, and the cursor lands
/// inside the content.
pub open spec fn pane_cursor_spec(content: Rect, cursor: Cursor, focused: bool, modal_open: bool) -> Option<(int, int)> {
    if focused && !modal_open && cursor.visible && cursor.col < content.width && cursor.row < content.height {
        Some((content.x + cursor.col, content.y + cursor.row))
    } else {
        None
    }
}

/// The terminal cursor's cell for a pane, when it shows one.
pub fn pane_cursor(content: Rect, cursor: Cursor, focused: bool, modal_open: bool) -> (r: Option<(u16, u16)>)
    requires
        content.fits(),
    ensures
        match (r, pane_cursor_spec(content, cursor, focused, modal_open)) {
            (Some((x, y)), Some((sx, sy))) => x == sx && y == sy,
            (None, None) => true,
            _ => false,
        },
{
    if focused && !modal_open && cursor.visible && cursor.col < content.width as usize && cursor.row
        < content.height as usize {
        Some((content.x + cursor.col as u16, content.y + cursor.row as u16))
    } else {
        None
    }
}

/// The chip a pane scrolled into history shows in its content's top-right
/// corner: ` ↑ N ` (how many lines back), one column in from the edge,
/// when the content is wider than the chip and two columns.
pub open spec fn scroll_chip_spec(content: Rect, offset: usize) -> Option<(int, Seq<char>)> {
    let chip = seq![' ', '↑', ' '] + crate::text::decimal(offset as nat) + seq![' '];
    if offset > 0 && content.width > chip.len() + 2 {
        Some((content.x + content.width - chip.len() - 1, chip))
    } else {
        None
    }
}

/// The scroll chip's column and text, when the pane is scrolled back.
pub fn scroll_chip(content: Rect, offset: usize) -> (r: Option<(u16, String)>)
    requires
        content.fits(),
    ensures
        match (r, scroll_chip_spec(content, offset)) {
            (Some((x, t)), Some((sx, st))) => x == sx && t@ == st,
            (None, None) => true,
            _ => false,
        },
{
    let digits = crate::text::decimal_chars(offset as u64);
    proof {
        crate::text::lemma_decimal_len(offset as nat);
    }
    let mut chip = vec![' ', '↑', ' '];
    let mut k: usize = 0;
    while k < digits.len()
        invariant
            k <= digits@.len(),
            chip@ == seq![' ', '↑', ' '] + digits@.take(k as int),
        decreases digits@.len() - k,
    {
        chip.push(digits[k]);
        assert(digits@.take(k + 1) =~= digits@.take(k as int).push(digits@[k as int]));
        k += 1;
    }
    chip.push(' ');
    assert(digits@.take(digits@.len() as int) =~= digits@);
    assert(chip@ =~= seq![' ', '↑', ' '] + digits@ + seq![' ']);
    let len = chip.len() as u16;
    if offset > 0 && content.width > len + 2 {
        Some((content.x + content.width - len - 1, string_from_chars(chip.as_slice())))
    } else {
        None
    }
}

/// The one-line notice an exited pane too small for its card shows: the
/// exit code, and the way out when the border hosts a close button.
pub open spec fn exited_notice_spec(code: u32, closable: bool) -> Seq<char> {
    if closable {
        " exited ("@ + crate::text::decimal(code as nat) + ") — click ✕ to close "@
    } else {
        " exited ("@ + crate::text::decimal(code as nat) + ") "@
    }
}

/// The exited strip's text.
pub fn exited_notice(code: u32, closable: bool) -> (s: String)
    ensures
        s@ == exited_notice_spec(code, closable),
{
    proof {
        reveal_strlit(" exited (");
        reveal_strlit(") — click ✕ to close ");
        reveal_strlit(") ");
    }
    let mut out = chars_of(" exited (");
    let digits = crate::text::decimal_chars(code as u64);
    let tail = if closable { chars_of(") — click ✕ to close ") } else { chars_of(") ") };
    let ghost head = out@;
    let mut k: usize = 0;
    while k < digits.len()
        invariant
            k <= digits@.len(),
            out@ == head + digits@.take(k as int),
        decreases digits@.len() - k,
    {
        out.push(digits[k]);
        assert(digits@.take(k + 1) =~= digits@.take(k as int).push(digits@[k as int]));
        k += 1;
    }
    assert(digits@.take(digits@.len() as int) =~= digits@);
    let ghost mid = out@;
    let mut j: usize = 0;
    while j < tail.len()
        invariant
            j <= tail@.len(),
            out@ == mid + tail@.take(j as int),
        decreases tail@.len() - j,
    {
        out.push(tail[j]);
        assert(tail@.take(j + 1) =~= tail@.take(j as int).push(tail@[j as int]));
        j += 1;
    }
    assert(tail@.take(tail@.len() as int) =~= tail@);
    string_from_chars(out.as_slice())
}

} // verus!
