//! The frame's chrome geometry: where the sidebar, the pane region and the
//! status row sit, and the clickable controls on the status row and the
//! pane panels. Render draws exactly these rects and hit-testing targets
//! exactly these, so the drawn chrome and the click targets cannot drift
//! apart. Every resolver takes the raw frame area and applies the inset
//! once.

use vstd::prelude::*;
use crate::layout::{clamped_rect, Rect};
use crate::session::{session_layout, Session};
use crate::text::{decimal, decimal_chars, lemma_decimal_len, string_from_chars};

verus! {

/// Columns reserved for the sidebar, when the terminal is wide enough to
/// afford them; narrower terminals give it up to half the width.
pub const SIDEBAR_WIDTH: u16 = 32;

/// Rows reserved at the bottom for the status line.
pub const STATUS_HEIGHT: u16 = 1;

/// How far the chrome stands back from the terminal edge, in rows;
/// columns double it.
pub const INSET: u16 = 1;

/// Which edge the sidebar occupies.
#[derive(Clone, Copy, Debug, PartialEq, Eq, Structural)]
pub enum SidebarSide {
    /// Sidebar on the left, panes to its right (the default).
    Left,
    /// Sidebar on the right, panes to its left.
    Right,
}

impl Default for SidebarSide {
    fn default() -> (s: Self)
        ensures
            s == SidebarSide::Left,
    {
        SidebarSide::Left
    }
}

/// The sidebar width for a chrome `total_width` wide: the fixed width, or
/// half the width on terminals too narrow to spare it.
pub open spec fn sidebar_width_spec(total_width: u16) -> u16 {
    if SIDEBAR_WIDTH < total_width / 2 {
        SIDEBAR_WIDTH
    } else {
        total_width / 2
    }
}

fn sidebar_width(total_width: u16) -> (w: u16)
    ensures
        w == sidebar_width_spec(total_width),
{
    if SIDEBAR_WIDTH < total_width / 2 {
        SIDEBAR_WIDTH
    } else {
        total_width / 2
    }
}

/// The area the chrome occupies: the frame stood back from the edge by the
/// inset — two columns, one row — on frames big enough to spare it.
pub open spec fn chrome_spec(frame: Rect) -> Rect {
    if frame.width < 4 * INSET + 20 || frame.height < 2 * INSET + 6 {
        frame
    } else {
        Rect {
            x: (frame.x + 2 * INSET) as u16,
            y: (frame.y + INSET) as u16,
            width: (frame.width - 4 * INSET) as u16,
            height: (frame.height - 2 * INSET) as u16,
        }
    }
}

/// The area roster's chrome occupies within the frame.
pub fn chrome_area(frame: Rect) -> (r: Rect)
    requires
        frame.fits(),
    ensures
        r == chrome_spec(frame),
        r.fits(),
{
    if frame.width < 4 * INSET + 20 || frame.height < 2 * INSET + 6 {
        return frame;
    }
    Rect::new(
        frame.x + 2 * INSET,
        frame.y + INSET,
        frame.width - 4 * INSET,
        frame.height - 2 * INSET,
    )
}

/// The region panes are laid out in: beside the sidebar, above the status
/// row.
pub open spec fn panes_spec(frame: Rect, side: SidebarSide) -> Rect {
    let area = chrome_spec(frame);
    let bar = sidebar_width_spec(area.width);
    let x = match side {
        SidebarSide::Left => (area.x + bar) as u16,
        SidebarSide::Right => area.x,
    };
    clamped_rect(
        x,
        area.y,
        (area.width - bar) as u16,
        area.height.saturating_sub(STATUS_HEIGHT),
    )
}

/// The absolute region panes are laid out in: everything beside the
/// sidebar and above the status line, within the chrome inset.
pub fn panes_area(frame: Rect, side: SidebarSide) -> (r: Rect)
    requires
        frame.fits(),
    ensures
        r == panes_spec(frame, side),
        r.fits(),
{
    let area = chrome_area(frame);
    let bar = sidebar_width(area.width);
    let x = match side {
        SidebarSide::Left => area.x + bar,
        SidebarSide::Right => area.x,
    };
    Rect::clamped(x, area.y, area.width - bar, area.height.saturating_sub(STATUS_HEIGHT))
}

/// The region the sidebar occupies.
pub open spec fn sidebar_spec(frame: Rect, side: SidebarSide) -> Rect {
    let area = chrome_spec(frame);
    let bar = sidebar_width_spec(area.width);
    let x = match side {
        SidebarSide::Left => area.x,
        SidebarSide::Right => (area.x + area.width - bar) as u16,
    };
    clamped_rect(x, area.y, bar, area.height.saturating_sub(STATUS_HEIGHT))
}

/// The absolute region the sidebar occupies: its column band beside the
/// panes, above the status line, within the chrome inset.
pub fn sidebar_area(frame: Rect, side: SidebarSide) -> (r: Rect)
    requires
        frame.fits(),
    ensures
        r == sidebar_spec(frame, side),
        r.fits(),
{
    let area = chrome_area(frame);
    let bar = sidebar_width(area.width);
    let x = match side {
        SidebarSide::Left => area.x,
        SidebarSide::Right => area.x + area.width - bar,
    };
    Rect::clamped(x, area.y, bar, area.height.saturating_sub(STATUS_HEIGHT))
}

/// The sidebar's content region: the sidebar minus the gap column that
/// stands it off from the pane panels.
pub open spec fn sidebar_inner_spec(frame: Rect, side: SidebarSide) -> Rect {
    let bar = sidebar_spec(frame, side);
    match side {
        SidebarSide::Left => clamped_rect(bar.x, bar.y, bar.width.saturating_sub(1), bar.height),
        SidebarSide::Right => clamped_rect(
            bar.x.saturating_add(1),
            bar.y,
            bar.width.saturating_sub(1),
            bar.height,
        ),
    }
}

/// The sidebar's content region, where clicks on agent cards land.
pub fn sidebar_inner(frame: Rect, side: SidebarSide) -> (r: Rect)
    requires
        frame.fits(),
    ensures
        r == sidebar_inner_spec(frame, side),
        r.fits(),
{
    let bar = sidebar_area(frame, side);
    match side {
        SidebarSide::Left => Rect::clamped(bar.x, bar.y, bar.width.saturating_sub(1), bar.height),
        SidebarSide::Right => Rect::clamped(
            bar.x.saturating_add(1),
            bar.y,
            bar.width.saturating_sub(1),
            bar.height,
        ),
    }
}

/// The sidebar row hosting the pinned `+ new agent` button, when the
/// sidebar is tall enough to spare it.
pub open spec fn button_row_spec(frame: Rect, side: SidebarSide) -> Option<u16> {
    let bar = sidebar_inner_spec(frame, side);
    if bar.height >= 6 {
        Some((bar.y + bar.height - 1) as u16)
    } else {
        None
    }
}

/// The sidebar row hosting the pinned `+ new agent` button.
pub fn sidebar_button_row(frame: Rect, side: SidebarSide) -> (r: Option<u16>)
    requires
        frame.fits(),
    ensures
        r == button_row_spec(frame, side),
{
    let bar = sidebar_inner(frame, side);
    if bar.height >= 6 {
        Some(bar.y + bar.height - 1)
    } else {
        None
    }
}

/// Whether a pane rect gets its rounded panel: below 3×3 there is no room
/// for a border around any content.
pub open spec fn panelled_spec(rect: Rect) -> bool {
    rect.width >= 3 && rect.height >= 3
}

/// Whether a pane rect gets its rounded panel.
pub fn panelled(rect: Rect) -> (b: bool)
    ensures
        b == panelled_spec(rect),
{
    rect.width >= 3 && rect.height >= 3
}

/// The columns of a pane's top border taken by its `✕` close button: a
/// three-column target one column in from the panel's corner, on borders
/// at least 14 wide.
pub open spec fn close_cols_spec(rect: Rect) -> Option<(u16, u16)> {
    if panelled_spec(rect) && rect.width >= 14 {
        Some(((rect.x + rect.width - 4) as u16, (rect.x + rect.width - 1) as u16))
    } else {
        None
    }
}

/// The columns of a pane's top border occupied by its `✕` close button.
/// `None` when the border is too narrow to host one.
pub fn close_button_cols(rect: Rect) -> (r: Option<core::ops::Range<u16>>)
    requires
        rect.x + rect.width <= u16::MAX,
    ensures
        match close_cols_spec(rect) {
            Some((start, end)) => r is Some && r->Some_0.start == start && r->Some_0.end == end,
            None => r is None,
        },
{
    if panelled(rect) && rect.width >= 14 {
        Some(core::ops::Range { start: rect.x + rect.width - 4, end: rect.x + rect.width - 1 })
    } else {
        None
    }
}

/// How many cells a pane's title may take on the top border of `rect`:
/// from four columns in (after the corner and the state glyph) up to the
/// close button, or, without one, up to two columns short of the edge.
pub open spec fn title_budget_spec(rect: Rect) -> int {
    let text_end: int = match close_cols_spec(rect) {
        Some((start, _)) => start - rect.x,
        None => rect.width - 2,
    };
    if text_end > 4 {
        text_end - 4
    } else {
        0
    }
}

/// The cells a pane's title may take on its top border.
pub fn title_budget(rect: Rect) -> (b: usize)
    requires
        rect.x + rect.width <= u16::MAX,
    ensures
        b == title_budget_spec(rect),
{
    let text_end: u16 = match close_button_cols(rect) {
        Some(cols) => cols.start - rect.x,
        None => if rect.width >= 2 {
            rect.width - 2
        } else {
            0
        },
    };
    if text_end > 4 {
        (text_end - 4) as usize
    } else {
        0
    }
}

/// The text of the status row's window indicator: `⧉ active/count`, the
/// active window counted from one.
pub open spec fn windows_text(active: nat, count: nat) -> Seq<char> {
    seq!['⧉', ' '] + decimal(active + 1) + seq!['/'] + decimal(count)
}

/// Where the window indicator sits, if it shows: right-aligned on the
/// status row, two columns wider than its text; only with several windows
/// and room for 24 more columns beside it.
pub open spec fn windows_span_spec(frame: Rect, active: nat, count: nat) -> Option<Rect> {
    let area = chrome_spec(frame);
    let width = windows_text(active, count).len() + 2;
    if count <= 1 || area.height < STATUS_HEIGHT || !(area.width > width + 24) {
        None
    } else {
        Some(
            clamped_rect(
                (area.x + area.width - width) as u16,
                (area.y + area.height - STATUS_HEIGHT) as u16,
                width as u16,
                1,
            ),
        )
    }
}

/// The status row's right-aligned window indicator — `⧉ 2/3`, clickable
/// to cycle windows — with its text. `None` with a single window or when
/// the status row is too crowded to fit it.
pub fn status_windows_span(frame: Rect, active: usize, count: usize) -> (r: Option<(Rect, String)>)
    requires
        frame.fits(),
        active < usize::MAX,
    ensures
        match windows_span_spec(frame, active as nat, count as nat) {
            Some(rect) => r is Some && r->Some_0.0 == rect && r->Some_0.1@ == windows_text(
                active as nat,
                count as nat,
            ),
            None => r is None,
        },
{
    let area = chrome_area(frame);
    if count <= 1 || area.height < STATUS_HEIGHT {
        return None;
    }
    let mut text: Vec<char> = Vec::new();
    text.push('⧉');
    text.push(' ');
    let shown = decimal_chars((active + 1) as u64);
    let total = decimal_chars(count as u64);
    let mut i: usize = 0;
    while i < shown.len()
        invariant
            i <= shown@.len(),
            text@ == seq!['⧉', ' '] + shown@.take(i as int),
        decreases shown@.len() - i,
    {
        text.push(shown[i]);
        i += 1;
        assert(text@ =~= seq!['⧉', ' '] + shown@.take(i as int));
    }
    text.push('/');
    let ghost head = text@;
    let mut j: usize = 0;
    while j < total.len()
        invariant
            j <= total@.len(),
            text@ == head + total@.take(j as int),
        decreases total@.len() - j,
    {
        text.push(total[j]);
        j += 1;
        assert(text@ =~= head + total@.take(j as int));
    }
    proof {
        assert(shown@.take(shown@.len() as int) =~= shown@);
        assert(total@.take(total@.len() as int) =~= total@);
        assert(text@ =~= windows_text(active as nat, count as nat));
        lemma_decimal_len((active + 1) as nat);
        lemma_decimal_len(count as nat);
    }
    let width: u16 = text.len() as u16 + 2;
    if area.width > width + 24 {
        let rect = Rect::clamped(
            area.x + area.width - width,
            area.y + area.height - STATUS_HEIGHT,
            width,
            1,
        );
        Some((rect, string_from_chars(text.as_slice())))
    } else {
        None
    }
}

/// The width of the `grid` layout pill (` grid `).
pub const GRID_PILL_WIDTH: u16 = 6;

/// The width of the `solo` layout pill (` solo `).
pub const SOLO_PILL_WIDTH: u16 = 6;

/// Where the `grid` / `solo` layout pills sit, left of whatever bounds them
/// on the right (the window indicator at `right`, else the chrome's edge):
/// one gap column apart, one column in; only with several panes and room
/// for 24 more columns.
pub open spec fn view_spans_spec(frame: Rect, right: u16, multi_pane: bool) -> Option<(Rect, Rect)> {
    let area = chrome_spec(frame);
    let y = (area.y + area.height - STATUS_HEIGHT) as u16;
    let total = GRID_PILL_WIDTH + 1 + SOLO_PILL_WIDTH + 1;
    if !multi_pane || area.height < STATUS_HEIGHT || !(right - area.x > total + 24) {
        None
    } else {
        let solo_x = (right - 1 - SOLO_PILL_WIDTH) as u16;
        let grid_x = (solo_x - 1 - GRID_PILL_WIDTH) as u16;
        Some(
            (
                clamped_rect(grid_x, y, GRID_PILL_WIDTH, 1),
                clamped_rect(solo_x, y, SOLO_PILL_WIDTH, 1),
            ),
        )
    }
}

fn status_view_spans(frame: Rect, windows: Option<Rect>, multi_pane: bool) -> (r: Option<(Rect, Rect)>)
    requires
        frame.fits(),
        windows is Some ==> chrome_spec(frame).x <= windows->Some_0.x,
    ensures
        r == view_spans_spec(
            frame,
            match windows {
                Some(w) => w.x,
                None => (chrome_spec(frame).x + chrome_spec(frame).width) as u16,
            },
            multi_pane,
        ),
{
    let area = chrome_area(frame);
    if !multi_pane || area.height < STATUS_HEIGHT {
        return None;
    }
    let right = match windows {
        Some(w) => w.x,
        None => area.x + area.width,
    };
    let y = area.y + area.height - STATUS_HEIGHT;
    let total = GRID_PILL_WIDTH + 1 + SOLO_PILL_WIDTH + 1;
    if right - area.x > total + 24 {
        let solo_x = right - 1 - SOLO_PILL_WIDTH;
        let grid_x = solo_x - 1 - GRID_PILL_WIDTH;
        Some((Rect::clamped(grid_x, y, GRID_PILL_WIDTH, 1), Rect::clamped(solo_x, y, SOLO_PILL_WIDTH, 1)))
    } else {
        None
    }
}

/// The status row's clickable controls, resolved in one place.
pub struct StatusControls {
    /// The `⧉ N/M` window indicator's rect and text, when shown.
    pub windows: Option<(Rect, String)>,
    /// The `(grid, solo)` layout-pill rects, when shown.
    pub views: Option<(Rect, Rect)>,
}

/// Resolve the status row's clickable controls for a frame: the window
/// indicator for the session's active window and count, and the layout
/// pills when the active window tiles more than one pane.
pub fn status_controls<T>(frame: Rect, side: SidebarSide, session: &Session<T>) -> (c: StatusControls)
    requires
        frame.fits(),
        session.wf(),
    ensures
        ({
            let active = if session@.windows.len() == 0 { 0 } else { session@.active };
            let win = windows_span_spec(frame, active, session@.windows.len());
            let panes = panes_spec(frame, side);
            let multi = session_layout(session@, panes.width, panes.height).len() > 1;
            &&& match win {
                Some(rect) => c.windows is Some && c.windows->Some_0.0 == rect
                    && c.windows->Some_0.1@ == windows_text(active, session@.windows.len()),
                None => c.windows is None,
            }
            &&& c.views == view_spans_spec(
                frame,
                match win {
                    Some(w) => w.x,
                    None => (chrome_spec(frame).x + chrome_spec(frame).width) as u16,
                },
                multi,
            )
        }),
{
    let active = match session.active_window() {
        Some(a) => a,
        None => 0,
    };
    let windows = status_windows_span(frame, active, session.window_count());
    let panes = panes_area(frame, side);
    let multi_pane = session.layout(panes.width, panes.height).len() > 1;
    let rect = match &windows {
        Some((r, _)) => Some(*r),
        None => None,
    };
    let views = status_view_spans(frame, rect, multi_pane);
    StatusControls { windows, views }
}

/// The interior of a pane's rounded panel: one border cell off every side.
/// Rects too small for a panel keep every cell.
pub open spec fn content_spec(rect: Rect) -> Rect {
    if !panelled_spec(rect) {
        clamped_rect(rect.x, rect.y, rect.width, rect.height)
    } else {
        clamped_rect(
            (rect.x + 1) as u16,
            (rect.y + 1) as u16,
            (rect.width - 2) as u16,
            (rect.height - 2) as u16,
        )
    }
}

/// The part of a laid-out pane rect its content actually occupies.
pub fn content_rect(rect: Rect) -> (r: Rect)
    requires
        rect.fits(),
    ensures
        r == content_spec(rect),
{
    if !panelled(rect) {
        return Rect::clamped(rect.x, rect.y, rect.width, rect.height);
    }
    Rect::clamped(rect.x + 1, rect.y + 1, rect.width - 2, rect.height - 2)
}

} // verus!
