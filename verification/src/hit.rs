//! Mouse hit-testing: map a click position to what it landed on.
//!
//! Mirrors the geometry render draws — the sidebar cards, pane titles and
//! content, and the status line — so mouse events resolve to the same
//! intents keys produce.

use vstd::prelude::*;
use crate::chrome::{
    button_row_spec, chrome_area, chrome_spec, close_button_cols, close_cols_spec, panelled,
    panelled_spec, panes_area, panes_spec, sidebar_button_row, sidebar_inner,
    sidebar_inner_spec, status_controls, view_spans_spec, windows_span_spec, StatusControls,
    STATUS_HEIGHT,
};
use crate::layout::{clamped_rect, Rect};
use crate::session::{session_layout, PaneId, Session};
use crate::sidebar::{
    auto_all_cols, auto_all_spec, auto_chip_cols, auto_chip_spec, focused_entry, footer_spec,
    limits_footer_height, position_of, rows_spec, sidebar_rows, ReportedLimits, SidebarEntry,
    SidebarRow,
};

verus! {

/// What a screen position corresponds to.
#[derive(Clone, Copy, Debug, PartialEq, Eq, Structural)]
pub enum Hit {
    /// A sidebar agent card.
    SidebarEntry(usize),
    /// An agent card's `auto` chip on its detail row.
    SidebarAuto(usize),
    /// The sidebar header's `auto-yes` fleet toggle.
    SidebarAutoAll,
    /// The sidebar's pinned `+ new agent` button.
    SidebarNewAgent,
    /// The workspace row of the title banner.
    SidebarWorkspace,
    /// The `grid` pill of the status row's layout switcher.
    StatusViewGrid,
    /// The `solo` pill of the status row's layout switcher.
    StatusViewSolo,
    /// Sidebar background (header, spacers, the gap column).
    Sidebar,
    /// A pane's title bar.
    PaneTitle(PaneId),
    /// A pane title's `✕` close button.
    PaneClose(PaneId),
    /// An exited pane's overlay `restart` button.
    PaneRestart(PaneId),
    /// A pane's content area (or its panel's side and bottom borders).
    Pane(PaneId),
    /// The status line's window indicator.
    StatusWindows,
    /// The status line.
    Status,
    /// Nothing interactive.
    Outside,
}

/// The mouse pointer shape the terminal should show over what the pointer
/// is on.
#[derive(Clone, Copy, Debug, PartialEq, Eq, Structural)]
pub enum Pointer {
    /// The terminal's default arrow.
    Default,
    /// A hand — over anything clickable.
    Hand,
    /// Horizontal resize arrows — over a vertical divider.
    ResizeEw,
    /// Vertical resize arrows — over a horizontal divider.
    ResizeNs,
}

impl Default for Pointer {
    fn default() -> (p: Self)
        ensures
            p == Pointer::Default,
    {
        Pointer::Default
    }
}

impl Pointer {
    /// The xcursor shape name for the pointer-shape escape.
    pub fn name(self) -> (s: &'static str)
        ensures
            s@ == match self {
                Pointer::Default => "default"@,
                Pointer::Hand => "pointer"@,
                Pointer::ResizeEw => "ew-resize"@,
                Pointer::ResizeNs => "ns-resize"@,
            },
    {
        match self {
            Pointer::Default => "default",
            Pointer::Hand => "pointer",
            Pointer::ResizeEw => "ew-resize",
            Pointer::ResizeNs => "ns-resize",
        }
    }
}

/// Whether a hit lands on something clickable.
pub open spec fn clickable(hit: Hit) -> bool {
    match hit {
        Hit::SidebarEntry(_) | Hit::SidebarAuto(_) | Hit::SidebarAutoAll | Hit::SidebarNewAgent
        | Hit::StatusViewGrid | Hit::StatusViewSolo | Hit::PaneTitle(_) | Hit::PaneClose(_)
        | Hit::PaneRestart(_) | Hit::StatusWindows => true,
        Hit::Pane(_) | Hit::Sidebar | Hit::Status | Hit::Outside | Hit::SidebarWorkspace => false,
    }
}

/// The pointer shape for whatever a position hit: a hand over anything
/// clickable, the plain arrow elsewhere.
pub fn pointer_for(hit: Hit) -> (p: Pointer)
    ensures
        p == if clickable(hit) {
            Pointer::Hand
        } else {
            Pointer::Default
        },
{
    match hit {
        Hit::SidebarEntry(_) | Hit::SidebarAuto(_) | Hit::SidebarAutoAll | Hit::SidebarNewAgent
        | Hit::StatusViewGrid | Hit::StatusViewSolo | Hit::PaneTitle(_) | Hit::PaneClose(_)
        | Hit::PaneRestart(_) | Hit::StatusWindows => Pointer::Hand,
        Hit::Pane(_) | Hit::Sidebar | Hit::Status | Hit::Outside | Hit::SidebarWorkspace => {
            Pointer::Default
        },
    }
}

/// The render inputs that shift or shorten the sidebar's card region.
#[derive(Clone, Copy)]
pub struct HitContext {
    /// Which rate-limit windows the footer shows; it shortens the card
    /// region.
    pub limits: Option<ReportedLimits>,
    /// The solo-view pane, if any: it owns the whole pane region.
    pub zoomed: Option<PaneId>,
    /// Whether the three-row title/workspace banner sits above the
    /// `agents` row, pushing every row below it down by three.
    pub workspace_header: bool,
}

/// Whether column `x` lies in `cols`.
pub open spec fn in_cols(cols: Option<(u16, u16)>, x: int) -> bool {
    match cols {
        Some((s, e)) => s <= x < e,
        None => false,
    }
}

/// What a status-row position hits.
pub open spec fn status_hit_spec<T>(area: Rect, side: crate::chrome::SidebarSide, session: crate::session::SessionView<T>, x: int) -> Hit {
    let active = if session.windows.len() == 0 { 0 } else { session.active };
    let win = windows_span_spec(area, active, session.windows.len());
    let panes = panes_spec(area, side);
    let multi = session_layout(session, panes.width, panes.height).len() > 1;
    let views = view_spans_spec(
        area,
        match win {
            Some(w) => w.x,
            None => (chrome_spec(area).x + chrome_spec(area).width) as u16,
        },
        multi,
    );
    if win is Some && win->Some_0.x <= x < win->Some_0.x + win->Some_0.width {
        Hit::StatusWindows
    } else if views is Some && views->Some_0.0.x <= x < views->Some_0.0.x + views->Some_0.0.width {
        Hit::StatusViewGrid
    } else if views is Some && views->Some_0.1.x <= x < views->Some_0.1.x + views->Some_0.1.width {
        Hit::StatusViewSolo
    } else {
        Hit::Status
    }
}

/// The focused pane of a session, when it has windows.
pub open spec fn focused_pane<T>(v: crate::session::SessionView<T>) -> Option<PaneId> {
    if v.windows.len() == 0 {
        None
    } else {
        Some(v.windows[v.active as int].focused)
    }
}

/// The focused card's index.
pub open spec fn focused_card(entries: Seq<SidebarEntry>, focused: Option<PaneId>) -> Option<usize> {
    match focused {
        Some(p) => match position_of(entries, p) {
            Some(i) => Some(i as usize),
            None => None,
        },
        None => None,
    }
}

/// What a position inside the sidebar's content region hits.
pub open spec fn sidebar_hit_spec<T>(
    area: Rect,
    side: crate::chrome::SidebarSide,
    session: crate::session::SessionView<T>,
    entries: Seq<SidebarEntry>,
    ctx: HitContext,
    x: int,
    y: int,
) -> Hit {
    let bar = sidebar_inner_spec(area, side);
    let button = button_row_spec(area, side);
    let h1 = if button is Some { bar.height.saturating_sub(2) } else { bar.height };
    let h2 = h1.saturating_sub(footer_spec(ctx.limits, h1));
    let header = bar.y + if ctx.workspace_header { 3int } else { 0int };
    let first = header + 2;
    if button == Some(y as u16) {
        Hit::SidebarNewAgent
    } else if y >= bar.y + h2 {
        Hit::Sidebar
    } else if ctx.workspace_header && y == bar.y + 1 {
        Hit::SidebarWorkspace
    } else if y == header && in_cols(auto_all_spec(bar.width), x - bar.x) {
        Hit::SidebarAutoAll
    } else if y < first {
        Hit::Sidebar
    } else {
        let rows = rows_spec(entries, entries.len() as int, focused_card(entries, focused_pane(session)));
        let k = y - first;
        if k >= rows.len() {
            Hit::Sidebar
        } else {
            match rows[k] {
                SidebarRow::EntryName(i) => Hit::SidebarEntry(i),
                SidebarRow::EntryDetail(i) => if in_cols(auto_chip_spec(bar.width), x - bar.x) {
                    Hit::SidebarAuto(i)
                } else {
                    Hit::SidebarEntry(i)
                },
                SidebarRow::EntryTelemetry(i) => Hit::SidebarEntry(i),
                SidebarRow::Blank => Hit::Sidebar,
            }
        }
    }
}

/// The first of `rects` from `k` on that holds (`lx`, `ly`).
pub open spec fn first_rect(rects: Seq<(PaneId, Rect)>, k: int, lx: int, ly: int) -> Option<int>
    decreases rects.len() - k,
{
    if k < 0 || k >= rects.len() {
        None
    } else if rects[k].1.holds(lx, ly) {
        Some(k)
    } else {
        first_rect(rects, k + 1, lx, ly)
    }
}

/// What a position inside a pane's rect hits: the panel's top border is
/// the title (its `✕` target aside), the rest is the pane.
pub open spec fn pane_part(id: PaneId, rect: Rect, lx: int, ly: int) -> Hit {
    if panelled_spec(rect) && ly == rect.y {
        if in_cols(close_cols_spec(rect), lx) {
            Hit::PaneClose(id)
        } else {
            Hit::PaneTitle(id)
        }
    } else {
        Hit::Pane(id)
    }
}

/// The panes a frame shows, in rects local to the pane region: the
/// zoomed pane alone at the region's full size, else the active window's
/// layout.
pub open spec fn visible_spec<T>(panes: Rect, session: crate::session::SessionView<T>, zoomed: Option<PaneId>) -> Seq<(PaneId, Rect)> {
    match zoomed {
        Some(id) => seq![(id, Rect { x: 0, y: 0, width: panes.width, height: panes.height })],
        None => session_layout(session, panes.width, panes.height),
    }
}

/// The panes a frame shows and where, local to the pane region `panes`:
/// the one list render draws and hit-testing resolves clicks against.
pub fn visible_panes<T>(session: &Session<T>, panes: Rect, zoomed: Option<PaneId>) -> (v: Vec<(PaneId, Rect)>)
    requires
        session.wf(),
    ensures
        v@ == visible_spec(panes, session@, zoomed),
{
    match zoomed {
        Some(id) => vec![(id, Rect::new(0, 0, panes.width, panes.height))],
        None => session.layout(panes.width, panes.height),
    }
}

/// What a position inside the pane region hits, in region-local cells.
pub open spec fn panes_hit_spec<T>(panes: Rect, session: crate::session::SessionView<T>, zoomed: Option<PaneId>, lx: int, ly: int) -> Hit {
    let rects = visible_spec(panes, session, zoomed);
    match first_rect(rects, 0, lx, ly) {
        Some(k) => pane_part(rects[k].0, rects[k].1, lx, ly),
        None => Hit::Sidebar,
    }
}

/// What sits under (`x`, `y`) for a frame of `area`.
pub open spec fn hit_spec<T>(
    area: Rect,
    session: crate::session::SessionView<T>,
    side: crate::chrome::SidebarSide,
    entries: Seq<SidebarEntry>,
    ctx: HitContext,
    x: int,
    y: int,
) -> Hit {
    let inner = chrome_spec(area);
    let bar = sidebar_inner_spec(area, side);
    let panes = panes_spec(area, side);
    if !inner.holds(x, y) {
        Hit::Outside
    } else if inner.height >= STATUS_HEIGHT && y >= inner.y + inner.height - STATUS_HEIGHT {
        status_hit_spec(area, side, session, x)
    } else if bar.holds(x, y) {
        sidebar_hit_spec(area, side, session, entries, ctx, x, y)
    } else if panes.holds(x, y) {
        panes_hit_spec(panes, session, ctx.zoomed, x - panes.x, y - panes.y)
    } else {
        Hit::Sidebar
    }
}

fn holds_at(r: Rect, x: u16, y: u16) -> (b: bool)
    ensures
        b == r.holds(x as int, y as int),
{
    x >= r.x && (x as u32) < r.x as u32 + r.width as u32 && y >= r.y && (y as u32) < r.y as u32
        + r.height as u32
}

fn in_range(cols: Option<core::ops::Range<u16>>, x: u16) -> (b: bool)
    ensures
        b == match cols {
            Some(r) => r.start <= x < r.end,
            None => false,
        },
{
    match cols {
        Some(r) => r.start <= x && x < r.end,
        None => false,
    }
}

fn status_hit<T>(area: Rect, side: crate::chrome::SidebarSide, session: &Session<T>, x: u16) -> (h: Hit)
    requires
        area.fits(),
        session.wf(),
    ensures
        h == status_hit_spec(area, side, session@, x as int),
{
    let StatusControls { windows, views } = status_controls(area, side, session);
    if let Some((rect, _)) = &windows {
        if x >= rect.x && (x as u32) < rect.x as u32 + rect.width as u32 {
            return Hit::StatusWindows;
        }
    }
    if let Some((grid, solo)) = views {
        if x >= grid.x && (x as u32) < grid.x as u32 + grid.width as u32 {
            return Hit::StatusViewGrid;
        }
        if x >= solo.x && (x as u32) < solo.x as u32 + solo.width as u32 {
            return Hit::StatusViewSolo;
        }
    }
    Hit::Status
}

fn sidebar_hit<T>(
    area: Rect,
    side: crate::chrome::SidebarSide,
    session: &Session<T>,
    entries: &[SidebarEntry],
    context: &HitContext,
    x: u16,
    y: u16,
) -> (h: Hit)
    requires
        area.fits(),
        session.wf(),
        sidebar_inner_spec(area, side).holds(x as int, y as int),
    ensures
        h == sidebar_hit_spec(area, side, session@, entries@, *context, x as int, y as int),
{
    let bar = sidebar_inner(area, side);
    let button = sidebar_button_row(area, side);
    if button == Some(y) {
        return Hit::SidebarNewAgent;
    }
    let h1 = if button.is_some() { bar.height.saturating_sub(2) } else { bar.height };
    let h2 = h1.saturating_sub(limits_footer_height(context.limits, h1));
    if y as u32 >= bar.y as u32 + h2 as u32 {
        return Hit::Sidebar;
    }
    if context.workspace_header && y as u32 == bar.y as u32 + 1 {
        return Hit::SidebarWorkspace;
    }
    let header: u32 = bar.y as u32 + if context.workspace_header { 3u32 } else { 0u32 };
    if y as u32 == header && in_range(auto_all_cols(bar.width), x - bar.x) {
        return Hit::SidebarAutoAll;
    }
    let first: u32 = header + 2;
    if (y as u32) < first {
        return Hit::Sidebar;
    }
    let focused = focused_entry(entries, session.focused());
    let rows = sidebar_rows(entries, focused);
    let k: u32 = y as u32 - first;
    if k as usize >= rows.len() {
        return Hit::Sidebar;
    }
    match rows[k as usize] {
        SidebarRow::EntryName(i) => Hit::SidebarEntry(i),
        SidebarRow::EntryDetail(i) => if in_range(auto_chip_cols(bar.width), x - bar.x) {
            Hit::SidebarAuto(i)
        } else {
            Hit::SidebarEntry(i)
        },
        SidebarRow::EntryTelemetry(i) => Hit::SidebarEntry(i),
        SidebarRow::Blank => Hit::Sidebar,
    }
}

fn panes_hit<T>(panes: Rect, session: &Session<T>, zoomed: Option<PaneId>, lx: u16, ly: u16) -> (h: Hit)
    requires
        session.wf(),
        panes.fits(),
        lx < panes.width,
        ly < panes.height,
    ensures
        h == panes_hit_spec(panes, session@, zoomed, lx as int, ly as int),
{
    let rects = visible_panes(session, panes, zoomed);
    let ghost want = match zoomed {
        Some(id) => seq![(id, Rect { x: 0, y: 0, width: panes.width, height: panes.height })],
        None => session_layout(session@, panes.width, panes.height),
    };
    assert(rects@ =~= want);
    proof {
        if zoomed is None && session@.windows.len() > 0 {
            crate::layout::lemma_layout_fits(
                session@.windows[session@.active as int].root,
                Rect { x: 0, y: 0, width: panes.width, height: panes.height },
            );
        }
    }
    let mut k: usize = 0;
    while k < rects.len()
        invariant
            rects@ == want,
            want == match zoomed {
                Some(z) => seq![(z, Rect { x: 0, y: 0, width: panes.width, height: panes.height })],
                None => session_layout(session@, panes.width, panes.height),
            },
            k <= rects@.len(),
            forall|j: int| 0 <= j < want.len() ==> (#[trigger] want[j]).1.fits(),
            first_rect(want, 0, lx as int, ly as int) == first_rect(want, k as int, lx as int, ly as int),
        decreases rects@.len() - k,
    {
        let (id, rect) = rects[k];
        assert(want[k as int] == (id, rect));
        if holds_at(rect, lx, ly) {
            assert(first_rect(want, k as int, lx as int, ly as int) == Some(k as int));
            let part = if panelled(rect) && ly == rect.y {
                if in_range(close_button_cols(rect), lx) {
                    Hit::PaneClose(id)
                } else {
                    Hit::PaneTitle(id)
                }
            } else {
                Hit::Pane(id)
            };
            return part;
        }
        k += 1;
    }
    Hit::Sidebar
}

/// Resolve what sits under `pos` for a frame of `area`. `context` carries
/// the render inputs hit-testing must mirror.
pub fn hit_test<T>(
    area: Rect,
    session: &Session<T>,
    side: crate::chrome::SidebarSide,
    entries: &[SidebarEntry],
    context: &HitContext,
    pos: (u16, u16),
) -> (h: Hit)
    requires
        area.fits(),
        session.wf(),
    ensures
        h == hit_spec(area, session@, side, entries@, *context, pos.0 as int, pos.1 as int),
{
    let (x, y) = pos;
    let inner = chrome_area(area);
    if !holds_at(inner, x, y) {
        return Hit::Outside;
    }
    if inner.height >= STATUS_HEIGHT && y >= inner.y + inner.height - STATUS_HEIGHT {
        return status_hit(area, side, session, x);
    }
    let bar = sidebar_inner(area, side);
    if holds_at(bar, x, y) {
        return sidebar_hit(area, side, session, entries, context, x, y);
    }
    let panes = panes_area(area, side);
    if holds_at(panes, x, y) {
        return panes_hit(panes, session, context.zoomed, x - panes.x, y - panes.y);
    }
    Hit::Sidebar
}

} // verus!
