//! The geometry of the small modals: the close-confirmation dialog, the
//! sidebar card's context menu, the exited-pane card and the rename
//! dialog. Render and hit-testing share these rects, so an invisible
//! dialog can never own a click.

use vstd::prelude::*;
use crate::layout::{clamped_rect, intersect_rect, Rect};
use crate::text::{chars_of, decimal, decimal_chars, lemma_decimal_len, string_from_chars};

verus! {

/// The close dialog's two click targets.
#[derive(Clone, Copy, Debug, PartialEq, Eq, Structural)]
pub enum ConfirmButton {
    /// Keep the agent running.
    Cancel,
    /// Close the pane, killing the agent.
    Close,
}

/// The close dialog's preferred size.
pub const CONFIRM_WIDTH: u16 = 46;
pub const CONFIRM_HEIGHT: u16 = 7;
/// The smallest close dialog that still works.
pub const CONFIRM_MIN_WIDTH: u16 = 25;
pub const CONFIRM_MIN_HEIGHT: u16 = 5;
/// Rows from the dialog's top to its button row.
pub const BUTTONS_ROW: u16 = 4;
/// The button widths (`  cancel  `, `  close  `) and the gap between.
pub const CANCEL_WIDTH: u16 = 10;
pub const CLOSE_WIDTH: u16 = 9;
pub const BUTTON_GAP: u16 = 3;

/// `v` held within `lo..=hi`, `lo` winning when they cross.
pub open spec fn floor_cap(v: u16, cap: u16, floor: u16) -> u16 {
    let m = if v < cap { v } else { cap };
    if m > floor { m } else { floor }
}

/// The centered rect of a dialog sized `width` × `height` at most, no
/// smaller than the minimum, a third of the way down `area`, clipped to it.
pub open spec fn centered_spec(area: Rect, width: u16, height: u16, min_w: u16, min_h: u16) -> Rect {
    let w = floor_cap(area.width.saturating_sub(2), width, min_w);
    let h = floor_cap(area.height.saturating_sub(2), height, min_h);
    clamped_rect(
        (area.x + area.width.saturating_sub(w) / 2) as u16,
        (area.y + area.height.saturating_sub(h) / 3) as u16,
        w,
        h,
    )
}

fn centered(area: Rect, width: u16, height: u16, min_w: u16, min_h: u16) -> (r: Rect)
    requires
        area.fits(),
    ensures
        r == centered_spec(area, width, height, min_w, min_h),
{
    let avail_w = area.width.saturating_sub(2);
    let m = if avail_w < width { avail_w } else { width };
    let w = if m > min_w { m } else { min_w };
    let avail_h = area.height.saturating_sub(2);
    let m = if avail_h < height { avail_h } else { height };
    let h = if m > min_h { m } else { min_h };
    Rect::clamped(area.x + area.width.saturating_sub(w) / 2, area.y + area.height.saturating_sub(h) / 3, w, h)
}

/// The rect the close dialog occupies within `area`: centered, clipped.
pub open spec fn confirm_spec(area: Rect) -> Rect {
    intersect_rect(
        centered_spec(area, CONFIRM_WIDTH, CONFIRM_HEIGHT, CONFIRM_MIN_WIDTH, CONFIRM_MIN_HEIGHT),
        area,
    )
}

/// The centered rect the dialog occupies within `area`, clipped to it.
pub fn confirm_rect(area: Rect) -> (r: Rect)
    requires
        area.fits(),
    ensures
        r == confirm_spec(area),
{
    centered(area, CONFIRM_WIDTH, CONFIRM_HEIGHT, CONFIRM_MIN_WIDTH, CONFIRM_MIN_HEIGHT).intersection(area)
}

/// Whether a clipped dialog is big enough to draw at all.
pub open spec fn confirm_drawable_spec(modal: Rect) -> bool {
    modal.width >= CONFIRM_MIN_WIDTH && modal.height >= CONFIRM_MIN_HEIGHT
}

/// Whether a clipped dialog rect is big enough to draw at all: render
/// bails when it is not, and the hit tests consult it too, so an
/// invisible dialog never owns a click.
pub fn confirm_drawable(modal: Rect) -> (b: bool)
    ensures
        b == confirm_drawable_spec(modal),
{
    modal.width >= CONFIRM_MIN_WIDTH && modal.height >= CONFIRM_MIN_HEIGHT
}

/// Whether (`x`, `y`) falls inside the dialog; always false when the
/// dialog is too small to draw.
pub fn confirm_contains(area: Rect, x: u16, y: u16) -> (b: bool)
    requires
        area.fits(),
    ensures
        b == (confirm_drawable_spec(confirm_spec(area)) && confirm_spec(area).holds(x as int, y as int)),
{
    let modal = confirm_rect(area);
    modal.width >= CONFIRM_MIN_WIDTH && modal.height >= CONFIRM_MIN_HEIGHT && x >= modal.x
        && (x as u32) < modal.x as u32 + modal.width as u32 && y >= modal.y && (y as u32)
        < modal.y as u32 + modal.height as u32
}

/// The button spans on their row, `(cancel, close)`: centered as a pair
/// on the dialog's button row.
pub open spec fn button_spans_spec(area: Rect) -> (Rect, Rect) {
    let modal = confirm_spec(area);
    let total: u16 = 22;
    let x = (modal.x + modal.width.saturating_sub(total) / 2) as u16;
    let row = if BUTTONS_ROW < modal.height.saturating_sub(2) { BUTTONS_ROW } else { modal.height.saturating_sub(2) };
    let y = (modal.y + row) as u16;
    (
        clamped_rect(x, y, CANCEL_WIDTH, 1),
        clamped_rect(x.saturating_add(13u16), y, CLOSE_WIDTH, 1),
    )
}

proof fn lemma_intersect_inside(a: Rect, b: Rect)
    requires
        b.fits(),
    ensures
        intersect_rect(a, b).x + intersect_rect(a, b).width <= b.x + b.width || intersect_rect(a, b).width == 0,
        intersect_rect(a, b).y + intersect_rect(a, b).height <= b.y + b.height || intersect_rect(a, b).height == 0,
        intersect_rect(a, b).fits(),
{
}

/// The button spans on their row, `(cancel, close)`, in absolute columns.
pub fn button_spans(area: Rect) -> (r: (Rect, Rect))
    requires
        area.fits(),
    ensures
        r == button_spans_spec(area),
{
    let modal = confirm_rect(area);
    proof {
        lemma_intersect_inside(
            centered_spec(area, CONFIRM_WIDTH, CONFIRM_HEIGHT, CONFIRM_MIN_WIDTH, CONFIRM_MIN_HEIGHT),
            area,
        );
    }
    let total = CANCEL_WIDTH + BUTTON_GAP + CLOSE_WIDTH;
    let x: u16 = modal.x + modal.width.saturating_sub(total) / 2;
    let row = if BUTTONS_ROW < modal.height.saturating_sub(2) {
        BUTTONS_ROW
    } else {
        modal.height.saturating_sub(2)
    };
    let y: u16 = modal.y + row;
    (
        Rect::clamped(x, y, CANCEL_WIDTH, 1),
        Rect::clamped(x.saturating_add(CANCEL_WIDTH + BUTTON_GAP), y, CLOSE_WIDTH, 1),
    )
}

/// Whether (`x`, `y`) is on a one-row span.
pub open spec fn on_span(r: Rect, x: int, y: int) -> bool {
    r.x <= x < r.x + r.width && y == r.y
}

/// The button under (`x`, `y`), when one is there.
pub fn confirm_button_at(area: Rect, x: u16, y: u16) -> (b: Option<ConfirmButton>)
    requires
        area.fits(),
    ensures
        b == if !confirm_drawable_spec(confirm_spec(area)) {
            None
        } else if on_span(button_spans_spec(area).0, x as int, y as int) {
            Some(ConfirmButton::Cancel)
        } else if on_span(button_spans_spec(area).1, x as int, y as int) {
            Some(ConfirmButton::Close)
        } else {
            None
        },
{
    let modal = confirm_rect(area);
    if !(modal.width >= CONFIRM_MIN_WIDTH && modal.height >= CONFIRM_MIN_HEIGHT) {
        return None;
    }
    let (cancel, close) = button_spans(area);
    if x >= cancel.x && (x as u32) < cancel.x as u32 + cancel.width as u32 && y == cancel.y {
        Some(ConfirmButton::Cancel)
    } else if x >= close.x && (x as u32) < close.x as u32 + close.width as u32 && y == close.y {
        Some(ConfirmButton::Close)
    } else {
        None
    }
}

/// The close dialog: which button the pointer is over.
#[derive(Clone, Copy, Debug)]
pub struct Confirm {
    /// The hovered button, if any.
    pub hover: Option<ConfirmButton>,
}

impl Confirm {
    /// A fresh close-confirmation dialog with no button hovered.
    pub fn new() -> (c: Self)
        ensures
            c.hover is None,
    {
        Confirm { hover: None }
    }

    /// Which button the pointer is over, for hover highlighting.
    pub fn hover(self, button: Option<ConfirmButton>) -> (c: Self)
        ensures
            c.hover == button,
    {
        Confirm { hover: button }
    }
}

/// One action the context menu offers for a sidebar card's agent.
#[derive(Clone, Copy, Debug, PartialEq, Eq, Structural)]
pub enum ContextMenuItem {
    /// Float this agent's card above the triage order.
    Pin,
    /// Return a pinned card to its triage position.
    Unpin,
    /// Close the pane, killing the agent.
    Close,
}

/// The row label an item shows.
pub open spec fn item_label(item: ContextMenuItem) -> Seq<char> {
    match item {
        ContextMenuItem::Pin => "pin to top"@,
        ContextMenuItem::Unpin => "unpin"@,
        ContextMenuItem::Close => "close"@,
    }
}

/// An item label's width in cells.
pub open spec fn label_len(item: ContextMenuItem) -> u16 {
    match item {
        ContextMenuItem::Pin => 10,
        ContextMenuItem::Unpin => 5,
        ContextMenuItem::Close => 5,
    }
}

impl ContextMenuItem {
    /// The row label shown in the menu.
    pub fn label(self) -> (s: &'static str)
        ensures
            s@ == item_label(self),
            s@.len() == label_len(self),
    {
        proof {
            reveal_strlit("pin to top");
            reveal_strlit("unpin");
            reveal_strlit("close");
        }
        match self {
            ContextMenuItem::Pin => "pin to top",
            ContextMenuItem::Unpin => "unpin",
            ContextMenuItem::Close => "close",
        }
    }

    /// Whether the action destroys state.
    pub fn destructive(self) -> (b: bool)
        ensures
            b == (self == ContextMenuItem::Close),
    {
        match self {
            ContextMenuItem::Close => true,
            _ => false,
        }
    }
}

/// Horizontal padding inside the menu border, each side.
pub const H_PAD: u16 = 1;
/// The narrowest menu that still frames a label.
pub const MENU_MIN_WIDTH: u16 = 5;

/// The widest label among the first `n` items.
pub open spec fn widest(items: Seq<ContextMenuItem>, n: int) -> u16
    decreases n,
{
    if n <= 0 {
        0
    } else {
        let w = widest(items, n - 1);
        if label_len(items[n - 1]) > w {
            label_len(items[n - 1])
        } else {
            w
        }
    }
}

proof fn lemma_widest_bound(items: Seq<ContextMenuItem>, n: int)
    ensures
        widest(items, n) <= 10,
    decreases n,
{
    if n > 0 {
        lemma_widest_bound(items, n - 1);
    }
}

fn label_width(items: &[ContextMenuItem]) -> (w: u16)
    ensures
        w == widest(items@, items@.len() as int),
        w <= 10,
{
    let mut w: u16 = 0;
    let mut i: usize = 0;
    while i < items.len()
        invariant
            i <= items@.len(),
            w == widest(items@, i as int),
        decreases items@.len() - i,
    {
        let l = match items[i] {
            ContextMenuItem::Pin => 10u16,
            ContextMenuItem::Unpin => 5u16,
            ContextMenuItem::Close => 5u16,
        };
        if l > w {
            w = l;
        }
        i += 1;
    }
    proof {
        lemma_widest_bound(items@, items@.len() as int);
    }
    w
}

/// The menu's unclipped footprint: the label column plus padding and
/// border, one row per item between the border rows.
pub open spec fn menu_size_spec(items: Seq<ContextMenuItem>) -> (u16, u16) {
    let w = widest(items, items.len() as int) + 2 * H_PAD + 2;
    (
        if w > MENU_MIN_WIDTH { w as u16 } else { MENU_MIN_WIDTH },
        (items.len() + 2) as u16,
    )
}

/// The rect the menu occupies within `area`: its top-left at `anchor`,
/// slid back inside when it would overflow the right or bottom edge,
/// clipped to `area`.
pub open spec fn menu_spec(area: Rect, anchor: (u16, u16), items: Seq<ContextMenuItem>) -> Rect {
    let (w0, h0) = menu_size_spec(items);
    let w = if w0 < area.width { w0 } else { area.width };
    let h = if h0 < area.height { h0 } else { area.height };
    let max_x = ((area.x + area.width) as u16).saturating_sub(w);
    let max_y = ((area.y + area.height) as u16).saturating_sub(h);
    let ax = if anchor.0 < max_x { anchor.0 } else { max_x };
    let ay = if anchor.1 < max_y { anchor.1 } else { max_y };
    let x = if ax > area.x { ax } else { area.x };
    let y = if ay > area.y { ay } else { area.y };
    intersect_rect(clamped_rect(x, y, w, h), area)
}

/// The rect the menu occupies within `area`, anchored at `anchor`.
pub fn menu_rect(area: Rect, anchor: (u16, u16), items: &[ContextMenuItem]) -> (r: Rect)
    requires
        area.fits(),
        items@.len() + 2 <= u16::MAX,
    ensures
        r == menu_spec(area, anchor, items@),
{
    let lw = label_width(items);
    let w0 = lw + 2 * H_PAD + 2;
    let w0 = if w0 > MENU_MIN_WIDTH { w0 } else { MENU_MIN_WIDTH };
    let h0: u16 = items.len() as u16 + 2;
    let w = if w0 < area.width { w0 } else { area.width };
    let h = if h0 < area.height { h0 } else { area.height };
    let max_x = (area.x + area.width).saturating_sub(w);
    let max_y = (area.y + area.height).saturating_sub(h);
    let ax = if anchor.0 < max_x { anchor.0 } else { max_x };
    let ay = if anchor.1 < max_y { anchor.1 } else { max_y };
    let x = if ax > area.x { ax } else { area.x };
    let y = if ay > area.y { ay } else { area.y };
    Rect::clamped(x, y, w, h).intersection(area)
}

/// Whether a clipped menu is big enough to draw all its items.
pub open spec fn menu_drawable_spec(rect: Rect, items: Seq<ContextMenuItem>) -> bool {
    rect.width >= MENU_MIN_WIDTH && rect.height >= items.len() + 2
}

/// Whether a clipped menu rect is big enough to draw all of `items`.
pub fn menu_drawable(rect: Rect, items: &[ContextMenuItem]) -> (b: bool)
    ensures
        b == menu_drawable_spec(rect, items@),
{
    rect.width >= MENU_MIN_WIDTH && rect.height >= 2 && (rect.height - 2) as usize >= items.len()
}

/// Whether a menu of `items` anchored at `anchor` would draw within
/// `area`.
pub fn menu_fits(area: Rect, anchor: (u16, u16), items: &[ContextMenuItem]) -> (b: bool)
    requires
        area.fits(),
        items@.len() + 2 <= u16::MAX,
    ensures
        b == menu_drawable_spec(menu_spec(area, anchor, items@), items@),
{
    let rect = menu_rect(area, anchor, items);
    rect.width >= MENU_MIN_WIDTH && rect.height as usize >= items.len() + 2
}

/// Whether (`x`, `y`) falls inside the menu; always false when the menu is
/// too small to draw.
pub fn menu_contains(area: Rect, anchor: (u16, u16), items: &[ContextMenuItem], x: u16, y: u16) -> (b:
    bool)
    requires
        area.fits(),
        items@.len() + 2 <= u16::MAX,
    ensures
        b == (menu_drawable_spec(menu_spec(area, anchor, items@), items@) && menu_spec(
            area,
            anchor,
            items@,
        ).holds(x as int, y as int)),
{
    let rect = menu_rect(area, anchor, items);
    rect.width >= MENU_MIN_WIDTH && rect.height as usize >= items.len() + 2 && x >= rect.x && (x
        as u32) < rect.x as u32 + rect.width as u32 && y >= rect.y && (y as u32) < rect.y as u32
        + rect.height as u32
}

/// The item index under (`x`, `y`): the rows between the border rows.
pub open spec fn menu_item_spec(area: Rect, anchor: (u16, u16), items: Seq<ContextMenuItem>, x: int, y: int) -> Option<usize> {
    let rect = menu_spec(area, anchor, items);
    let top = rect.y + 1;
    if !menu_drawable_spec(rect, items) || x < rect.x || x >= rect.x + rect.width {
        None
    } else if y < top || y >= rect.y + rect.height - 1 {
        None
    } else if y - top < items.len() {
        Some((y - top) as usize)
    } else {
        None
    }
}

/// The item index under (`x`, `y`), when one is there. Border rows and
/// columns are dead space.
pub fn menu_item_at(area: Rect, anchor: (u16, u16), items: &[ContextMenuItem], x: u16, y: u16) -> (r:
    Option<usize>)
    requires
        area.fits(),
        items@.len() + 2 <= u16::MAX,
    ensures
        r == menu_item_spec(area, anchor, items@, x as int, y as int),
{
    let rect = menu_rect(area, anchor, items);
    if !(rect.width >= MENU_MIN_WIDTH && rect.height as usize >= items.len() + 2) || x < rect.x
        || x as u32 >= rect.x as u32 + rect.width as u32 {
        return None;
    }
    let top: u32 = rect.y as u32 + 1;
    if (y as u32) < top || y as u32 + 1 >= rect.y as u32 + rect.height as u32 {
        return None;
    }
    let index = (y as u32 - top) as usize;
    if index < items.len() {
        Some(index)
    } else {
        None
    }
}

/// One frame's context-menu inputs: the actions, the cell the menu was
/// opened at, and the item under the pointer, carried together so render
/// gets everything the menu needs in one field.
pub struct ContextMenuView {
    /// The actions offered, top to bottom.
    pub items: Vec<ContextMenuItem>,
    /// The cell the menu is anchored at (the right-click position).
    pub anchor: (u16, u16),
    /// The item under the pointer, for hover highlighting.
    pub hover: Option<usize>,
}

impl ContextMenuView {
    /// The menu these inputs describe.
    pub fn menu(self) -> (m: ContextMenu)
        ensures
            m.items == self.items,
            m.anchor == self.anchor,
            m.hover == self.hover,
    {
        ContextMenu::new(self.items, self.anchor).hover(self.hover)
    }
}

/// The context menu: its items, anchor and hovered row.
pub struct ContextMenu {
    /// The actions offered, top to bottom.
    pub items: Vec<ContextMenuItem>,
    /// The cell the menu is anchored at.
    pub anchor: (u16, u16),
    /// The item under the pointer.
    pub hover: Option<usize>,
}

impl ContextMenu {
    /// A menu of `items` anchored at `anchor`, with no row hovered.
    pub fn new(items: Vec<ContextMenuItem>, anchor: (u16, u16)) -> (m: Self)
        ensures
            m.items == items,
            m.anchor == anchor,
            m.hover is None,
    {
        ContextMenu { items, anchor, hover: None }
    }

    /// The item index under the pointer, for hover highlighting.
    pub fn hover(self, index: Option<usize>) -> (m: Self)
        ensures
            m.items == self.items,
            m.anchor == self.anchor,
            m.hover == index,
    {
        ContextMenu { items: self.items, anchor: self.anchor, hover: index }
    }
}

/// The exited-pane card's size.
pub const CARD_WIDTH: u16 = 30;
pub const CARD_HEIGHT: u16 = 5;
/// The card's button widths (`  restart  `, `  close  `).
pub const RESTART_WIDTH: u16 = 11;

/// The exited card's rect, centered in a pane's content rect; none when
/// the pane is too small to host it.
pub open spec fn card_spec(content: Rect) -> Option<Rect> {
    if content.width >= CARD_WIDTH && content.height >= CARD_HEIGHT {
        Some(
            clamped_rect(
                (content.x + (content.width - CARD_WIDTH) / 2) as u16,
                (content.y + (content.height - CARD_HEIGHT) / 2) as u16,
                CARD_WIDTH,
                CARD_HEIGHT,
            ),
        )
    } else {
        None
    }
}

/// The overlay card's rect, centered in a pane's absolute `content` rect.
pub fn exited_card_rect(content: Rect) -> (r: Option<Rect>)
    requires
        content.fits(),
    ensures
        r == card_spec(content),
{
    if content.width >= CARD_WIDTH && content.height >= CARD_HEIGHT {
        Some(
            Rect::clamped(
                content.x + (content.width - CARD_WIDTH) / 2,
                content.y + (content.height - CARD_HEIGHT) / 2,
                CARD_WIDTH,
                CARD_HEIGHT,
            ),
        )
    } else {
        None
    }
}

/// The exited card's buttons, `(restart, close)`: centered as a pair on
/// the card's second-to-last row.
pub open spec fn exited_buttons_spec(content: Rect) -> Option<(Rect, Rect)> {
    match card_spec(content) {
        Some(card) => {
            let total: u16 = 23;
            let x = (card.x + card.width.saturating_sub(total) / 2) as u16;
            let y = (card.y + card.height - 2) as u16;
            Some(
                (
                    clamped_rect(x, y, RESTART_WIDTH, 1),
                    clamped_rect((x + RESTART_WIDTH + BUTTON_GAP) as u16, y, CLOSE_WIDTH, 1),
                ),
            )
        },
        None => None,
    }
}

/// The card's button spans: `(restart, close)`, in absolute coordinates.
pub fn exited_buttons(content: Rect) -> (r: Option<(Rect, Rect)>)
    requires
        content.fits(),
    ensures
        r == exited_buttons_spec(content),
{
    let card = match exited_card_rect(content) {
        Some(c) => c,
        None => return None,
    };
    let total = RESTART_WIDTH + BUTTON_GAP + CLOSE_WIDTH;
    let x = card.x + card.width.saturating_sub(total) / 2;
    let y = card.y + card.height - 2;
    Some((Rect::clamped(x, y, RESTART_WIDTH, 1), Rect::clamped(x + RESTART_WIDTH + BUTTON_GAP, y, CLOSE_WIDTH, 1)))
}

/// The rename dialog's preferred and smallest sizes.
pub const RENAME_WIDTH: u16 = 46;
pub const RENAME_HEIGHT: u16 = 5;

/// The centered rect the rename dialog occupies within `area`.
pub open spec fn rename_spec(area: Rect) -> Rect {
    centered_spec(area, RENAME_WIDTH, RENAME_HEIGHT, 20, 4)
}

/// The centered rect the rename dialog occupies within `area`.
pub fn rename_rect(area: Rect) -> (r: Rect)
    requires
        area.fits(),
    ensures
        r == rename_spec(area),
{
    centered(area, RENAME_WIDTH, RENAME_HEIGHT, 20, 4)
}

/// Whether (`x`, `y`) falls inside the rename dialog.
pub fn rename_contains(area: Rect, x: u16, y: u16) -> (b: bool)
    requires
        area.fits(),
    ensures
        b == rename_spec(area).holds(x as int, y as int),
{
    let modal = rename_rect(area);
    x >= modal.x && (x as u32) < modal.x as u32 + modal.width as u32 && y >= modal.y && (y as u32)
        < modal.y as u32 + modal.height as u32
}

/// Where the terminal cursor belongs in the rename dialog: after the
/// typed input, held inside the dialog's padding.
pub open spec fn rename_cursor_spec(area: Rect, input_len: nat) -> (u16, u16) {
    let modal = rename_spec(area);
    let want = modal.x + 2 + 2 + input_len;
    let cap = modal.x + modal.width.saturating_sub(2);
    ((if want < cap { want } else { cap }) as u16, modal.y.saturating_add(1))
}

/// Where the terminal cursor belongs: the end of the typed input.
pub fn rename_cursor(area: Rect, input: &str) -> (r: (u16, u16))
    requires
        area.fits(),
    ensures
        r == rename_cursor_spec(area, input@.len()),
{
    let modal = rename_rect(area);
    let chars = crate::text::chars_of(input);
    let want: u64 = (modal.x as u64 + 4).saturating_add(chars.len() as u64);
    let cap: u64 = modal.x as u64 + modal.width.saturating_sub(2) as u64;
    let col = if want < cap { want } else { cap };
    (col as u16, modal.y.saturating_add(1))
}

/// The exited card's message: the pane's name and ` · exit N`. The exit
/// code is the payload, so the name yields: past the card's room (its
/// width less the padding and the suffix) it is cut by chars to leave a
/// `…`.
pub open spec fn exited_message_spec(name: Seq<char>, code: u32) -> Seq<char> {
    let suffix = " · exit "@ + decimal(code as nat);
    let room: int = if CARD_WIDTH - 4 > suffix.len() { CARD_WIDTH - 4 - suffix.len() } else { 0 };
    let shown = if name.len() > room {
        name.take(if room > 1 { room - 1 } else { 0 }).push('…')
    } else {
        name
    };
    shown + suffix
}

/// The exited card's message for a pane called `name` that exited with
/// `code`.
pub fn exited_message(name: &str, code: u32) -> (s: String)
    ensures
        s@ == exited_message_spec(name@, code),
{
    proof {
        reveal_strlit(" · exit ");
        lemma_decimal_len(code as nat);
    }
    let mut suffix = chars_of(" · exit ");
    let digits = decimal_chars(code as u64);
    let ghost head = suffix@;
    let mut k: usize = 0;
    while k < digits.len()
        invariant
            k <= digits@.len(),
            suffix@ == head + digits@.take(k as int),
        decreases digits@.len() - k,
    {
        suffix.push(digits[k]);
        assert(digits@.take(k + 1) =~= digits@.take(k as int).push(digits@[k as int]));
        k += 1;
    }
    assert(digits@.take(digits@.len() as int) =~= digits@);
    let room: usize = if (CARD_WIDTH - 4) as usize > suffix.len() { (CARD_WIDTH - 4) as usize - suffix.len() } else { 0 };
    let chars = chars_of(name);
    let mut out: Vec<char> = Vec::new();
    let keep: usize = if chars.len() > room { if room > 1 { room - 1 } else { 0 } } else { chars.len() };
    let mut i: usize = 0;
    while i < keep
        invariant
            keep <= chars@.len(),
            i <= keep,
            out@ == chars@.take(i as int),
        decreases keep - i,
    {
        out.push(chars[i]);
        i += 1;
        assert(out@ =~= chars@.take(i as int));
    }
    if chars.len() > room {
        out.push('…');
    } else {
        assert(chars@.take(keep as int) =~= chars@);
    }
    let ghost shown = out@;
    let mut j: usize = 0;
    while j < suffix.len()
        invariant
            j <= suffix@.len(),
            out@ == shown + suffix@.take(j as int),
        decreases suffix@.len() - j,
    {
        out.push(suffix[j]);
        assert(suffix@.take(j + 1) =~= suffix@.take(j as int).push(suffix@[j as int]));
        j += 1;
    }
    assert(suffix@.take(suffix@.len() as int) =~= suffix@);
    string_from_chars(out.as_slice())
}

} // verus!
