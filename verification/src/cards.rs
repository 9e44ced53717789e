//! The sidebar panel laid out cell by cell: the header's blocked count and
//! fleet toggle, each card's name and detail rows, and the empty panel's
//! hint. Render paints exactly these pieces where they say.

use vstd::prelude::*;
use crate::layout::Rect;
use crate::session::AgentState;
use crate::sidebar::{
    age_text, auto_all_cols, auto_all_spec, auto_chip_cols, auto_chip_spec, blocked_count,
    blocked_upto, display_name_of, format_age, opt_view, SidebarEntry, CARD_INDENT,
};
use crate::text::{chars_of, decimal, decimal_chars, lemma_decimal_len, lemma_decimal_len_wide, string_from_chars};
use crate::widgets::{state_label, state_word, truncate, truncated};

verus! {

/// The workspace tag that names a card's home window: `⧉` and the
/// window's number, counted from one.
pub open spec fn tag_text(window: usize) -> Seq<char> {
    seq!['⧉'] + decimal(window as nat + 1)
}

/// `a - b`, held at zero.
pub open spec fn sat(a: int, b: int) -> int {
    if a > b { a - b } else { 0 }
}

/// A card's name row on a sidebar of `width` columns starting at column
/// `x`: the age right-aligned one column in from the edge, then, with more
/// than one workspace, the tag left of it (a column apart from the age)
/// when it clears the glyph, and the display name filling the cells from
/// its indent up to them, cut by cells. Each piece as (column, text).
pub open spec fn name_row_spec(x: u16, width: u16, entry: SidebarEntry, workspaces: usize) -> (
    Option<(int, Seq<char>)>,
    Option<(int, Seq<char>)>,
    int,
    Seq<char>,
) {
    let name_x = x + 4;
    let right = x + width - 1;
    let age: Option<(int, Seq<char>)> = match entry.age {
        Some(ns) => Some((sat(right, age_text(ns).len() as int), age_text(ns))),
        None => None,
    };
    let after_age: int = match age {
        Some((col, _)) => col,
        None => right,
    };
    let gap: int = if age is Some { 1 } else { 0 };
    let start = sat(after_age, gap + tag_text(entry.window).len());
    let tag: Option<(int, Seq<char>)> = if workspaces > 1 && start >= name_x {
        Some((start, tag_text(entry.window)))
    } else {
        None
    };
    let left: int = match tag {
        Some((col, _)) => col,
        None => after_age,
    };
    (
        age,
        tag,
        name_x,
        truncated(
            display_name_of(opt_view(entry.title), opt_view(entry.session_name), entry.agent@),
            sat(left, name_x) as nat,
        ),
    )
}

/// A card's name row, laid out.
pub struct NameRow {
    /// The age's column and text, when the card has an age.
    pub age: Option<(u16, String)>,
    /// The workspace tag's column and text, when shown.
    pub tag: Option<(u16, String)>,
    /// The column the name starts at.
    pub name_x: u16,
    /// The display name, cut to the cells it has.
    pub name: String,
}

/// A text piece placed at a column, as plain values.
pub open spec fn placed(p: Option<(u16, String)>) -> Option<(int, Seq<char>)> {
    match p {
        Some((c, t)) => Some((c as int, t@)),
        None => None,
    }
}

/// Lay out a card's name row for a sidebar of `width` columns at `x`, with
/// `workspaces` workspaces open.
pub fn name_row(x: u16, width: u16, entry: &SidebarEntry, workspaces: usize) -> (r: NameRow)
    requires
        8 <= width,
        x + width <= u16::MAX,
        entry.window < usize::MAX,
    ensures
        ({
            let (age, tag, name_x, name) = name_row_spec(x, width, *entry, workspaces);
            &&& placed(r.age) == age
            &&& placed(r.tag) == tag
            &&& r.name_x == name_x
            &&& r.name@ == name
        }),
{
    let ghost spec = name_row_spec(x, width, *entry, workspaces);
    let name_x = x + 4;
    let right = x + width - 1;
    let age = match entry.age {
        Some(ns) => {
            let text = format_age(ns);
            let len = chars_of(text.as_str()).len();
            proof {
                lemma_decimal_len_wide((ns / 1_000_000_000) as nat);
                lemma_decimal_len_wide((ns / 1_000_000_000 / 60) as nat);
                lemma_decimal_len_wide((ns / 1_000_000_000 / 3600) as nat);
                lemma_decimal_len_wide((ns / 1_000_000_000 / 86400) as nat);
            }
            assert(len <= 40);
            let col: u16 = if right > len as u16 { right - len as u16 } else { 0 };
            Some((col, text))
        },
        None => None,
    };
    let after_age: u16 = match &age {
        Some((col, _)) => *col,
        None => right,
    };
    let gap: u16 = if age.is_some() { 1 } else { 0 };
    let mut tag_chars = vec!['⧉'];
    let digits = decimal_chars(entry.window as u64 + 1);
    proof {
        lemma_decimal_len(entry.window as nat + 1);
    }
    let mut k: usize = 0;
    while k < digits.len()
        invariant
            k <= digits@.len(),
            tag_chars@ == seq!['⧉'] + digits@.take(k as int),
        decreases digits@.len() - k,
    {
        tag_chars.push(digits[k]);
        assert(digits@.take(k + 1) =~= digits@.take(k as int).push(digits@[k as int]));
        k += 1;
    }
    assert(digits@.take(digits@.len() as int) =~= digits@);
    assert(tag_chars@ == tag_text(entry.window));
    let tag_len: u16 = tag_chars.len() as u16;
    let start: u16 = if after_age > gap + tag_len { after_age - (gap + tag_len) } else { 0 };
    let tag = if workspaces > 1 && start >= name_x {
        Some((start, string_from_chars(tag_chars.as_slice())))
    } else {
        None
    };
    let left: u16 = match &tag {
        Some((col, _)) => *col,
        None => after_age,
    };
    let room: usize = if left > name_x { (left - name_x) as usize } else { 0 };
    let display = entry.display_name();
    let name = truncate(display.as_str(), room);
    NameRow { age, tag, name_x, name }
}

/// A card's detail row on a sidebar of `width` columns: the reason, or the
/// state's word when there is none, cut to the cells from the card indent
/// up to a column short of the `auto` chip's place (or of the edge when
/// the row cannot host the chip). The budget stops short of the chip's
/// columns whether it is drawn or not, so text never reflows under the
/// pointer.
pub open spec fn detail_budget(width: u16) -> int {
    let end: int = match auto_chip_spec(width) {
        Some((start, _)) => sat(start as int, 1),
        None => sat(width as int, 1),
    };
    sat(end, CARD_INDENT as int)
}

/// The reason a card's detail row shows, before cutting.
pub open spec fn reason_of(entry: SidebarEntry) -> Seq<char> {
    match entry.reason {
        Some(r) => r@,
        None => state_word(entry.state),
    }
}

/// The detail row's text and the cells it may take.
pub fn detail_row(width: u16, entry: &SidebarEntry) -> (r: (String, usize))
    ensures
        r.1 == detail_budget(width),
        r.0@ == truncated(reason_of(*entry), detail_budget(width) as nat),
{
    let end: u16 = match auto_chip_cols(width) {
        Some(cols) => if cols.start > 1 { cols.start - 1 } else { 0 },
        None => if width > 1 { width - 1 } else { 0 },
    };
    let budget: usize = if end > CARD_INDENT { (end - CARD_INDENT) as usize } else { 0 };
    let text = match &entry.reason {
        Some(reason) => truncate(reason.as_str(), budget),
        None => truncate(state_label(entry.state), budget),
    };
    (text, budget)
}

/// Whether a detail row shows its `auto` chip: always while armed (it is a
/// state signal), otherwise only on the card under the pointer or its
/// chip, the selected card, or the focused one.
pub open spec fn chip_shown(
    armed: bool,
    index: usize,
    hovered: Option<usize>,
    hovered_auto: Option<usize>,
    selected: Option<usize>,
    focused: Option<usize>,
) -> bool {
    armed || hovered == Some(index) || hovered_auto == Some(index) || selected == Some(index)
        || focused == Some(index)
}

/// Whether card `index`'s `auto` chip is revealed.
pub fn chip_revealed(
    armed: bool,
    index: usize,
    hovered: Option<usize>,
    hovered_auto: Option<usize>,
    selected: Option<usize>,
    focused: Option<usize>,
) -> (b: bool)
    ensures
        b == chip_shown(armed, index, hovered, hovered_auto, selected, focused),
{
    armed || hovered == Some(index) || hovered_auto == Some(index) || selected == Some(index)
        || focused == Some(index)
}

/// Whether every card's agent is armed (and there is a card): the header's
/// fleet toggle is then the accent-filled pill.
pub open spec fn all_armed_spec(entries: Seq<SidebarEntry>) -> bool {
    entries.len() > 0 && forall|i: int| 0 <= i < entries.len() ==> (#[trigger] entries[i]).auto_approve
}

/// Whether the whole fleet is armed.
pub fn all_armed(entries: &[SidebarEntry]) -> (b: bool)
    ensures
        b == all_armed_spec(entries@),
{
    if entries.len() == 0 {
        return false;
    }
    let mut k: usize = 0;
    while k < entries.len()
        invariant
            k <= entries@.len(),
            forall|i: int| 0 <= i < k ==> (#[trigger] entries@[i]).auto_approve,
        decreases entries@.len() - k,
    {
        if !entries[k].auto_approve {
            return false;
        }
        k += 1;
    }
    true
}

/// The header's blocked summary (`N blocked`), when any card is blocked,
/// with the cells it may take: from after ` agents` and a gap up to a
/// column short of the fleet toggle (or of the edge without one).
pub open spec fn header_summary_spec(entries: Seq<SidebarEntry>, width: u16) -> Option<(Seq<char>, int)> {
    let blocked = blocked_upto(entries, entries.len() as int);
    if blocked == 0 {
        None
    } else {
        let budget = match auto_all_spec(width) {
            Some((start, _)) => sat(start as int, 10),
            None => sat(width as int, 10),
        };
        Some((decimal(blocked) + " blocked"@, budget))
    }
}

/// The header's blocked summary and its budget.
pub fn header_summary(entries: &[SidebarEntry], width: u16) -> (r: Option<(String, u16)>)
    ensures
        match (r, header_summary_spec(entries@, width)) {
            (Some((t, b)), Some((st, sb))) => t@ == st && b == sb,
            (None, None) => true,
            _ => false,
        },
{
    let blocked = blocked_count(entries);
    if blocked == 0 {
        return None;
    }
    let budget: u16 = match auto_all_cols(width) {
        Some(cols) => if cols.start > 10 { cols.start - 10 } else { 0 },
        None => if width > 10 { width - 10 } else { 0 },
    };
    let mut text = decimal_chars(blocked as u64);
    let word = vec![' ', 'b', 'l', 'o', 'c', 'k', 'e', 'd'];
    let ghost digits = text@;
    let mut k: usize = 0;
    while k < word.len()
        invariant
            k <= word@.len(),
            text@ == digits + word@.take(k as int),
        decreases word@.len() - k,
    {
        text.push(word[k]);
        assert(word@.take(k + 1) =~= word@.take(k as int).push(word@[k as int]));
        k += 1;
    }
    proof {
        reveal_strlit(" blocked");
        assert(word@.take(8) =~= " blocked"@);
    }
    Some((string_from_chars(text.as_slice()), budget))
}

/// Where the empty panel's hint goes: `no agents yet` centered a row above
/// the panel's middle (never above the first card row `top`), and the
/// `c new agent` key hint two rows below it; each only when it lands above
/// `bottom`. Each as (column, row).
pub open spec fn empty_hint_spec(area: Rect, top: u16, bottom: u16) -> (Option<(int, int)>, Option<(int, int)>) {
    let mid = sat(area.y + area.height / 2, 1);
    let hint_y: int = if mid > top { mid } else { top as int };
    let hint = if hint_y < bottom {
        Some((area.x + sat(area.width as int, 13) / 2, hint_y))
    } else {
        None
    };
    let keys = if hint_y + 2 < bottom {
        Some((area.x + sat(area.width as int, 11) / 2, hint_y + 2))
    } else {
        None
    };
    (hint, keys)
}

/// The empty panel's hint positions.
pub fn empty_hint(area: Rect, top: u16, bottom: u16) -> (r: (Option<(u16, u16)>, Option<(u16, u16)>))
    requires
        area.fits(),
    ensures
        ({
            let (hint, keys) = empty_hint_spec(area, top, bottom);
            &&& match (r.0, hint) {
                (Some((x, y)), Some((sx, sy))) => x == sx && y == sy,
                (None, None) => true,
                _ => false,
            }
            &&& match (r.1, keys) {
                (Some((x, y)), Some((sx, sy))) => x == sx && y == sy,
                (None, None) => true,
                _ => false,
            }
        }),
{
    let mid_full: u32 = area.y as u32 + area.height as u32 / 2;
    let mid: u32 = if mid_full > 1 { mid_full - 1 } else { 0 };
    let hint_y: u32 = if mid > top as u32 { mid } else { top as u32 };
    let hint = if hint_y < bottom as u32 {
        Some((area.x + area.width.saturating_sub(13) / 2, hint_y as u16))
    } else {
        None
    };
    let keys = if hint_y + 2 < bottom as u32 {
        Some((area.x + area.width.saturating_sub(11) / 2, (hint_y + 2) as u16))
    } else {
        None
    };
    (hint, keys)
}

} // verus!
