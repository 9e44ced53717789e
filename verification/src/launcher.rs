//! The agent launcher's logic: the picker's input and selection over the
//! configured agents, and the geometry of the modal (or the full welcome
//! screen) it draws in.

use vstd::prelude::*;
use crate::config::AgentConfig;
use crate::detector::Detector;
use crate::layout::{clamped_rect, intersect_rect, Rect};
use crate::sidebar::{trim_chars, trimmed};
use crate::text::{chars_of, contains_sub, has_sub, occurs_at, string_from_chars};
use crate::widgets::{cell_width, text_width, truncate, truncated};

verus! {

/// One launchable agent: its display name and the command that starts it.
#[derive(Clone, Debug, PartialEq, Eq)]
pub struct LaunchItem {
    /// The agent's config name.
    pub name: String,
    /// The command that launches it.
    pub command: String,
}

/// The command the launcher starts an agent with: its `launch_command`
/// when the config sets one, its first `match_command` binary otherwise;
/// none when it has neither.
pub open spec fn launch_command_of(agent: AgentConfig) -> Option<Seq<char>> {
    match agent.launch_command {
        Some(c) => Some(c@),
        None => if agent.match_command@.len() > 0 {
            Some(agent.match_command@[0]@)
        } else {
            None
        },
    }
}

/// The launcher's items for the first `n` agents: each agent that has a
/// command to start, in config order.
pub open spec fn launch_items_spec(agents: Seq<AgentConfig>, n: int) -> Seq<(Seq<char>, Seq<char>)>
    decreases n,
{
    if n <= 0 {
        Seq::empty()
    } else {
        let rest = launch_items_spec(agents, n - 1);
        match launch_command_of(agents[n - 1]) {
            Some(c) => rest.push((agents[n - 1].name@, c)),
            None => rest,
        }
    }
}

/// An item as plain text: its name and its command.
pub open spec fn item_text(item: LaunchItem) -> (Seq<char>, Seq<char>) {
    (item.name@, item.command@)
}

/// Build the launcher's item list: every configured agent, started with
/// its `launch_command` when the config sets one (flags included), its
/// first `match_command` binary otherwise. No plain-shell row: a shell
/// cannot own a workspace (free-typed commands still run).
pub fn launch_items(detector: &Detector) -> (v: Vec<LaunchItem>)
    ensures
        v@.map_values(|i: LaunchItem| item_text(i)) == launch_items_spec(detector@, detector@.len() as int),
{
    let agents = detector.agents();
    let mut out: Vec<LaunchItem> = Vec::new();
    let mut k: usize = 0;
    while k < agents.len()
        invariant
            agents@ == detector@,
            k <= agents@.len(),
            out@.map_values(|i: LaunchItem| item_text(i)) == launch_items_spec(agents@, k as int),
        decreases agents@.len() - k,
    {
        let agent = &agents[k];
        let command: Option<String> = match &agent.launch_command {
            Some(c) => Some(c.clone()),
            None => if agent.match_command.len() > 0 {
                Some(agent.match_command[0].clone())
            } else {
                None
            },
        };
        let ghost before = out@;
        match command {
            Some(c) => {
                out.push(LaunchItem { name: agent.name.clone(), command: c });
                assert(out@.map_values(|i: LaunchItem| item_text(i)) =~= before.map_values(
                    |i: LaunchItem| item_text(i),
                ).push(item_text(out@[before.len() as int])));
            },
            None => {},
        }
        k += 1;
    }
    out
}

/// Unicode lowercase, as `str::to_lowercase` computes it.
pub uninterp spec fn lowercase(s: Seq<char>) -> Seq<char>;

/// `str::to_lowercase`: the string with every char mapped to its Unicode
/// lowercase, as the standard library documents it; mapping the chars of
/// an empty string gives an empty string.
#[verifier::external_body]
fn to_lowercase(s: &str) -> (r: String)
    ensures
        r@ == lowercase(s@),
        s@.len() == 0 ==> r@.len() == 0,
{
    s.to_lowercase()
}

/// `String::push`: `c` appended.
#[verifier::external_body]
fn push_char(s: &mut String, c: char)
    ensures
        final(s)@ == old(s)@.push(c),
{
    s.push(c)
}

/// `String::pop`: the last char taken off, if any.
#[verifier::external_body]
fn pop_char(s: &mut String) -> (r: Option<char>)
    ensures
        old(s)@.len() == 0 ==> r is None && final(s)@ == old(s)@,
        old(s)@.len() > 0 ==> r == Some(old(s)@.last()) && final(s)@ == old(s)@.drop_last(),
{
    s.pop()
}

/// Whether an item matches the typed filter: its name or its command
/// contains the input, case-insensitively.
pub open spec fn item_matches(item: LaunchItem, input: Seq<char>) -> bool {
    has_sub(lowercase(item.name@), lowercase(input)) || has_sub(lowercase(item.command@), lowercase(input))
}

/// An empty filter matches every item.
pub proof fn lemma_empty_filter_matches(item: LaunchItem, input: Seq<char>)
    requires
        lowercase(input).len() == 0,
    ensures
        item_matches(item, input),
{
    let hay = lowercase(item.name@);
    assert(hay.subrange(0, 0) =~= lowercase(input));
    assert(occurs_at(hay, lowercase(input), 0));
}

/// The first `n` items that match the filter, in order.
pub open spec fn filtered_spec(items: Seq<LaunchItem>, input: Seq<char>, n: int) -> Seq<LaunchItem>
    decreases n,
{
    if n <= 0 {
        Seq::empty()
    } else if item_matches(items[n - 1], input) {
        filtered_spec(items, input, n - 1).push(items[n - 1])
    } else {
        filtered_spec(items, input, n - 1)
    }
}

/// The items that match the filter, in order.
pub open spec fn matching(items: Seq<LaunchItem>, input: Seq<char>) -> Seq<LaunchItem> {
    filtered_spec(items, input, items.len() as int)
}

/// With nothing typed, the picker lists every item, in order.
pub proof fn lemma_empty_filter_keeps_all(items: Seq<LaunchItem>, input: Seq<char>, n: int)
    requires
        lowercase(input).len() == 0,
        0 <= n <= items.len(),
    ensures
        filtered_spec(items, input, n) == items.take(n),
    decreases n,
{
    if n > 0 {
        lemma_empty_filter_keeps_all(items, input, n - 1);
        lemma_empty_filter_matches(items[n - 1], input);
        assert(items.take(n - 1).push(items[n - 1]) =~= items.take(n));
    } else {
        assert(items.take(0) =~= Seq::<LaunchItem>::empty());
    }
}

/// The filter lists exactly the items whose name or whose command holds
/// the typed text, case-insensitively: every listed item is one of the
/// items and holds it in its name or its command, and every item holding
/// it in its name or in its command is listed.
pub proof fn lemma_filter_lists_name_or_command_hits(items: Seq<LaunchItem>, input: Seq<char>, n: int)
    requires
        0 <= n <= items.len(),
    ensures
        forall|j: int|
            0 <= j < filtered_spec(items, input, n).len() ==> {
                let it = #[trigger] filtered_spec(items, input, n)[j];
                &&& items.take(n).contains(it)
                &&& has_sub(lowercase(it.name@), lowercase(input)) || has_sub(
                    lowercase(it.command@),
                    lowercase(input),
                )
            },
        forall|i: int|
            0 <= i < n && (has_sub(lowercase((#[trigger] items[i]).name@), lowercase(input)) || has_sub(
                lowercase(items[i].command@),
                lowercase(input),
            )) ==> filtered_spec(items, input, n).contains(items[i]),
    decreases n,
{
    if n > 0 {
        lemma_filter_lists_name_or_command_hits(items, input, n - 1);
        let prev = filtered_spec(items, input, n - 1);
        let cur = filtered_spec(items, input, n);
        assert(items.take(n - 1).push(items[n - 1]) =~= items.take(n));
        assert forall|j: int| 0 <= j < cur.len() implies {
            let it = #[trigger] cur[j];
            &&& items.take(n).contains(it)
            &&& has_sub(lowercase(it.name@), lowercase(input)) || has_sub(lowercase(it.command@), lowercase(input))
        } by {
            if j < prev.len() {
                assert(cur[j] == prev[j]);
                let it = prev[j];
                let k = choose|k: int| 0 <= k < items.take(n - 1).len() && #[trigger] items.take(n - 1)[k] == it;
                assert(items.take(n)[k] == it);
            } else {
                assert(cur[j] == items[n - 1]);
                assert(items.take(n)[n - 1] == items[n - 1]);
            }
        }
        assert forall|i: int|
            0 <= i < n && (has_sub(lowercase((#[trigger] items[i]).name@), lowercase(input)) || has_sub(
                lowercase(items[i].command@),
                lowercase(input),
            )) implies cur.contains(items[i]) by {
            if i < n - 1 {
                let j = choose|j: int| 0 <= j < prev.len() && #[trigger] prev[j] == items[i];
                assert(cur[j] == prev[j]);
            } else {
                assert(cur[cur.len() - 1] == items[n - 1]);
            }
        }
    }
}

proof fn lemma_filtered_len(items: Seq<LaunchItem>, input: Seq<char>, n: int)
    requires
        0 <= n <= items.len(),
    ensures
        filtered_spec(items, input, n).len() <= n,
    decreases n,
{
    if n > 0 {
        lemma_filtered_len(items, input, n - 1);
    }
}

/// The launcher's picker state: the typed input and the selected row.
#[derive(Clone, Debug)]
pub struct LauncherState {
    input: String,
    selected: usize,
}

impl LauncherState {
    /// The typed input.
    pub closed spec fn input_spec(&self) -> Seq<char> {
        self.input@
    }

    /// The selected row, before clamping to the filtered list.
    pub closed spec fn row_spec(&self) -> nat {
        self.selected as nat
    }

    /// The selected row among `items`: the remembered row clamped to the
    /// filtered list; none when nothing matches.
    pub open spec fn selected_in(&self, items: Seq<LaunchItem>) -> Option<nat> {
        let len = matching(items, self.input_spec()).len();
        if len == 0 {
            None
        } else if self.row_spec() < len {
            Some(self.row_spec())
        } else {
            Some((len - 1) as nat)
        }
    }

    /// An empty picker.
    pub fn new() -> (s: Self)
        ensures
            s.input_spec() == Seq::<char>::empty(),
            s.row_spec() == 0,
    {
        LauncherState { input: String::new(), selected: 0 }
    }

    /// The typed input.
    pub fn input(&self) -> (s: &str)
        ensures
            s@ == self.input_spec(),
    {
        self.input.as_str()
    }

    /// Type a char: it is appended and the selection resets to the top.
    pub fn push(&mut self, c: char)
        ensures
            final(self).input_spec() == old(self).input_spec().push(c),
            final(self).row_spec() == 0,
    {
        push_char(&mut self.input, c);
        self.selected = 0;
    }

    /// Complete the input to the selected item's command.
    pub fn expand(&mut self, items: &[LaunchItem])
        ensures
            match old(self).selected_in(items@) {
                Some(i) => final(self).input_spec() == matching(items@, old(self).input_spec())[i as int].command@
                    && final(self).row_spec() == old(self).row_spec(),
                None => final(self).input_spec() == old(self).input_spec() && final(self).row_spec()
                    == old(self).row_spec(),
            },
    {
        if let Some(index) = self.selected(items) {
            let filtered = self.filtered(items);
            self.input = filtered[index].command.clone();
        }
    }

    /// Delete the last typed char; the selection resets to the top.
    pub fn backspace(&mut self)
        ensures
            final(self).input_spec() == if old(self).input_spec().len() == 0 {
                old(self).input_spec()
            } else {
                old(self).input_spec().drop_last()
            },
            final(self).row_spec() == 0,
    {
        pop_char(&mut self.input);
        self.selected = 0;
    }

    /// The items whose name or command contains the input,
    /// case-insensitively, in order.
    pub fn filtered<'a>(&self, items: &'a [LaunchItem]) -> (v: Vec<&'a LaunchItem>)
        ensures
            v@.len() == matching(items@, self.input_spec()).len(),
            forall|i: int| 0 <= i < v@.len() ==> *#[trigger] v@[i] == matching(items@, self.input_spec())[i],
    {
        let needle = chars_of(to_lowercase(self.input.as_str()).as_str());
        let mut out: Vec<&'a LaunchItem> = Vec::new();
        let mut k: usize = 0;
        while k < items.len()
            invariant
                k <= items@.len(),
                needle@ == lowercase(self.input_spec()),
                out@.len() == filtered_spec(items@, self.input_spec(), k as int).len(),
                forall|i: int| 0 <= i < out@.len() ==> *#[trigger] out@[i] == filtered_spec(items@, self.input_spec(), k as int)[i],
            decreases items@.len() - k,
        {
            let item = &items[k];
            let name = chars_of(to_lowercase(item.name.as_str()).as_str());
            let command = chars_of(to_lowercase(item.command.as_str()).as_str());
            if contains_sub(name.as_slice(), needle.as_slice()) || contains_sub(command.as_slice(), needle.as_slice()) {
                out.push(item);
            }
            k += 1;
        }
        out
    }

    /// Move the selection down one filtered row, wrapping.
    pub fn select_next(&mut self, items: &[LaunchItem])
        ensures
            final(self).input_spec() == old(self).input_spec(),
            match old(self).selected_in(items@) {
                Some(cur) => final(self).row_spec() == if cur + 1 == matching(items@, old(self).input_spec()).len() {
                    0
                } else {
                    cur + 1
                },
                None => final(self).row_spec() == old(self).row_spec(),
            },
    {
        let len = self.filtered(items).len();
        if len > 0 {
            let cur = if self.selected < len - 1 { self.selected } else { len - 1 };
            self.selected = if cur + 1 == len { 0 } else { cur + 1 };
        }
    }

    /// Move the selection up one filtered row, wrapping.
    pub fn select_prev(&mut self, items: &[LaunchItem])
        ensures
            final(self).input_spec() == old(self).input_spec(),
            match old(self).selected_in(items@) {
                Some(cur) => final(self).row_spec() == if cur == 0 {
                    (matching(items@, old(self).input_spec()).len() - 1) as nat
                } else {
                    (cur - 1) as nat
                },
                None => final(self).row_spec() == old(self).row_spec(),
            },
    {
        let len = self.filtered(items).len();
        if len > 0 {
            let cur = if self.selected < len - 1 { self.selected } else { len - 1 };
            self.selected = if cur == 0 { len - 1 } else { cur - 1 };
        }
    }

    /// The selected row of the filtered list, clamped to it.
    pub fn selected(&self, items: &[LaunchItem]) -> (r: Option<usize>)
        ensures
            match r {
                Some(i) => self.selected_in(items@) == Some(i as nat) && i < matching(items@, self.input_spec()).len(),
                None => self.selected_in(items@) is None,
            },
    {
        let len = self.filtered(items).len();
        if len > 0 {
            Some(if self.selected < len - 1 { self.selected } else { len - 1 })
        } else {
            None
        }
    }

    /// The command enter launches: the selected item's, else the trimmed
    /// typed text when it is not blank.
    pub fn command(&self, items: &[LaunchItem]) -> (r: Option<String>)
        ensures
            match self.selected_in(items@) {
                Some(i) => r is Some && r->Some_0@ == matching(items@, self.input_spec())[i as int].command@,
                None => if trimmed(self.input_spec()).len() > 0 {
                    r is Some && r->Some_0@ == trimmed(self.input_spec())
                } else {
                    r is None
                },
            },
    {
        let filtered = self.filtered(items);
        if let Some(index) = self.selected(items) {
            return Some(filtered[index].command.clone());
        }
        let typed = trim_chars(chars_of(self.input.as_str()).as_slice());
        if typed.len() > 0 {
            Some(string_from_chars(typed.as_slice()))
        } else {
            None
        }
    }

    /// Select a row directly (a click on it).
    pub fn select(&mut self, index: usize)
        ensures
            final(self).input_spec() == old(self).input_spec(),
            final(self).row_spec() == index,
    {
        self.selected = index;
    }
}

/// The rows between the welcome screen's top and its first item: the
/// wordmark's seven rows and four more.
pub const GREETING_ITEMS_OFFSET: u16 = 11;

/// The rows between the modal's top and its first item.
pub const MODAL_ITEMS_OFFSET: u16 = 2;

/// The wordmark's stand-in glyphs.
pub open spec fn flicker_glyph(k: u64) -> char {
    if k == 0 {
        '*'
    } else if k == 1 {
        '+'
    } else if k == 2 {
        '~'
    } else {
        '#'
    }
}

/// The mixed hash a wordmark cell flickers by at a tick.
pub open spec fn flicker_hash(col: u64, row: u64, tick: u64) -> u64 {
    let beat = tick / 2;
    let h0 = beat.wrapping_mul(0x9E37_79B9_7F4A_7C15).wrapping_add(col << 17u64).wrapping_add(
        row << 41u64,
    );
    let h1 = h0 ^ (h0 >> 33u64);
    let h2 = h1.wrapping_mul(0xFF51_AFD7_ED55_8CCD);
    h2 ^ (h2 >> 29u64)
}

/// Whether a wordmark cell flickers at a tick, and to which glyph: one
/// cell in sixty of a two-tick beat's hash.
pub open spec fn flicker_spec(col: u64, row: u64, tick: u64) -> Option<char> {
    let h = flicker_hash(col, row, tick);
    if h % 60 == 0 {
        Some(flicker_glyph((h / 60) % 4))
    } else {
        None
    }
}

/// The stand-in glyph a wordmark cell flickers to at `tick`, if it
/// flickers at all.
pub fn flicker(col: usize, row: usize, tick: u64) -> (r: Option<char>)
    ensures
        r == flicker_spec(col as u64, row as u64, tick),
{
    let beat = tick / 2;
    let mut h = beat.wrapping_mul(0x9E37_79B9_7F4A_7C15).wrapping_add((col as u64) << 17u64).wrapping_add(
        (row as u64) << 41u64,
    );
    h = h ^ (h >> 33u64);
    h = h.wrapping_mul(0xFF51_AFD7_ED55_8CCD);
    h = h ^ (h >> 29u64);
    if h % 60 == 0 {
        let k = (h / 60) % 4;
        Some(if k == 0 {
            '*'
        } else if k == 1 {
            '+'
        } else if k == 2 {
            '~'
        } else {
            '#'
        })
    } else {
        None
    }
}

/// The launcher: the items, the picker state, whether it is the full
/// welcome screen, and the animation tick.
pub struct Launcher<'a> {
    /// The launchable agents.
    pub items: &'a [LaunchItem],
    /// The picker's input and selection.
    pub state: &'a LauncherState,
    /// Whether it draws as the full welcome screen.
    pub welcome: bool,
    /// The animation frame counter.
    pub tick: u64,
}

/// Whether a clipped launcher rect is big enough to draw.
pub open spec fn launcher_drawable(modal: Rect) -> bool {
    modal.width >= 8 && modal.height >= 5
}

impl<'a> Launcher<'a> {
    /// A compact launcher over `items` with `state`.
    pub fn new(items: &'a [LaunchItem], state: &'a LauncherState) -> (l: Self)
        ensures
            l.items == items,
            l.state == state,
            !l.welcome,
            l.tick == u64::MAX / 2,
    {
        Launcher { items, state, welcome: false, tick: u64::MAX / 2 }
    }

    /// Draw as the full welcome screen (wordmark over the picker) or not.
    pub fn welcome(self, on: bool) -> (l: Self)
        ensures
            l.items == self.items,
            l.state == self.state,
            l.welcome == on,
            l.tick == self.tick,
    {
        Launcher { items: self.items, state: self.state, welcome: on, tick: self.tick }
    }

    /// The animation frame counter.
    pub fn tick(self, tick: u64) -> (l: Self)
        ensures
            l.items == self.items,
            l.state == self.state,
            l.welcome == self.welcome,
            l.tick == tick,
    {
        Launcher { items: self.items, state: self.state, welcome: self.welcome, tick }
    }

    /// Rows from the launcher's top to its first item.
    pub open spec fn offset_spec(&self) -> u16 {
        if self.welcome {
            GREETING_ITEMS_OFFSET
        } else {
            MODAL_ITEMS_OFFSET
        }
    }

    fn items_offset(&self) -> (o: u16)
        ensures
            o == self.offset_spec(),
    {
        if self.welcome {
            GREETING_ITEMS_OFFSET
        } else {
            MODAL_ITEMS_OFFSET
        }
    }

    /// The launcher's rect within `area`: sized to its filtered rows (at
    /// least one), 53 wide as the welcome screen and centered, 44 wide as
    /// a modal a third of the way down; clipped to `area`.
    pub open spec fn modal_spec(&self, area: Rect) -> Rect {
        let n = matching(self.items@, self.state.input_spec()).len();
        let rows: int = if n > 1 { n as int } else { 1 };
        let w0: int = if self.welcome { 53 } else { 44 };
        let h0: int = if self.welcome { self.offset_spec() + rows + 3 } else { rows + 4 };
        let avail_w = area.width.saturating_sub(2);
        let w1 = if w0 < avail_w { w0 } else { avail_w as int };
        let width: int = if w1 > 20 { w1 } else { 20 };
        let hcap: int = if area.height.saturating_sub(2) > 5 { area.height.saturating_sub(2) as int } else { 5 };
        let h1 = if h0 < 5 { 5 } else { h0 };
        let height: int = if h1 > hcap { hcap } else { h1 };
        let x = area.x + area.width.saturating_sub(width as u16) / 2;
        let y = if self.welcome {
            area.y + area.height.saturating_sub(height as u16) / 2
        } else {
            area.y + area.height.saturating_sub(height as u16) / 3
        };
        intersect_rect(clamped_rect(x as u16, y as u16, width as u16, height as u16), area)
    }

    /// The rect the launcher occupies within `area`.
    pub fn modal_rect(&self, area: Rect) -> (r: Rect)
        requires
            area.fits(),
            self.items@.len() < u16::MAX,
        ensures
            r == self.modal_spec(area),
    {
        let n = self.state.filtered(self.items).len();
        proof {
            lemma_filtered_len(self.items@, self.state.input_spec(), self.items@.len() as int);
        }
        let rows: u32 = if n > 1 { n as u32 } else { 1 };
        let w0: u32 = if self.welcome { 53 } else { 44 };
        let h0: u32 = if self.welcome { self.items_offset() as u32 + rows + 3 } else { rows + 4 };
        let avail_w = area.width.saturating_sub(2) as u32;
        let w1 = if w0 < avail_w { w0 } else { avail_w };
        let width: u32 = if w1 > 20 { w1 } else { 20 };
        let hs = area.height.saturating_sub(2) as u32;
        let hcap: u32 = if hs > 5 { hs } else { 5 };
        let h1 = if h0 < 5 { 5 } else { h0 };
        let height: u32 = if h1 > hcap { hcap } else { h1 };
        let x = area.x + area.width.saturating_sub(width as u16) / 2;
        let y = if self.welcome {
            area.y + area.height.saturating_sub(height as u16) / 2
        } else {
            area.y + area.height.saturating_sub(height as u16) / 3
        };
        Rect::clamped(x, y, width as u16, height as u16).intersection(area)
    }

    /// Whether (`x`, `y`) falls inside the drawn launcher.
    pub fn contains(&self, area: Rect, x: u16, y: u16) -> (b: bool)
        requires
            area.fits(),
            self.items@.len() < u16::MAX,
        ensures
            b == (launcher_drawable(self.modal_spec(area)) && self.modal_spec(area).holds(x as int, y as int)),
    {
        let modal = self.modal_rect(area);
        modal.width >= 8 && modal.height >= 5 && x >= modal.x && (x as u32) < modal.x as u32
            + modal.width as u32 && y >= modal.y && (y as u32) < modal.y as u32 + modal.height as u32
    }

    /// The row past the last item row: the welcome screen's rows run to its
    /// bottom, the modal keeps its bottom border.
    pub open spec fn rows_bottom_spec(&self, modal: Rect) -> int {
        if self.welcome {
            modal.y + modal.height
        } else {
            modal.y + modal.height - 1
        }
    }

    /// The filtered item drawn on the row under (`x`, `y`), when one is.
    pub open spec fn item_at_spec(&self, area: Rect, x: int, y: int) -> Option<usize> {
        let modal = self.modal_spec(area);
        let n = matching(self.items@, self.state.input_spec()).len();
        if !(launcher_drawable(modal) && modal.holds(x, y)) || y < modal.y + self.offset_spec() || y
            >= self.rows_bottom_spec(modal) {
            None
        } else if y - modal.y - self.offset_spec() < n {
            Some((y - modal.y - self.offset_spec()) as usize)
        } else {
            None
        }
    }

    /// The row filtered item `index` is drawn on: items run down from the
    /// launcher's items offset, one per row, as far as the rows go (the
    /// modal keeps its bottom border); none when it is not drawn.
    pub open spec fn item_row_spec(&self, area: Rect, index: int) -> Option<int> {
        let modal = self.modal_spec(area);
        let n = matching(self.items@, self.state.input_spec()).len();
        let y = modal.y + self.offset_spec() + index;
        if launcher_drawable(modal) && 0 <= index < n && y < self.rows_bottom_spec(modal) {
            Some(y)
        } else {
            None
        }
    }

    /// The row filtered item `index` is drawn on, when it is drawn. Render
    /// places the rows by this and [`Launcher::item_at`] resolves clicks by
    /// the same plan.
    pub fn item_row(&self, area: Rect, index: usize) -> (r: Option<u16>)
        requires
            area.fits(),
            self.items@.len() < u16::MAX,
        ensures
            match (r, self.item_row_spec(area, index as int)) {
                (Some(y), Some(sy)) => y == sy,
                (None, None) => true,
                _ => false,
            },
    {
        let modal = self.modal_rect(area);
        let n = self.state.filtered(self.items).len();
        proof {
            lemma_filtered_len(self.items@, self.state.input_spec(), self.items@.len() as int);
        }
        if !(modal.width >= 8 && modal.height >= 5) || index >= n {
            return None;
        }
        let y: u64 = modal.y as u64 + self.items_offset() as u64 + index as u64;
        let bottom: u64 = if self.welcome {
            modal.y as u64 + modal.height as u64
        } else {
            modal.y as u64 + modal.height as u64 - 1
        };
        if y < bottom {
            Some(y as u16)
        } else {
            None
        }
    }

    /// The row of the welcome screen's closing hint `k`: the hints start
    /// one row below the item rows (one row counted when no item shows)
    /// and run down a row each, as far as the launcher's bottom; none
    /// unless the launcher is drawn as the welcome screen.
    pub open spec fn hint_row_spec(&self, area: Rect, k: int) -> Option<int> {
        let modal = self.modal_spec(area);
        let n = matching(self.items@, self.state.input_spec()).len();
        let rows: int = if n > 1 { n as int } else { 1 };
        let y = modal.y + GREETING_ITEMS_OFFSET + rows + 1 + k;
        if self.welcome && launcher_drawable(modal) && y < modal.y + modal.height {
            Some(y)
        } else {
            None
        }
    }

    /// The row the welcome screen's closing hint `k` is drawn on, when it
    /// is drawn.
    pub fn hint_row(&self, area: Rect, k: u16) -> (r: Option<u16>)
        requires
            area.fits(),
            self.items@.len() < u16::MAX,
        ensures
            match (r, self.hint_row_spec(area, k as int)) {
                (Some(y), Some(sy)) => y == sy,
                (None, None) => true,
                _ => false,
            },
    {
        let modal = self.modal_rect(area);
        let n = self.state.filtered(self.items).len();
        proof {
            lemma_filtered_len(self.items@, self.state.input_spec(), self.items@.len() as int);
        }
        if !self.welcome || !(modal.width >= 8 && modal.height >= 5) {
            return None;
        }
        let rows: u64 = if n > 1 { n as u64 } else { 1 };
        let y: u64 = modal.y as u64 + GREETING_ITEMS_OFFSET as u64 + rows + 1 + k as u64;
        if y < modal.y as u64 + modal.height as u64 {
            Some(y as u16)
        } else {
            None
        }
    }

    /// The filtered item under (`x`, `y`), when one is there.
    pub fn item_at(&self, area: Rect, x: u16, y: u16) -> (r: Option<usize>)
        requires
            area.fits(),
            self.items@.len() < u16::MAX,
        ensures
            r == self.item_at_spec(area, x as int, y as int),
    {
        let modal = self.modal_rect(area);
        let offset = self.items_offset() as u32;
        let bottom: u32 = if self.welcome {
            modal.y as u32 + modal.height as u32
        } else {
            (modal.y as u32 + modal.height as u32) as u32
        };
        if !self.contains(area, x, y) || (y as u32) < modal.y as u32 + offset {
            return None;
        }
        if !self.welcome && y as u32 + 1 >= bottom {
            return None;
        }
        if self.welcome && y as u32 >= bottom {
            return None;
        }
        let index = (y as u32 - modal.y as u32 - offset) as usize;
        if index < self.state.filtered(self.items).len() {
            Some(index)
        } else {
            None
        }
    }

    /// Where the welcome strip starts on a frame too small for the block:
    /// one column in, halfway down; only as the welcome screen.
    pub open spec fn strip_spec(&self, area: Rect) -> Option<(u16, u16)> {
        if self.welcome && area.width >= 4 && area.height > 0 {
            Some(((area.x + 1) as u16, (area.y + area.height / 2) as u16))
        } else {
            None
        }
    }

    /// Where the terminal cursor belongs: after the typed input on the
    /// input row, held inside the padding; on the strip when the block is
    /// too small to draw; none when neither shows.
    pub fn input_position(&self, area: Rect) -> (r: Option<(u16, u16)>)
        requires
            area.fits(),
            area.width > 0,
            self.items@.len() < u16::MAX,
        ensures
            r == ({
                let modal = self.modal_spec(area);
                let input_len = 2 + self.state.input_spec().len();
                if !launcher_drawable(modal) {
                    match self.strip_spec(area) {
                        Some((sx, sy)) => {
                            let want = sx + input_len;
                            let cap = area.x + area.width - 1;
                            Some(((if want < cap { want } else { cap }) as u16, sy))
                        },
                        None => None,
                    }
                } else {
                    let y = modal.y + self.offset_spec() - 1;
                    if y < modal.y + modal.height {
                        let want = modal.x + 2 + input_len;
                        let cap = modal.x + modal.width.saturating_sub(2);
                        Some(((if want < cap { want } else { cap }) as u16, y as u16))
                    } else {
                        None
                    }
                }
            }),
    {
        let modal = self.modal_rect(area);
        let len = chars_of(self.state.input()).len() as u64;
        let input_len: u64 = if len < u64::MAX - 2 { len + 2 } else { u64::MAX };
        if !(modal.width >= 8 && modal.height >= 5) {
            if self.welcome && area.width >= 4 && area.height > 0 {
                let sx = area.x + 1;
                let sy = area.y + area.height / 2;
                let want: u64 = (sx as u64).saturating_add(input_len);
                let cap: u64 = area.x as u64 + area.width as u64 - 1;
                return Some(((if want < cap { want } else { cap }) as u16, sy));
            }
            return None;
        }
        let y: u32 = modal.y as u32 + self.items_offset() as u32 - 1;
        if y < modal.y as u32 + modal.height as u32 {
            let want: u64 = (modal.x as u64 + 2).saturating_add(input_len);
            let cap: u64 = modal.x as u64 + modal.width.saturating_sub(2) as u64;
            Some(((if want < cap { want } else { cap }) as u16, y as u16))
        } else {
            None
        }
    }
}

/// Where an item row's command goes: right-aligned against the modal's
/// inner edge when it fits beside the name and a two-cell gap, cut with
/// `…` to the room there is when that is at least eight cells, and left
/// out otherwise. Widths in display cells; `inner_x` is where the row's
/// marker starts, the name two cells after it.
pub open spec fn command_cell_spec(name: Seq<char>, command: Seq<char>, inner_x: u16, modal: Rect) -> Option<(int, Seq<char>)> {
    let name_end = inner_x + 2 + text_width(name);
    let right_edge = modal.x + modal.width - 2;
    let avail: int = if right_edge > name_end + 2 { right_edge - (name_end + 2) } else { 0 };
    if text_width(command) <= avail {
        Some((right_edge - text_width(command), command))
    } else if avail >= 8 {
        let cut = truncated(command, avail as nat);
        let w = text_width(cut);
        Some((if right_edge > w { right_edge - w } else { 0 }, cut))
    } else {
        None
    }
}

/// An item row's command column and text, when it shows.
pub fn command_cell(item: &LaunchItem, inner_x: u16, modal: Rect) -> (r: Option<(u16, String)>)
    requires
        modal.width >= 2,
        modal.fits(),
    ensures
        match (r, command_cell_spec(item.name@, item.command@, inner_x, modal)) {
            (Some((x, t)), Some((sx, st))) => x == sx && t@ == st,
            (None, None) => true,
            _ => false,
        },
{
    let name_cells = cell_width(item.name.as_str()) as u64;
    let name_end: u64 = (inner_x as u64 + 2).saturating_add(name_cells);
    let right_edge: u16 = modal.x + modal.width - 2;
    let room_from: u64 = name_end.saturating_add(2);
    let avail: u64 = if right_edge as u64 > room_from { right_edge as u64 - room_from } else { 0 };
    proof {
        if name_end < u64::MAX {
            assert(name_end == inner_x + 2 + text_width(item.name@));
        }
        if right_edge as u64 > room_from {
            assert(room_from == inner_x + 2 + text_width(item.name@) + 2);
        } else {
            assert(!(right_edge > inner_x + 2 + text_width(item.name@) + 2));
        }
    }
    let cmd_cells = cell_width(item.command.as_str());
    if cmd_cells as u64 <= avail {
        let text = string_from_chars(chars_of(item.command.as_str()).as_slice());
        Some((right_edge - cmd_cells as u16, text))
    } else if avail >= 8 {
        let cut = truncate(item.command.as_str(), avail as usize);
        let w = cell_width(cut.as_str());
        let x: u16 = if right_edge as usize > w { right_edge - w as u16 } else { 0 };
        Some((x, cut))
    } else {
        None
    }
}

/// The hint an empty filter shows in place of items: what enter runs (the
/// input trimmed), or the placeholder when nothing is typed.
pub open spec fn filter_hint_spec(input: Seq<char>) -> Seq<char> {
    if trimmed(input).len() == 0 {
        "type a command…"@
    } else {
        "↵ run: "@ + trimmed(input)
    }
}

/// The empty-filter hint for the typed `input`.
pub fn filter_hint(input: &str) -> (s: String)
    ensures
        s@ == filter_hint_spec(input@),
{
    let typed = trim_chars(chars_of(input).as_slice());
    proof {
        reveal_strlit("type a command…");
        reveal_strlit("↵ run: ");
    }
    if typed.len() == 0 {
        return string_from_chars(chars_of("type a command…").as_slice());
    }
    let mut out = chars_of("↵ run: ");
    let ghost head = out@;
    let mut k: usize = 0;
    while k < typed.len()
        invariant
            k <= typed@.len(),
            out@ == head + typed@.take(k as int),
        decreases typed@.len() - k,
    {
        out.push(typed[k]);
        assert(typed@.take(k + 1) =~= typed@.take(k as int).push(typed@[k as int]));
        k += 1;
    }
    assert(typed@.take(typed@.len() as int) =~= typed@);
    string_from_chars(out.as_slice())
}

/// How many wordmark columns show at `tick`: six more a tick, up to the
/// mark's width.
pub open spec fn revealed_spec(tick: u64, mark_width: u16) -> int {
    let sweep: int = tick * 6;
    if sweep < mark_width { sweep } else { mark_width as int }
}

/// The wordmark columns revealed at `tick`.
pub fn wordmark_revealed(tick: u64, mark_width: u16) -> (n: u16)
    ensures
        n == revealed_spec(tick, mark_width),
{
    let sweep: u64 = if tick <= u64::MAX / 6 { tick * 6 } else { u64::MAX };
    if sweep < mark_width as u64 { sweep as u16 } else { mark_width }
}

/// Whether wordmark column `col` sits in the band of shine at `tick`: once
/// the mark is fully revealed, a six-column band drifts across it, two
/// columns a tick, on a loop thirty-two columns longer than the mark.
pub open spec fn shine_spec(col: u16, tick: u64, mark_width: u16) -> bool {
    let shine: int = ((tick * 2) % (mark_width + 32)) as int - 16;
    revealed_spec(tick, mark_width) >= mark_width && 0 <= col - shine < 6
}

/// Whether wordmark column `col` shines at `tick`.
pub fn in_shine(col: u16, tick: u64, mark_width: u16) -> (b: bool)
    requires
        tick <= u64::MAX / 2,
    ensures
        b == shine_spec(col, tick, mark_width),
{
    let cycle: u64 = mark_width as u64 + 32;
    let pos: u64 = (tick * 2) % cycle;
    let revealed = wordmark_revealed(tick, mark_width);
    revealed >= mark_width && col as u64 + 16 >= pos && (col as u64 + 16) - pos < 6
}

/// Clicks land on what is drawn: a click anywhere across the launcher on
/// the row an item is drawn on picks that item, and a click on a row that
/// shows no item picks nothing.
pub proof fn lemma_item_rows_agree_with_clicks(l: Launcher, area: Rect, x: int, y: int)
    requires
        l.modal_spec(area).x <= x < l.modal_spec(area).x + l.modal_spec(area).width,
    ensures
        forall|i: int| #[trigger] l.item_row_spec(area, i) == Some(y) ==> l.item_at_spec(area, x, y)
            == Some(i as usize),
        l.item_at_spec(area, x, y) matches Some(i) ==> l.item_row_spec(area, i as int) == Some(y),
{
    let modal = l.modal_spec(area);
    assert forall|i: int| #[trigger] l.item_row_spec(area, i) == Some(y) implies l.item_at_spec(
        area,
        x,
        y,
    ) == Some(i as usize) by {
        assert(l.rows_bottom_spec(modal) <= modal.y + modal.height);
        assert(modal.holds(x, y));
    }
}

} // verus!
