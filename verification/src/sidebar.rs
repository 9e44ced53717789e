//! The agent-state sidebar's logic: the cards it lists, the row plan its
//! card region follows, keyboard selection, and the widths and heights of
//! its controls. Render draws this plan and hit-testing mirrors it, so the
//! two cannot drift apart.

use vstd::prelude::*;
use crate::context::ContextAlert;
use crate::attention::{is_attention_order, rank, AttentionItem};
use crate::config::AgentConfig;
use crate::detector::{identified, opt_text, Detector};
use crate::layout::leaves_of;
use crate::session::{AgentState, Pane, PaneId, Session, SessionView};
use crate::text::{chars_of, decimal, decimal_chars_wide, is_ws, is_whitespace, string_from_chars, trim_by};

verus! {

/// What the sidebar needs to know of a pane's live telemetry to plan its
/// rows: the context alert, if the reading escalated one.
#[derive(Clone, Copy, Debug, PartialEq, Eq, Structural)]
pub struct TelemetrySummary {
    /// The remaining-context alert, when the reading escalated one.
    pub context_alert: Option<ContextAlert>,
}

/// One sidebar card: an agent pane and everything shown about it.
#[derive(Clone, Debug, PartialEq)]
pub struct SidebarEntry {
    /// The pane this card describes.
    pub pane: PaneId,
    /// The window index the pane belongs to.
    pub window: usize,
    /// The agent's config name.
    pub agent: String,
    /// The committed state.
    pub state: AgentState,
    /// Why — shown under the agent name.
    pub reason: Option<String>,
    /// Time since the state last changed, in nanoseconds, if it ever has.
    pub age: Option<u128>,
    /// Whether this pane's permission asks are auto-approved.
    pub auto_approve: bool,
    /// The pane's live telemetry, as far as the row plan reads it; `None`
    /// for a pane without a feed.
    pub telemetry: Option<TelemetrySummary>,
    /// The pane's live terminal title.
    pub title: Option<String>,
    /// The agent's own name for its session, from the telemetry feed.
    pub session_name: Option<String>,
}

/// `s` without leading and trailing whitespace.
pub open spec fn trimmed(s: Seq<char>) -> Seq<char> {
    trim_by(s, |c: char| is_ws(c))
}

/// The name the chrome shows for a card: the trimmed title when it is not
/// blank, else the trimmed session name when not blank, else the agent's
/// config name.
pub open spec fn display_name_of(title: Option<Seq<char>>, session_name: Option<Seq<char>>, agent: Seq<char>) -> Seq<char> {
    if title is Some && trimmed(title->Some_0).len() > 0 {
        trimmed(title->Some_0)
    } else if session_name is Some && trimmed(session_name->Some_0).len() > 0 {
        trimmed(session_name->Some_0)
    } else {
        agent
    }
}

/// A string option as plain values.
pub open spec fn opt_view(s: Option<String>) -> Option<Seq<char>> {
    match s {
        Some(t) => Some(t@),
        None => None,
    }
}

/// `s` trimmed of whitespace at both ends.
pub fn trim_chars(s: &[char]) -> (r: Vec<char>)
    ensures
        r@ == trimmed(s@),
{
    let mut start: usize = 0;
    while start < s.len() && is_whitespace(s[start])
        invariant
            start <= s@.len(),
            forall|j: int| 0 <= j < start ==> is_ws(#[trigger] s@[j]),
        decreases s@.len() - start,
    {
        start += 1;
    }
    proof {
        crate::text::lemma_trim_start_skip(s@, |c: char| is_ws(c), start as int);
    }
    let mut end: usize = s.len();
    while end > start && is_whitespace(s[end - 1])
        invariant
            start <= end <= s@.len(),
            forall|j: int| end <= j < s@.len() ==> is_ws(#[trigger] s@[j]),
        decreases end,
    {
        end -= 1;
    }
    let kept = vstd::slice::slice_subrange(s, start, end);
    proof {
        let rest = s@.skip(start as int);
        assert forall|j: int| end - start <= j < rest.len() implies is_ws(#[trigger] rest[j]) by {
            assert(rest[j] == s@[j + start]);
        }
        if end > start {
            assert(rest[end - start - 1] == s@[end - 1]);
        }
        crate::text::lemma_trim_end_take(rest, |c: char| is_ws(c), (end - start) as int);
        assert(kept@ =~= rest.take((end - start) as int));
    }
    let mut out: Vec<char> = Vec::new();
    let mut i: usize = 0;
    while i < kept.len()
        invariant
            i <= kept@.len(),
            out@ == kept@.take(i as int),
        decreases kept@.len() - i,
    {
        out.push(kept[i]);
        i += 1;
        assert(out@ =~= kept@.take(i as int));
    }
    assert(kept@.take(kept@.len() as int) =~= kept@);
    out
}

impl SidebarEntry {
    /// The name the chrome shows for this pane: the live task title when
    /// the agent broadcast a non-blank one, else the agent's own session
    /// name when the feed reported one, else the agent's config name.
    pub fn display_name(&self) -> (name: String)
        ensures
            name@ == display_name_of(opt_view(self.title), opt_view(self.session_name), self.agent@),
    {
        if let Some(title) = &self.title {
            let t = trim_chars(chars_of(title.as_str()).as_slice());
            if t.len() > 0 {
                return string_from_chars(t.as_slice());
            }
        }
        if let Some(name) = &self.session_name {
            let t = trim_chars(chars_of(name.as_str()).as_slice());
            if t.len() > 0 {
                return string_from_chars(t.as_slice());
            }
        }
        self.agent.clone()
    }
}

/// The index of the first entry for `pane`, if any.
pub open spec fn position_of(entries: Seq<SidebarEntry>, pane: PaneId) -> Option<int> {
    if exists|i: int| 0 <= i < entries.len() && entries[i].pane == pane {
        Some(choose|i: int| 0 <= i < entries.len() && entries[i].pane == pane && forall|j: int| 0 <= j < i ==> entries[j].pane != pane)
    } else {
        None
    }
}

fn find_entry(entries: &[SidebarEntry], pane: PaneId) -> (r: Option<usize>)
    ensures
        match r {
            Some(i) => i < entries@.len() && entries@[i as int].pane == pane && forall|j: int|
                0 <= j < i ==> entries@[j].pane != pane,
            None => forall|j: int| 0 <= j < entries@.len() ==> entries@[j].pane != pane,
        },
{
    let mut i: usize = 0;
    while i < entries.len()
        invariant
            i <= entries@.len(),
            forall|j: int| 0 <= j < i ==> entries@[j].pane != pane,
        decreases entries@.len() - i,
    {
        if entries[i].pane.same_as(pane) {
            return Some(i);
        }
        i += 1;
    }
    None
}

proof fn lemma_position_of(entries: Seq<SidebarEntry>, pane: PaneId, i: int)
    requires
        0 <= i < entries.len(),
        entries[i].pane == pane,
        forall|j: int| 0 <= j < i ==> entries[j].pane != pane,
    ensures
        position_of(entries, pane) == Some(i),
{
    let k = choose|k: int| 0 <= k < entries.len() && entries[k].pane == pane && forall|j: int|
        0 <= j < k ==> entries[j].pane != pane;
    if k < i {
        assert(entries[k].pane != pane);
    } else if k > i {
        assert(entries[i].pane != pane);
    }
}

/// The entries index of the pane holding focus, when it has a card.
pub fn focused_entry(entries: &[SidebarEntry], focused: Option<PaneId>) -> (r: Option<usize>)
    ensures
        r == match focused {
            Some(p) => match position_of(entries@, p) {
                Some(i) => Some(i as usize),
                None => None,
            },
            None => None,
        },
{
    match focused {
        None => None,
        Some(p) => {
            let r = find_entry(entries, p);
            proof {
                match r {
                    Some(i) => lemma_position_of(entries@, p, i as int),
                    None => {},
                }
            }
            r
        },
    }
}

/// A pane-switch request surfaced by the sidebar.
#[derive(Clone, Copy, Debug, PartialEq, Eq, Structural)]
pub enum Message {
    /// Focus the given pane.
    JumpToPane(PaneId),
}

/// Keyboard-navigation state for the sidebar: which pane is selected.
///
/// Selection is identity-based: it follows the anchored pane when the
/// cards re-triage, and falls back to the remembered row (clamped) only
/// when that pane is gone.
#[derive(Clone, Copy, Debug)]
pub struct SidebarState {
    pane: Option<PaneId>,
    index: usize,
}

/// The selected row of `entries` for a selection anchored to `pane` at
/// row `index`: the pane's row while it has a card, else the remembered
/// row clamped to the list; none for an empty list.
pub open spec fn selected_spec(pane: Option<PaneId>, index: nat, entries: Seq<SidebarEntry>) -> Option<nat> {
    if entries.len() == 0 {
        None
    } else {
        match pane {
            Some(p) if position_of(entries, p) is Some => Some(position_of(entries, p)->Some_0 as nat),
            _ => Some(if index < entries.len() { index } else { (entries.len() - 1) as nat }),
        }
    }
}

impl Default for SidebarState {
    fn default() -> (s: Self)
        ensures
            s.anchor_spec() is None,
            s.row_spec() == 0,
    {
        SidebarState { pane: None, index: 0 }
    }
}

impl SidebarState {
    /// The pane the selection is anchored to.
    pub closed spec fn anchor_spec(self) -> Option<PaneId> {
        self.pane
    }

    /// The row last anchored.
    pub closed spec fn row_spec(self) -> nat {
        self.index as nat
    }

    /// The selected row of `entries`.
    pub open spec fn selected_in(self, entries: Seq<SidebarEntry>) -> Option<nat> {
        selected_spec(self.anchor_spec(), self.row_spec(), entries)
    }

    /// A state with the first row selected and no pane anchored yet.
    pub fn new() -> (s: Self)
        ensures
            s.anchor_spec() is None,
            s.row_spec() == 0,
    {
        SidebarState { pane: None, index: 0 }
    }

    /// A state anchored to the top row's pane.
    pub fn anchored(entries: &[SidebarEntry]) -> (s: Self)
        ensures
            entries@.len() > 0 ==> s.anchor_spec() == Some(entries@[0].pane) && s.row_spec() == 0,
            entries@.len() == 0 ==> s.anchor_spec() is None && s.row_spec() == 0,
    {
        let mut state = SidebarState::new();
        state.anchor(0, entries);
        state
    }

    /// The selected row: the anchored pane's current position in `entries`,
    /// or the last-anchored row (clamped) when the pane is gone or none was
    /// anchored. `None` when there are no rows.
    pub fn selected(&self, entries: &[SidebarEntry]) -> (r: Option<usize>)
        ensures
            match r {
                Some(i) => self.selected_in(entries@) == Some(i as nat) && i < entries@.len(),
                None => self.selected_in(entries@) is None,
            },
    {
        if entries.len() == 0 {
            return None;
        }
        if let Some(p) = self.pane {
            if let Some(i) = find_entry(entries, p) {
                proof {
                    lemma_position_of(entries@, p, i as int);
                }
                return Some(i);
            }
        }
        Some(if self.index < entries.len() { self.index } else { entries.len() - 1 })
    }

    /// Move the selection down one row, wrapping.
    pub fn select_next(&mut self, entries: &[SidebarEntry])
        ensures
            match old(self).selected_in(entries@) {
                Some(cur) => {
                    let next = if cur + 1 == entries@.len() { 0 } else { cur + 1 };
                    &&& final(self).anchor_spec() == Some(entries@[next as int].pane)
                    &&& final(self).row_spec() == next
                },
                None => *final(self) == *old(self),
            },
    {
        if let Some(current) = self.selected(entries) {
            let next = if current == entries.len() - 1 {
                0
            } else {
                current + 1
            };
            self.anchor(next, entries);
        }
    }

    /// Move the selection up one row, wrapping.
    pub fn select_prev(&mut self, entries: &[SidebarEntry])
        ensures
            match old(self).selected_in(entries@) {
                Some(cur) => {
                    let prev = if cur == 0 { (entries@.len() - 1) as nat } else { (cur - 1) as nat };
                    &&& final(self).anchor_spec() == Some(entries@[prev as int].pane)
                    &&& final(self).row_spec() == prev
                },
                None => *final(self) == *old(self),
            },
    {
        if let Some(current) = self.selected(entries) {
            let prev = if current == 0 {
                entries.len() - 1
            } else {
                current - 1
            };
            self.anchor(prev, entries);
        }
    }

    /// The intent behind pressing enter: jump to the selected entry's pane.
    pub fn activate(&self, entries: &[SidebarEntry]) -> (m: Option<Message>)
        ensures
            match self.selected_in(entries@) {
                Some(i) => m == Some(Message::JumpToPane(entries@[i as int].pane)),
                None => m is None,
            },
    {
        match self.selected(entries) {
            Some(i) => Some(Message::JumpToPane(entries[i].pane)),
            None => None,
        }
    }

    fn anchor(&mut self, index: usize, entries: &[SidebarEntry])
        ensures
            index < entries@.len() ==> final(self).anchor_spec() == Some(entries@[index as int].pane)
                && final(self).row_spec() == index,
            index >= entries@.len() ==> *final(self) == *old(self),
    {
        if index < entries.len() {
            self.pane = Some(entries[index].pane);
            self.index = index;
        }
    }
}

/// One row of the sidebar's card region, in order from the top.
#[derive(Clone, Copy, Debug, PartialEq, Eq, Structural)]
pub enum SidebarRow {
    /// The first line of an entry's card: glyph, name, age.
    EntryName(usize),
    /// The second line of an entry's card: the reason, and the `auto` chip
    /// when revealed.
    EntryDetail(usize),
    /// The third line of an entry's card: telemetry badges, only on the
    /// focused card or a card whose context alert escalated.
    EntryTelemetry(usize),
    /// Breathing room.
    Blank,
}

/// Whether a card grows its telemetry row: it has a feed, and it is the
/// focused card or its context alert escalated.
pub open spec fn telemetry_row_shown(e: SidebarEntry, focused: bool) -> bool {
    match e.telemetry {
        Some(t) => focused || t.context_alert is Some,
        None => false,
    }
}

/// The rows of one card.
pub open spec fn card_rows(entries: Seq<SidebarEntry>, i: int, focused: Option<usize>) -> Seq<SidebarRow> {
    seq![SidebarRow::EntryName(i as usize), SidebarRow::EntryDetail(i as usize)] + if telemetry_row_shown(
        entries[i],
        focused == Some(i as usize),
    ) {
        seq![SidebarRow::EntryTelemetry(i as usize), SidebarRow::Blank]
    } else {
        seq![SidebarRow::Blank]
    }
}

/// The card-region rows for the first `n` entries.
pub open spec fn rows_spec(entries: Seq<SidebarEntry>, n: int, focused: Option<usize>) -> Seq<SidebarRow>
    decreases n,
{
    if n <= 0 {
        Seq::empty()
    } else {
        rows_spec(entries, n - 1, focused) + card_rows(entries, n - 1, focused)
    }
}

/// The sidebar's card-region rows for `entries`, card after card: name,
/// detail, the telemetry row where it earns its height, and a blank.
pub fn sidebar_rows(entries: &[SidebarEntry], focused: Option<usize>) -> (rows: Vec<SidebarRow>)
    ensures
        rows@ == rows_spec(entries@, entries@.len() as int, focused),
{
    let mut rows: Vec<SidebarRow> = Vec::new();
    let mut i: usize = 0;
    while i < entries.len()
        invariant
            i <= entries@.len(),
            rows@ == rows_spec(entries@, i as int, focused),
        decreases entries@.len() - i,
    {
        rows.push(SidebarRow::EntryName(i));
        rows.push(SidebarRow::EntryDetail(i));
        let shown = match &entries[i].telemetry {
            Some(t) => match focused {
                Some(f) => f == i || t.context_alert.is_some(),
                None => t.context_alert.is_some(),
            },
            None => false,
        };
        if shown {
            rows.push(SidebarRow::EntryTelemetry(i));
        }
        rows.push(SidebarRow::Blank);
        i += 1;
        assert(rows@ =~= rows_spec(entries@, i as int, focused));
    }
    rows
}

/// The width of the card's `auto` chip (` auto `).
pub const AUTO_CHIP_WIDTH: u16 = 6;

/// The minimum reason budget the chip must leave on its row.
pub const MIN_REASON: u16 = 8;

/// The card body's left indent, in sidebar-inner columns.
pub const CARD_INDENT: u16 = 4;

/// The columns of a detail row's `auto` chip, in sidebar-inner columns:
/// right-aligned one column in from the edge, when the row can host it and
/// still leave the indent, the reason's reserve and a gutter.
pub open spec fn auto_chip_spec(width: u16) -> Option<(u16, u16)> {
    if width > CARD_INDENT + MIN_REASON + 1 + AUTO_CHIP_WIDTH {
        Some(((width - 1 - AUTO_CHIP_WIDTH) as u16, (width - 1) as u16))
    } else {
        None
    }
}

/// The columns of an entry detail row's `auto` chip. `None` when the row
/// can't host it and a useful reason.
pub fn auto_chip_cols(width: u16) -> (r: Option<core::ops::Range<u16>>)
    ensures
        match auto_chip_spec(width) {
            Some((s, e)) => r is Some && r->Some_0.start == s && r->Some_0.end == e,
            None => r is None,
        },
{
    let gutter: u16 = 1;
    let taken = CARD_INDENT + MIN_REASON + gutter;
    if width > taken + AUTO_CHIP_WIDTH {
        Some(core::ops::Range { start: width - 1 - AUTO_CHIP_WIDTH, end: width - 1 })
    } else {
        None
    }
}

/// The width of the header's fleet toggle (` auto-yes `).
pub const AUTO_ALL_WIDTH: u16 = 10;

/// The columns of the header's `auto-yes` toggle: right-aligned one column
/// in from the edge, clear of the ` agents` label, a gap, the widest
/// blocked count (`9 blocked`) and a gutter.
pub open spec fn auto_all_spec(width: u16) -> Option<(u16, u16)> {
    if width > 7 + 2 + 9 + 1 + AUTO_ALL_WIDTH {
        Some(((width - 1 - AUTO_ALL_WIDTH) as u16, (width - 1) as u16))
    } else {
        None
    }
}

/// The columns of the sidebar header's `auto-yes` fleet toggle. `None` on
/// sidebars too narrow to keep it clear of the blocked count.
pub fn auto_all_cols(width: u16) -> (r: Option<core::ops::Range<u16>>)
    ensures
        match auto_all_spec(width) {
            Some((s, e)) => r is Some && r->Some_0.start == s && r->Some_0.end == e,
            None => r is None,
        },
{
    let label: u16 = 1 + 6;
    let gap: u16 = 2;
    let widest_count: u16 = 9;
    let gutter: u16 = 1;
    let taken = label + gap + widest_count + gutter;
    if width > taken + AUTO_ALL_WIDTH {
        Some(core::ops::Range { start: width - 1 - AUTO_ALL_WIDTH, end: width - 1 })
    } else {
        None
    }
}

/// Which of the account's rate-limit windows a reading reports.
#[derive(Clone, Copy, Debug, PartialEq, Eq, Structural)]
pub struct ReportedLimits {
    /// The five-hour window is reported.
    pub five_hour: bool,
    /// The seven-day window is reported.
    pub seven_day: bool,
}

/// The rows of the rate-limit footer at the bottom of a card region
/// `height` rows tall: one per reported window plus a blank above, or
/// none — also when the region could not keep the header and one card
/// above it.
pub open spec fn footer_spec(limits: Option<ReportedLimits>, height: u16) -> u16 {
    let lines: int = match limits {
        Some(l) => (if l.five_hour { 1int } else { 0int }) + (if l.seven_day { 1int } else { 0int }),
        None => 0,
    };
    if lines == 0 || height < lines + 1 + 5 {
        0
    } else {
        (lines + 1) as u16
    }
}

/// The rows the sidebar's fleet rate-limit footer occupies.
pub fn limits_footer_height(limits: Option<ReportedLimits>, height: u16) -> (h: u16)
    ensures
        h == footer_spec(limits, height),
{
    let lines: u16 = match limits {
        Some(l) => (if l.five_hour { 1u16 } else { 0u16 }) + (if l.seven_day { 1u16 } else { 0u16 }),
        None => 0,
    };
    if lines == 0 {
        return 0;
    }
    let total = lines + 1;
    if height < total + 5 {
        return 0;
    }
    total
}

/// A compact age: seconds under a minute, then whole minutes, hours, days.
pub open spec fn age_text(age_ns: u128) -> Seq<char> {
    let secs = age_ns / 1_000_000_000;
    if secs < 60 {
        decimal(secs as nat).push('s')
    } else if secs < 3600 {
        decimal((secs / 60) as nat).push('m')
    } else if secs < 86400 {
        decimal((secs / 3600) as nat).push('h')
    } else {
        decimal((secs / 86400) as nat).push('d')
    }
}

/// Compact age for the sidebar, from an age in nanoseconds: seconds under
/// a minute, then minutes, hours, days.
pub fn format_age(age_ns: u128) -> (s: String)
    ensures
        s@ == age_text(age_ns),
{
    let secs = age_ns / 1_000_000_000;
    let (n, unit) = if secs < 60 {
        (secs, 's')
    } else if secs < 3600 {
        (secs / 60, 'm')
    } else if secs < 86400 {
        (secs / 3600, 'h')
    } else {
        (secs / 86400, 'd')
    };
    let mut v = decimal_chars_wide(n);
    v.push(unit);
    string_from_chars(v.as_slice())
}


/// The agent a pane's command identifies as, by position, if any.
pub open spec fn agent_of<T>(agents: Seq<AgentConfig>, p: Pane<T>) -> Option<nat> {
    match p.command {
        Some(c) => identified(agents, c@),
        None => None,
    }
}

/// Whether a pane's command identifies as one of `agents`.
pub open spec fn has_agent<T>(agents: Seq<AgentConfig>) -> spec_fn(Pane<T>) -> bool {
    |p: Pane<T>| agent_of(agents, p) is Some
}

/// The panes that get a card: those whose command identifies as an agent,
/// in id order.
pub open spec fn carded<T>(agents: Seq<AgentConfig>, panes: Seq<Pane<T>>) -> Seq<Pane<T>> {
    panes.filter(has_agent(agents))
}

/// How long a pane has sat in its state at `now`: a stamp after `now`
/// counts as no time.
pub open spec fn age_at(last_change: Option<u128>, now: u128) -> Option<u128> {
    match last_change {
        Some(at) => Some(if now >= at { (now - at) as u128 } else { 0 }),
        None => None,
    }
}

/// A pane's place in the triage order.
pub open spec fn triage_item<T>(p: Pane<T>, now: u128) -> AttentionItem {
    AttentionItem { state: p.state, waiting_for: age_at(p.last_change, now), destructive: false }
}

/// The triage items of a run of panes.
pub open spec fn triage_items<T>(ps: Seq<Pane<T>>, now: u128) -> Seq<AttentionItem> {
    ps.map_values(|p: Pane<T>| triage_item(p, now))
}

/// Whether `e` is the card of pane `p` in session `v` at `now`: its id,
/// window, agent name, state, reason, age and title, not auto-approved,
/// and no telemetry yet.
pub open spec fn is_card_of<T>(e: SidebarEntry, p: Pane<T>, agents: Seq<AgentConfig>, v: SessionView<T>, now: u128) -> bool {
    &&& agent_of(agents, p) is Some
    &&& e.pane == p.id
    &&& e.window < v.windows.len()
    &&& leaves_of(v.windows[e.window as int].root).contains(p.id)
    &&& e.agent@ == agents[agent_of(agents, p)->Some_0 as int].name@
    &&& e.state == p.state
    &&& opt_text(e.reason) == opt_text(p.reason)
    &&& e.age == age_at(p.last_change, now)
    &&& !e.auto_approve
    &&& e.telemetry is None
    &&& opt_text(e.title) == opt_text(p.title)
    &&& e.session_name is None
}

/// A copy of an optional string.
fn copy_text(s: &Option<String>) -> (r: Option<String>)
    ensures
        opt_text(r) == opt_text(*s),
{
    match s {
        Some(t) => Some(t.clone()),
        None => None,
    }
}

/// Build the sidebar cards from the session: every pane whose command
/// identifies as a configured agent, ranked globally by attention —
/// blocked first (longest wait leading), then done, idle, and working —
/// with ties in pane id order. The cards carry no telemetry: the caller
/// attaches what each pane's feed reports.
pub fn sidebar_entries<T>(session: &Session<T>, detector: &Detector, now: u128) -> (entries: Vec<SidebarEntry>)
    requires
        session.wf(),
    ensures
        ({
            let cs = carded(detector@, session@.panes);
            &&& entries@.len() == cs.len()
            &&& exists|order: Seq<usize>|
                #[trigger] is_attention_order(triage_items(cs, now), order) && forall|i: int|
                    0 <= i < entries@.len() ==> is_card_of(
                        #[trigger] entries@[i],
                        cs[order[i] as int],
                        detector@,
                        session@,
                        now,
                    )
        }),
{
    let ghost v = session@;
    let ghost agents = detector@;
    let ghost pred = has_agent::<T>(agents);
    let panes = session.panes();
    let mut cands: Vec<&Pane<T>> = Vec::new();
    let mut kinds: Vec<crate::detector::AgentKind> = Vec::new();
    let mut items: Vec<AttentionItem> = Vec::new();
    let mut i: usize = 0;
    while i < panes.len()
        invariant
            i <= panes@.len(),
            v == session@,
            agents == detector@,
            pred == has_agent::<T>(agents),
            panes@.len() == v.panes.len(),
            forall|j: int| 0 <= j < panes@.len() ==> *#[trigger] panes@[j] == v.panes[j],
            cands@.len() == kinds@.len(),
            cands@.len() == items@.len(),
            cands@.map_values(|p: &Pane<T>| *p) == v.panes.take(i as int).filter(pred),
            forall|j: int| 0 <= j < cands@.len() ==> {
                &&& agent_of(agents, *cands@[j]) == Some(#[trigger] kinds@[j].index())
                &&& kinds@[j].index() < agents.len()
                &&& items@[j] == triage_item(*cands@[j], now)
            },
        decreases panes@.len() - i,
    {
        let pane = panes[i];
        let ghost before = v.panes.take(i as int);
        assert(v.panes.take(i + 1) =~= before.push(*pane));
        proof {
            before.lemma_filter_push(*pane, pred);
        }
        let kind = match &pane.command {
            Some(cmd) => detector.identify(cmd.as_str()),
            None => None,
        };
        match kind {
            Some(k) => {
                let wait = match pane.last_change {
                    Some(at) => Some(if now >= at { now - at } else { 0 }),
                    None => None,
                };
                cands.push(pane);
                kinds.push(k);
                items.push(AttentionItem { state: pane.state, waiting_for: wait, destructive: false });
                assert(cands@.map_values(|p: &Pane<T>| *p) =~= v.panes.take(i + 1).filter(pred));
            },
            None => {
                assert(cands@.map_values(|p: &Pane<T>| *p) =~= v.panes.take(i + 1).filter(pred));
            },
        }
        i += 1;
    }
    assert(v.panes.take(panes@.len() as int) =~= v.panes);
    let ghost cs = carded(agents, v.panes);
    assert(cands@.map_values(|p: &Pane<T>| *p) == cs);
    assert(items@ =~= triage_items(cs, now)) by {
        assert forall|j: int| 0 <= j < items@.len() implies items@[j] == triage_items(cs, now)[j] by {
            assert(cands@.map_values(|p: &Pane<T>| *p)[j] == *cands@[j]);
            assert(agent_of(agents, *cands@[j]) == Some(kinds@[j].index()));
            assert(cs[j] == *cands@[j]);
            assert(triage_items(cs, now)[j] == triage_item(cs[j], now));
        }
    }
    let order = rank(items.as_slice());
    let mut entries: Vec<SidebarEntry> = Vec::new();
    let mut j: usize = 0;
    while j < order.len()
        invariant
            j <= order@.len(),
            v == session@,
            agents == detector@,
            session.wf(),
            order@.len() == cands@.len(),
            cands@.len() == kinds@.len(),
            forall|q: int| 0 <= q < order@.len() ==> #[trigger] order@[q] < cands@.len(),
            cands@.map_values(|p: &Pane<T>| *p) == cs,
            cs == carded(agents, v.panes),
            forall|q: int| 0 <= q < cands@.len() ==> {
                &&& agent_of(agents, *cands@[q]) == Some(#[trigger] kinds@[q].index())
                &&& kinds@[q].index() < agents.len()
            },
            entries@.len() == j,
            forall|q: int| 0 <= q < j ==> is_card_of(#[trigger] entries@[q], cs[order@[q] as int], agents, v, now),
        decreases order@.len() - j,
    {
        let at = order[j];
        let pane = cands[at];
        let kind = kinds[at];
        assert(cs[at as int] == *pane);
        proof {
            assert(cs.contains(*pane));
            v.panes.lemma_filter_contains_rev(has_agent::<T>(agents), *pane);
            let k = choose|k: int| 0 <= k < v.panes.len() && v.panes[k] == *pane;
            crate::session::lemma_pane_in_window(v, k);
        }
        let window = match session.window_of(pane.id) {
            Some(w) => w,
            None => 0,
        };
        let wait = match pane.last_change {
            Some(t) => Some(if now >= t { now - t } else { 0 }),
            None => None,
        };
        let entry = SidebarEntry {
            pane: pane.id,
            window,
            agent: detector.agent(kind).name.clone(),
            state: pane.state,
            reason: copy_text(&pane.reason),
            age: wait,
            auto_approve: false,
            telemetry: None,
            title: copy_text(&pane.title),
            session_name: None,
        };
        entries.push(entry);
        j += 1;
    }
    assert(is_attention_order(triage_items(cs, now), order@));
    entries
}

/// How many of the first `n` cards are blocked.
pub open spec fn blocked_upto(entries: Seq<SidebarEntry>, n: int) -> nat
    decreases n,
{
    if n <= 0 {
        0
    } else {
        blocked_upto(entries, n - 1) + if entries[n - 1].state == AgentState::Blocked { 1nat } else { 0nat }
    }
}

/// How many cards are currently blocked: the count the sidebar header
/// shows.
pub fn blocked_count(entries: &[SidebarEntry]) -> (n: usize)
    ensures
        n == blocked_upto(entries@, entries@.len() as int),
{
    let mut n: usize = 0;
    let mut k: usize = 0;
    while k < entries.len()
        invariant
            k <= entries@.len(),
            n == blocked_upto(entries@, k as int),
            n <= k,
        decreases entries@.len() - k,
    {
        if entries[k].state == AgentState::Blocked {
            n += 1;
        }
        k += 1;
    }
    n
}

} // verus!
