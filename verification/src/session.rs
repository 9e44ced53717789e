//! Session state: windows, panes, focus, and per-pane agent metadata.
//!
//! Pure data — the caller drives it with events (split, close, focus,
//! detection readings) and reads back layout and pane state; nothing here
//! touches a terminal, a process, or a clock beyond the timestamps callers
//! pass in.

use vstd::prelude::*;
use vstd::multiset::Multiset;
use crate::text::{
    chars_of, decimal, is_whitespace, is_ws, joined, lemma_joined_concat, lemma_joined_lines, lemma_joined_one, plain_line,
    push_decimal, split_lines, string_from_chars, text_lines,
};
use crate::snapshot::{
    lemma_active_line_view, lemma_command_line_view, lemma_name_line_view, lemma_node_at,
    lemma_node_text_plain, lemma_node_tokens, lemma_window_line_view, line_view, node_at, node_text,
    node_tokens, one_line, parse_node, push_one_line, ratios_ok, read_line, spaced, tokenize,
    tokens_of, write_node, Line, LineView,
};
use crate::layout::{
    divider_spec, drag_spec, layout, layout_of, leaves_of, lemma_remove_leaves, lemma_replace_leaves,
    lemma_split_leaves, lemma_drag_keeps_leaves, lemma_leaves_nonempty, remove_spec, replace_leaf, replace_spec, split_spec, first_at, LayoutNode,
    lemma_sibling_survives, sibling_spec, cover_count,
    Rect, RemoveOutcome, SplitDirection,
};

verus! {

/// Stable identifier for a pane, unique within a [`Session`].
#[derive(Clone, Copy, Debug, PartialEq, Eq, Structural, Hash, PartialOrd, Ord)]
pub struct PaneId(u64);

impl PaneId {
    /// The raw id value, as a spec value.
    pub closed spec fn id(self) -> u64 {
        self.0
    }

    /// A pane id from its raw value — for adopting panes whose identity is
    /// decided elsewhere (a session server) and for tests.
    pub fn from_raw(raw: u64) -> (p: Self)
        ensures
            p.id() == raw,
    {
        PaneId(raw)
    }

    /// The raw id value.
    pub fn raw(self) -> (r: u64)
        ensures
            r == self.id(),
    {
        self.0
    }

    /// Whether two ids are the same.
    pub fn same_as(self, other: PaneId) -> (b: bool)
        ensures
            b == (self == other),
    {
        self.0 == other.0
    }

    /// The id with raw value `raw`.
    pub closed spec fn raw_id(raw: u64) -> PaneId {
        PaneId(raw)
    }

    /// An id is the one its raw value names.
    pub proof fn lemma_raw_id(p: PaneId, raw: u64)
        ensures
            PaneId::raw_id(raw).id() == raw,
            p.id() == raw <==> p == PaneId::raw_id(raw),
    {
    }

    /// Ids are their raw values.
    pub proof fn lemma_id_injective(a: PaneId, b: PaneId)
        ensures
            a.id() == b.id() <==> a == b,
    {
    }
}

/// What an agent pane is doing, from the human's point of view.
#[derive(Clone, Copy, Debug, PartialEq, Eq, Structural)]
pub enum AgentState {
    /// Needs the human now: a prompt, approval, or question awaits input.
    Blocked,
    /// Making progress; output is actively changing.
    Working,
    /// Just finished — worth a look.
    Done,
    /// At rest with nothing pending.
    Idle,
}

impl Default for AgentState {
    fn default() -> (s: Self)
        ensures
            s == AgentState::Idle,
    {
        AgentState::Idle
    }
}


/// One terminal pane and its agent metadata. `T` is the pane's live
/// telemetry reading, which this model only stores and hands back.
#[derive(Clone, Debug)]
pub struct Pane<T> {
    /// The pane's stable id.
    pub id: PaneId,
    /// The command running in the pane, when known (used to identify agents).
    pub command: Option<String>,
    /// Committed agent state, as last decided by detection.
    pub state: AgentState,
    /// Human-readable explanation of the state (the question it's blocked
    /// on, a hint at what it's doing, …).
    pub reason: Option<String>,
    /// When `state` last changed value, in the caller's nanoseconds.
    pub last_change: Option<u128>,
    /// The pane's live statusline telemetry, when a feed supplies one;
    /// `None` without a feed and again once a feed goes stale.
    pub telemetry: Option<T>,
    /// The terminal title the pane's program last set. Display-only.
    pub title: Option<String>,
}

/// A pane as it starts: no command, idle, no metadata.
pub open spec fn fresh_pane<T>(id: PaneId) -> Pane<T> {
    Pane {
        id,
        command: None,
        state: AgentState::Idle,
        reason: None,
        last_change: None,
        telemetry: None,
        title: None,
    }
}

impl<T> Pane<T> {
    fn new(id: PaneId) -> (p: Self)
        ensures
            p == fresh_pane::<T>(id),
    {
        Pane {
            id,
            command: None,
            state: AgentState::Idle,
            reason: None,
            last_change: None,
            telemetry: None,
            title: None,
        }
    }
}

struct Window {
    root: LayoutNode,
    focused: PaneId,
    /// A user-set name; `None` means the caller picks a label.
    name: Option<String>,
}

/// A window as plain values.
pub struct WindowView {
    pub root: LayoutNode,
    pub focused: PaneId,
    pub name: Option<Seq<char>>,
}

/// A name as plain values.
pub open spec fn name_view(n: Option<String>) -> Option<Seq<char>> {
    match n {
        Some(s) => Some(s@),
        None => None,
    }
}

impl Window {
    spec fn view(&self) -> WindowView {
        WindowView { root: self.root, focused: self.focused, name: name_view(self.name) }
    }
}

/// A session as plain values.
pub struct SessionView<T> {
    /// The windows, in order.
    pub windows: Seq<WindowView>,
    /// The active window's index.
    pub active: nat,
    /// Every pane, in ascending id order.
    pub panes: Seq<Pane<T>>,
    /// The raw id the next allocated pane gets.
    pub next_id: nat,
}

/// The ids of `panes`, in order.
pub open spec fn ids_of<T>(panes: Seq<Pane<T>>) -> Seq<PaneId> {
    panes.map_values(|p: Pane<T>| p.id)
}

/// All the leaves of all the windows, counted.
pub open spec fn leaves_ms(ws: Seq<WindowView>) -> Multiset<PaneId>
    decreases ws.len(),
{
    if ws.len() == 0 {
        Multiset::empty()
    } else {
        leaves_ms(ws.drop_last()).add(leaves_of(ws.last().root).to_multiset())
    }
}

/// The session's invariant: panes are listed once each in id order, below
/// the next id to allocate; every pane sits in exactly one leaf of one
/// window and every leaf is a pane; the active index is in range; and each
/// window's focus is one of its own panes.
pub open spec fn wf_view<T>(v: SessionView<T>) -> bool {
    &&& forall|i: int, j: int| 0 <= i < j < v.panes.len() ==> v.panes[i].id.id() < v.panes[j].id.id()
    &&& forall|i: int| 0 <= i < v.panes.len() ==> v.panes[i].id.id() < v.next_id
    &&& leaves_ms(v.windows) == ids_of(v.panes).to_multiset()
    &&& v.windows.len() == 0 ==> v.active == 0
    &&& v.windows.len() > 0 ==> v.active < v.windows.len()
    &&& forall|w: int|
        0 <= w < v.windows.len() ==> leaves_of(v.windows[w].root).contains(
            #[trigger] v.windows[w].focused,
        )
}

/// The whole multiplexer model: windows of split panes plus focus.
pub struct Session<T> {
    windows: Vec<Window>,
    active: usize,
    panes: Vec<Pane<T>>,
    next_id: u64,
}

impl<T> View for Session<T> {
    type V = SessionView<T>;

    closed spec fn view(&self) -> SessionView<T> {
        SessionView {
            windows: self.windows@.map_values(|w: Window| w.view()),
            active: self.active as nat,
            panes: self.panes@,
            next_id: self.next_id as nat,
        }
    }
}

proof fn lemma_leaves_ms_concat(a: Seq<WindowView>, b: Seq<WindowView>)
    ensures
        leaves_ms(a + b) == leaves_ms(a).add(leaves_ms(b)),
    decreases b.len(),
{
    broadcast use vstd::multiset::group_multiset_axioms;

    if b.len() == 0 {
        assert(a + b =~= a);
        assert(leaves_ms(a).add(Multiset::empty()) =~= leaves_ms(a));
    } else {
        lemma_leaves_ms_concat(a, b.drop_last());
        assert((a + b).drop_last() =~= a + b.drop_last());
        assert(leaves_ms(a + b) =~= leaves_ms(a).add(leaves_ms(b)));
    }
}

proof fn lemma_leaves_ms_one(w: WindowView)
    ensures
        leaves_ms(seq![w]) == leaves_of(w.root).to_multiset(),
{
    broadcast use vstd::multiset::group_multiset_axioms;

    assert(seq![w].drop_last() =~= Seq::<WindowView>::empty());
    assert(leaves_ms(Seq::<WindowView>::empty()) == Multiset::<PaneId>::empty());
    assert(seq![w].last() == w);
    assert(Multiset::<PaneId>::empty().add(leaves_of(w.root).to_multiset()) =~= leaves_of(
        w.root,
    ).to_multiset());
}

/// The windows' leaves are those before window `i`, window `i`'s, and
/// those after.
proof fn lemma_leaves_ms_at(ws: Seq<WindowView>, i: int)
    requires
        0 <= i < ws.len(),
    ensures
        leaves_ms(ws) == leaves_ms(ws.take(i)).add(leaves_of(ws[i].root).to_multiset()).add(
            leaves_ms(ws.skip(i + 1)),
        ),
{
    assert(ws =~= ws.take(i) + seq![ws[i]] + ws.skip(i + 1));
    lemma_leaves_ms_concat(ws.take(i) + seq![ws[i]], ws.skip(i + 1));
    lemma_leaves_ms_concat(ws.take(i), seq![ws[i]]);
    lemma_leaves_ms_one(ws[i]);
}

/// A window is counted among the leaves of all windows.
proof fn lemma_leaves_ms_contains(ws: Seq<WindowView>, i: int, id: PaneId)
    requires
        0 <= i < ws.len(),
        leaves_of(ws[i].root).contains(id),
    ensures
        leaves_ms(ws).count(id) >= leaves_of(ws[i].root).to_multiset().count(id),
        leaves_ms(ws).count(id) > 0,
{
    broadcast use vstd::multiset::group_multiset_axioms;
    broadcast use vstd::seq_lib::group_to_multiset_ensures;

    lemma_leaves_ms_at(ws, i);
}

/// Counted leaves are in some window.
proof fn lemma_leaves_ms_witness(ws: Seq<WindowView>, id: PaneId)
    requires
        leaves_ms(ws).count(id) > 0,
    ensures
        exists|w: int| 0 <= w < ws.len() && leaves_of(#[trigger] ws[w].root).contains(id),
    decreases ws.len(),
{
    broadcast use vstd::multiset::group_multiset_axioms;
    broadcast use vstd::seq_lib::group_to_multiset_ensures;

    if ws.len() > 0 {
        if leaves_ms(ws.drop_last()).count(id) > 0 {
            lemma_leaves_ms_witness(ws.drop_last(), id);
            let w = choose|w: int| 0 <= w < ws.drop_last().len() && leaves_of(
                #[trigger] ws.drop_last()[w].root,
            ).contains(id);
            assert(ws[w] == ws.drop_last()[w]);
        } else {
            assert(leaves_of(ws.last().root).to_multiset().count(id) > 0);
            assert(leaves_of(ws[ws.len() - 1].root).contains(id));
        }
    }
}

fn contains_id(v: &Vec<PaneId>, id: PaneId) -> (b: bool)
    ensures
        b == v@.contains(id),
{
    let mut i: usize = 0;
    while i < v.len()
        invariant
            i <= v@.len(),
            forall|j: int| 0 <= j < i ==> v@[j] != id,
        decreases v@.len() - i,
    {
        if v[i].same_as(id) {
            return true;
        }
        i += 1;
    }
    false
}

impl<T> Session<T> {
    /// The session's invariant holds.
    pub open spec fn wf(&self) -> bool {
        wf_view(self@)
    }

    proof fn lemma_window_view(&self, i: int)
        requires
            0 <= i < self.windows@.len(),
        ensures
            self@.windows[i] == self.windows@[i].view(),
            self@.windows.len() == self.windows@.len(),
    {
    }

    /// A session with one window holding one pane, which has focus.
    pub fn new() -> (s: Self)
        ensures
            s.wf(),
            s@.windows.len() == 1,
            s@.windows[0].root == LayoutNode::Leaf(s@.panes[0].id),
            s@.windows[0].focused == s@.panes[0].id,
            s@.windows[0].name is None,
            s@.active == 0,
            s@.panes == seq![fresh_pane::<T>(s@.panes[0].id)],
            s@.panes[0].id.id() == 1,
            s@.next_id == 2,
    {
        let mut session = Session::empty();
        session.new_window();
        session
    }

    /// A session with no windows at all — the starting point when panes
    /// are adopted from elsewhere (a session server) instead of allocated.
    pub fn empty() -> (s: Self)
        ensures
            s.wf(),
            s@.windows.len() == 0,
            s@.panes.len() == 0,
            s@.active == 0,
            s@.next_id == 1,
    {
        let s = Session { windows: Vec::new(), active: 0, panes: Vec::new(), next_id: 1 };
        proof {
            broadcast use vstd::seq_lib::group_to_multiset_ensures;

            assert(s@.windows =~= Seq::<WindowView>::empty());
            assert(ids_of(s@.panes) =~= Seq::<PaneId>::empty());
            assert(ids_of(s@.panes).to_multiset() =~= Multiset::<PaneId>::empty());
        }
        s
    }

    /// Allocate a pane with the next id, listed last.
    fn alloc_pane(&mut self) -> (id: PaneId)
        requires
            old(self).wf(),
            old(self)@.next_id < u64::MAX,
        ensures
            id.id() == old(self)@.next_id,
            final(self)@.panes == old(self)@.panes.push(fresh_pane::<T>(id)),
            final(self)@.next_id == old(self)@.next_id + 1,
            final(self)@.windows == old(self)@.windows,
            final(self)@.active == old(self)@.active,
            ids_of(final(self)@.panes).to_multiset() == ids_of(old(self)@.panes).to_multiset().insert(
                id,
            ),
            !ids_of(old(self)@.panes).contains(id),
    {
        let id = PaneId::from_raw(self.next_id);
        self.next_id = self.next_id + 1;
        self.panes.push(Pane::new(id));
        proof {
            broadcast use vstd::seq_lib::group_to_multiset_ensures;

            assert(ids_of(self@.panes) =~= ids_of(old(self)@.panes).push(id));
            if ids_of(old(self)@.panes).contains(id) {
                let k = choose|k: int| 0 <= k < ids_of(old(self)@.panes).len() && ids_of(
                    old(self)@.panes,
                )[k] == id;
                assert(old(self)@.panes[k].id.id() < old(self)@.next_id);
            }
        }
        id
    }

    /// True when every pane has been closed and nothing is left to show.
    pub fn is_empty(&self) -> (b: bool)
        ensures
            b == (self@.windows.len() == 0),
    {
        self.windows.len() == 0
    }

    /// Number of windows.
    pub fn window_count(&self) -> (n: usize)
        ensures
            n == self@.windows.len(),
    {
        self.windows.len()
    }

    /// Index of the active window, or `None` when the session is empty.
    pub fn active_window(&self) -> (a: Option<usize>)
        ensures
            a == (if self@.windows.len() == 0 {
                None
            } else {
                Some(self@.active as usize)
            }),
    {
        if self.windows.len() == 0 {
            None
        } else {
            Some(self.active)
        }
    }

    /// Create a new window with a fresh pane, make it active, and focus the
    /// pane.
    pub fn new_window(&mut self) -> (id: PaneId)
        requires
            old(self).wf(),
            old(self)@.next_id < u64::MAX,
        ensures
            final(self).wf(),
            id.id() == old(self)@.next_id,
            final(self)@.windows == old(self)@.windows.push(
                WindowView { root: LayoutNode::Leaf(id), focused: id, name: None },
            ),
            final(self)@.active == old(self)@.windows.len(),
            final(self)@.panes == old(self)@.panes.push(fresh_pane::<T>(id)),
            final(self)@.next_id == old(self)@.next_id + 1,
    {
        let id = self.alloc_pane();
        self.windows.push(Window { root: LayoutNode::Leaf(id), focused: id, name: None });
        self.active = self.windows.len() - 1;
        proof {
            broadcast use vstd::seq_lib::group_to_multiset_ensures;

            let w = WindowView { root: LayoutNode::Leaf(id), focused: id, name: None };
            assert(self@.windows =~= old(self)@.windows.push(w));
            assert(self@.windows.drop_last() =~= old(self)@.windows);
            assert(leaves_of(w.root) =~= seq![id]);
            assert(seq![id] =~= Seq::<PaneId>::empty().push(id));
            assert(leaves_of(w.root).to_multiset() =~= Multiset::<PaneId>::empty().insert(id));
            assert(leaves_ms(self@.windows) =~= ids_of(self@.panes).to_multiset());
            assert forall|k: int| 0 <= k < self@.windows.len() implies leaves_of(
                self@.windows[k].root,
            ).contains(#[trigger] self@.windows[k].focused) by {
                if k == self@.windows.len() - 1 {
                    assert(leaves_of(w.root)[0] == id);
                } else {
                    assert(self@.windows[k] == old(self)@.windows[k]);
                }
            }
        }
        id
    }

    /// Activate the next window, wrapping.
    pub fn next_window(&mut self)
        requires
            old(self).wf(),
        ensures
            final(self).wf(),
            final(self)@.windows == old(self)@.windows,
            final(self)@.panes == old(self)@.panes,
            final(self)@.next_id == old(self)@.next_id,
            final(self)@.active == (if old(self)@.windows.len() == 0 {
                0
            } else {
                (old(self)@.active + 1) % old(self)@.windows.len()
            }),
    {
        if self.windows.len() > 0 {
            self.active = (self.active + 1) % self.windows.len();
        }
    }

    /// Activate the previous window, wrapping.
    pub fn prev_window(&mut self)
        requires
            old(self).wf(),
        ensures
            final(self).wf(),
            final(self)@.windows == old(self)@.windows,
            final(self)@.panes == old(self)@.panes,
            final(self)@.next_id == old(self)@.next_id,
            final(self)@.active == (if old(self)@.windows.len() == 0 {
                0
            } else {
                if old(self)@.active == 0 {
                    (old(self)@.windows.len() - 1) as nat
                } else {
                    (old(self)@.active - 1) as nat
                }
            }),
    {
        if self.windows.len() > 0 {
            self.active = if self.active == 0 {
                self.windows.len() - 1
            } else {
                self.active - 1
            };
        }
    }

    /// Activate the window at `index`. Returns false when out of range.
    pub fn activate_window(&mut self, index: usize) -> (ok: bool)
        requires
            old(self).wf(),
        ensures
            final(self).wf(),
            ok == (index < old(self)@.windows.len()),
            final(self)@.windows == old(self)@.windows,
            final(self)@.panes == old(self)@.panes,
            final(self)@.next_id == old(self)@.next_id,
            final(self)@.active == (if ok {
                index as nat
            } else {
                old(self)@.active
            }),
    {
        if index < self.windows.len() {
            self.active = index;
            true
        } else {
            false
        }
    }
}

/// Whether `s` is empty or all whitespace.
pub open spec fn is_blank(s: Seq<char>) -> bool {
    forall|i: int| 0 <= i < s.len() ==> is_ws(#[trigger] s[i])
}

fn blank(s: &String) -> (b: bool)
    ensures
        b == is_blank(s@),
{
    let chars = chars_of(s.as_str());
    let mut i: usize = 0;
    while i < chars.len()
        invariant
            chars@ == s@,
            i <= chars@.len(),
            forall|j: int| 0 <= j < i ==> is_ws(#[trigger] chars@[j]),
        decreases chars@.len() - i,
    {
        if !is_whitespace(chars[i]) {
            return false;
        }
        i += 1;
    }
    true
}

impl<T> Session<T> {
    /// The user-set name of the window at `index`, if any.
    pub fn window_name(&self, index: usize) -> (n: Option<&str>)
        requires
            self.wf(),
        ensures
            n is Some <==> index < self@.windows.len() && self@.windows[index as int].name is Some,
            n is Some ==> self@.windows[index as int].name == Some(n->Some_0@),
    {
        if index < self.windows.len() {
            proof {
                self.lemma_window_view(index as int);
            }
            match &self.windows[index].name {
                Some(name) => Some(name.as_str()),
                None => None,
            }
        } else {
            None
        }
    }

    /// Name (or, with `None`, un-name) the window at `index`. A blank name
    /// un-names too; un-named windows fall back to an automatic label.
    /// Returns false when out of range.
    pub fn set_window_name(&mut self, index: usize, name: Option<String>) -> (ok: bool)
        requires
            old(self).wf(),
        ensures
            final(self).wf(),
            ok == (index < old(self)@.windows.len()),
            !ok ==> final(self)@ == old(self)@,
            ok ==> final(self)@.windows == old(self)@.windows.update(
                index as int,
                WindowView {
                    name: match name {
                        Some(n) => if is_blank(n@) {
                            None
                        } else {
                            Some(n@)
                        },
                        None => None,
                    },
                    ..old(self)@.windows[index as int]
                },
            ),
            final(self)@.panes == old(self)@.panes,
            final(self)@.active == old(self)@.active,
            final(self)@.next_id == old(self)@.next_id,
    {
        if index >= self.windows.len() {
            return false;
        }
        let kept = match name {
            Some(n) => if blank(&n) {
                None
            } else {
                Some(n)
            },
            None => None,
        };
        let mut w = self.windows.remove(index);
        w.name = kept;
        self.windows.insert(index, w);
        proof {
            let expected = old(self)@.windows.update(
                index as int,
                WindowView { name: name_view(kept), ..old(self)@.windows[index as int] },
            );
            assert(self@.windows =~= expected);
            lemma_leaves_ms_at(old(self)@.windows, index as int);
            lemma_leaves_ms_at(self@.windows, index as int);
            assert(self@.windows.take(index as int) =~= old(self)@.windows.take(index as int));
            assert(self@.windows.skip(index + 1) =~= old(self)@.windows.skip(index + 1));
            assert forall|k: int| 0 <= k < self@.windows.len() implies leaves_of(
                self@.windows[k].root,
            ).contains(#[trigger] self@.windows[k].focused) by {
                assert(self@.windows[k].root == old(self)@.windows[k].root);
                assert(self@.windows[k].focused == old(self)@.windows[k].focused);
            }
        }
        true
    }

    /// The focused pane of the window at `index` — not necessarily the
    /// session-wide focused pane.
    pub fn window_focused(&self, index: usize) -> (p: Option<PaneId>)
        requires
            self.wf(),
        ensures
            p == (if index < self@.windows.len() {
                Some(self@.windows[index as int].focused)
            } else {
                None
            }),
    {
        if index < self.windows.len() {
            proof {
                self.lemma_window_view(index as int);
            }
            Some(self.windows[index].focused)
        } else {
            None
        }
    }

    /// The index of the window containing `target`, or `None` if no window
    /// holds it.
    pub fn window_of(&self, target: PaneId) -> (w: Option<usize>)
        requires
            self.wf(),
        ensures
            match w {
                Some(i) => i < self@.windows.len() && leaves_of(self@.windows[i as int].root).contains(
                    target,
                ),
                None => forall|i: int|
                    0 <= i < self@.windows.len() ==> !leaves_of(
                        #[trigger] self@.windows[i].root,
                    ).contains(target),
            },
            w is Some <==> ids_of(self@.panes).contains(target),
    {
        let mut i: usize = 0;
        while i < self.windows.len()
            invariant
                self.wf(),
                i <= self.windows@.len(),
                forall|k: int|
                    0 <= k < i ==> !leaves_of(#[trigger] self@.windows[k].root).contains(target),
            decreases self.windows@.len() - i,
        {
            proof {
                self.lemma_window_view(i as int);
            }
            let leaves = self.windows[i].root.leaves();
            if contains_id(&leaves, target) {
                proof {
                    broadcast use vstd::seq_lib::group_to_multiset_ensures;

                    lemma_leaves_ms_contains(self@.windows, i as int, target);
                }
                return Some(i);
            }
            i += 1;
        }
        proof {
            broadcast use vstd::seq_lib::group_to_multiset_ensures;

            if ids_of(self@.panes).contains(target) {
                lemma_leaves_ms_witness(self@.windows, target);
            }
        }
        None
    }

    /// The position of the pane `id` in the id-ordered pane list.
    fn find_pane(&self, id: PaneId) -> (r: Option<usize>)
        requires
            self.wf(),
        ensures
            match r {
                Some(i) => i < self@.panes.len() && self@.panes[i as int].id == id,
                None => !ids_of(self@.panes).contains(id),
            },
    {
        let mut i: usize = 0;
        while i < self.panes.len()
            invariant
                i <= self.panes@.len(),
                self.panes@ == self@.panes,
                forall|k: int| 0 <= k < i ==> self@.panes[k].id != id,
            decreases self.panes@.len() - i,
        {
            if self.panes[i].id.same_as(id) {
                return Some(i);
            }
            i += 1;
        }
        proof {
            if ids_of(self@.panes).contains(id) {
                let k = choose|k: int| 0 <= k < ids_of(self@.panes).len() && ids_of(self@.panes)[k]
                    == id;
                assert(self@.panes[k].id == id);
            }
        }
        None
    }

    /// A pane by id.
    pub fn pane(&self, id: PaneId) -> (p: Option<&Pane<T>>)
        requires
            self.wf(),
        ensures
            p is Some <==> ids_of(self@.panes).contains(id),
            p is Some ==> p->Some_0.id == id && self@.panes.contains(*p->Some_0),
    {
        match self.find_pane(id) {
            Some(i) => {
                assert(self@.panes[i as int] == self.panes@[i as int]);
                assert(ids_of(self@.panes)[i as int] == id);
                Some(&self.panes[i])
            },
            None => None,
        }
    }

    /// All panes across all windows, in ascending id order.
    pub fn panes(&self) -> (v: Vec<&Pane<T>>)
        requires
            self.wf(),
        ensures
            v@.len() == self@.panes.len(),
            forall|i: int| 0 <= i < v@.len() ==> *#[trigger] v@[i] == self@.panes[i],
    {
        let mut v: Vec<&Pane<T>> = Vec::new();
        let mut i: usize = 0;
        while i < self.panes.len()
            invariant
                i <= self.panes@.len(),
                self.panes@ == self@.panes,
                v@.len() == i,
                forall|k: int| 0 <= k < i ==> *#[trigger] v@[k] == self@.panes[k],
            decreases self.panes@.len() - i,
        {
            v.push(&self.panes[i]);
            i += 1;
        }
        v
    }
}

/// The pane after a detection reading: the reason always replaced, the
/// state and its change time only when the state changes value.
pub open spec fn read_pane<T>(p: Pane<T>, state: AgentState, reason: Option<String>, at: u128) -> Pane<T> {
    if p.state != state {
        Pane { state, last_change: Some(at), reason, ..p }
    } else {
        Pane { reason, ..p }
    }
}

/// Window `w` of `ws` with its focus moved to `id`.
pub open spec fn refocus(ws: Seq<WindowView>, w: int, id: PaneId) -> Seq<WindowView> {
    ws.update(w, WindowView { focused: id, ..ws[w] })
}

/// The pane one step from the focused one in the window's tree order,
/// wrapping.
pub open spec fn stepped_focus(w: WindowView, forward: bool) -> PaneId {
    let leaves = leaves_of(w.root);
    let pos = choose|i: int| 0 <= i < leaves.len() && leaves[i] == w.focused;
    if forward {
        if pos + 1 == leaves.len() {
            leaves[0]
        } else {
            leaves[pos + 1]
        }
    } else {
        if pos == 0 {
            leaves[leaves.len() - 1]
        } else {
            leaves[pos - 1]
        }
    }
}

/// The rect every pane of the active window gets at `cols` × `rows`.
pub open spec fn session_layout<T>(v: SessionView<T>, cols: u16, rows: u16) -> Seq<(PaneId, Rect)> {
    if v.windows.len() == 0 {
        Seq::empty()
    } else {
        layout_of(v.windows[v.active as int].root, Rect { x: 0, y: 0, width: cols, height: rows })
    }
}

/// The active window's panes tile the pane area exactly: every cell of a
/// `cols` × `rows` area lies in exactly one pane's rect, and no rect
/// reaches outside it.
pub proof fn lemma_session_layout_tiles<T>(v: SessionView<T>, cols: u16, rows: u16, px: int, py: int)
    requires
        v.windows.len() > 0,
        v.active < v.windows.len(),
    ensures
        cover_count(session_layout(v, cols, rows), px, py) == if 0 <= px < cols && 0 <= py < rows {
            1nat
        } else {
            0nat
        },
{
    let area = Rect { x: 0, y: 0, width: cols, height: rows };
    crate::layout::lemma_layout_tiles(v.windows[v.active as int].root, area, px, py);
}

impl<T> Session<T> {
    /// Keeping the windows, focus and pane ids keeps the invariant.
    proof fn lemma_panes_relabelled(a: SessionView<T>, b: SessionView<T>)
        requires
            wf_view(a),
            b.windows == a.windows,
            b.active == a.active,
            b.next_id == a.next_id,
            ids_of(b.panes) == ids_of(a.panes),
        ensures
            wf_view(b),
    {
        assert(b.panes.len() == ids_of(b.panes).len());
        assert(a.panes.len() == ids_of(a.panes).len());
        assert forall|i: int, j: int| 0 <= i < j < b.panes.len() implies b.panes[i].id.id()
            < b.panes[j].id.id() by {
            assert(ids_of(b.panes)[i] == b.panes[i].id);
            assert(ids_of(b.panes)[j] == b.panes[j].id);
            assert(ids_of(a.panes)[i] == a.panes[i].id);
            assert(ids_of(a.panes)[j] == a.panes[j].id);
        }
        assert forall|i: int| 0 <= i < b.panes.len() implies b.panes[i].id.id() < b.next_id by {
            assert(ids_of(b.panes)[i] == b.panes[i].id);
            assert(ids_of(a.panes)[i] == a.panes[i].id);
        }
    }

    /// Replace the pane at `i` with `p`, which keeps its id.
    fn put_pane(&mut self, i: usize, p: Pane<T>)
        requires
            old(self).wf(),
            i < old(self)@.panes.len(),
            p.id == old(self)@.panes[i as int].id,
        ensures
            final(self).wf(),
            final(self)@ == (SessionView { panes: old(self)@.panes.update(i as int, p), ..old(self)@ }),
    {
        self.panes.remove(i);
        self.panes.insert(i, p);
        proof {
            assert(self@.panes =~= old(self)@.panes.update(i as int, p));
            assert(ids_of(self@.panes) =~= ids_of(old(self)@.panes));
            Self::lemma_panes_relabelled(old(self)@, self@);
        }
    }

    /// Record a detection reading for a pane. The reason is always updated;
    /// `last_change` moves only when the state actually changes value.
    /// Returns `false` if the pane does not exist.
    pub fn set_reading(&mut self, target: PaneId, state: AgentState, reason: Option<String>, at: u128) -> (ok: bool)
        requires
            old(self).wf(),
        ensures
            final(self).wf(),
            ok == ids_of(old(self)@.panes).contains(target),
            !ok ==> final(self)@ == old(self)@,
            ok ==> exists|i: int|
                0 <= i < old(self)@.panes.len() && old(self)@.panes[i].id == target && final(self)@
                    == (SessionView {
                    panes: old(self)@.panes.update(i, read_pane(old(self)@.panes[i], state, reason, at)),
                    ..old(self)@
                }),
    {
        match self.find_pane(target) {
            None => false,
            Some(i) => {
                assert(ids_of(self@.panes)[i as int] == target);
                let mut p = self.panes.remove(i);
                self.panes.insert(i, Pane { id: target, ..Pane::new(target) });
                proof {
                    assert(self@.panes =~= old(self)@.panes.update(i as int, fresh_pane(target)));
                    assert(ids_of(self@.panes) =~= ids_of(old(self)@.panes));
                    Self::lemma_panes_relabelled(old(self)@, self@);
                }
                if p.state != state {
                    p.state = state;
                    p.last_change = Some(at);
                }
                p.reason = reason;
                self.put_pane(i, p);
                proof {
                    assert(self@.panes =~= old(self)@.panes.update(
                        i as int,
                        read_pane(old(self)@.panes[i as int], state, reason, at),
                    ));
                }
                true
            },
        }
    }

    /// Record a pane's live telemetry — `None` clears it (the feed went
    /// stale or away). Returns `false` if the pane does not exist.
    pub fn set_telemetry(&mut self, target: PaneId, telemetry: Option<T>) -> (ok: bool)
        requires
            old(self).wf(),
        ensures
            final(self).wf(),
            ok == ids_of(old(self)@.panes).contains(target),
            !ok ==> final(self)@ == old(self)@,
            ok ==> exists|i: int|
                0 <= i < old(self)@.panes.len() && old(self)@.panes[i].id == target && final(self)@
                    == (SessionView {
                    panes: old(self)@.panes.update(i, Pane { telemetry, ..old(self)@.panes[i] }),
                    ..old(self)@
                }),
    {
        match self.find_pane(target) {
            None => false,
            Some(i) => {
                assert(ids_of(self@.panes)[i as int] == target);
                let mut p = self.panes.remove(i);
                self.panes.insert(i, Pane::new(target));
                proof {
                    assert(self@.panes =~= old(self)@.panes.update(i as int, fresh_pane(target)));
                    assert(ids_of(self@.panes) =~= ids_of(old(self)@.panes));
                    Self::lemma_panes_relabelled(old(self)@, self@);
                }
                p.telemetry = telemetry;
                self.put_pane(i, p);
                proof {
                    assert(self@.panes =~= old(self)@.panes.update(
                        i as int,
                        Pane { telemetry, ..old(self)@.panes[i as int] },
                    ));
                }
                true
            },
        }
    }

    /// Record a pane's terminal title — `None` clears it. Returns `false`
    /// if the pane does not exist.
    pub fn set_title(&mut self, target: PaneId, title: Option<String>) -> (ok: bool)
        requires
            old(self).wf(),
        ensures
            final(self).wf(),
            ok == ids_of(old(self)@.panes).contains(target),
            !ok ==> final(self)@ == old(self)@,
            ok ==> exists|i: int|
                0 <= i < old(self)@.panes.len() && old(self)@.panes[i].id == target && final(self)@
                    == (SessionView {
                    panes: old(self)@.panes.update(i, Pane { title, ..old(self)@.panes[i] }),
                    ..old(self)@
                }),
    {
        match self.find_pane(target) {
            None => false,
            Some(i) => {
                assert(ids_of(self@.panes)[i as int] == target);
                let mut p = self.panes.remove(i);
                self.panes.insert(i, Pane::new(target));
                proof {
                    assert(self@.panes =~= old(self)@.panes.update(i as int, fresh_pane(target)));
                    assert(ids_of(self@.panes) =~= ids_of(old(self)@.panes));
                    Self::lemma_panes_relabelled(old(self)@, self@);
                }
                p.title = title;
                self.put_pane(i, p);
                proof {
                    assert(self@.panes =~= old(self)@.panes.update(
                        i as int,
                        Pane { title, ..old(self)@.panes[i as int] },
                    ));
                }
                true
            },
        }
    }

    /// Record the command a pane runs — `None` forgets it. Returns `false`
    /// if the pane does not exist.
    pub fn set_command(&mut self, target: PaneId, command: Option<String>) -> (ok: bool)
        requires
            old(self).wf(),
        ensures
            final(self).wf(),
            ok == ids_of(old(self)@.panes).contains(target),
            !ok ==> final(self)@ == old(self)@,
            ok ==> exists|i: int|
                0 <= i < old(self)@.panes.len() && old(self)@.panes[i].id == target && final(self)@
                    == (SessionView {
                    panes: old(self)@.panes.update(i, Pane { command, ..old(self)@.panes[i] }),
                    ..old(self)@
                }),
    {
        match self.find_pane(target) {
            None => false,
            Some(i) => {
                assert(ids_of(self@.panes)[i as int] == target);
                let mut p = self.panes.remove(i);
                self.panes.insert(i, Pane::new(target));
                proof {
                    assert(self@.panes =~= old(self)@.panes.update(i as int, fresh_pane(target)));
                    assert(ids_of(self@.panes) =~= ids_of(old(self)@.panes));
                    Self::lemma_panes_relabelled(old(self)@, self@);
                }
                p.command = command;
                self.put_pane(i, p);
                proof {
                    assert(self@.panes =~= old(self)@.panes.update(
                        i as int,
                        Pane { command, ..old(self)@.panes[i as int] },
                    ));
                }
                true
            },
        }
    }
}

impl<T> Session<T> {
    /// Changing one window's tree without moving any pane, and keeping its
    /// focus on one of its panes, keeps the invariant.
    proof fn lemma_window_reworked(a: SessionView<T>, b: SessionView<T>, i: int, wv: WindowView)
        requires
            wf_view(a),
            0 <= i < a.windows.len(),
            b.windows == a.windows.update(i, wv),
            b.active == a.active,
            b.panes == a.panes,
            b.next_id == a.next_id,
            leaves_of(wv.root) == leaves_of(a.windows[i].root),
            leaves_of(wv.root).contains(wv.focused),
        ensures
            wf_view(b),
    {
        lemma_leaves_ms_at(a.windows, i);
        lemma_leaves_ms_at(b.windows, i);
        assert(b.windows.take(i) =~= a.windows.take(i));
        assert(b.windows.skip(i + 1) =~= a.windows.skip(i + 1));
        assert forall|k: int| 0 <= k < b.windows.len() implies leaves_of(b.windows[k].root).contains(
            #[trigger] b.windows[k].focused,
        ) by {
            if k != i {
                assert(b.windows[k] == a.windows[k]);
            }
        }
    }

    /// Focus a pane, activating its window if needed. Returns `false` if the
    /// pane does not exist.
    pub fn focus(&mut self, target: PaneId) -> (ok: bool)
        requires
            old(self).wf(),
        ensures
            final(self).wf(),
            ok == ids_of(old(self)@.panes).contains(target),
            !ok ==> final(self)@ == old(self)@,
            ok ==> exists|w: int|
                0 <= w < old(self)@.windows.len() && leaves_of(
                    #[trigger] old(self)@.windows[w].root,
                ).contains(target) && final(self)@ == (SessionView {
                    windows: refocus(old(self)@.windows, w, target),
                    active: w as nat,
                    ..old(self)@
                }),
    {
        let idx = match self.window_of(target) {
            None => return false,
            Some(i) => i,
        };
        proof {
            self.lemma_window_view(idx as int);
        }
        let mut w = self.windows.remove(idx);
        w.focused = target;
        let ghost wv = w.view();
        self.windows.insert(idx, w);
        proof {
            assert(self@.windows =~= refocus(old(self)@.windows, idx as int, target));
            Self::lemma_window_reworked(old(self)@, self@, idx as int, wv);
        }
        self.active = idx;
        true
    }

    /// The focused pane of the active window, or `None` when empty.
    pub fn focused(&self) -> (p: Option<PaneId>)
        requires
            self.wf(),
        ensures
            p == (if self@.windows.len() == 0 {
                None
            } else {
                Some(self@.windows[self@.active as int].focused)
            }),
    {
        if self.active < self.windows.len() {
            proof {
                self.lemma_window_view(self.active as int);
            }
            Some(self.windows[self.active].focused)
        } else {
            None
        }
    }

    /// Move focus to the next pane of the active window, in tree order,
    /// wrapping.
    pub fn focus_next(&mut self)
        requires
            old(self).wf(),
        ensures
            final(self).wf(),
            old(self)@.windows.len() == 0 ==> final(self)@ == old(self)@,
            old(self)@.windows.len() > 0 ==> final(self)@ == (SessionView {
                windows: refocus(
                    old(self)@.windows,
                    old(self)@.active as int,
                    stepped_focus(old(self)@.windows[old(self)@.active as int], true),
                ),
                ..old(self)@
            }),
    {
        self.cycle_focus(true);
    }

    /// Move focus to the previous pane of the active window, in tree order,
    /// wrapping.
    pub fn focus_prev(&mut self)
        requires
            old(self).wf(),
        ensures
            final(self).wf(),
            old(self)@.windows.len() == 0 ==> final(self)@ == old(self)@,
            old(self)@.windows.len() > 0 ==> final(self)@ == (SessionView {
                windows: refocus(
                    old(self)@.windows,
                    old(self)@.active as int,
                    stepped_focus(old(self)@.windows[old(self)@.active as int], false),
                ),
                ..old(self)@
            }),
    {
        self.cycle_focus(false);
    }

    fn cycle_focus(&mut self, forward: bool)
        requires
            old(self).wf(),
        ensures
            final(self).wf(),
            old(self)@.windows.len() == 0 ==> final(self)@ == old(self)@,
            old(self)@.windows.len() > 0 ==> final(self)@ == (SessionView {
                windows: refocus(
                    old(self)@.windows,
                    old(self)@.active as int,
                    stepped_focus(old(self)@.windows[old(self)@.active as int], forward),
                ),
                ..old(self)@
            }),
    {
        if self.active >= self.windows.len() {
            return;
        }
        let a = self.active;
        proof {
            self.lemma_window_view(a as int);
        }
        let ghost wv = old(self)@.windows[a as int];
        let leaves = self.windows[a].root.leaves();
        let focused = self.windows[a].focused;
        let mut pos: usize = 0;
        while pos < leaves.len() && !leaves[pos].same_as(focused)
            invariant
                leaves@ == leaves_of(wv.root),
                focused == wv.focused,
                leaves_of(wv.root).contains(wv.focused),
                pos <= leaves@.len(),
                forall|k: int| 0 <= k < pos ==> leaves@[k] != wv.focused,
            decreases leaves@.len() - pos,
        {
            pos += 1;
        }
        proof {
            let chosen = choose|i: int| 0 <= i < leaves_of(wv.root).len() && leaves_of(wv.root)[i]
                == wv.focused;
            assert(pos < leaves@.len());
            lemma_unique_leaf(self@, a as int, chosen, pos as int);
        }
        let len = leaves.len();
        let next = if forward {
            if pos + 1 == len {
                0
            } else {
                pos + 1
            }
        } else {
            if pos == 0 {
                len - 1
            } else {
                pos - 1
            }
        };
        let mut w = self.windows.remove(a);
        w.focused = leaves[next];
        let ghost nv = w.view();
        self.windows.insert(a, w);
        proof {
            assert(self@.windows =~= old(self)@.windows.update(a as int, nv));
            assert(nv == WindowView { focused: stepped_focus(wv, forward), ..wv });
            Self::lemma_window_reworked(old(self)@, self@, a as int, nv);
        }
    }

    /// Rects of every pane in the active window, tiling `cols` × `rows`.
    /// Empty when the session is empty.
    pub fn layout(&self, cols: u16, rows: u16) -> (v: Vec<(PaneId, Rect)>)
        requires
            self.wf(),
        ensures
            v@ == session_layout(self@, cols, rows),
    {
        if self.active >= self.windows.len() {
            return Vec::new();
        }
        proof {
            self.lemma_window_view(self.active as int);
        }
        let mut out = Vec::new();
        layout(&self.windows[self.active].root, Rect::new(0, 0, cols, rows), &mut out);
        assert(out@ =~= session_layout(self@, cols, rows));
        out
    }

    /// The direction of the split divider under (`x`, `y`) in the active
    /// window, laid out at `cols` × `rows`. Side-by-side splits own the last
    /// column of their first half; stacked splits own the first row of
    /// their second half.
    pub fn divider_at(&self, cols: u16, rows: u16, x: u16, y: u16) -> (d: Option<SplitDirection>)
        requires
            self.wf(),
        ensures
            d == (if self@.windows.len() == 0 {
                None
            } else {
                divider_spec(
                    self@.windows[self@.active as int].root,
                    Rect { x: 0, y: 0, width: cols, height: rows },
                    x as int,
                    y as int,
                )
            }),
    {
        if self.active >= self.windows.len() {
            return None;
        }
        proof {
            self.lemma_window_view(self.active as int);
        }
        self.windows[self.active].root.divider_at(Rect::new(0, 0, cols, rows), x, y)
    }

    /// Drag the divider under `from` toward `to`, resizing the split.
    /// Returns the divider's new position, or `None` when `from` holds no
    /// divider.
    pub fn drag_divider(&mut self, cols: u16, rows: u16, from: (u16, u16), to: (u16, u16)) -> (pos:
        Option<(u16, u16)>)
        requires
            old(self).wf(),
        ensures
            final(self).wf(),
            old(self)@.windows.len() == 0 ==> pos is None && final(self)@ == old(self)@,
            old(self)@.windows.len() > 0 ==> {
                let w = old(self)@.windows[old(self)@.active as int];
                let (root, p) = drag_spec(w.root, Rect { x: 0, y: 0, width: cols, height: rows }, from, to);
                &&& pos == p
                &&& final(self)@ == (SessionView {
                    windows: old(self)@.windows.update(old(self)@.active as int, WindowView { root, ..w }),
                    ..old(self)@
                })
            },
    {
        if self.active >= self.windows.len() {
            return None;
        }
        let a = self.active;
        proof {
            self.lemma_window_view(a as int);
        }
        let mut w = self.windows.remove(a);
        let pos = w.root.drag_divider(Rect::new(0, 0, cols, rows), from, to);
        let ghost nv = w.view();
        self.windows.insert(a, w);
        proof {
            lemma_drag_keeps_leaves(
                old(self)@.windows[a as int].root,
                Rect { x: 0, y: 0, width: cols, height: rows },
                from,
                to,
            );
            assert(self@.windows =~= old(self)@.windows.update(a as int, nv));
            Self::lemma_window_reworked(old(self)@, self@, a as int, nv);
        }
        pos
    }
}

/// The panes are listed in strictly ascending id order.
pub open spec fn sorted_ids<T>(ps: Seq<Pane<T>>) -> bool {
    forall|i: int, j: int| 0 <= i < j < ps.len() ==> ps[i].id.id() < ps[j].id.id()
}

/// The panes without the one holding `id`.
pub open spec fn without_pane<T>(ps: Seq<Pane<T>>, id: PaneId) -> Seq<Pane<T>> {
    ps.filter(|p: Pane<T>| p.id != id)
}

/// Insert `p` into the id-ordered list `ps`, which lacks its id.
fn insert_sorted<T>(ps: &mut Vec<Pane<T>>, p: Pane<T>) -> (k: usize)
    requires
        sorted_ids(old(ps)@),
        !ids_of(old(ps)@).contains(p.id),
    ensures
        k <= old(ps)@.len(),
        final(ps)@ == old(ps)@.insert(k as int, p),
        forall|j: int| 0 <= j < k ==> old(ps)@[j].id.id() < p.id.id(),
        forall|j: int| k <= j < old(ps)@.len() ==> p.id.id() < old(ps)@[j].id.id(),
        sorted_ids(final(ps)@),
        ids_of(final(ps)@).to_multiset() == ids_of(old(ps)@).to_multiset().insert(p.id),
{
    let mut k: usize = 0;
    while k < ps.len() && ps[k].id.raw() < p.id.raw()
        invariant
            k <= ps@.len(),
            ps@ == old(ps)@,
            forall|j: int| 0 <= j < k ==> ps@[j].id.id() < p.id.id(),
        decreases ps@.len() - k,
    {
        k += 1;
    }
    let ghost before = ps@;
    ps.insert(k, p);
    proof {
        broadcast use vstd::seq_lib::group_to_multiset_ensures;

        assert forall|j: int| k <= j < before.len() implies p.id.id() < before[j].id.id() by {
            if before[j].id.id() <= p.id.id() {
                if before[j].id.id() == p.id.id() {
                    PaneId::lemma_id_injective(before[j].id, p.id);
                    assert(ids_of(before)[j] == p.id);
                } else {
                    assert(before[k as int].id.id() >= p.id.id());
                }
            }
        }
        assert(ps@ =~= before.insert(k as int, p));
        assert(ids_of(ps@) =~= ids_of(before).insert(k as int, p.id));
        vstd::seq_lib::to_multiset_insert(ids_of(before), k as int, p.id);
    }
    k
}

/// Take the pane at `i` out of the id-ordered list.
fn remove_at<T>(ps: &mut Vec<Pane<T>>, i: usize) -> (p: Pane<T>)
    requires
        sorted_ids(old(ps)@),
        i < old(ps)@.len(),
    ensures
        p == old(ps)@[i as int],
        final(ps)@ == old(ps)@.remove(i as int),
        final(ps)@ == without_pane(old(ps)@, p.id),
        sorted_ids(final(ps)@),
        ids_of(final(ps)@).to_multiset() == ids_of(old(ps)@).to_multiset().remove(p.id),
{
    let ghost before = ps@;
    let p = ps.remove(i);
    proof {
        broadcast use vstd::seq_lib::group_to_multiset_ensures;

        assert(ids_of(ps@) =~= ids_of(before).remove(i as int));
        assert(ids_of(before)[i as int] == p.id);
        lemma_without_sorted(before, i as int);
    }
    p
}

proof fn lemma_without_sorted<T>(ps: Seq<Pane<T>>, i: int)
    requires
        sorted_ids(ps),
        0 <= i < ps.len(),
    ensures
        without_pane(ps, ps[i].id) == ps.remove(i),
    decreases ps.len(),
{
    let id = ps[i].id;
    let f = |p: Pane<T>| p.id != id;
    assert forall|j: int| 0 <= j < ps.len() && j != i implies ps[j].id != id by {
        if j < i {
            assert(ps[j].id.id() < ps[i].id.id());
        } else {
            assert(ps[i].id.id() < ps[j].id.id());
        }
    }
    lemma_filter_drop_one(ps, i, f);
}

proof fn lemma_filter_drop_one<A>(s: Seq<A>, i: int, f: spec_fn(A) -> bool)
    requires
        0 <= i < s.len(),
        !f(s[i]),
        forall|j: int| 0 <= j < s.len() && j != i ==> f(s[j]),
    ensures
        s.filter(f) == s.remove(i),
    decreases s.len(),
{
    reveal(Seq::filter);
    if i == s.len() - 1 {
        assert(s.drop_last() =~= s.remove(i));
        assert forall|j: int| 0 <= j < s.drop_last().len() implies f(s.drop_last()[j]) by {
            assert(s.drop_last()[j] == s[j]);
        }
        lemma_filter_all(s.drop_last(), f);
    } else {
        assert forall|j: int| 0 <= j < s.drop_last().len() && j != i implies f(s.drop_last()[j]) by {
            assert(s.drop_last()[j] == s[j]);
        }
        lemma_filter_drop_one(s.drop_last(), i, f);
        assert(f(s.last()));
        assert(s.remove(i) =~= s.drop_last().remove(i).push(s.last()));
    }
}

proof fn lemma_filter_all<A>(s: Seq<A>, f: spec_fn(A) -> bool)
    requires
        forall|j: int| 0 <= j < s.len() ==> f(s[j]),
    ensures
        s.filter(f) == s,
    decreases s.len(),
{
    reveal(Seq::filter);
    if s.len() > 0 {
        assert forall|j: int| 0 <= j < s.drop_last().len() implies f(s.drop_last()[j]) by {
            assert(s.drop_last()[j] == s[j]);
        }
        lemma_filter_all(s.drop_last(), f);
        assert(s.drop_last().push(s.last()) =~= s);
    } else {
        assert(s.filter(f) =~= s);
    }
}

/// The pane list holds each id at most once.
proof fn lemma_ids_once<T>(v: SessionView<T>, id: PaneId)
    requires
        wf_view(v),
    ensures
        ids_of(v.panes).to_multiset().count(id) <= 1,
        leaves_ms(v.windows).count(id) <= 1,
{
    broadcast use vstd::seq_lib::group_to_multiset_ensures;

    let ids = ids_of(v.panes);
    assert forall|i: int, j: int| 0 <= i < ids.len() && 0 <= j < ids.len() && i != j implies ids[i]
        != ids[j] by {
        assert(ids[i] == v.panes[i].id);
        assert(ids[j] == v.panes[j].id);
        if i < j {
            assert(v.panes[i].id.id() < v.panes[j].id.id());
        } else {
            assert(v.panes[j].id.id() < v.panes[i].id.id());
        }
    }
    assert(ids.no_duplicates());
    ids.lemma_multiset_has_no_duplicates();
}

/// Each pane sits in one leaf: a window's leaves hold no id twice.
proof fn lemma_unique_leaf<T>(v: SessionView<T>, w: int, i: int, j: int)
    requires
        wf_view(v),
        0 <= w < v.windows.len(),
        0 <= i < leaves_of(v.windows[w].root).len(),
        0 <= j < leaves_of(v.windows[w].root).len(),
        leaves_of(v.windows[w].root)[i] == leaves_of(v.windows[w].root)[j],
    ensures
        i == j,
{
    broadcast use vstd::seq_lib::group_to_multiset_ensures;
    broadcast use vstd::multiset::group_multiset_axioms;

    let ls = leaves_of(v.windows[w].root);
    let id = ls[i];
    if i != j {
        let lo = if i < j { i } else { j };
        let hi = if i < j { j } else { i };
        let rest = ls.remove(hi);
        assert(rest[lo] == id);
        assert(rest.contains(id));
        assert(ls.to_multiset() =~= rest.to_multiset().insert(ls[hi]));
        assert(ls.to_multiset().count(id) >= 2);
        lemma_leaves_ms_at(v.windows, w);
        assert(leaves_ms(v.windows).count(id) >= 2);
        lemma_ids_once(v, id);
    }
}

/// A pane's leaf is the first (and only) place it occurs in its window.
proof fn lemma_first_leaf<T>(v: SessionView<T>, w: int, id: PaneId) -> (i: int)
    requires
        wf_view(v),
        0 <= w < v.windows.len(),
        leaves_of(v.windows[w].root).contains(id),
    ensures
        first_at(leaves_of(v.windows[w].root), id, i),
{
    let ls = leaves_of(v.windows[w].root);
    let i = choose|i: int| 0 <= i < ls.len() && ls[i] == id;
    assert forall|j: int| 0 <= j < i implies ls[j] != id by {
        if ls[j] == id {
            lemma_unique_leaf(v, w, i, j);
        }
    }
    i
}

/// Window `w` of `ws` with the pane `target` split to make room for `new`,
/// which takes the window's focus.
pub open spec fn split_windows(ws: Seq<WindowView>, w: int, target: PaneId, new: PaneId, direction: SplitDirection) -> Seq<WindowView> {
    ws.update(
        w,
        WindowView { root: split_spec(ws[w].root, target, new, direction).0, focused: new, ..ws[w] },
    )
}

/// Window `w` of `ws` with the leaf `gone` holding `fresh` instead, the
/// focus following it.
pub open spec fn replace_windows(ws: Seq<WindowView>, w: int, gone: PaneId, fresh: PaneId) -> Seq<WindowView> {
    ws.update(
        w,
        WindowView {
            root: replace_spec(ws[w].root, gone, fresh),
            focused: if ws[w].focused == gone {
                fresh
            } else {
                ws[w].focused
            },
            ..ws[w]
        },
    )
}

/// The windows after closing `target`, which window `w` holds: the split
/// collapses into the sibling, focus moving to the first pane of the
/// surviving sibling subtree if the closed pane had it; a window left with
/// no pane goes away.
pub open spec fn close_windows(ws: Seq<WindowView>, w: int, target: PaneId) -> Seq<WindowView> {
    match remove_spec(ws[w].root, target) {
        RemoveOutcome::Removed(root) => ws.update(
            w,
            WindowView {
                root,
                focused: if ws[w].focused == target {
                    leaves_of(sibling_spec(ws[w].root, target))[0]
                } else {
                    ws[w].focused
                },
                ..ws[w]
            },
        ),
        _ => ws.remove(w),
    }
}

/// The active index after closing a pane of window `w`: it shifts down
/// when a window at or before it went away, never below 0.
pub open spec fn close_active(ws: Seq<WindowView>, w: int, target: PaneId, active: nat) -> nat {
    match remove_spec(ws[w].root, target) {
        RemoveOutcome::Removed(_) => active,
        _ => if active >= w && active > 0 {
            (active - 1) as nat
        } else {
            active
        },
    }
}

proof fn lemma_ms_split_point<A>(s: Seq<A>, i: int, x: A)
    requires
        0 <= i < s.len(),
    ensures
        (s.take(i + 1).push(x) + s.skip(i + 1)).to_multiset() == s.to_multiset().insert(x),
{
    broadcast use vstd::seq_lib::group_to_multiset_ensures;
    broadcast use vstd::multiset::group_multiset_axioms;

    vstd::seq_lib::lemma_multiset_commutative(s.take(i + 1).push(x), s.skip(i + 1));
    vstd::seq_lib::lemma_multiset_commutative(s.take(i + 1), s.skip(i + 1));
    assert(s.take(i + 1) + s.skip(i + 1) =~= s);
    assert((s.take(i + 1).push(x) + s.skip(i + 1)).to_multiset() =~= s.to_multiset().insert(x));
}

/// Splitting a pane adds exactly the new pane to the windows' leaves.
proof fn lemma_split_windows<T>(v: SessionView<T>, w: int, target: PaneId, new: PaneId, direction: SplitDirection)
    requires
        wf_view(v),
        0 <= w < v.windows.len(),
        leaves_of(v.windows[w].root).contains(target),
    ensures
        split_spec(v.windows[w].root, target, new, direction).1,
        leaves_ms(split_windows(v.windows, w, target, new, direction)) == leaves_ms(v.windows).insert(
            new,
        ),
        leaves_of(split_spec(v.windows[w].root, target, new, direction).0).contains(new),
{
    broadcast use vstd::multiset::group_multiset_axioms;

    let root = v.windows[w].root;
    let ls = leaves_of(root);
    let i = lemma_first_leaf(v, w, target);
    lemma_split_leaves(root, target, new, direction);
    let ls2 = leaves_of(split_spec(root, target, new, direction).0);
    assert(ls2 == ls.take(i + 1).push(new) + ls.skip(i + 1));
    lemma_ms_split_point(ls, i, new);
    assert(ls2[i + 1] == new);
    let ws2 = split_windows(v.windows, w, target, new, direction);
    lemma_leaves_ms_at(v.windows, w);
    lemma_leaves_ms_at(ws2, w);
    assert(ws2.take(w) =~= v.windows.take(w));
    assert(ws2.skip(w + 1) =~= v.windows.skip(w + 1));
    assert(leaves_ms(ws2) =~= leaves_ms(v.windows).insert(new));
}

/// Replacing a pane's leaf swaps exactly its id for the new one among the
/// windows' leaves.
proof fn lemma_replace_windows<T>(v: SessionView<T>, w: int, gone: PaneId, fresh: PaneId)
    requires
        wf_view(v),
        0 <= w < v.windows.len(),
        leaves_of(v.windows[w].root).contains(gone),
    ensures
        leaves_ms(replace_windows(v.windows, w, gone, fresh)) == leaves_ms(v.windows).insert(
            fresh,
        ).remove(gone),
        leaves_of(replace_windows(v.windows, w, gone, fresh)[w].root).contains(
            replace_windows(v.windows, w, gone, fresh)[w].focused,
        ),
{
    broadcast use vstd::multiset::group_multiset_axioms;
    broadcast use vstd::seq_lib::group_to_multiset_ensures;

    let root = v.windows[w].root;
    let ls = leaves_of(root);
    let i = lemma_first_leaf(v, w, gone);
    lemma_replace_leaves(root, gone, fresh);
    let ls2 = leaves_of(replace_spec(root, gone, fresh));
    assert forall|j: int| 0 <= j < ls.len() && j != i implies ls[j] != gone by {
        if ls[j] == gone {
            lemma_unique_leaf(v, w, i, j);
        }
    }
    assert(ls2 =~= ls.update(i, fresh));
    vstd::seq_lib::to_multiset_update(ls, i, fresh);
    let ws2 = replace_windows(v.windows, w, gone, fresh);
    lemma_leaves_ms_at(v.windows, w);
    lemma_leaves_ms_at(ws2, w);
    assert(ws2.take(w) =~= v.windows.take(w));
    assert(ws2.skip(w + 1) =~= v.windows.skip(w + 1));
    assert(leaves_ms(ws2) =~= leaves_ms(v.windows).insert(fresh).remove(gone));
    let f = v.windows[w].focused;
    let k = choose|k: int| 0 <= k < ls.len() && ls[k] == f;
    if f == gone {
        assert(ls2[i] == fresh);
    } else {
        assert(ls2[k] == f);
    }
}

/// Closing a pane takes exactly that pane out of the session's windows:
/// the panes left are the others, each window's focus stays on a pane of
/// its own, and only a window that held nothing else goes away.
pub proof fn lemma_close_windows<T>(v: SessionView<T>, w: int, target: PaneId)
    requires
        wf_view(v),
        0 <= w < v.windows.len(),
        leaves_of(v.windows[w].root).contains(target),
    ensures
        !(remove_spec(v.windows[w].root, target) is NotFound),
        leaves_ms(close_windows(v.windows, w, target)) == leaves_ms(v.windows).remove(target),
        forall|k: int|
            0 <= k < close_windows(v.windows, w, target).len() ==> leaves_of(
                #[trigger] close_windows(v.windows, w, target)[k].root,
            ).contains(close_windows(v.windows, w, target)[k].focused),
        remove_spec(v.windows[w].root, target) is Removed ==> close_windows(v.windows, w, target).len()
            == v.windows.len(),
        !(remove_spec(v.windows[w].root, target) is Removed) ==> close_windows(
            v.windows,
            w,
            target,
        ).len() == v.windows.len() - 1,
{
    broadcast use vstd::multiset::group_multiset_axioms;
    broadcast use vstd::seq_lib::group_to_multiset_ensures;

    let root = v.windows[w].root;
    let ls = leaves_of(root);
    let i = lemma_first_leaf(v, w, target);
    lemma_remove_leaves(root, target);
    lemma_leaves_ms_at(v.windows, w);
    let ws2 = close_windows(v.windows, w, target);
    match remove_spec(root, target) {
        RemoveOutcome::Removed(r) => {
            let ls2 = leaves_of(r);
            assert(ls2 == ls.remove(i));
            assert(ls.remove(i).to_multiset() =~= ls.to_multiset().remove(ls[i]));
            lemma_leaves_ms_at(ws2, w);
            assert(ws2.take(w) =~= v.windows.take(w));
            assert(ws2.skip(w + 1) =~= v.windows.skip(w + 1));
            assert(leaves_ms(ws2) =~= leaves_ms(v.windows).remove(target));
            lemma_leaves_nonempty(r);
            assert forall|k: int| 0 <= k < ws2.len() implies leaves_of(#[trigger] ws2[k].root).contains(
                ws2[k].focused,
            ) by {
                if k == w {
                    let f = v.windows[w].focused;
                    if f == target {
                        lemma_sibling_survives(root, target);
                    } else {
                        let j = choose|j: int| 0 <= j < ls.len() && ls[j] == f;
                        assert(j != i);
                        if j < i {
                            assert(ls2[j] == f);
                        } else {
                            assert(ls2[j - 1] == f);
                        }
                    }
                } else {
                    assert(ws2[k] == v.windows[k]);
                }
            }
        },
        _ => {
            assert(root == LayoutNode::Leaf(target));
            assert(ls =~= seq![target]);
            assert(seq![target] =~= Seq::<PaneId>::empty().push(target));
            assert(ls.to_multiset() =~= Multiset::<PaneId>::empty().insert(target));
            assert(ws2 =~= v.windows.take(w) + v.windows.skip(w + 1));
            lemma_leaves_ms_concat(v.windows.take(w), v.windows.skip(w + 1));
            assert(leaves_ms(ws2) =~= leaves_ms(v.windows).remove(target));
            assert forall|k: int| 0 <= k < ws2.len() implies leaves_of(#[trigger] ws2[k].root).contains(
                ws2[k].focused,
            ) by {
                if k < w {
                    assert(ws2[k] == v.windows[k]);
                } else {
                    assert(ws2[k] == v.windows[k + 1]);
                }
            }
        },
    }
}

/// `after` is `before` with `p` slotted in by id.
pub open spec fn inserted_by_id<T>(before: Seq<Pane<T>>, after: Seq<Pane<T>>, p: Pane<T>) -> bool {
    exists|k: int|
        0 <= k <= before.len() && after == before.insert(k, p) && (forall|j: int|
            0 <= j < k ==> before[j].id.id() < p.id.id()) && (forall|j: int|
            k <= j < before.len() ==> p.id.id() < before[j].id.id())
}

/// The larger of two naturals.
pub open spec fn max_nat(a: nat, b: nat) -> nat {
    if a >= b {
        a
    } else {
        b
    }
}

impl<T> Session<T> {
    /// Register a pane whose id was allocated elsewhere; `None` when the id
    /// is taken.
    fn adopt_pane(&mut self, raw: u64) -> (r: Option<PaneId>)
        requires
            wf_view(old(self)@),
            raw < u64::MAX,
        ensures
            r is None <==> ids_of(old(self)@.panes).contains(PaneId::raw_id(raw)),
            r is None ==> final(self)@ == old(self)@,
            r is Some ==> {
                let id = r->Some_0;
                &&& id == PaneId::raw_id(raw)
                &&& inserted_by_id(old(self)@.panes, final(self)@.panes, fresh_pane::<T>(id))
                &&& sorted_ids(final(self)@.panes)
                &&& ids_of(final(self)@.panes).to_multiset() == ids_of(old(self)@.panes).to_multiset().insert(id)
                &&& final(self)@.next_id == max_nat(old(self)@.next_id, (raw + 1) as nat)
                &&& final(self)@.windows == old(self)@.windows
                &&& final(self)@.active == old(self)@.active
                &&& forall|i: int| 0 <= i < final(self)@.panes.len() ==> #[trigger] final(self)@.panes[i].id.id() < final(self)@.next_id
            },
    {
        let id = PaneId::from_raw(raw);
        proof {
            PaneId::lemma_raw_id(id, raw);
        }
        match self.find_pane_in(id) {
            Some(i) => {
                assert(ids_of(self@.panes)[i as int] == id);
                return None;
            },
            None => {},
        }
        let ghost before = self@.panes;
        let k = insert_sorted(&mut self.panes, Pane::new(id));
        if self.next_id < raw + 1 {
            self.next_id = raw + 1;
        }
        proof {
            assert forall|i: int| 0 <= i < self@.panes.len() implies #[trigger] self@.panes[i].id.id()
                < self@.next_id by {
                if i < k {
                    assert(self@.panes[i] == before[i]);
                } else if i > k {
                    assert(self@.panes[i] == before[i - 1]);
                }
            }
        }
        Some(id)
    }

    /// The position of the pane `id` in the pane list, the invariant aside.
    fn find_pane_in(&self, id: PaneId) -> (r: Option<usize>)
        ensures
            match r {
                Some(i) => i < self@.panes.len() && self@.panes[i as int].id == id,
                None => !ids_of(self@.panes).contains(id),
            },
    {
        let mut i: usize = 0;
        while i < self.panes.len()
            invariant
                i <= self.panes@.len(),
                self.panes@ == self@.panes,
                forall|k: int| 0 <= k < i ==> self@.panes[k].id != id,
            decreases self.panes@.len() - i,
        {
            if self.panes[i].id.same_as(id) {
                return Some(i);
            }
            i += 1;
        }
        proof {
            if ids_of(self@.panes).contains(id) {
                let k = choose|k: int| 0 <= k < ids_of(self@.panes).len() && ids_of(self@.panes)[k]
                    == id;
                assert(self@.panes[k].id == id);
            }
        }
        None
    }
}

impl<T> Session<T> {
    /// Split the pane `target` in two along `direction`, creating and
    /// focusing a new pane. Returns the new pane's id, or `None` if `target`
    /// does not exist.
    pub fn split(&mut self, target: PaneId, direction: SplitDirection) -> (r: Option<PaneId>)
        requires
            old(self).wf(),
            old(self)@.next_id < u64::MAX,
        ensures
            final(self).wf(),
            r is Some <==> ids_of(old(self)@.panes).contains(target),
            r is None ==> final(self)@ == old(self)@,
            r is Some ==> exists|w: int|
                0 <= w < old(self)@.windows.len() && leaves_of(
                    #[trigger] old(self)@.windows[w].root,
                ).contains(target) && r->Some_0.id() == old(self)@.next_id && final(self)@ == (SessionView {
                    windows: split_windows(old(self)@.windows, w, target, r->Some_0, direction),
                    active: w as nat,
                    panes: old(self)@.panes.push(fresh_pane::<T>(r->Some_0)),
                    next_id: old(self)@.next_id + 1,
                }),
    {
        let idx = match self.window_of(target) {
            None => return None,
            Some(i) => i,
        };
        let ghost v0 = self@;
        let new = self.alloc_pane();
        proof {
            lemma_split_windows(v0, idx as int, target, new, direction);
        }
        let mut w = self.windows.remove(idx);
        let found = w.root.split_leaf(target, new, direction);
        w.focused = new;
        let ghost wv = w.view();
        self.windows.insert(idx, w);
        self.active = idx;
        proof {
            assert(found);
            assert(self@.windows =~= split_windows(v0.windows, idx as int, target, new, direction));
            assert forall|k: int| 0 <= k < self@.windows.len() implies leaves_of(
                self@.windows[k].root,
            ).contains(#[trigger] self@.windows[k].focused) by {
                if k != idx {
                    assert(self@.windows[k] == v0.windows[k]);
                }
            }
        }
        Some(new)
    }

    /// Adopt a pane whose id was allocated elsewhere (a session server)
    /// into a fresh window, activate it, and focus the pane. Returns `None`
    /// when the id is already taken.
    pub fn adopt_window(&mut self, raw: u64) -> (r: Option<PaneId>)
        requires
            old(self).wf(),
            raw < u64::MAX,
        ensures
            final(self).wf(),
            r is None <==> ids_of(old(self)@.panes).contains(PaneId::raw_id(raw)),
            r is None ==> final(self)@ == old(self)@,
            r is Some ==> {
                let id = r->Some_0;
                &&& id == PaneId::raw_id(raw)
                &&& final(self)@.windows == old(self)@.windows.push(
                    WindowView { root: LayoutNode::Leaf(id), focused: id, name: None },
                )
                &&& final(self)@.active == old(self)@.windows.len()
                &&& inserted_by_id(old(self)@.panes, final(self)@.panes, fresh_pane::<T>(id))
                &&& final(self)@.next_id == max_nat(old(self)@.next_id, (raw + 1) as nat)
            },
    {
        let id = match self.adopt_pane(raw) {
            None => return None,
            Some(id) => id,
        };
        let ghost v1 = self@;
        self.windows.push(Window { root: LayoutNode::Leaf(id), focused: id, name: None });
        self.active = self.windows.len() - 1;
        proof {
            broadcast use vstd::seq_lib::group_to_multiset_ensures;

            let w = WindowView { root: LayoutNode::Leaf(id), focused: id, name: None };
            assert(self@.windows =~= v1.windows.push(w));
            assert(self@.windows.drop_last() =~= v1.windows);
            assert(leaves_of(w.root) =~= seq![id]);
            assert(seq![id] =~= Seq::<PaneId>::empty().push(id));
            assert(leaves_of(w.root).to_multiset() =~= Multiset::<PaneId>::empty().insert(id));
            assert(leaves_ms(self@.windows) =~= ids_of(self@.panes).to_multiset());
            assert forall|k: int| 0 <= k < self@.windows.len() implies leaves_of(
                self@.windows[k].root,
            ).contains(#[trigger] self@.windows[k].focused) by {
                if k == self@.windows.len() - 1 {
                    assert(leaves_of(w.root)[0] == id);
                } else {
                    assert(self@.windows[k] == old(self)@.windows[k]);
                }
            }
        }
        Some(id)
    }

    /// Adopt an elsewhere-allocated pane by splitting `target`, like
    /// [`Session::split`]. Returns `None` when the id is taken or the
    /// target does not exist.
    pub fn adopt_split(&mut self, target: PaneId, raw: u64, direction: SplitDirection) -> (r: Option<
        PaneId,
    >)
        requires
            old(self).wf(),
            raw < u64::MAX,
        ensures
            final(self).wf(),
            r is Some <==> !ids_of(old(self)@.panes).contains(PaneId::raw_id(raw)) && ids_of(
                old(self)@.panes,
            ).contains(target),
            r is None ==> final(self)@ == old(self)@,
            r is Some ==> exists|w: int|
                0 <= w < old(self)@.windows.len() && leaves_of(
                    #[trigger] old(self)@.windows[w].root,
                ).contains(target) && {
                    let id = r->Some_0;
                    &&& id == PaneId::raw_id(raw)
                    &&& final(self)@.windows == split_windows(old(self)@.windows, w, target, id, direction)
                    &&& final(self)@.active == w
                    &&& inserted_by_id(old(self)@.panes, final(self)@.panes, fresh_pane::<T>(id))
                    &&& final(self)@.next_id == max_nat(old(self)@.next_id, (raw + 1) as nat)
                },
    {
        let id = PaneId::from_raw(raw);
        proof {
            PaneId::lemma_raw_id(id, raw);
        }
        match self.find_pane(id) {
            Some(i) => {
                assert(ids_of(self@.panes)[i as int] == id);
                return None;
            },
            None => {},
        }
        let idx = match self.window_of(target) {
            None => return None,
            Some(i) => i,
        };
        let ghost v0 = self@;
        let new = match self.adopt_pane(raw) {
            None => return None,
            Some(n) => n,
        };
        proof {
            lemma_split_windows(v0, idx as int, target, new, direction);
        }
        let mut w = self.windows.remove(idx);
        let found = w.root.split_leaf(target, new, direction);
        w.focused = new;
        self.windows.insert(idx, w);
        self.active = idx;
        proof {
            assert(found);
            assert(self@.windows =~= split_windows(v0.windows, idx as int, target, new, direction));
            assert forall|k: int| 0 <= k < self@.windows.len() implies leaves_of(
                self@.windows[k].root,
            ).contains(#[trigger] self@.windows[k].focused) by {
                if k != idx {
                    assert(self@.windows[k] == v0.windows[k]);
                }
            }
        }
        Some(new)
    }

    /// Swap the pane `gone` for a fresh pane with the elsewhere-allocated id
    /// `raw`, in place: same spot in the layout, focus follows. The new
    /// pane starts with empty metadata. Returns `None` when `gone` is
    /// missing or the id is taken.
    pub fn replace_pane(&mut self, gone: PaneId, raw: u64) -> (r: Option<PaneId>)
        requires
            old(self).wf(),
            raw < u64::MAX,
        ensures
            final(self).wf(),
            r is Some <==> !ids_of(old(self)@.panes).contains(PaneId::raw_id(raw)) && ids_of(
                old(self)@.panes,
            ).contains(gone),
            r is None ==> final(self)@ == old(self)@,
            r is Some ==> exists|w: int|
                0 <= w < old(self)@.windows.len() && leaves_of(
                    #[trigger] old(self)@.windows[w].root,
                ).contains(gone) && {
                    let id = r->Some_0;
                    &&& id == PaneId::raw_id(raw)
                    &&& final(self)@.windows == replace_windows(old(self)@.windows, w, gone, id)
                    &&& final(self)@.active == old(self)@.active
                    &&& inserted_by_id(without_pane(old(self)@.panes, gone), final(self)@.panes, fresh_pane::<T>(id))
                    &&& final(self)@.next_id == max_nat(old(self)@.next_id, (raw + 1) as nat)
                },
    {
        let id = PaneId::from_raw(raw);
        proof {
            PaneId::lemma_raw_id(id, raw);
        }
        match self.find_pane(id) {
            Some(i) => {
                assert(ids_of(self@.panes)[i as int] == id);
                return None;
            },
            None => {},
        }
        let idx = match self.window_of(gone) {
            None => return None,
            Some(i) => i,
        };
        let ghost v0 = self@;
        let old_at = match self.find_pane(gone) {
            Some(i) => i,
            None => {
                proof {
                    lemma_leaves_ms_contains(v0.windows, idx as int, gone);
                    broadcast use vstd::seq_lib::group_to_multiset_ensures;
                }
                return None;
            },
        };
        let removed = remove_at(&mut self.panes, old_at);
        let ghost v1 = self@;
        proof {
            assert(!ids_of(v1.panes).contains(id)) by {
                if ids_of(v1.panes).contains(id) {
                    let j = choose|j: int| 0 <= j < ids_of(v1.panes).len() && ids_of(v1.panes)[j] == id;
                    assert(v1.panes[j] == v0.panes.remove(old_at as int)[j]);
                    if j < old_at {
                        assert(ids_of(v0.panes)[j] == id);
                    } else {
                        assert(ids_of(v0.panes)[j + 1] == id);
                    }
                }
            }
        }
        let k = insert_sorted(&mut self.panes, Pane::new(id));
        if self.next_id < raw + 1 {
            self.next_id = raw + 1;
        }
        proof {
            lemma_replace_windows(v0, idx as int, gone, id);
        }
        let mut w = self.windows.remove(idx);
        replace_leaf(&mut w.root, gone, id);
        if w.focused.same_as(gone) {
            w.focused = id;
        }
        self.windows.insert(idx, w);
        proof {
            broadcast use vstd::multiset::group_multiset_axioms;
            broadcast use vstd::seq_lib::group_to_multiset_ensures;

            assert(self@.windows =~= replace_windows(v0.windows, idx as int, gone, id));
            assert(removed.id == gone);
            assert(ids_of(self@.panes).to_multiset() =~= ids_of(v0.panes).to_multiset().remove(gone).insert(id));
            assert(leaves_ms(self@.windows) =~= ids_of(self@.panes).to_multiset());
            assert forall|i: int| 0 <= i < self@.panes.len() implies #[trigger] self@.panes[i].id.id()
                < self@.next_id by {
                if i < k {
                    assert(self@.panes[i] == v1.panes[i]);
                    assert(v1.panes[i] == v0.panes.remove(old_at as int)[i]);
                } else if i > k {
                    assert(self@.panes[i] == v1.panes[i - 1]);
                    assert(v1.panes[i - 1] == v0.panes.remove(old_at as int)[i - 1]);
                }
            }
            assert forall|j: int| 0 <= j < self@.windows.len() implies leaves_of(
                self@.windows[j].root,
            ).contains(#[trigger] self@.windows[j].focused) by {
                if j != idx {
                    assert(self@.windows[j] == v0.windows[j]);
                }
            }
        }
        Some(id)
    }
}

impl<T> Session<T> {
    /// Close a pane, collapsing its split. Focus moves to the first pane of
    /// the surviving sibling subtree. Closing a window's last pane removes
    /// the window; closing the last pane of the last window empties the
    /// session. Returns `false` if the pane does not exist.
    pub fn close(&mut self, target: PaneId) -> (ok: bool)
        requires
            old(self).wf(),
        ensures
            final(self).wf(),
            ok == ids_of(old(self)@.panes).contains(target),
            !ok ==> final(self)@ == old(self)@,
            ok ==> exists|w: int|
                0 <= w < old(self)@.windows.len() && leaves_of(
                    #[trigger] old(self)@.windows[w].root,
                ).contains(target) && final(self)@ == (SessionView {
                    windows: close_windows(old(self)@.windows, w, target),
                    active: close_active(old(self)@.windows, w, target, old(self)@.active),
                    panes: without_pane(old(self)@.panes, target),
                    next_id: old(self)@.next_id,
                }),
    {
        let idx = match self.window_of(target) {
            None => return false,
            Some(i) => i,
        };
        let ghost v0 = self@;
        let at = match self.find_pane(target) {
            Some(i) => i,
            None => {
                proof {
                    lemma_leaves_ms_contains(v0.windows, idx as int, target);
                    broadcast use vstd::seq_lib::group_to_multiset_ensures;
                }
                return false;
            },
        };
        remove_at(&mut self.panes, at);
        proof {
            self.lemma_window_view(idx as int);
            lemma_close_windows(v0, idx as int, target);
            lemma_remove_leaves(v0.windows[idx as int].root, target);
        }
        let window = self.windows.remove(idx);
        let had_focus = window.focused.same_as(target);
        let Window { root, focused, name } = window;
        let sibling = root.sibling_first(target);
        match root.remove_leaf(target) {
            RemoveOutcome::Removed(root) => {
                let focused = if had_focus {
                    sibling
                } else {
                    focused
                };
                self.windows.insert(idx, Window { root, focused, name });
            },
            RemoveOutcome::LastLeaf => {
                if self.active >= idx && self.active > 0 {
                    self.active -= 1;
                }
            },
            RemoveOutcome::NotFound(root) => {
                proof {
                    assert(false);
                }
                self.windows.insert(idx, Window { root, focused, name });
            },
        }
        proof {
            broadcast use vstd::seq_lib::group_to_multiset_ensures;

            assert(self@.windows =~= close_windows(v0.windows, idx as int, target));
            assert(ids_of(v0.panes)[at as int] == target);
            let ws2 = self@.windows;
            assert forall|k: int| 0 <= k < ws2.len() implies leaves_of(ws2[k].root).contains(
                #[trigger] ws2[k].focused,
            ) by {
                assert(leaves_of(close_windows(v0.windows, idx as int, target)[k].root).contains(
                    close_windows(v0.windows, idx as int, target)[k].focused,
                ));
            }
        }
        true
    }
}


/// A window's line in a snapshot.
pub open spec fn window_line(w: WindowView) -> Seq<char> {
    "window focused="@ + decimal(w.focused.id() as nat) + seq![' '] + node_text(w.root) + seq!['\n']
}

/// The window lines of a snapshot, in window order.
pub open spec fn windows_text(ws: Seq<WindowView>) -> Seq<char>
    decreases ws.len(),
{
    if ws.len() == 0 {
        Seq::empty()
    } else {
        windows_text(ws.drop_last()) + window_line(ws.last())
    }
}

/// The name line of window `i`, when it has a user-set name.
pub open spec fn name_line(i: nat, w: WindowView) -> Seq<char> {
    match w.name {
        Some(n) => "wname "@ + decimal(i) + seq![' '] + one_line(n) + seq!['\n'],
        None => Seq::empty(),
    }
}

/// The name lines of a snapshot, in window order.
pub open spec fn names_text(ws: Seq<WindowView>) -> Seq<char>
    decreases ws.len(),
{
    if ws.len() == 0 {
        Seq::empty()
    } else {
        names_text(ws.drop_last()) + name_line((ws.len() - 1) as nat, ws.last())
    }
}

/// The command line of a pane, when its command is known.
pub open spec fn command_line<T>(p: Pane<T>) -> Seq<char> {
    match p.command {
        Some(c) => "pane "@ + decimal(p.id.id() as nat) + seq![' '] + one_line(c@) + seq!['\n'],
        None => Seq::empty(),
    }
}

/// The command lines of a snapshot, in pane order.
pub open spec fn commands_text<T>(ps: Seq<Pane<T>>) -> Seq<char>
    decreases ps.len(),
{
    if ps.len() == 0 {
        Seq::empty()
    } else {
        commands_text(ps.drop_last()) + command_line(ps.last())
    }
}

/// A session's shape as snapshot text: the header, the windows, the active
/// index, the window names and the pane commands. Agent state is left out:
/// it is re-detected from live screens.
pub open spec fn snapshot_text<T>(v: SessionView<T>) -> Seq<char> {
    "v1\n"@ + windows_text(v.windows) + "active "@ + decimal(v.active) + seq!['\n'] + names_text(
        v.windows,
    ) + commands_text(v.panes)
}

/// A session as a snapshot is read back: its windows, active index, panes
/// (each with its command, in the order they were first seen) and next id.
pub struct RestoreView {
    pub windows: Seq<WindowView>,
    pub active: nat,
    pub panes: Seq<(PaneId, Option<Seq<char>>)>,
    pub next_id: nat,
}

/// The ids of restored panes, in order.
pub open spec fn restored_ids(ps: Seq<(PaneId, Option<Seq<char>>)>) -> Seq<PaneId> {
    ps.map_values(|p: (PaneId, Option<Seq<char>>)| p.0)
}

/// Whether a window's panes can be registered: each once, none already
/// known, none with the largest raw id.
pub open spec fn adoptable(ps: Seq<(PaneId, Option<Seq<char>>)>, root: LayoutNode) -> bool {
    let ls = leaves_of(root);
    &&& ls.no_duplicates()
    &&& forall|i: int|
        0 <= i < ls.len() ==> !restored_ids(ps).contains(#[trigger] ls[i]) && ls[i].id() < u64::MAX
}

/// The next id after registering `ls`, in order: past each of them.
pub open spec fn raised(next: nat, ls: Seq<PaneId>) -> nat
    decreases ls.len(),
{
    if ls.len() == 0 {
        next
    } else {
        raised(max_nat(next, (ls[0].id() + 1) as nat), ls.drop_first())
    }
}

/// The position of pane `id` among restored panes.
pub open spec fn restored_index(ps: Seq<(PaneId, Option<Seq<char>>)>, id: PaneId) -> Option<int>
    decreases ps.len(),
{
    if ps.len() == 0 {
        None
    } else if ps.last().0 == id {
        Some(ps.len() - 1)
    } else {
        restored_index(ps.drop_last(), id)
    }
}

/// What one line does to a session being restored: a window line parses
/// its tree — which must use every token, register only new panes and
/// hold its focus — and appends the window; `active` sets the index;
/// `wname` names an existing window; `pane` gives an existing pane its
/// command; blank lines do nothing, and anything else fails.
pub open spec fn applied(st: RestoreView, line: LineView) -> Option<RestoreView> {
    match line {
        LineView::Window(f, text) => {
            let t = tokens_of(text);
            match node_at(t, 0) {
                Some(p) => if p.1 == t.len() && adoptable(st.panes, p.0) && leaves_of(p.0).contains(
                    PaneId::raw_id(f),
                ) {
                    Some(
                        RestoreView {
                            windows: st.windows.push(
                                WindowView { root: p.0, focused: PaneId::raw_id(f), name: None },
                            ),
                            active: st.active,
                            panes: st.panes + leaves_of(p.0).map_values(
                                |id: PaneId| (id, None::<Seq<char>>),
                            ),
                            next_id: raised(st.next_id, leaves_of(p.0)),
                        },
                    )
                } else {
                    None
                },
                None => None,
            }
        },
        LineView::Active(n) => Some(RestoreView { active: n as nat, ..st }),
        LineView::Name(i, name) => if i < st.windows.len() {
            Some(
                RestoreView {
                    windows: st.windows.update(
                        i as int,
                        WindowView { name: Some(name), ..st.windows[i as int] },
                    ),
                    ..st
                },
            )
        } else {
            None
        },
        LineView::Command(id, cmd) => match restored_index(st.panes, PaneId::raw_id(id)) {
            Some(k) => Some(RestoreView { panes: st.panes.update(k, (PaneId::raw_id(id), Some(cmd))), ..st }),
            None => None,
        },
        LineView::Blank => Some(st),
        LineView::Bad => None,
    }
}

/// A run of lines applied in order; `None` at the first that fails.
pub open spec fn applied_all(st: RestoreView, lines: Seq<Seq<char>>) -> Option<RestoreView>
    decreases lines.len(),
{
    if lines.len() == 0 {
        Some(st)
    } else {
        match applied(st, line_view(lines[0])) {
            Some(next) => applied_all(next, lines.drop_first()),
            None => None,
        }
    }
}

/// Nothing restored yet.
pub open spec fn restore_start() -> RestoreView {
    RestoreView { windows: Seq::empty(), active: 0, panes: Seq::empty(), next_id: 1 }
}

/// What a snapshot text restores to: `None` without the `v1` header, on
/// any line that fails, or when it leaves no windows or an active index
/// out of range.
pub open spec fn restore_spec(text: Seq<char>) -> Option<RestoreView> {
    let lines = text_lines(text);
    if lines.len() == 0 || lines[0] != "v1"@ {
        None
    } else {
        match applied_all(restore_start(), lines.drop_first()) {
            Some(st) => if st.windows.len() > 0 && st.active < st.windows.len() {
                Some(st)
            } else {
                None
            },
            None => None,
        }
    }
}

/// The invariant of a session being restored: panes registered once each,
/// below the next id, exactly the windows' leaves, and each window's focus
/// one of its own panes.
pub open spec fn restore_wf(st: RestoreView) -> bool {
    &&& restored_ids(st.panes).no_duplicates()
    &&& forall|i: int| 0 <= i < st.panes.len() ==> (#[trigger] st.panes[i]).0.id() < st.next_id
    &&& leaves_ms(st.windows) == restored_ids(st.panes).to_multiset()
    &&& forall|w: int|
        0 <= w < st.windows.len() ==> leaves_of(st.windows[w].root).contains(
            #[trigger] st.windows[w].focused,
        )
    &&& st.next_id >= 1
}

/// Whether pane `p` is the restored entry `e`: same id and command, and
/// otherwise as a fresh pane.
pub open spec fn is_restored_pane<T>(p: Pane<T>, e: (PaneId, Option<Seq<char>>)) -> bool {
    &&& p.id == e.0
    &&& name_view(p.command) == e.1
    &&& p.state == AgentState::Idle
    &&& p.reason is None
    &&& p.last_change is None
    &&& p.telemetry is None
    &&& p.title is None
}

/// Whether a session is what a restore view describes: same windows,
/// active index and next id, and its panes (in id order) exactly the
/// restored ones.
pub open spec fn restored_as<T>(s: SessionView<T>, st: RestoreView) -> bool {
    &&& wf_view(s)
    &&& s.windows == st.windows
    &&& s.active == st.active
    &&& s.next_id == st.next_id
    &&& ids_of(s.panes).to_multiset() == restored_ids(st.panes).to_multiset()
    &&& forall|i: int|
        0 <= i < s.panes.len() ==> exists|k: int|
            0 <= k < st.panes.len() && is_restored_pane(#[trigger] s.panes[i], st.panes[k])
}

/// The raised next id is past every registered pane and never lower.
proof fn lemma_raised(next: nat, ls: Seq<PaneId>)
    ensures
        raised(next, ls) >= next,
        forall|i: int| 0 <= i < ls.len() ==> (#[trigger] ls[i]).id() < raised(next, ls),
    decreases ls.len(),
{
    if ls.len() > 0 {
        lemma_raised(max_nat(next, (ls[0].id() + 1) as nat), ls.drop_first());
        assert forall|i: int| 0 <= i < ls.len() implies (#[trigger] ls[i]).id() < raised(next, ls) by {
            if i > 0 {
                assert(ls[i] == ls.drop_first()[i - 1]);
            }
        }
    }
}

/// The restored index finds the one entry with the id.
proof fn lemma_restored_index(ps: Seq<(PaneId, Option<Seq<char>>)>, id: PaneId)
    ensures
        match restored_index(ps, id) {
            Some(k) => 0 <= k < ps.len() && ps[k].0 == id,
            None => !restored_ids(ps).contains(id),
        },
    decreases ps.len(),
{
    if ps.len() > 0 {
        lemma_restored_index(ps.drop_last(), id);
        if ps.last().0 != id {
            match restored_index(ps.drop_last(), id) {
                Some(k) => {
                    assert(ps[k] == ps.drop_last()[k]);
                },
                None => {
                    if restored_ids(ps).contains(id) {
                        let j = choose|j: int| 0 <= j < restored_ids(ps).len() && restored_ids(ps)[j] == id;
                        assert(restored_ids(ps.drop_last())[j] == id);
                    }
                },
            }
        }
    }
}

/// Every line keeps the restore invariant.
proof fn lemma_applied_wf(st: RestoreView, line: LineView)
    requires
        restore_wf(st),
    ensures
        applied(st, line) matches Some(next) ==> restore_wf(next),
{
    broadcast use vstd::seq_lib::group_to_multiset_ensures;
    broadcast use vstd::multiset::group_multiset_axioms;

    match line {
        LineView::Window(f, text) => {
            let t = tokens_of(text);
            match node_at(t, 0) {
                Some(p) => {
                    if p.1 == t.len() && adoptable(st.panes, p.0) && leaves_of(p.0).contains(
                        PaneId::raw_id(f),
                    ) {
                        let next = applied(st, line)->Some_0;
                        let ls = leaves_of(p.0);
                        let added = ls.map_values(|id: PaneId| (id, None::<Seq<char>>));
                        assert(restored_ids(added) =~= ls);
                        assert(restored_ids(next.panes) =~= restored_ids(st.panes) + ls);
                        lemma_raised(st.next_id, ls);
                        assert forall|i: int, j: int|
                            0 <= i < j < restored_ids(next.panes).len() implies restored_ids(next.panes)[i]
                            != restored_ids(next.panes)[j] by {
                            let n = restored_ids(st.panes).len() as int;
                            if j < n {
                            } else if i >= n {
                                assert(ls[i - n] == restored_ids(next.panes)[i]);
                                assert(ls[j - n] == restored_ids(next.panes)[j]);
                            } else {
                                assert(ls[j - n] == restored_ids(next.panes)[j]);
                                assert(restored_ids(st.panes)[i] == restored_ids(next.panes)[i]);
                                assert(restored_ids(st.panes).contains(restored_ids(next.panes)[i]));
                            }
                        }
                        assert forall|i: int| 0 <= i < next.panes.len() implies (#[trigger] next.panes[i]).0.id()
                            < next.next_id by {
                            let n = st.panes.len() as int;
                            if i < n {
                                assert(next.panes[i] == st.panes[i]);
                            } else {
                                assert(next.panes[i].0 == ls[i - n]);
                            }
                        }
                        vstd::seq_lib::lemma_multiset_commutative(restored_ids(st.panes), ls);
                        lemma_leaves_ms_concat(
                            st.windows,
                            seq![WindowView { root: p.0, focused: PaneId::raw_id(f), name: None }],
                        );
                        lemma_leaves_ms_one(WindowView { root: p.0, focused: PaneId::raw_id(f), name: None });
                        assert(next.windows =~= st.windows + seq![
                            WindowView { root: p.0, focused: PaneId::raw_id(f), name: None },
                        ]);
                        assert forall|w: int| 0 <= w < next.windows.len() implies leaves_of(
                            next.windows[w].root,
                        ).contains(#[trigger] next.windows[w].focused) by {
                            if w < st.windows.len() {
                                assert(next.windows[w] == st.windows[w]);
                            }
                        }
                    }
                },
                None => {},
            }
        },
        LineView::Active(n) => {},
        LineView::Name(i, name) => {
            if i < st.windows.len() {
                let next = applied(st, line)->Some_0;
                lemma_leaves_ms_at(st.windows, i as int);
                lemma_leaves_ms_at(next.windows, i as int);
                assert(next.windows.take(i as int) =~= st.windows.take(i as int));
                assert(next.windows.skip(i + 1) =~= st.windows.skip(i + 1));
                assert forall|w: int| 0 <= w < next.windows.len() implies leaves_of(
                    next.windows[w].root,
                ).contains(#[trigger] next.windows[w].focused) by {
                    assert(next.windows[w].root == st.windows[w].root);
                    assert(next.windows[w].focused == st.windows[w].focused);
                }
            }
        },
        LineView::Command(id, cmd) => {
            lemma_restored_index(st.panes, PaneId::raw_id(id));
            match restored_index(st.panes, PaneId::raw_id(id)) {
                Some(k) => {
                    let next = applied(st, line)->Some_0;
                    assert(restored_ids(next.panes) =~= restored_ids(st.panes));
                    assert forall|i: int| 0 <= i < next.panes.len() implies (#[trigger] next.panes[i]).0.id()
                        < next.next_id by {
                        assert(next.panes[i].0 == restored_ids(next.panes)[i]);
                        assert(st.panes[i].0 == restored_ids(st.panes)[i]);
                    }
                },
                None => {},
            }
        },
        LineView::Blank => {},
        LineView::Bad => {},
    }
}


impl<T> Session<T> {
    /// Serialize the session's shape — windows, split trees, focus, the
    /// active window, window names and each pane's command — into text that
    /// [`Session::restore`] rebuilds, pane ids preserved. Names and
    /// commands are kept to one line each.
    pub fn snapshot(&self) -> (s: String)
        requires
            self.wf(),
        ensures
            s@ == snapshot_text(self@),
    {
        let ghost v = self@;
        let mut out: Vec<char> = chars_of("v1\n");
        let mut i: usize = 0;
        while i < self.windows.len()
            invariant
                v == self@,
                i <= self.windows@.len(),
                out@ == "v1\n"@ + windows_text(v.windows.take(i as int)),
            decreases self.windows@.len() - i,
        {
            let w = &self.windows[i];
            let mut head = chars_of("window focused=");
            out.append(&mut head);
            push_decimal(&mut out, w.focused.raw());
            out.push(' ');
            write_node(&mut out, &w.root);
            out.push('\n');
            proof {
                assert(v.windows.take(i + 1).drop_last() =~= v.windows.take(i as int));
                assert(v.windows[i as int] == w.view());
                assert(out@ =~= "v1\n"@ + windows_text(v.windows.take(i + 1)));
            }
            i += 1;
        }
        assert(v.windows.take(v.windows.len() as int) =~= v.windows);
        let ghost after_windows = out@;
        let mut head = chars_of("active ");
        out.append(&mut head);
        push_decimal(&mut out, self.active as u64);
        out.push('\n');
        let ghost before_names = out@;
        assert(before_names =~= "v1\n"@ + windows_text(v.windows) + "active "@ + decimal(v.active) + seq!['\n']);
        let mut i: usize = 0;
        while i < self.windows.len()
            invariant
                v == self@,
                i <= self.windows@.len(),
                out@ == before_names + names_text(v.windows.take(i as int)),
            decreases self.windows@.len() - i,
        {
            let w = &self.windows[i];
            proof {
                assert(v.windows.take(i + 1).drop_last() =~= v.windows.take(i as int));
                assert(v.windows[i as int] == w.view());
                assert(v.windows.take(i + 1).last() == w.view());
            }
            match &w.name {
                Some(n) => {
                    let mut head = chars_of("wname ");
                    out.append(&mut head);
                    push_decimal(&mut out, i as u64);
                    out.push(' ');
                    let name = chars_of(n.as_str());
                    push_one_line(&mut out, name.as_slice());
                    out.push('\n');
                },
                None => {},
            }
            assert(out@ =~= before_names + names_text(v.windows.take(i + 1)));
            i += 1;
        }
        assert(v.windows.take(v.windows.len() as int) =~= v.windows);
        let ghost before_panes = out@;
        let mut i: usize = 0;
        while i < self.panes.len()
            invariant
                v == self@,
                i <= self.panes@.len(),
                out@ == before_panes + commands_text(v.panes.take(i as int)),
            decreases self.panes@.len() - i,
        {
            let p = &self.panes[i];
            proof {
                assert(v.panes.take(i + 1).drop_last() =~= v.panes.take(i as int));
                assert(v.panes.take(i + 1).last() == *p);
            }
            match &p.command {
                Some(cmd) => {
                    let mut head = chars_of("pane ");
                    out.append(&mut head);
                    push_decimal(&mut out, p.id.raw());
                    out.push(' ');
                    let text = chars_of(cmd.as_str());
                    push_one_line(&mut out, text.as_slice());
                    out.push('\n');
                },
                None => {},
            }
            assert(out@ =~= before_panes + commands_text(v.panes.take(i + 1)));
            i += 1;
        }
        assert(v.panes.take(v.panes.len() as int) =~= v.panes);
        assert(out@ =~= snapshot_text(v));
        string_from_chars(out.as_slice())
    }
}


/// A window whose leaf `i` is already registered or has the largest raw
/// id cannot be adopted; nor one whose leaves `i` and `j` are the same.
proof fn lemma_not_adoptable(ps: Seq<(PaneId, Option<Seq<char>>)>, root: LayoutNode, i: int, j: int)
    requires
        0 <= i < leaves_of(root).len(),
        0 <= j < leaves_of(root).len(),
        restored_ids(ps).contains(leaves_of(root)[i]) || leaves_of(root)[i].id() == u64::MAX || (i != j
            && leaves_of(root)[i] == leaves_of(root)[j]),
    ensures
        !adoptable(ps, root),
{
    let ls = leaves_of(root);
    if restored_ids(ps).contains(ls[i]) || ls[i].id() == u64::MAX {
        assert(!(!restored_ids(ps).contains(ls[i]) && ls[i].id() < u64::MAX));
    }
}

/// Restored panes as plain values.
pub open spec fn order_view(o: Seq<(PaneId, Option<String>)>) -> Seq<(PaneId, Option<Seq<char>>)> {
    o.map_values(|e: (PaneId, Option<String>)| (e.0, name_view(e.1)))
}

/// A session being restored, line by line.
struct Restoring {
    windows: Vec<Window>,
    active: usize,
    order: Vec<(PaneId, Option<String>)>,
    next_id: u64,
}

impl Restoring {
    spec fn view(&self) -> RestoreView {
        RestoreView {
            windows: self.windows@.map_values(|w: Window| w.view()),
            active: self.active as nat,
            panes: order_view(self.order@),
            next_id: self.next_id as nat,
        }
    }

    /// The position of pane `id` among the restored panes, searching from
    /// the last.
    fn find(&self, id: PaneId) -> (r: Option<usize>)
        ensures
            match r {
                Some(k) => restored_index(self.view().panes, id) == Some(k as int),
                None => restored_index(self.view().panes, id) is None,
            },
    {
        let ghost ps = self.view().panes;
        let mut k: usize = self.order.len();
        assert(ps.take(k as int) =~= ps);
        while k > 0
            invariant
                k <= self.order@.len(),
                ps == self.view().panes,
                restored_index(ps, id) == restored_index(ps.take(k as int), id),
            decreases k,
        {
            assert(ps.take(k as int).last() == ps[k - 1]);
            assert(ps.take(k as int).drop_last() =~= ps.take(k - 1));
            if self.order[k - 1].0.same_as(id) {
                return Some(k - 1);
            }
            k -= 1;
        }
        assert(ps.take(0) =~= Seq::<(PaneId, Option<Seq<char>>)>::empty());
        None
    }

    /// Apply a window line: parse its tree, check it and register its panes.
    fn apply_window(&mut self, f: u64, text: Vec<char>) -> (ok: bool)
        requires
            restore_wf(old(self).view()),
        ensures
            ok == applied(old(self).view(), LineView::Window(f, text@)) is Some,
            ok ==> final(self).view() == applied(old(self).view(), LineView::Window(f, text@))->Some_0,
    {
        let ghost st = self.view();
        let tokens = tokenize(text.as_slice());
        let (root, j) = match parse_node(&tokens, 0) {
            Some(p) => p,
            None => return false,
        };
        if j != tokens.len() {
            return false;
        }
        assert(tokens.deep_view() == tokens_of(text@));
        let leaves = root.leaves();
        let ghost ls = leaves_of(root);
        let mut a: usize = 0;
        while a < leaves.len()
            invariant
                a <= leaves@.len(),
                leaves@ == ls,
                ls == leaves_of(root),
                st == self.view(),
                st == old(self).view(),
                node_at(tokens_of(text@), 0) == Some((root, j as int)),
                j == tokens_of(text@).len(),
                forall|b: int| 0 <= b < a ==> !restored_ids(st.panes).contains(#[trigger] ls[b]) && ls[b].id() < u64::MAX,
                forall|b: int, c: int| 0 <= b < c < a ==> ls[b] != ls[c],
            decreases leaves@.len() - a,
        {
            let id = leaves[a];
            if id.raw() == u64::MAX {
                proof {
                    lemma_not_adoptable(st.panes, root, a as int, a as int);
                }
                return false;
            }
            proof {
                lemma_restored_index(st.panes, id);
            }
            match self.find(id) {
                Some(k) => {
                    proof {
                        assert(restored_ids(st.panes)[k as int] == id);
                        lemma_not_adoptable(st.panes, root, a as int, a as int);
                    }
                    return false;
                },
                None => {},
            }
            let mut b: usize = 0;
            while b < a
                invariant
                    b <= a < leaves@.len(),
                    leaves@ == ls,
                    ls == leaves_of(root),
                    id == ls[a as int],
                    st == self.view(),
                    st == old(self).view(),
                    node_at(tokens_of(text@), 0) == Some((root, j as int)),
                    j == tokens_of(text@).len(),
                    root == root,
                    forall|q: int| 0 <= q < b ==> ls[q] != id,
                decreases a - b,
            {
                if leaves[b].same_as(id) {
                    proof {
                        lemma_not_adoptable(st.panes, root, a as int, b as int);
                    }
                    return false;
                }
                b += 1;
            }
            a += 1;
        }
        let focused = PaneId::from_raw(f);
        proof {
            PaneId::lemma_raw_id(focused, f);
        }
        assert(adoptable(st.panes, root));
        if !contains_id(&leaves, focused) {
            return false;
        }
        let ghost before = self.order@;
        assert(ls.skip(0) =~= ls);
        assert(ls.take(0).map_values(|id: PaneId| (id, None::<String>)) =~= Seq::<(PaneId, Option<String>)>::empty());
        assert(before =~= before + Seq::<(PaneId, Option<String>)>::empty());
        let mut b: usize = 0;
        while b < leaves.len()
            invariant
                b <= leaves@.len(),
                leaves@ == ls,
                self.order@ == before + ls.take(b as int).map_values(|id: PaneId| (id, None::<String>)),
                raised(st.next_id, ls) == raised(self.next_id as nat, ls.skip(b as int)),
                self.windows@ == old(self).windows@,
                self.active == old(self).active,
                forall|q: int| 0 <= q < ls.len() ==> (#[trigger] ls[q]).id() < u64::MAX,
            decreases leaves@.len() - b,
        {
            let id = leaves[b];
            self.order.push((id, None));
            proof {
                assert(ls.skip(b as int).drop_first() =~= ls.skip(b + 1));
                assert(ls.skip(b as int)[0] == id);
                assert(ls.take(b + 1).map_values(|id: PaneId| (id, None::<String>)) =~= ls.take(b as int).map_values(
                    |id: PaneId| (id, None::<String>),
                ).push((id, None::<String>)));
            }
            if self.next_id < id.raw() + 1 {
                self.next_id = id.raw() + 1;
            }
            b += 1;
        }
        proof {
            assert(ls.take(ls.len() as int) =~= ls);
            assert(ls.skip(ls.len() as int) =~= Seq::<PaneId>::empty());
            assert(order_view(self.order@) =~= st.panes + ls.map_values(|id: PaneId| (id, None::<Seq<char>>)));
            assert(ls.no_duplicates());
        }
        self.windows.push(Window { root, focused, name: None });
        proof {
            assert(self.view().windows =~= st.windows.push(WindowView { root, focused, name: None }));
        }
        true
    }

    /// Apply one line.
    fn apply(&mut self, line: Line) -> (ok: bool)
        requires
            restore_wf(old(self).view()),
        ensures
            ok == applied(old(self).view(), line.view()) is Some,
            ok ==> final(self).view() == applied(old(self).view(), line.view())->Some_0,
    {
        match line {
            Line::Window(f, text) => {
                let ghost lv = LineView::Window(f, text@);
                assert(lv == line.view());
                let ok = self.apply_window(f, text);
                assert(ok ==> self.view() == applied(old(self).view(), lv)->Some_0);
                ok
            },
            Line::Active(n) => {
                self.active = n;
                true
            },
            Line::Name(i, name) => {
                if i >= self.windows.len() {
                    return false;
                }
                let ghost st = self.view();
                let mut w = self.windows.remove(i);
                w.name = Some(string_from_chars(name.as_slice()));
                self.windows.insert(i, w);
                assert(self.view().windows =~= st.windows.update(
                    i as int,
                    WindowView { name: Some(name@), ..st.windows[i as int] },
                ));
                true
            },
            Line::Command(id, cmd) => {
                let pid = PaneId::from_raw(id);
                proof {
                    PaneId::lemma_raw_id(pid, id);
                }
                proof {
                    lemma_restored_index(self.view().panes, pid);
                }
                match self.find(pid) {
                    Some(k) => {
                        let ghost st = self.view();
                        self.order.set(k, (pid, Some(string_from_chars(cmd.as_slice()))));
                        assert(self.view().panes =~= st.panes.update(k as int, (pid, Some(cmd@))));
                        true
                    },
                    None => false,
                }
            },
            Line::Blank => true,
            Line::Bad => false,
        }
    }
}

/// Whether two runs of chars are the same.
fn same_chars(a: &[char], b: &[char]) -> (r: bool)
    ensures
        r == (a@ == b@),
{
    if a.len() != b.len() {
        return false;
    }
    let mut i: usize = 0;
    while i < a.len()
        invariant
            a@.len() == b@.len(),
            i <= a@.len(),
            forall|j: int| 0 <= j < i ==> a@[j] == b@[j],
        decreases a@.len() - i,
    {
        if a[i] != b[i] {
            return false;
        }
        i += 1;
    }
    assert(a@ =~= b@);
    true
}

impl<T> Session<T> {
    /// Rebuild a session from [`Session::snapshot`] text: `None` for
    /// anything malformed (see [`restore_spec`]) or a snapshot with no
    /// windows. Panes come back with their commands and otherwise fresh.
    pub fn restore(text: &str) -> (r: Option<Session<T>>)
        ensures
            match restore_spec(text@) {
                Some(st) => r is Some && restored_as(r->Some_0@, st),
                None => r is None,
            },
    {
        broadcast use vstd::seq_lib::group_to_multiset_ensures;
        broadcast use vstd::multiset::group_multiset_axioms;

        let chars = chars_of(text);
        let lines = split_lines(chars.as_slice());
        let ghost ls = text_lines(text@);
        assert(lines.deep_view() == ls);
        if lines.len() == 0 {
            return None;
        }
        let header = chars_of("v1");
        assert(lines.deep_view()[0] == lines@[0]@);
        if !same_chars(lines[0].as_slice(), header.as_slice()) {
            return None;
        }
        let mut st = Restoring { windows: Vec::new(), active: 0, order: Vec::new(), next_id: 1 };
        assert(st.view().windows =~= Seq::<WindowView>::empty());
        assert(st.view().panes =~= Seq::<(PaneId, Option<Seq<char>>)>::empty());
        assert(leaves_ms(Seq::<WindowView>::empty()) =~= Multiset::<PaneId>::empty());
        assert(restored_ids(st.view().panes) =~= Seq::<PaneId>::empty());
        assert(restored_ids(st.view().panes).to_multiset() =~= Multiset::<PaneId>::empty());
        assert(st.view() == restore_start());
        assert(ls.drop_first() =~= ls.skip(1));
        let mut k: usize = 1;
        while k < lines.len()
            invariant
                1 <= k <= lines@.len(),
                lines.deep_view() == ls,
                ls == text_lines(text@),
                ls[0] == "v1"@,
                restore_wf(st.view()),
                applied_all(restore_start(), ls.drop_first()) == applied_all(st.view(), ls.skip(k as int)),
            decreases lines@.len() - k,
        {
            let line = read_line(lines[k].as_slice());
            proof {
                assert(lines.deep_view()[k as int] == lines@[k as int]@);
                assert(ls.skip(k as int)[0] == ls[k as int]);
                assert(ls.skip(k as int).drop_first() =~= ls.skip(k + 1));
                lemma_applied_wf(st.view(), line.view());
            }
            let ghost before = st.view();
            let ghost lv = line.view();
            assert(lv == line_view(ls.skip(k as int)[0]));
            if !st.apply(line) {
                assert(applied_all(before, ls.skip(k as int)) is None);
                return None;
            }
            assert(applied_all(before, ls.skip(k as int)) == applied_all(st.view(), ls.skip(k + 1)));
            k += 1;
        }
        assert(ls.skip(k as int) =~= Seq::<Seq<char>>::empty());
        let ghost fin = st.view();
        if st.windows.len() == 0 || st.active >= st.windows.len() {
            return None;
        }
        let mut panes: Vec<Pane<T>> = Vec::new();
        let mut q: usize = 0;
        while q < st.order.len()
            invariant
                q <= st.order@.len(),
                fin == st.view(),
                restore_wf(fin),
                sorted_ids(panes@),
                ids_of(panes@).to_multiset() == restored_ids(fin.panes.take(q as int)).to_multiset(),
                forall|i: int|
                    0 <= i < panes@.len() ==> exists|j: int|
                        0 <= j < q && is_restored_pane(#[trigger] panes@[i], fin.panes[j]),
            decreases st.order@.len() - q,
        {
            let id = st.order[q].0;
            let command = match &st.order[q].1 {
                Some(s) => Some(s.clone()),
                None => None,
            };
            let pane = Pane { id, command, state: AgentState::Idle, reason: None, last_change: None, telemetry: None, title: None };
            proof {
                let ids = restored_ids(fin.panes);
                assert(restored_ids(fin.panes.take(q as int)) =~= ids.take(q as int));
                assert(restored_ids(fin.panes.take(q + 1)) =~= ids.take(q as int).push(id));
                assert(ids[q as int] == id);
                assert(!ids.take(q as int).contains(id)) by {
                    if ids.take(q as int).contains(id) {
                        let j = choose|j: int| 0 <= j < ids.take(q as int).len() && ids.take(q as int)[j] == id;
                        assert(ids[j] == ids.take(q as int)[j]);
                        assert(ids.no_duplicates());
                        assert(ids[j] == ids[q as int]);
                    }
                }
                vstd::seq_lib::to_multiset_contains(ids.take(q as int), id);
                vstd::seq_lib::to_multiset_contains(ids_of(panes@), id);
                assert(!ids_of(panes@).contains(id));
                assert(is_restored_pane(pane, fin.panes[q as int]));
            }
            let ghost old_panes = panes@;
            let at = insert_sorted(&mut panes, pane);
            proof {
                let ids = restored_ids(fin.panes);
                assert(restored_ids(fin.panes.take(q + 1)) =~= ids.take(q as int).push(id));
                vstd::seq_lib::to_multiset_build(ids.take(q as int), id);
                assert(restored_ids(fin.panes.take(q as int)) =~= ids.take(q as int));
                assert forall|i: int| 0 <= i < panes@.len() implies exists|j: int|
                    0 <= j < q + 1 && is_restored_pane(#[trigger] panes@[i], fin.panes[j]) by {
                    if i < at {
                        assert(panes@[i] == old_panes[i]);
                    } else if i == at {
                        assert(is_restored_pane(panes@[i], fin.panes[q as int]));
                    } else {
                        assert(panes@[i] == old_panes[i - 1]);
                    }
                }
            }
            q += 1;
        }
        assert(fin.panes.take(q as int) =~= fin.panes);
        let session = Session { windows: st.windows, active: st.active, panes, next_id: st.next_id };
        proof {
            let s = session@;
            assert(s.windows == fin.windows);
            assert forall|i: int| 0 <= i < s.panes.len() implies s.panes[i].id.id() < s.next_id by {
                let j = choose|j: int| 0 <= j < fin.panes.len() && is_restored_pane(#[trigger] s.panes[i], fin.panes[j]);
                assert(fin.panes[j].0.id() < fin.next_id);
            }
        }
        Some(session)
    }
}


/// A window's line in a snapshot, without its newline.
pub open spec fn window_content(w: WindowView) -> Seq<char> {
    "window focused="@ + decimal(w.focused.id() as nat) + seq![' '] + node_text(w.root)
}

/// The name lines of a snapshot, without their newlines.
pub open spec fn name_contents(ws: Seq<WindowView>) -> Seq<Seq<char>>
    decreases ws.len(),
{
    if ws.len() == 0 {
        Seq::empty()
    } else {
        name_contents(ws.drop_last()) + match ws.last().name {
            Some(n) => seq!["wname "@ + decimal((ws.len() - 1) as nat) + seq![' '] + one_line(n)],
            None => Seq::empty(),
        }
    }
}

/// The command lines of a snapshot, without their newlines.
pub open spec fn command_contents<T>(ps: Seq<Pane<T>>) -> Seq<Seq<char>>
    decreases ps.len(),
{
    if ps.len() == 0 {
        Seq::empty()
    } else {
        command_contents(ps.drop_last()) + match ps.last().command {
            Some(c) => seq!["pane "@ + decimal(ps.last().id.id() as nat) + seq![' '] + one_line(c@)],
            None => Seq::empty(),
        }
    }
}

/// The lines of a snapshot.
pub open spec fn snapshot_lines<T>(v: SessionView<T>) -> Seq<Seq<char>> {
    seq!["v1"@] + v.windows.map_values(|w: WindowView| window_content(w)) + seq![
        "active "@ + decimal(v.active),
    ] + name_contents(v.windows) + command_contents(v.panes)
}

proof fn lemma_windows_joined(ws: Seq<WindowView>)
    ensures
        windows_text(ws) == joined(ws.map_values(|w: WindowView| window_content(w))),
    decreases ws.len(),
{
    if ws.len() > 0 {
        lemma_windows_joined(ws.drop_last());
        let m = ws.map_values(|w: WindowView| window_content(w));
        assert(m.drop_last() =~= ws.drop_last().map_values(|w: WindowView| window_content(w)));
        assert(window_line(ws.last()) =~= window_content(ws.last()).push('\n'));
    }
}

proof fn lemma_names_joined(ws: Seq<WindowView>)
    ensures
        names_text(ws) == joined(name_contents(ws)),
    decreases ws.len(),
{
    if ws.len() > 0 {
        lemma_names_joined(ws.drop_last());
        let tail = match ws.last().name {
            Some(n) => seq!["wname "@ + decimal((ws.len() - 1) as nat) + seq![' '] + one_line(n)],
            None => Seq::<Seq<char>>::empty(),
        };
        lemma_joined_concat(name_contents(ws.drop_last()), tail);
        match ws.last().name {
            Some(n) => {
                lemma_joined_one("wname "@ + decimal((ws.len() - 1) as nat) + seq![' '] + one_line(n));
                assert(joined(tail) =~= ("wname "@ + decimal((ws.len() - 1) as nat) + seq![' '] + one_line(n)).push('\n'));
            },
            None => {
                assert(joined(name_contents(ws.drop_last())) + joined(tail) =~= joined(name_contents(ws.drop_last())));
                assert(name_line((ws.len() - 1) as nat, ws.last()) =~= Seq::<char>::empty());
            },
        }
    }
}

proof fn lemma_commands_joined<T>(ps: Seq<Pane<T>>)
    ensures
        commands_text(ps) == joined(command_contents(ps)),
    decreases ps.len(),
{
    if ps.len() > 0 {
        lemma_commands_joined(ps.drop_last());
        let tail = match ps.last().command {
            Some(c) => seq!["pane "@ + decimal(ps.last().id.id() as nat) + seq![' '] + one_line(c@)],
            None => Seq::<Seq<char>>::empty(),
        };
        lemma_joined_concat(command_contents(ps.drop_last()), tail);
        match ps.last().command {
            Some(c) => {
                lemma_joined_one("pane "@ + decimal(ps.last().id.id() as nat) + seq![' '] + one_line(c@));
                assert(joined(tail) =~= ("pane "@ + decimal(ps.last().id.id() as nat) + seq![' '] + one_line(c@)).push('\n'));
            },
            None => {
                assert(joined(command_contents(ps.drop_last())) + joined(tail) =~= joined(command_contents(ps.drop_last())));
                assert(command_line(ps.last()) =~= Seq::<char>::empty());
            },
        }
    }
}

/// A snapshot is its lines, each ended by a newline.
proof fn lemma_snapshot_joined<T>(v: SessionView<T>)
    ensures
        snapshot_text(v) == joined(snapshot_lines(v)),
{
    let wc = v.windows.map_values(|w: WindowView| window_content(w));
    let act = seq!["active "@ + decimal(v.active)];
    lemma_windows_joined(v.windows);
    lemma_names_joined(v.windows);
    lemma_commands_joined(v.panes);
    lemma_joined_concat(seq!["v1"@] + wc + act + name_contents(v.windows), command_contents(v.panes));
    lemma_joined_concat(seq!["v1"@] + wc + act, name_contents(v.windows));
    lemma_joined_concat(seq!["v1"@] + wc, act);
    lemma_joined_concat(seq!["v1"@], wc);
    reveal_strlit("v1\n");
    reveal_strlit("v1");
    lemma_joined_one("v1"@);
    assert(joined(seq!["v1"@]) =~= "v1\n"@);
    lemma_joined_one("active "@ + decimal(v.active));
    assert(joined(act) =~= "active "@ + decimal(v.active) + seq!['\n']);
    assert(snapshot_text(v) =~= joined(snapshot_lines(v)));
}


/// Whether a name or command stays one line through a snapshot: no
/// newline and no carriage return in it.
pub open spec fn one_liner(s: Seq<char>) -> bool {
    !s.contains('\n') && !s.contains('\r')
}

/// Whether a text holds neither a newline nor a carriage return.
spec fn no_breaks(s: Seq<char>) -> bool {
    forall|i: int| 0 <= i < s.len() ==> #[trigger] s[i] != '\n' && s[i] != '\r'
}

proof fn lemma_no_breaks_concat(a: Seq<char>, b: Seq<char>)
    requires
        no_breaks(a),
        no_breaks(b),
    ensures
        no_breaks(a + b),
{
    assert forall|i: int| 0 <= i < (a + b).len() implies #[trigger] (a + b)[i] != '\n' && (a + b)[i] != '\r' by {
        if i < a.len() {
            assert((a + b)[i] == a[i]);
        } else {
            assert((a + b)[i] == b[i - a.len()]);
        }
    }
}

proof fn lemma_no_breaks_literals()
    ensures
        no_breaks("window focused="@),
        no_breaks("active "@),
        no_breaks("wname "@),
        no_breaks("pane "@),
        no_breaks("v1"@),
        no_breaks(seq![' ']),
{
    reveal_strlit("window focused=");
    reveal_strlit("active ");
    reveal_strlit("wname ");
    reveal_strlit("pane ");
    reveal_strlit("v1");
}

proof fn lemma_no_breaks_decimal(n: nat)
    ensures
        no_breaks(decimal(n)),
        decimal(n).len() > 0,
        decimal(n).last() != '\r',
{
    crate::snapshot::lemma_decimal_digits(n);
    assert forall|i: int| 0 <= i < decimal(n).len() implies #[trigger] decimal(n)[i] != '\n' && decimal(n)[i] != '\r' by {
        assert(crate::snapshot::is_digit(decimal(n)[i]));
    }
    assert(decimal(n).last() == decimal(n)[decimal(n).len() - 1]);
}

/// A one-liner is kept as it is.
proof fn lemma_one_line_keeps(s: Seq<char>)
    requires
        one_liner(s),
    ensures
        one_line(s) == s,
        no_breaks(s),
{
    assert forall|i: int| 0 <= i < s.len() implies #[trigger] s[i] != '\n' && s[i] != '\r' by {
        if s[i] == '\n' || s[i] == '\r' {
            assert(s.contains(s[i]));
        }
    }
    assert(one_line(s) =~= s);
}

/// A text without breaks reads back as one line.
proof fn lemma_plain(s: Seq<char>)
    requires
        no_breaks(s),
    ensures
        plain_line(s),
{
    if s.contains('\n') {
        let i = choose|i: int| 0 <= i < s.len() && s[i] == '\n';
        assert(s[i] != '\n');
    }
    if s.len() > 0 {
        assert(s.last() == s[s.len() - 1]);
    }
}

/// Whether a session can go through a snapshot unchanged: it has a
/// window, its split ratios are at most the whole axis, and its names and
/// commands are one-liners.
pub open spec fn snapshot_safe<T>(v: SessionView<T>) -> bool {
    &&& v.windows.len() > 0
    &&& v.windows.len() <= usize::MAX
    &&& forall|w: int| 0 <= w < v.windows.len() ==> ratios_ok(#[trigger] v.windows[w].root)
    &&& forall|w: int|
        0 <= w < v.windows.len() ==> ((#[trigger] v.windows[w]).name matches Some(n) ==> one_liner(n))
    &&& forall|p: int| 0 <= p < v.panes.len() ==> ((#[trigger] v.panes[p]).command matches Some(c) ==> one_liner(c@))
}

/// Every line of a safe session's snapshot reads back as itself.
proof fn lemma_snapshot_lines_plain<T>(v: SessionView<T>)
    requires
        snapshot_safe(v),
    ensures
        forall|i: int| 0 <= i < snapshot_lines(v).len() ==> plain_line(#[trigger] snapshot_lines(v)[i]),
{
    lemma_no_breaks_literals();
    let wc = v.windows.map_values(|w: WindowView| window_content(w));
    assert forall|i: int| 0 <= i < wc.len() implies no_breaks(#[trigger] wc[i]) by {
        let w = v.windows[i];
        lemma_node_text_plain(w.root);
        lemma_no_breaks_decimal(w.focused.id() as nat);
        lemma_no_breaks_concat("window focused="@, decimal(w.focused.id() as nat));
        lemma_no_breaks_concat("window focused="@ + decimal(w.focused.id() as nat), seq![' ']);
        lemma_no_breaks_concat("window focused="@ + decimal(w.focused.id() as nat) + seq![' '], node_text(w.root));
    }
    lemma_names_plain(v.windows);
    lemma_commands_plain(v.panes);
    lemma_no_breaks_decimal(v.active);
    lemma_no_breaks_concat("active "@, decimal(v.active));
    let lines = snapshot_lines(v);
    let n1 = 1 + wc.len();
    let n2 = n1 + 1;
    let n3 = n2 + name_contents(v.windows).len();
    assert forall|i: int| 0 <= i < lines.len() implies plain_line(#[trigger] lines[i]) by {
        if i == 0 {
            assert(lines[i] == "v1"@);
            lemma_plain("v1"@);
        } else if i < n1 {
            assert(lines[i] == wc[i - 1]);
            lemma_plain(wc[i - 1]);
        } else if i == n1 {
            assert(lines[i] == "active "@ + decimal(v.active));
            lemma_plain("active "@ + decimal(v.active));
        } else if i < n3 {
            assert(lines[i] == name_contents(v.windows)[i - n2]);
        } else {
            assert(lines[i] == command_contents(v.panes)[i - n3]);
        }
    }
}

proof fn lemma_names_plain(ws: Seq<WindowView>)
    requires
        forall|w: int| 0 <= w < ws.len() ==> ((#[trigger] ws[w]).name matches Some(n) ==> one_liner(n)),
    ensures
        forall|i: int| 0 <= i < name_contents(ws).len() ==> plain_line(#[trigger] name_contents(ws)[i]),
    decreases ws.len(),
{
    if ws.len() > 0 {
        let init = ws.drop_last();
        assert forall|w: int| 0 <= w < init.len() implies ((#[trigger] init[w]).name matches Some(n) ==> one_liner(n)) by {
            assert(init[w] == ws[w]);
        }
        lemma_names_plain(init);
        assert(ws.last() == ws[ws.len() - 1]);
        match ws.last().name {
            Some(n) => {
                lemma_no_breaks_literals();
                lemma_one_line_keeps(n);
                let k = (ws.len() - 1) as nat;
                lemma_no_breaks_decimal(k);
                lemma_no_breaks_concat("wname "@, decimal(k));
                lemma_no_breaks_concat("wname "@ + decimal(k), seq![' ']);
                lemma_no_breaks_concat("wname "@ + decimal(k) + seq![' '], one_line(n));
                lemma_plain("wname "@ + decimal(k) + seq![' '] + one_line(n));
                let all = name_contents(ws);
                assert forall|i: int| 0 <= i < all.len() implies plain_line(#[trigger] all[i]) by {
                    if i < name_contents(init).len() {
                        assert(all[i] == name_contents(init)[i]);
                    }
                }
            },
            None => {
                assert(name_contents(ws) =~= name_contents(init));
            },
        }
    }
}

proof fn lemma_commands_plain<T>(ps: Seq<Pane<T>>)
    requires
        forall|p: int| 0 <= p < ps.len() ==> ((#[trigger] ps[p]).command matches Some(c) ==> one_liner(c@)),
    ensures
        forall|i: int| 0 <= i < command_contents(ps).len() ==> plain_line(#[trigger] command_contents(ps)[i]),
    decreases ps.len(),
{
    if ps.len() > 0 {
        let init = ps.drop_last();
        assert forall|p: int| 0 <= p < init.len() implies ((#[trigger] init[p]).command matches Some(c) ==> one_liner(c@)) by {
            assert(init[p] == ps[p]);
        }
        lemma_commands_plain(init);
        assert(ps.last() == ps[ps.len() - 1]);
        match ps.last().command {
            Some(c) => {
                lemma_no_breaks_literals();
                lemma_one_line_keeps(c@);
                let k = ps.last().id.id() as nat;
                lemma_no_breaks_decimal(k);
                lemma_no_breaks_concat("pane "@, decimal(k));
                lemma_no_breaks_concat("pane "@ + decimal(k), seq![' ']);
                lemma_no_breaks_concat("pane "@ + decimal(k) + seq![' '], one_line(c@));
                lemma_plain("pane "@ + decimal(k) + seq![' '] + one_line(c@));
                let all = command_contents(ps);
                assert forall|i: int| 0 <= i < all.len() implies plain_line(#[trigger] all[i]) by {
                    if i < command_contents(init).len() {
                        assert(all[i] == command_contents(init)[i]);
                    }
                }
            },
            None => {
                assert(command_contents(ps) =~= command_contents(init));
            },
        }
    }
}

/// Applying a run of lines that is two runs: the first, then the second.
proof fn lemma_applied_all_concat(st: RestoreView, a: Seq<Seq<char>>, b: Seq<Seq<char>>)
    ensures
        applied_all(st, a + b) == match applied_all(st, a) {
            Some(s) => applied_all(s, b),
            None => None,
        },
    decreases a.len(),
{
    if a.len() == 0 {
        assert(a + b =~= b);
    } else {
        assert((a + b)[0] == a[0]);
        assert((a + b).drop_first() =~= a.drop_first() + b);
        match applied(st, line_view(a[0])) {
            Some(next) => lemma_applied_all_concat(next, a.drop_first(), b),
            None => {},
        }
    }
}


/// All the leaves of all the windows, in window order.
pub open spec fn all_leaves(ws: Seq<WindowView>) -> Seq<PaneId>
    decreases ws.len(),
{
    if ws.len() == 0 {
        Seq::empty()
    } else {
        all_leaves(ws.drop_last()) + leaves_of(ws.last().root)
    }
}

/// A window without its name.
pub open spec fn unnamed(w: WindowView) -> WindowView {
    WindowView { root: w.root, focused: w.focused, name: None }
}

/// Panes as first registered: no command yet.
pub open spec fn fresh_entries(ids: Seq<PaneId>) -> Seq<(PaneId, Option<Seq<char>>)> {
    ids.map_values(|id: PaneId| (id, None::<Seq<char>>))
}

proof fn lemma_leaves_ms_all(ws: Seq<WindowView>)
    ensures
        leaves_ms(ws) == all_leaves(ws).to_multiset(),
    decreases ws.len(),
{
    broadcast use vstd::seq_lib::group_to_multiset_ensures;

    if ws.len() == 0 {
        assert(all_leaves(ws).to_multiset() =~= Multiset::<PaneId>::empty());
    } else {
        lemma_leaves_ms_all(ws.drop_last());
        vstd::seq_lib::lemma_multiset_commutative(all_leaves(ws.drop_last()), leaves_of(ws.last().root));
    }
}

/// In a well-formed session no pane is a leaf twice, across all windows.
proof fn lemma_all_leaves_unique<T>(v: SessionView<T>)
    requires
        wf_view(v),
    ensures
        all_leaves(v.windows).no_duplicates(),
        all_leaves(v.windows).to_multiset() == ids_of(v.panes).to_multiset(),
{
    broadcast use vstd::multiset::group_multiset_axioms;

    lemma_leaves_ms_all(v.windows);
    let ids = ids_of(v.panes);
    assert forall|i: int, j: int| 0 <= i < ids.len() && 0 <= j < ids.len() && i != j implies ids[i] != ids[j] by {
        if i < j {
            assert(v.panes[i].id.id() < v.panes[j].id.id());
        } else {
            assert(v.panes[j].id.id() < v.panes[i].id.id());
        }
    }
    ids.lemma_multiset_has_no_duplicates();
    all_leaves(v.windows).lemma_multiset_has_no_duplicates_conv();
}

/// The leaves of the first `k + 1` windows are those of the first `k`,
/// then window `k`'s.
proof fn lemma_all_leaves_step(ws: Seq<WindowView>, k: int)
    requires
        0 <= k < ws.len(),
    ensures
        all_leaves(ws.take(k + 1)) == all_leaves(ws.take(k)) + leaves_of(ws[k].root),
{
    assert(ws.take(k + 1).drop_last() =~= ws.take(k));
    assert(ws.take(k + 1).last() == ws[k]);
}

/// The leaves of a prefix of the windows are a prefix of all the leaves.
proof fn lemma_all_leaves_prefix(ws: Seq<WindowView>, k: int)
    requires
        0 <= k <= ws.len(),
    ensures
        all_leaves(ws) == all_leaves(ws.take(k)) + all_leaves(ws.skip(k)),
    decreases ws.len() - k,
{
    if k == ws.len() {
        assert(ws.take(k) =~= ws);
        assert(ws.skip(k) =~= Seq::<WindowView>::empty());
        assert(all_leaves(ws) + Seq::<PaneId>::empty() =~= all_leaves(ws));
    } else {
        lemma_all_leaves_prefix(ws, k + 1);
        lemma_all_leaves_step(ws, k);
        assert(ws.skip(k).len() > 0);
        let s = ws.skip(k);
        assert(s[0] == ws[k]);
        lemma_all_leaves_front(s);
        assert(s.drop_first() =~= ws.skip(k + 1));
        assert(all_leaves(ws.take(k)) + leaves_of(ws[k].root) + all_leaves(ws.skip(k + 1)) =~= all_leaves(ws.take(k)) + (leaves_of(ws[k].root) + all_leaves(ws.skip(k + 1))));
    }
}

/// The leaves of windows are the first window's, then the rest's.
proof fn lemma_all_leaves_front(ws: Seq<WindowView>)
    requires
        ws.len() > 0,
    ensures
        all_leaves(ws) == leaves_of(ws[0].root) + all_leaves(ws.drop_first()),
    decreases ws.len(),
{
    if ws.len() == 1 {
        assert(ws.drop_last() =~= Seq::<WindowView>::empty());
        assert(ws.drop_first() =~= Seq::<WindowView>::empty());
        assert(Seq::<PaneId>::empty() + leaves_of(ws[0].root) =~= leaves_of(ws[0].root) + Seq::<PaneId>::empty());
    } else {
        lemma_all_leaves_front(ws.drop_last());
        assert(ws.drop_last().drop_first() =~= ws.drop_first().drop_last());
        assert(ws.drop_first().last() == ws.last());
        assert(ws.drop_last()[0] == ws[0]);
        assert(leaves_of(ws[0].root) + all_leaves(ws.drop_first().drop_last()) + leaves_of(ws.last().root) =~= leaves_of(ws[0].root) + (all_leaves(ws.drop_first().drop_last()) + leaves_of(ws.last().root)));
    }
}

/// One window line of a snapshot, applied: the window is added unnamed and
/// its panes are registered without commands.
proof fn lemma_window_step(st: RestoreView, w: WindowView, before: Seq<PaneId>)
    requires
        st.panes == fresh_entries(before),
        (before + leaves_of(w.root)).no_duplicates(),
        ratios_ok(w.root),
        leaves_of(w.root).contains(w.focused),
        forall|i: int| 0 <= i < leaves_of(w.root).len() ==> (#[trigger] leaves_of(w.root)[i]).id() < u64::MAX,
    ensures
        applied(st, line_view(window_content(w))) == Some(
            RestoreView {
                windows: st.windows.push(unnamed(w)),
                active: st.active,
                panes: fresh_entries(before + leaves_of(w.root)),
                next_id: raised(st.next_id, leaves_of(w.root)),
            },
        ),
{
    let ls = leaves_of(w.root);
    lemma_window_line_view(w.focused.id(), node_text(w.root));
    lemma_node_tokens(w.root, Seq::empty());
    assert(spaced(node_text(w.root)) + Seq::<char>::empty() =~= spaced(node_text(w.root)));
    assert(crate::text::split_ws(Seq::<char>::empty()) =~= Seq::<Seq<char>>::empty());
    assert(node_tokens(w.root) + Seq::<Seq<char>>::empty() =~= node_tokens(w.root));
    assert(tokens_of(node_text(w.root)) == node_tokens(w.root));
    lemma_node_at(w.root, Seq::empty(), Seq::empty());
    assert(Seq::<Seq<char>>::empty() + node_tokens(w.root) + Seq::<Seq<char>>::empty() =~= node_tokens(w.root));
    PaneId::lemma_raw_id(w.focused, w.focused.id());
    assert(restored_ids(st.panes) =~= before);
    assert forall|i: int, j: int| 0 <= i < ls.len() && 0 <= j < ls.len() && i != j implies ls[i] != ls[j] by {
        assert((before + ls)[before.len() + i] == ls[i]);
        assert((before + ls)[before.len() + j] == ls[j]);
    }
    assert forall|i: int| 0 <= i < ls.len() implies !restored_ids(st.panes).contains(#[trigger] ls[i]) && ls[i].id() < u64::MAX by {
        if before.contains(ls[i]) {
            let j = choose|j: int| 0 <= j < before.len() && before[j] == ls[i];
            assert((before + ls)[j] == before[j]);
            assert((before + ls)[before.len() + i] == ls[i]);
        }
    }
    assert(adoptable(st.panes, w.root));
    assert(fresh_entries(before) + ls.map_values(|id: PaneId| (id, None::<Seq<char>>)) =~= fresh_entries(before + ls));
    assert(WindowView { root: w.root, focused: PaneId::raw_id(w.focused.id()), name: None } == unnamed(w));
}

/// The window lines of a well-formed, safe session's snapshot rebuild its
/// windows unnamed, with their panes registered in leaf order.
proof fn lemma_window_phase<T>(v: SessionView<T>, k: int)
    requires
        wf_view(v),
        snapshot_safe(v),
        v.next_id <= u64::MAX,
        0 <= k <= v.windows.len(),
    ensures
        applied_all(restore_start(), v.windows.take(k).map_values(|w: WindowView| window_content(w))) matches Some(st) && st.windows
            == v.windows.take(k).map_values(|w: WindowView| unnamed(w)) && st.active == 0 && st.panes == fresh_entries(
            all_leaves(v.windows.take(k)),
        ),
    decreases k,
{
    let ws = v.windows;
    if k == 0 {
        assert(ws.take(0).map_values(|w: WindowView| window_content(w)) =~= Seq::<Seq<char>>::empty());
        assert(ws.take(0).map_values(|w: WindowView| unnamed(w)) =~= Seq::<WindowView>::empty());
        assert(all_leaves(ws.take(0)) =~= Seq::<PaneId>::empty());
        assert(fresh_entries(Seq::<PaneId>::empty()) =~= Seq::<(PaneId, Option<Seq<char>>)>::empty());
    } else {
        lemma_window_phase(v, k - 1);
        let prev = ws.take(k - 1).map_values(|w: WindowView| window_content(w));
        let st = applied_all(restore_start(), prev)->Some_0;
        let w = ws[k - 1];
        assert(ws.take(k).map_values(|w: WindowView| window_content(w)) =~= prev + seq![window_content(w)]);
        lemma_applied_all_concat(restore_start(), prev, seq![window_content(w)]);
        lemma_all_leaves_step(ws, k - 1);
        lemma_all_leaves_unique(v);
        lemma_all_leaves_prefix(ws, k);
        let before = all_leaves(ws.take(k - 1));
        let whole = all_leaves(ws);
        assert((before + leaves_of(w.root)).no_duplicates()) by {
            let pre = before + leaves_of(w.root);
            assert(pre == all_leaves(ws.take(k)));
            assert forall|i: int, j: int| 0 <= i < pre.len() && 0 <= j < pre.len() && i != j implies pre[i] != pre[j] by {
                assert(whole[i] == pre[i]);
                assert(whole[j] == pre[j]);
            }
        }
        assert forall|i: int| 0 <= i < leaves_of(w.root).len() implies (#[trigger] leaves_of(w.root)[i]).id() < u64::MAX by {
            let id = leaves_of(w.root)[i];
            let pre = before + leaves_of(w.root);
            assert(pre[before.len() + i] == id);
            assert(whole[before.len() + i] == id);
            assert(whole.contains(id));
            broadcast use vstd::seq_lib::group_to_multiset_ensures;
            assert(whole.to_multiset().count(id) > 0);
            assert(ids_of(v.panes).to_multiset().count(id) > 0);
            assert(ids_of(v.panes).contains(id));
            let p = choose|p: int| 0 <= p < ids_of(v.panes).len() && ids_of(v.panes)[p] == id;
            assert(v.panes[p].id.id() < v.next_id);
        }
        assert(ratios_ok(ws[k - 1].root));
        lemma_window_step(st, w, before);
        let next = applied(st, line_view(window_content(w)))->Some_0;
        assert(seq![window_content(w)].drop_first() =~= Seq::<Seq<char>>::empty());
        assert(applied_all(st, seq![window_content(w)]) == applied_all(next, Seq::<Seq<char>>::empty()));
        assert(ws.take(k).map_values(|w: WindowView| unnamed(w)) =~= ws.take(k - 1).map_values(|w: WindowView| unnamed(w)).push(unnamed(w)));
    }
}


/// The windows with the first `k` named as in `ws` and the rest unnamed.
pub open spec fn named_prefix(ws: Seq<WindowView>, k: int) -> Seq<WindowView> {
    Seq::new(ws.len(), |i: int| if i < k { ws[i] } else { unnamed(ws[i]) })
}

/// The name lines of a safe session's snapshot name its windows.
proof fn lemma_name_phase(ws: Seq<WindowView>, st: RestoreView, k: int)
    requires
        st.windows == named_prefix(ws, 0),
        0 <= k <= ws.len(),
        ws.len() <= usize::MAX,
        forall|w: int| 0 <= w < ws.len() ==> ((#[trigger] ws[w]).name matches Some(n) ==> one_liner(n)),
    ensures
        applied_all(st, name_contents(ws.take(k))) == Some(RestoreView { windows: named_prefix(ws, k), ..st }),
    decreases k,
{
    if k == 0 {
        assert(ws.take(0) =~= Seq::<WindowView>::empty());
        assert(name_contents(ws.take(0)) =~= Seq::<Seq<char>>::empty());
        assert(applied_all(st, Seq::<Seq<char>>::empty()) == Some(st));
        assert(st == RestoreView { windows: named_prefix(ws, 0), ..st });
    } else {
        lemma_name_phase(ws, st, k - 1);
        let s1 = RestoreView { windows: named_prefix(ws, k - 1), ..st };
        let t = ws.take(k);
        assert(t.drop_last() =~= ws.take(k - 1));
        assert(t.last() == ws[k - 1]);
        let w = ws[k - 1];
        match w.name {
            Some(n) => {
                let line = "wname "@ + decimal((k - 1) as nat) + seq![' '] + one_line(n);
                assert(name_contents(t) == name_contents(ws.take(k - 1)) + seq![line]);
                lemma_applied_all_concat(st, name_contents(ws.take(k - 1)), seq![line]);
                lemma_one_line_keeps(n);
                lemma_name_line_view((k - 1) as nat, one_line(n));
                assert(seq![line][0] == line);
                assert(seq![line].drop_first() =~= Seq::<Seq<char>>::empty());
                assert(s1.windows[k - 1] == unnamed(w));
                assert(named_prefix(ws, k - 1).update(k - 1, WindowView { name: Some(n), ..s1.windows[k - 1] }) =~= named_prefix(ws, k));
                assert(line_view(line) == LineView::Name((k - 1) as usize, n));
                let s2 = RestoreView { windows: named_prefix(ws, k), ..st };
                assert(applied(s1, LineView::Name((k - 1) as usize, n)) == Some(s2));
                assert(applied_all(s2, Seq::<Seq<char>>::empty()) == Some(s2));
                assert(applied_all(s1, seq![line]) == Some(s2));
            },
            None => {
                assert(name_contents(t) =~= name_contents(ws.take(k - 1)) + Seq::<Seq<char>>::empty());
                assert(name_contents(ws.take(k - 1)) + Seq::<Seq<char>>::empty() =~= name_contents(ws.take(k - 1)));
                assert(named_prefix(ws, k - 1) =~= named_prefix(ws, k));
            },
        }
    }
}

/// The command of the last pane in `ps` with id `id`, if any.
pub open spec fn command_of<T>(ps: Seq<Pane<T>>, id: PaneId) -> Option<Seq<char>>
    decreases ps.len(),
{
    if ps.len() == 0 {
        None
    } else if ps.last().id == id {
        name_view(ps.last().command)
    } else {
        command_of(ps.drop_last(), id)
    }
}

/// Registered panes, each with the command `ps` gives its id.
pub open spec fn entries_with<T>(ids: Seq<PaneId>, ps: Seq<Pane<T>>) -> Seq<(PaneId, Option<Seq<char>>)> {
    ids.map_values(|id: PaneId| (id, command_of(ps, id)))
}

/// No pane with the id: no command.
proof fn lemma_command_of_absent<T>(ps: Seq<Pane<T>>, id: PaneId)
    requires
        forall|i: int| 0 <= i < ps.len() ==> (#[trigger] ps[i]).id != id,
    ensures
        command_of(ps, id) is None,
    decreases ps.len(),
{
    if ps.len() > 0 {
        assert(ps.last() == ps[ps.len() - 1]);
        assert forall|i: int| 0 <= i < ps.drop_last().len() implies (#[trigger] ps.drop_last()[i]).id != id by {
            assert(ps.drop_last()[i] == ps[i]);
        }
        lemma_command_of_absent(ps.drop_last(), id);
    }
}

/// The command lines of a well-formed, safe session's snapshot give each
/// registered pane its command.
proof fn lemma_command_phase<T>(v: SessionView<T>, ls: Seq<PaneId>, st: RestoreView, k: int)
    requires
        wf_view(v),
        snapshot_safe(v),
        ls.no_duplicates(),
        ls.to_multiset() == ids_of(v.panes).to_multiset(),
        st.panes == fresh_entries(ls),
        0 <= k <= v.panes.len(),
    ensures
        applied_all(st, command_contents(v.panes.take(k))) == Some(
            RestoreView { panes: entries_with(ls, v.panes.take(k)), ..st },
        ),
    decreases k,
{
    broadcast use vstd::seq_lib::group_to_multiset_ensures;

    let ps = v.panes;
    if k == 0 {
        assert(ps.take(0) =~= Seq::<Pane<T>>::empty());
        assert(command_contents(ps.take(0)) =~= Seq::<Seq<char>>::empty());
        assert(applied_all(st, Seq::<Seq<char>>::empty()) == Some(st));
        assert(entries_with(ls, ps.take(0)) =~= fresh_entries(ls));
        assert(st == RestoreView { panes: entries_with(ls, ps.take(0)), ..st });
    } else {
        lemma_command_phase(v, ls, st, k - 1);
        let before = ps.take(k - 1);
        let t = ps.take(k);
        assert(t.drop_last() =~= before);
        assert(t.last() == ps[k - 1]);
        let p = ps[k - 1];
        let s1 = RestoreView { panes: entries_with(ls, before), ..st };
        assert forall|i: int| 0 <= i < before.len() implies (#[trigger] before[i]).id != p.id by {
            assert(before[i] == ps[i]);
            assert(ps[i].id.id() < ps[k - 1].id.id());
        }
        lemma_command_of_absent(before, p.id);
        match p.command {
            Some(c) => {
                let line = "pane "@ + decimal(p.id.id() as nat) + seq![' '] + one_line(c@);
                assert(command_contents(t) == command_contents(before) + seq![line]);
                lemma_applied_all_concat(st, command_contents(before), seq![line]);
                assert(ps[k - 1] == p);
                lemma_one_line_keeps(c@);
                lemma_command_line_view(p.id.id(), one_line(c@));
                assert(seq![line][0] == line);
                assert(seq![line].drop_first() =~= Seq::<Seq<char>>::empty());
                PaneId::lemma_raw_id(p.id, p.id.id());
                let es = s1.panes;
                assert(restored_ids(es) =~= ls);
                assert(ids_of(ps)[k - 1] == p.id);
                assert(ids_of(ps).to_multiset().count(p.id) > 0);
                assert(ls.contains(p.id));
                lemma_restored_index(es, p.id);
                let j = restored_index(es, p.id)->Some_0;
                assert(ls[j] == p.id);
                assert(line_view(line) == LineView::Command(p.id.id(), c@));
                assert(es.update(j, (p.id, Some(c@))) =~= entries_with(ls, t)) by {
                    assert forall|i: int| 0 <= i < ls.len() implies #[trigger] es.update(j, (p.id, Some(c@)))[i] == entries_with(ls, t)[i] by {
                        if i != j {
                            assert(ls[i] != ls[j]);
                        }
                    }
                }
                let s2 = RestoreView { panes: entries_with(ls, t), ..st };
                assert(applied(s1, LineView::Command(p.id.id(), c@)) == Some(s2));
                assert(applied_all(s2, Seq::<Seq<char>>::empty()) == Some(s2));
                assert(applied_all(s1, seq![line]) == Some(s2));
            },
            None => {
                assert(command_contents(t) =~= command_contents(before) + Seq::<Seq<char>>::empty());
                assert(command_contents(before) + Seq::<Seq<char>>::empty() =~= command_contents(before));
                assert(entries_with(ls, t) =~= entries_with(ls, before)) by {
                    assert forall|i: int| 0 <= i < ls.len() implies #[trigger] entries_with(ls, t)[i] == entries_with(ls, before)[i] by {
                        if ls[i] == p.id {
                        }
                    }
                }
            },
        }
    }
}

/// The command a session gives a pane's id is the pane's.
proof fn lemma_command_of_own<T>(ps: Seq<Pane<T>>, i: int)
    requires
        0 <= i < ps.len(),
        forall|a: int, b: int| 0 <= a < b < ps.len() ==> ps[a].id.id() < ps[b].id.id(),
    ensures
        command_of(ps, ps[i].id) == name_view(ps[i].command),
    decreases ps.len(),
{
    if i < ps.len() - 1 {
        assert(ps.last() == ps[ps.len() - 1]);
        assert(ps[i].id.id() < ps.last().id.id());
        assert(ps.drop_last()[i] == ps[i]);
        lemma_command_of_own(ps.drop_last(), i);
    } else {
        assert(ps.last() == ps[i]);
    }
}

/// The lines of a safe session's snapshot after the header rebuild it:
/// its windows, its active index, and its panes in leaf order with their
/// commands.
proof fn lemma_round_trip_fold<T>(v: SessionView<T>)
    requires
        wf_view(v),
        snapshot_safe(v),
        v.next_id <= u64::MAX,
    ensures
        applied_all(restore_start(), snapshot_lines(v).drop_first()) matches Some(st) && st.windows
            == v.windows && st.active == v.active && st.panes == entries_with(all_leaves(v.windows), v.panes),
{
    let ws = v.windows;
    let lines = snapshot_lines(v);
    let wc = ws.map_values(|w: WindowView| window_content(w));
    let act = seq!["active "@ + decimal(v.active)];
    let names = name_contents(ws);
    let cmds = command_contents(v.panes);
    assert(lines.drop_first() =~= wc + act + names + cmds);
    lemma_window_phase(v, ws.len() as int);
    assert(ws.take(ws.len() as int) =~= ws);
    let s1 = applied_all(restore_start(), wc)->Some_0;
    lemma_active_line_view(v.active);
    assert(act[0] == "active "@ + decimal(v.active));
    assert(act.drop_first() =~= Seq::<Seq<char>>::empty());
    let s2 = RestoreView { active: v.active, ..s1 };
    assert(applied(s1, LineView::Active(v.active as usize)) == Some(s2));
    assert(applied_all(s2, Seq::<Seq<char>>::empty()) == Some(s2));
    assert(applied_all(s1, act) == Some(s2));
    lemma_applied_all_concat(restore_start(), wc, act);
    assert(s2.windows =~= named_prefix(ws, 0));
    lemma_name_phase(ws, s2, ws.len() as int);
    let s3 = RestoreView { windows: named_prefix(ws, ws.len() as int), ..s2 };
    assert(named_prefix(ws, ws.len() as int) =~= ws);
    lemma_applied_all_concat(restore_start(), wc + act, names);
    let ls = all_leaves(ws);
    lemma_all_leaves_unique(v);
    lemma_command_phase(v, ls, s3, v.panes.len() as int);
    assert(v.panes.take(v.panes.len() as int) =~= v.panes);
    lemma_applied_all_concat(restore_start(), wc + act + names, cmds);
}

/// Restoring a snapshot gives the session back: the same windows (trees,
/// focus and names), the same active window, and every pane registered
/// once with its command — for any well-formed session with a window,
/// split ratios at most the whole axis, and one-line names and commands.
pub proof fn lemma_snapshot_round_trip<T>(v: SessionView<T>)
    requires
        wf_view(v),
        snapshot_safe(v),
        v.next_id <= u64::MAX,
    ensures
        restore_spec(snapshot_text(v)) matches Some(st) && st.windows == v.windows && st.active == v.active
            && restored_ids(st.panes).to_multiset() == ids_of(v.panes).to_multiset() && forall|i: int|
            0 <= i < v.panes.len() ==> st.panes.contains((#[trigger] v.panes[i].id, name_view(v.panes[i].command))),
{
    let lines = snapshot_lines(v);
    lemma_snapshot_joined(v);
    lemma_snapshot_lines_plain(v);
    lemma_joined_lines(lines);
    assert(text_lines(snapshot_text(v)) == lines);
    assert(lines[0] == "v1"@);
    lemma_round_trip_fold(v);
    let st = applied_all(restore_start(), lines.drop_first())->Some_0;
    let ls = all_leaves(v.windows);
    lemma_all_leaves_unique(v);
    assert(restored_ids(st.panes) =~= ls);
    assert forall|i: int| 0 <= i < v.panes.len() implies st.panes.contains((#[trigger] v.panes[i].id, name_view(v.panes[i].command))) by {
        broadcast use vstd::seq_lib::group_to_multiset_ensures;
        let id = v.panes[i].id;
        assert(ids_of(v.panes)[i] == id);
        assert(ids_of(v.panes).to_multiset().count(id) > 0);
        assert(ls.contains(id));
        let j = choose|j: int| 0 <= j < ls.len() && ls[j] == id;
        lemma_command_of_own(v.panes, i);
        assert(st.panes[j] == (id, name_view(v.panes[i].command)));
    }
}


/// Where a focus step lands, given the focused leaf's position `p` among
/// the window's `n` distinct leaves: one place on, or one place back,
/// wrapping at either end.
proof fn lemma_step_from(w: WindowView, p: int)
    requires
        0 <= p < leaves_of(w.root).len(),
        leaves_of(w.root)[p] == w.focused,
        forall|i: int, j: int|
            0 <= i < leaves_of(w.root).len() && 0 <= j < leaves_of(w.root).len() && #[trigger] leaves_of(
                w.root,
            )[i] == #[trigger] leaves_of(w.root)[j] ==> i == j,
    ensures
        ({
            let ls = leaves_of(w.root);
            let n = ls.len() as int;
            &&& stepped_focus(w, true) == ls[(p + 1) % n]
            &&& stepped_focus(w, false) == ls[(p + n - 1) % n]
        }),
{
    let ls = leaves_of(w.root);
    let n = ls.len() as int;
    let pos = choose|i: int| 0 <= i < ls.len() && ls[i] == w.focused;
    assert(0 <= pos < ls.len() && ls[pos] == w.focused);
    assert(pos == p);
    if p + 1 == n {
        assert((p + 1) % n == 0) by (nonlinear_arith)
            requires
                p + 1 == n,
                n > 0,
        ;
    } else {
        assert((p + 1) % n == p + 1) by (nonlinear_arith)
            requires
                0 <= p,
                p + 1 < n,
        ;
    }
    if p == 0 {
        assert((p + n - 1) % n == n - 1) by (nonlinear_arith)
            requires
                p == 0,
                n > 0,
        ;
    } else {
        assert((p + n - 1) % n == p - 1) by (nonlinear_arith)
            requires
                0 < p < n,
        ;
    }
}

/// Focus steps walk the active window's panes in tree order, wrapping:
/// with the focused pane at position `p` of the window's `n` panes,
/// [`Session::focus_next`] moves focus to the pane at `(p + 1) % n` and
/// [`Session::focus_prev`] to the pane at `(p + n - 1) % n`; and the two
/// undo each other — a step back after a step forward, or forward after
/// back, gives the session back unchanged.
pub proof fn lemma_focus_steps<T>(v: SessionView<T>, p: int)
    requires
        wf_view(v),
        v.windows.len() > 0,
        0 <= p < leaves_of(v.windows[v.active as int].root).len(),
        leaves_of(v.windows[v.active as int].root)[p] == v.windows[v.active as int].focused,
    ensures
        ({
            let a = v.active as int;
            let ls = leaves_of(v.windows[a].root);
            let n = ls.len() as int;
            let next = SessionView { windows: refocus(v.windows, a, stepped_focus(v.windows[a], true)), ..v };
            let prev = SessionView { windows: refocus(v.windows, a, stepped_focus(v.windows[a], false)), ..v };
            &&& next.windows[a].focused == ls[(p + 1) % n]
            &&& prev.windows[a].focused == ls[(p + n - 1) % n]
            &&& (SessionView { windows: refocus(next.windows, a, stepped_focus(next.windows[a], false)), ..next })
                == v
            &&& (SessionView { windows: refocus(prev.windows, a, stepped_focus(prev.windows[a], true)), ..prev })
                == v
        }),
{
    let a = v.active as int;
    let w = v.windows[a];
    let ls = leaves_of(w.root);
    let n = ls.len() as int;
    assert forall|i: int, j: int|
        0 <= i < ls.len() && 0 <= j < ls.len() && #[trigger] leaves_of(w.root)[i] == #[trigger] leaves_of(
            w.root,
        )[j] implies i == j by {
        lemma_unique_leaf(v, a, i, j);
    }
    lemma_step_from(w, p);
    let next = SessionView { windows: refocus(v.windows, a, stepped_focus(w, true)), ..v };
    let prev = SessionView { windows: refocus(v.windows, a, stepped_focus(w, false)), ..v };
    let wn = next.windows[a];
    let wp = prev.windows[a];
    assert(wn.root == w.root);
    assert(wp.root == w.root);
    let pn = (p + 1) % n;
    let pp = (p + n - 1) % n;
    assert(0 <= pn < n && 0 <= pp < n) by (nonlinear_arith)
        requires
            n > 0,
            pn == (p + 1) % n,
            pp == (p + n - 1) % n,
    ;
    lemma_step_from(wn, pn);
    lemma_step_from(wp, pp);
    assert((pn + n - 1) % n == p) by (nonlinear_arith)
        requires
            0 <= p < n,
            pn == (p + 1) % n,
    ;
    assert((pp + 1) % n == p) by (nonlinear_arith)
        requires
            0 <= p < n,
            pp == (p + n - 1) % n,
    ;
    assert(refocus(next.windows, a, stepped_focus(wn, false)) =~= v.windows);
    assert(refocus(prev.windows, a, stepped_focus(wp, true)) =~= v.windows);
}

/// Every pane of a well-formed session sits in some window.
pub proof fn lemma_pane_in_window<T>(v: SessionView<T>, i: int)
    requires
        wf_view(v),
        0 <= i < v.panes.len(),
    ensures
        exists|w: int| 0 <= w < v.windows.len() && leaves_of(#[trigger] v.windows[w].root).contains(v.panes[i].id),
{
    broadcast use vstd::seq_lib::group_to_multiset_ensures;

    let id = v.panes[i].id;
    assert(ids_of(v.panes)[i] == id);
    assert(ids_of(v.panes).to_multiset().count(id) > 0);
    lemma_leaves_ms_witness(v.windows, id);
}

} // verus!
