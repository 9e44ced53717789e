//! Per-pane reading history and the debouncer that turns raw readings into
//! committed state.
//!
//! Classification alone looks at a single frame; these types carry what a
//! single frame can't: whether the screen changed since last time (a
//! "working" signal), how recently the agent was active (the done-vs-idle
//! call), and enough persistence to refuse to flip the committed state on
//! one noisy frame.
//!
//! Times are nanoseconds on one monotonic clock chosen by the caller.

use vstd::prelude::*;

use crate::config::{regex_matches, sources, AgentConfig, Pattern};
use crate::detector::{classify_spec, opt_text, AgentKind, Detector, StateReading};
use crate::grid::{row_text_of, Grid, GridView};
use crate::session::AgentState;

verus! {

/// The screen's rows as `Grid::lines` gives them.
pub open spec fn screen_lines(g: GridView) -> Seq<Seq<char>> {
    Seq::new(g.rows, |r: int| row_text_of(g.cells[r]))
}

/// Whether some pattern among `srcs` matches `line`.
pub open spec fn matched_by_any(srcs: Seq<Seq<char>>, line: Seq<char>) -> bool {
    exists|i: int| 0 <= i < srcs.len() && #[trigger] regex_matches(srcs[i], line)
}

/// Whether a row counts as agent output: it is not blank, and no
/// `activity.ignore` pattern matches it.
pub open spec fn counts_as_output(ignore: Seq<Seq<char>>, line: Seq<char>) -> bool {
    line.len() > 0 && !matched_by_any(ignore, line)
}

/// The rows that count as agent output, each with its row index, top to
/// bottom. Two frames show the same activity exactly when these agree, so
/// content merely moving to another row still reads as a change.
pub open spec fn fingerprint(lines: Seq<Seq<char>>, ignore: Seq<Seq<char>>) -> Seq<(nat, Seq<char>)>
    decreases lines.len(),
{
    if lines.len() == 0 {
        Seq::empty()
    } else {
        let prev = fingerprint(lines.drop_last(), ignore);
        if counts_as_output(ignore, lines.last()) {
            prev.push(((lines.len() - 1) as nat, lines.last()))
        } else {
            prev
        }
    }
}

/// A stored fingerprint as plain values.
pub open spec fn fingerprint_view(v: Seq<(usize, String)>) -> Seq<(nat, Seq<char>)> {
    v.map_values(|p: (usize, String)| (p.0 as nat, p.1@))
}

/// The fingerprint of `grid` under `config`'s activity filters.
pub open spec fn grid_fingerprint(grid: GridView, config: AgentConfig) -> Seq<(nat, Seq<char>)> {
    fingerprint(screen_lines(grid), sources(config.activity_ignore@))
}

/// Whether any of `patterns` matches `line`.
pub fn any_matches(patterns: &Vec<Pattern>, line: &str) -> (b: bool)
    ensures
        b == matched_by_any(sources(patterns@), line@),
{
    let mut i: usize = 0;
    while i < patterns.len()
        invariant
            i <= patterns@.len(),
            forall|j: int| 0 <= j < i ==> !regex_matches(#[trigger] sources(patterns@)[j], line@),
        decreases patterns@.len() - i,
    {
        if patterns[i].is_match(line) {
            assert(regex_matches(sources(patterns@)[i as int], line@));
            return true;
        }
        i += 1;
    }
    false
}

/// The activity fingerprint of `grid`: its non-blank rows that match none
/// of the agent's `activity.ignore` patterns, with their row indices.
fn activity_fingerprint(grid: &Grid, config: &AgentConfig) -> (fp: Vec<(usize, String)>)
    requires
        grid.wf(),
    ensures
        fingerprint_view(fp@) == grid_fingerprint(grid@, *config),
{
    let lines = grid.lines();
    let ghost all = screen_lines(grid@);
    let ghost ignore = sources(config.activity_ignore@);
    assert(lines@.len() == all.len());
    let mut out: Vec<(usize, String)> = Vec::new();
    let mut r: usize = 0;
    while r < lines.len()
        invariant
            r <= lines@.len(),
            lines@.len() == all.len(),
            all == screen_lines(grid@),
            ignore == sources(config.activity_ignore@),
            forall|k: int| 0 <= k < all.len() ==> #[trigger] lines@[k]@ == all[k],
            fingerprint_view(out@) == fingerprint(all.take(r as int), ignore),
        decreases lines@.len() - r,
    {
        let line = lines[r].as_str();
        let counted = !line.is_empty() && !any_matches(&config.activity_ignore, line);
        proof {
            assert(all.take(r + 1).drop_last() =~= all.take(r as int));
            assert(all.take(r + 1).last() == all[r as int]);
            assert(line@ == all[r as int]);
            assert(counted == counts_as_output(ignore, all[r as int]));
        }
        if counted {
            let owned = line.to_string();
            out.push((r, owned));
            assert(fingerprint_view(out@) =~= fingerprint(all.take(r + 1), ignore));
        } else {
            assert(fingerprint_view(out@) =~= fingerprint(all.take(r + 1), ignore));
        }
        r += 1;
    }
    assert(all.take(lines@.len() as int) =~= all);
    out
}

/// Whether two stored fingerprints are the same.
fn same_fingerprint(a: &Vec<(usize, String)>, b: &Vec<(usize, String)>) -> (r: bool)
    ensures
        r == (fingerprint_view(a@) == fingerprint_view(b@)),
{
    if a.len() != b.len() {
        assert(fingerprint_view(a@).len() != fingerprint_view(b@).len());
        return false;
    }
    let mut i: usize = 0;
    while i < a.len()
        invariant
            a@.len() == b@.len(),
            i <= a@.len(),
            forall|j: int| 0 <= j < i ==> #[trigger] fingerprint_view(a@)[j] == fingerprint_view(b@)[j],
        decreases a@.len() - i,
    {
        let (ra, ref ta) = a[i];
        let (rb, ref tb) = b[i];
        if ra != rb || !crate::text::same_text(ta.as_str(), tb.as_str()) {
            assert(fingerprint_view(a@)[i as int] != fingerprint_view(b@)[i as int]);
            return false;
        }
        i += 1;
    }
    assert(fingerprint_view(a@) =~= fingerprint_view(b@));
    true
}

/// What [`History`] holds, as plain values.
pub struct HistoryView {
    /// The fingerprint of the last recorded frame.
    pub last: Option<Seq<(nat, Seq<char>)>>,
    /// When a committed `working` reading was last recorded.
    pub last_activity_at: Option<u128>,
    /// Whether two consecutive recorded frames have ever matched with
    /// content on screen.
    pub settled: bool,
}

/// What detection remembers about a pane between frames.
///
/// A `History` must not outlive its pane's child process: the settle latch
/// is per-child, so a fresh one is built on attach and restart.
#[derive(Debug)]
pub struct History {
    last_fingerprint: Option<Vec<(usize, String)>>,
    last_activity_at: Option<u128>,
    settled: bool,
}

impl View for History {
    type V = HistoryView;

    closed spec fn view(&self) -> HistoryView {
        HistoryView {
            last: match self.last_fingerprint {
                Some(v) => Some(fingerprint_view(v@)),
                None => None,
            },
            last_activity_at: self.last_activity_at,
            settled: self.settled,
        }
    }
}

/// A history with nothing recorded.
pub open spec fn fresh_history() -> HistoryView {
    HistoryView { last: None, last_activity_at: None, settled: false }
}

/// What recording a frame with fingerprint `fp` under committed state
/// `state` at time `at` makes of a history.
pub open spec fn recorded(h: HistoryView, state: AgentState, fp: Seq<(nat, Seq<char>)>, at: u128) -> HistoryView {
    HistoryView {
        last: Some(fp),
        last_activity_at: if state == AgentState::Working { Some(at) } else { h.last_activity_at },
        settled: h.settled || (h.last == Some(fp) && fp.len() > 0),
    }
}

/// Whether a frame with fingerprint `fp` differs from the last recorded
/// one; `None` before any frame was recorded.
pub open spec fn changed_since(h: HistoryView, fp: Seq<(nat, Seq<char>)>) -> Option<bool> {
    match h.last {
        Some(prev) => Some(prev != fp),
        None => None,
    }
}

impl Default for History {
    fn default() -> (h: Self)
        ensures
            h@ == fresh_history(),
    {
        History::new()
    }
}

impl History {
    /// A history with no recorded frames.
    pub fn new() -> (h: Self)
        ensures
            h@ == fresh_history(),
    {
        History { last_fingerprint: None, last_activity_at: None, settled: false }
    }

    /// Record a frame: the committed state and the grid it was read from.
    /// `config` supplies the agent's activity filters; pass the same
    /// agent's config to [`History::content_changed`], or the fingerprints
    /// are not comparable. Only a `working` state stamps activity.
    pub fn record(&mut self, state: AgentState, grid: &Grid, config: &AgentConfig, at: u128)
        requires
            grid.wf(),
        ensures
            final(self)@ == recorded(old(self)@, state, grid_fingerprint(grid@, *config), at),
    {
        let fp = activity_fingerprint(grid, config);
        let repeated = match &self.last_fingerprint {
            Some(prev) => same_fingerprint(prev, &fp),
            None => false,
        };
        if repeated && fp.len() > 0 {
            self.settled = true;
        }
        if state == AgentState::Working {
            self.last_activity_at = Some(at);
        }
        self.last_fingerprint = Some(fp);
    }

    /// Whether `grid`'s activity rows differ from the previously recorded
    /// frame's. `None` until a frame has been recorded — a first frame is
    /// not evidence of activity.
    pub fn content_changed(&self, grid: &Grid, config: &AgentConfig) -> (r: Option<bool>)
        requires
            grid.wf(),
        ensures
            r == changed_since(self@, grid_fingerprint(grid@, *config)),
    {
        match &self.last_fingerprint {
            Some(prev) => {
                let fp = activity_fingerprint(grid, config);
                Some(!same_fingerprint(prev, &fp))
            },
            None => None,
        }
    }

    /// Whether two consecutive recorded frames have ever matched with
    /// content on screen. Until then every change is the program painting
    /// its first screen, not evidence of work.
    pub fn has_settled(&self) -> (b: bool)
        ensures
            b == self@.settled,
    {
        self.settled
    }

    /// When the agent last produced a committed `working` reading.
    pub fn last_activity_at(&self) -> (t: Option<u128>)
        ensures
            t == self@.last_activity_at,
    {
        self.last_activity_at
    }
}


/// How many consecutive readings a new state needs before it is committed.
pub const DEFAULT_COMMIT_AFTER: u32 = 2;

/// Transitions into blocked commit faster: a real "needs you" should
/// surface quickly, and a brief false-blocked is less costly than a missed
/// one.
pub const DEFAULT_BLOCKED_COMMIT_AFTER: u32 = 1;

/// How long a statusline payload keeps riding committed readings, in ns.
/// A live feed refreshes far more often than this, so a longer gap means
/// the feed is gone, and stale numbers presented as current are worse than
/// none.
pub const TELEMETRY_STALE_AFTER_NS: u128 = 30_000_000_000;

/// What a [`Debouncer`] holds, as plain values.
pub struct DebounceView {
    /// The committed state.
    pub state: AgentState,
    /// The committed reason.
    pub reason: Option<Seq<char>>,
    /// A state read but not yet committed, and how many times in a row.
    pub candidate: Option<(AgentState, nat)>,
    /// Readings a new state needs before it commits.
    pub commit_after: nat,
    /// Readings a new blocked state needs before it commits.
    pub blocked_commit_after: nat,
}

/// How many readings in a row `state` needs to commit.
pub open spec fn threshold(d: DebounceView, state: AgentState) -> nat {
    if state == AgentState::Blocked {
        d.blocked_commit_after
    } else {
        d.commit_after
    }
}

/// The debouncer's invariant: thresholds of at least one, and a candidate
/// only for a state other than the committed one, seen fewer times than it
/// needs.
pub open spec fn debounce_wf(d: DebounceView) -> bool {
    &&& 1 <= d.commit_after <= u32::MAX
    &&& 1 <= d.blocked_commit_after <= u32::MAX
    &&& match d.candidate {
        Some(p) => p.0 != d.state && 1 <= p.1 < threshold(d, p.0),
        None => true,
    }
}

/// How many readings in a row `state` has, counting this one.
pub open spec fn run_length(d: DebounceView, state: AgentState) -> nat {
    match d.candidate {
        Some(p) => if p.0 == state {
            p.1 + 1
        } else {
            1
        },
        None => 1,
    }
}

/// Whether a reading of `state` commits it.
pub open spec fn commits(d: DebounceView, state: AgentState) -> bool {
    state != d.state && run_length(d, state) >= threshold(d, state)
}

/// What one raw reading does to a debouncer: agreeing with the committed
/// state clears the candidate and refreshes the reason; otherwise the
/// reading extends or restarts the candidate, and commits once it has been
/// read as many times in a row as its threshold asks.
pub open spec fn observed(d: DebounceView, state: AgentState, reason: Option<Seq<char>>) -> DebounceView {
    if state == d.state {
        DebounceView {
            state: d.state,
            reason,
            candidate: None,
            commit_after: d.commit_after,
            blocked_commit_after: d.blocked_commit_after,
        }
    } else if commits(d, state) {
        DebounceView {
            state,
            reason,
            candidate: None,
            commit_after: d.commit_after,
            blocked_commit_after: d.blocked_commit_after,
        }
    } else {
        DebounceView {
            state: d.state,
            reason: d.reason,
            candidate: Some((state, run_length(d, state))),
            commit_after: d.commit_after,
            blocked_commit_after: d.blocked_commit_after,
        }
    }
}

/// A debouncer after a run of raw readings, oldest first.
pub open spec fn run(d: DebounceView, readings: Seq<(AgentState, Option<Seq<char>>)>) -> DebounceView
    decreases readings.len(),
{
    if readings.len() == 0 {
        d
    } else {
        let before = run(d, readings.drop_last());
        observed(before, readings.last().0, readings.last().1)
    }
}

/// Whether `b` is a clone of `a`, both optional.
pub open spec fn cloned_opt<T: Clone>(a: Option<T>, b: Option<T>) -> bool {
    match (a, b) {
        (Some(x), Some(y)) => cloned(x, y),
        (None, None) => true,
        _ => false,
    }
}

/// A clone of an optional value.
fn clone_opt<T: Clone>(a: &Option<T>) -> (b: Option<T>)
    ensures
        cloned_opt(*a, b),
{
    match a {
        Some(x) => Some(x.clone()),
        None => None,
    }
}

/// A copy of a reading: same state and reason, telemetry cloned.
fn copy_reading<T: Clone>(r: &StateReading<T>) -> (c: StateReading<T>)
    ensures
        c.state == r.state,
        opt_text(c.reason) == opt_text(r.reason),
        cloned_opt(r.telemetry, c.telemetry),
{
    let reason = match &r.reason {
        Some(s) => Some(s.clone()),
        None => None,
    };
    StateReading { state: r.state, reason, telemetry: clone_opt(&r.telemetry) }
}

/// Turns raw per-frame readings into a committed state that never flips on
/// a single frame: a candidate state must be read a configured number of
/// times in a row before it is committed, with a lower threshold into
/// [`AgentState::Blocked`]. While the raw state agrees with the committed
/// one, the committed reason follows the raw reason.
#[derive(Debug)]
pub struct Debouncer<T> {
    committed: StateReading<T>,
    candidate: Option<(AgentState, u32)>,
    commit_after: u32,
    blocked_commit_after: u32,
}

impl<T> View for Debouncer<T> {
    type V = DebounceView;

    closed spec fn view(&self) -> DebounceView {
        DebounceView {
            state: self.committed.state,
            reason: opt_text(self.committed.reason),
            candidate: match self.candidate {
                Some(p) => Some((p.0, p.1 as nat)),
                None => None,
            },
            commit_after: self.commit_after as nat,
            blocked_commit_after: self.blocked_commit_after as nat,
        }
    }
}

impl<T> Debouncer<T> {
    /// The debouncer's invariant holds.
    pub open spec fn wf(&self) -> bool {
        debounce_wf(self@)
    }

    /// The telemetry of the committed reading.
    pub closed spec fn committed_telemetry(&self) -> Option<T> {
        self.committed.telemetry
    }

    /// A debouncer with the default thresholds (2 readings, 1 for blocked),
    /// starting from an idle committed state.
    pub fn new() -> (d: Self)
        ensures
            d.wf(),
            d@ == (DebounceView {
                state: AgentState::Idle,
                reason: None,
                candidate: None,
                commit_after: DEFAULT_COMMIT_AFTER as nat,
                blocked_commit_after: DEFAULT_BLOCKED_COMMIT_AFTER as nat,
            }),
            d.committed_telemetry() is None,
    {
        Debouncer::with_thresholds(DEFAULT_COMMIT_AFTER, DEFAULT_BLOCKED_COMMIT_AFTER)
    }

    /// A debouncer with explicit thresholds; a threshold of 0 counts as 1.
    pub fn with_thresholds(commit_after: u32, blocked_commit_after: u32) -> (d: Self)
        ensures
            d.wf(),
            d@ == (DebounceView {
                state: AgentState::Idle,
                reason: None,
                candidate: None,
                commit_after: if commit_after == 0 { 1 } else { commit_after as nat },
                blocked_commit_after: if blocked_commit_after == 0 {
                    1
                } else {
                    blocked_commit_after as nat
                },
            }),
            d.committed_telemetry() is None,
    {
        Debouncer {
            committed: StateReading { state: AgentState::Idle, reason: None, telemetry: None },
            candidate: None,
            commit_after: if commit_after == 0 { 1 } else { commit_after },
            blocked_commit_after: if blocked_commit_after == 0 { 1 } else { blocked_commit_after },
        }
    }

    /// The current committed reading.
    pub fn committed(&self) -> (r: &StateReading<T>)
        ensures
            r.state == self@.state,
            opt_text(r.reason) == self@.reason,
            r.telemetry == self.committed_telemetry(),
    {
        &self.committed
    }
}

impl<T: Clone> Debouncer<T> {
    /// Feed one raw reading; returns the committed reading after applying
    /// it. A reading that commits brings its telemetry along; one that
    /// agrees with the committed state refreshes only the reason.
    pub fn observe(&mut self, raw: StateReading<T>) -> (r: StateReading<T>)
        requires
            old(self).wf(),
        ensures
            final(self).wf(),
            final(self)@ == observed(old(self)@, raw.state, opt_text(raw.reason)),
            final(self).committed_telemetry() == (if commits(old(self)@, raw.state) {
                raw.telemetry
            } else {
                old(self).committed_telemetry()
            }),
            r.state == final(self)@.state,
            opt_text(r.reason) == final(self)@.reason,
            cloned_opt(final(self).committed_telemetry(), r.telemetry),
    {
        if raw.state == self.committed.state {
            self.candidate = None;
            self.committed.reason = raw.reason;
            return copy_reading(&self.committed);
        }
        let count: u32 = match self.candidate {
            Some((state, count)) => if state == raw.state {
                count + 1
            } else {
                1
            },
            None => 1,
        };
        let threshold = if raw.state == AgentState::Blocked {
            self.blocked_commit_after
        } else {
            self.commit_after
        };
        if count >= threshold {
            self.candidate = None;
            self.committed = raw;
        } else {
            self.candidate = Some((raw.state, count));
        }
        copy_reading(&self.committed)
    }
}

impl<T> Default for Debouncer<T> {
    fn default() -> (d: Self)
        ensures
            d.wf(),
            d@ == (DebounceView {
                state: AgentState::Idle,
                reason: None,
                candidate: None,
                commit_after: DEFAULT_COMMIT_AFTER as nat,
                blocked_commit_after: DEFAULT_BLOCKED_COMMIT_AFTER as nat,
            }),
            d.committed_telemetry() is None,
    {
        Debouncer::new()
    }
}


/// Along a run of readings from a debouncer with no candidate, the
/// invariant holds, the thresholds stay, and a candidate seen `c` times is
/// the state of each of the last `c` readings.
proof fn lemma_candidate_is_recent(d: DebounceView, rs: Seq<(AgentState, Option<Seq<char>>)>)
    requires
        debounce_wf(d),
        d.candidate is None,
    ensures
        debounce_wf(run(d, rs)),
        run(d, rs).commit_after == d.commit_after,
        run(d, rs).blocked_commit_after == d.blocked_commit_after,
        match run(d, rs).candidate {
            Some(p) => p.1 <= rs.len() && forall|i: int|
                rs.len() - p.1 <= i < rs.len() ==> (#[trigger] rs[i]).0 == p.0,
            None => true,
        },
    decreases rs.len(),
{
    if rs.len() > 0 {
        let prev = rs.drop_last();
        lemma_candidate_is_recent(d, prev);
        let e = run(d, prev);
        assert forall|i: int| 0 <= i < prev.len() implies #[trigger] prev[i] == rs[i] by {}
        match e.candidate {
            Some(p) => {
                assert forall|i: int| rs.len() - p.1 - 1 <= i < rs.len() - 1 implies (#[trigger] rs[i]).0
                    == p.0 by {
                    assert(prev[i] == rs[i]);
                }
            },
            None => {},
        }
    }
}

/// A state commits only after it has been read, in a row, as many times as
/// its threshold asks: when the last of a run of readings changes the
/// committed state, the run's last `threshold` readings all read the new
/// state — so no single frame (unless its threshold is one) ever flips it.
pub proof fn lemma_commit_needs_consecutive_readings(
    d: DebounceView,
    rs: Seq<(AgentState, Option<Seq<char>>)>,
)
    requires
        debounce_wf(d),
        d.candidate is None,
        rs.len() > 0,
        run(d, rs).state != run(d, rs.drop_last()).state,
    ensures
        threshold(d, run(d, rs).state) <= rs.len(),
        forall|i: int|
            rs.len() - threshold(d, run(d, rs).state) <= i < rs.len() ==> (#[trigger] rs[i]).0 == run(
                d,
                rs,
            ).state,
{
    let prev = rs.drop_last();
    lemma_candidate_is_recent(d, prev);
    let e = run(d, prev);
    let s = rs.last().0;
    assert(run(d, rs) == observed(e, s, rs.last().1));
    assert(commits(e, s));
    assert(run(d, rs).state == s);
    assert(threshold(e, s) == threshold(d, s));
    assert forall|i: int| 0 <= i < prev.len() implies #[trigger] prev[i] == rs[i] by {}
    match e.candidate {
        Some(p) => {
            if p.0 == s {
                assert forall|i: int| rs.len() - threshold(d, s) <= i < rs.len() implies (
                #[trigger] rs[i]).0 == s by {
                    if i < rs.len() - 1 {
                        assert(prev[i] == rs[i]);
                    }
                }
            }
        },
        None => {},
    }
}


proof fn lemma_run_thresholds(d: DebounceView, rs: Seq<(AgentState, Option<Seq<char>>)>)
    ensures
        run(d, rs).commit_after == d.commit_after,
        run(d, rs).blocked_commit_after == d.blocked_commit_after,
    decreases rs.len(),
{
    if rs.len() > 0 {
        lemma_run_thresholds(d, rs.drop_last());
    }
}

proof fn lemma_trailing_run(d: DebounceView, rs: Seq<(AgentState, Option<Seq<char>>)>, s: AgentState, n: int)
    requires
        1 <= threshold(d, s) <= rs.len(),
        rs.len() - threshold(d, s) < n <= rs.len(),
        forall|i: int| rs.len() - threshold(d, s) <= i < rs.len() ==> (#[trigger] rs[i]).0 == s,
    ensures
        ({
            let e = run(d, rs.take(n));
            let m = rs.len() - threshold(d, s);
            e.state == s || (e.candidate matches Some(p) && p.0 == s && p.1 >= n - m && p.1 < threshold(d, s))
        }),
    decreases n,
{
    let m = rs.len() - threshold(d, s);
    let prev = rs.take(n - 1);
    assert(rs.take(n).drop_last() =~= prev);
    assert(rs.take(n).last() == rs[n - 1]);
    if n > m + 1 {
        lemma_trailing_run(d, rs, s, n - 1);
    }
    lemma_run_thresholds(d, prev);
    let e = run(d, prev);
    assert(threshold(e, s) == threshold(d, s));
    assert(run(d, rs.take(n)) == observed(e, s, rs[n - 1].1));
}

/// The other half of the debounce: a state read as many times in a row as
/// its threshold asks is committed after the last of them, whatever came
/// before.
pub proof fn lemma_consecutive_readings_commit(d: DebounceView, rs: Seq<(AgentState, Option<Seq<char>>)>, s: AgentState)
    requires
        debounce_wf(d),
        threshold(d, s) <= rs.len(),
        forall|i: int| rs.len() - threshold(d, s) <= i < rs.len() ==> (#[trigger] rs[i]).0 == s,
    ensures
        run(d, rs).state == s,
{
    lemma_trailing_run(d, rs, s, rs.len() as int);
    assert(rs.take(rs.len() as int) =~= rs);
}

/// A held payload that is still fresh at `at`: one stamped at most
/// [`TELEMETRY_STALE_AFTER_NS`] earlier (a stamp after `at` counts as no
/// time passed).
pub open spec fn still_fresh<T>(held: Option<(T, u128)>, at: u128) -> Option<(T, u128)> {
    match held {
        Some(p) => if (if at >= p.1 { at - p.1 } else { 0 }) <= TELEMETRY_STALE_AFTER_NS {
            held
        } else {
            None
        },
        None => None,
    }
}

/// The payload of a held telemetry slot.
pub open spec fn payload<T>(held: Option<(T, u128)>) -> Option<T> {
    match held {
        Some(p) => Some(p.0),
        None => None,
    }
}

/// What holding `telemetry` stamped `at` makes of the slot: the freshest
/// payload wins, so one stamped older than the held payload is ignored.
pub open spec fn offered<T>(held: Option<(T, u128)>, telemetry: T, at: u128) -> Option<(T, u128)> {
    match held {
        Some(p) => if p.1 > at {
            held
        } else {
            Some((telemetry, at))
        },
        None => Some((telemetry, at)),
    }
}

/// Everything detection keeps per pane: history, debouncer, and the pane's
/// freshest bridge telemetry `T` with its arrival time, driven once per
/// refresh via [`PaneTracker::update`]. Telemetry is bridge data, not a
/// scraped signal: it rides committed readings without debouncing and ages
/// out after [`TELEMETRY_STALE_AFTER_NS`].
#[derive(Debug)]
pub struct PaneTracker<T> {
    history: History,
    debouncer: Debouncer<T>,
    telemetry: Option<(T, u128)>,
}

impl<T> PaneTracker<T> {
    /// The tracker's invariant holds.
    pub closed spec fn wf(&self) -> bool {
        self.debouncer.wf()
    }

    /// The tracker's history.
    pub closed spec fn history_view(&self) -> HistoryView {
        self.history@
    }

    /// The tracker's debouncer.
    pub closed spec fn debouncer_view(&self) -> DebounceView {
        self.debouncer@
    }

    /// The held telemetry payload and when it arrived.
    pub closed spec fn held(&self) -> Option<(T, u128)> {
        self.telemetry
    }

    /// A tracker for a fresh pane: no history, committed state idle, no
    /// telemetry.
    pub fn new() -> (t: Self)
        ensures
            t.wf(),
            t.history_view() == fresh_history(),
            t.debouncer_view() == (DebounceView {
                state: AgentState::Idle,
                reason: None,
                candidate: None,
                commit_after: DEFAULT_COMMIT_AFTER as nat,
                blocked_commit_after: DEFAULT_BLOCKED_COMMIT_AFTER as nat,
            }),
            t.held() is None,
    {
        PaneTracker { history: History::new(), debouncer: Debouncer::new(), telemetry: None }
    }

    /// Record a statusline payload for this pane; the freshest payload wins
    /// — one stamped older than the held payload is ignored, so
    /// out-of-order delivery cannot regress the data.
    pub fn set_telemetry(&mut self, telemetry: T, at: u128)
        requires
            old(self).wf(),
        ensures
            final(self).wf(),
            final(self).held() == offered(old(self).held(), telemetry, at),
            final(self).history_view() == old(self).history_view(),
            final(self).debouncer_view() == old(self).debouncer_view(),
    {
        let older = match &self.telemetry {
            Some((_, seen)) => *seen > at,
            None => false,
        };
        if !older {
            self.telemetry = Some((telemetry, at));
        }
    }
}

impl<T: Clone> PaneTracker<T> {
    /// Run one detection step: classify the grid, debounce, record the
    /// frame under the committed state, drop telemetry past its staleness
    /// window, attach what is still held, and return the committed reading.
    /// The committed state — not the raw frame — feeds the activity stamp,
    /// so one changed frame never arms the done window.
    pub fn update(&mut self, detector: &Detector, kind: AgentKind, grid: &Grid, at: u128) -> (r: StateReading<T>)
        requires
            old(self).wf(),
            kind.index() < detector@.len(),
            grid.wf(),
        ensures
            final(self).wf(),
            ({
                let config = detector@[kind.index() as int];
                let fp = grid_fingerprint(grid@, config);
                let c = classify_spec(
                    config,
                    screen_lines(grid@),
                    old(self).history_view(),
                    changed_since(old(self).history_view(), fp),
                    at,
                );
                &&& final(self).debouncer_view() == observed(old(self).debouncer_view(), c.0, c.1)
                &&& final(self).history_view() == recorded(
                    old(self).history_view(),
                    final(self).debouncer_view().state,
                    fp,
                    at,
                )
            }),
            final(self).held() == still_fresh(old(self).held(), at),
            r.state == final(self).debouncer_view().state,
            opt_text(r.reason) == final(self).debouncer_view().reason,
            cloned_opt(payload(final(self).held()), r.telemetry),
    {
        let raw: StateReading<T> = detector.classify(kind, grid, &self.history, at);
        let mut reading = self.debouncer.observe(raw);
        self.history.record(reading.state, grid, detector.agent(kind), at);
        let fresh = match &self.telemetry {
            Some((_, seen)) => {
                let elapsed: u128 = if at >= *seen { at - *seen } else { 0 };
                elapsed <= TELEMETRY_STALE_AFTER_NS
            },
            None => false,
        };
        if !fresh {
            self.telemetry = None;
        }
        reading.telemetry = match &self.telemetry {
            Some((t, _)) => Some(t.clone()),
            None => None,
        };
        reading
    }

    /// The committed reading with the pane's held telemetry attached.
    /// Aging is evaluated by [`PaneTracker::update`], so a quiet feed's last
    /// payload lingers here until the next update purges it.
    pub fn committed(&self) -> (r: StateReading<T>)
        ensures
            r.state == self.debouncer_view().state,
            opt_text(r.reason) == self.debouncer_view().reason,
            cloned_opt(payload(self.held()), r.telemetry),
    {
        let mut reading = copy_reading(self.debouncer.committed());
        reading.telemetry = match &self.telemetry {
            Some((t, _)) => Some(t.clone()),
            None => None,
        };
        reading
    }
}

impl<T> Default for PaneTracker<T> {
    fn default() -> (t: Self)
        ensures
            t.wf(),
            t.history_view() == fresh_history(),
            t.held() is None,
    {
        PaneTracker::new()
    }
}


/// Rows that do not count as output — blank, or matched by an
/// `activity.ignore` pattern — never change the fingerprint: two screens
/// whose rows count alike and whose counted rows agree have the same
/// fingerprint.
pub proof fn lemma_uncounted_rows_ignored(a: Seq<Seq<char>>, b: Seq<Seq<char>>, ignore: Seq<Seq<char>>)
    requires
        a.len() == b.len(),
        forall|r: int|
            0 <= r < a.len() ==> (counts_as_output(ignore, #[trigger] a[r]) <==> counts_as_output(
                ignore,
                b[r],
            )),
        forall|r: int| 0 <= r < a.len() && counts_as_output(ignore, #[trigger] a[r]) ==> a[r] == b[r],
    ensures
        fingerprint(a, ignore) == fingerprint(b, ignore),
    decreases a.len(),
{
    if a.len() > 0 {
        let (pa, pb) = (a.drop_last(), b.drop_last());
        assert forall|r: int| 0 <= r < pa.len() implies (counts_as_output(ignore, #[trigger] pa[r])
            <==> counts_as_output(ignore, pb[r])) by {
            assert(pa[r] == a[r] && pb[r] == b[r]);
        }
        assert forall|r: int| 0 <= r < pa.len() && counts_as_output(ignore, #[trigger] pa[r]) implies pa[r]
            == pb[r] by {
            assert(pa[r] == a[r] && pb[r] == b[r]);
        }
        lemma_uncounted_rows_ignored(pa, pb, ignore);
        assert(counts_as_output(ignore, a[a.len() - 1]) <==> counts_as_output(ignore, b[a.len() - 1]));
    }
}

/// Right after a frame is recorded the same frame reads as unchanged;
/// settling is one-way; and a frame with nothing countable on it (a blank
/// screen, or only ignored chrome) never settles the history.
pub proof fn lemma_record_laws(h: HistoryView, state: AgentState, fp: Seq<(nat, Seq<char>)>, at: u128)
    ensures
        changed_since(recorded(h, state, fp, at), fp) == Some(false),
        h.settled ==> recorded(h, state, fp, at).settled,
        fp.len() == 0 ==> recorded(h, state, fp, at).settled == h.settled,
        state != AgentState::Working ==> recorded(h, state, fp, at).last_activity_at == h.last_activity_at,
{
}

/// A history after a run of records, oldest first: each a committed
/// state, a frame's fingerprint and the time it was recorded.
pub open spec fn records(h: HistoryView, rs: Seq<(AgentState, Seq<(nat, Seq<char>)>, u128)>) -> HistoryView
    decreases rs.len(),
{
    if rs.len() == 0 {
        h
    } else {
        let l = rs.last();
        recorded(records(h, rs.drop_last()), l.0, l.1, l.2)
    }
}

/// The time of the last `working` record of a run, if any.
pub open spec fn last_working(rs: Seq<(AgentState, Seq<(nat, Seq<char>)>, u128)>) -> Option<u128>
    decreases rs.len(),
{
    if rs.len() == 0 {
        None
    } else if rs.last().0 == AgentState::Working {
        Some(rs.last().2)
    } else {
        last_working(rs.drop_last())
    }
}

/// The fingerprint recorded just before record `i` of a run.
pub open spec fn before_record(h: HistoryView, rs: Seq<(AgentState, Seq<(nat, Seq<char>)>, u128)>, i: int) -> Option<Seq<(nat, Seq<char>)>> {
    if i == 0 {
        h.last
    } else {
        Some(rs[i - 1].1)
    }
}

/// Some record of the run repeats the frame recorded just before it, with
/// content on screen.
pub open spec fn repeats(h: HistoryView, rs: Seq<(AgentState, Seq<(nat, Seq<char>)>, u128)>) -> bool {
    exists|i: int|
        0 <= i < rs.len() && (#[trigger] rs[i]).1.len() > 0 && before_record(h, rs, i) == Some(rs[i].1)
}

/// Over any run of records: the last-activity stamp is the time of the
/// last `working` record (blocked, idle and done records never move it),
/// and the history has settled exactly when it already had, or some
/// record repeated the frame before it with content on screen; once
/// settled it stays settled.
pub proof fn lemma_history_over_a_run(h: HistoryView, rs: Seq<(AgentState, Seq<(nat, Seq<char>)>, u128)>)
    ensures
        records(h, rs).last_activity_at == match last_working(rs) {
            Some(t) => Some(t),
            None => h.last_activity_at,
        },
        records(h, rs).settled == (h.settled || repeats(h, rs)),
        records(h, rs).last == if rs.len() == 0 { h.last } else { Some(rs.last().1) },
    decreases rs.len(),
{
    if rs.len() > 0 {
        let prev = rs.drop_last();
        lemma_history_over_a_run(h, prev);
        let n = rs.len() - 1;
        assert forall|i: int| 0 <= i < n implies #[trigger] prev[i] == rs[i] by {}
        if repeats(h, prev) {
            let i = choose|i: int| 0 <= i < prev.len() && (#[trigger] prev[i]).1.len() > 0 && before_record(h, prev, i) == Some(prev[i].1);
            assert(rs[i] == prev[i]);
            if i > 0 {
                assert(rs[i - 1] == prev[i - 1]);
            }
            assert(before_record(h, rs, i) == before_record(h, prev, i));
            assert(repeats(h, rs));
        }
        if repeats(h, rs) {
            let i = choose|i: int| 0 <= i < rs.len() && (#[trigger] rs[i]).1.len() > 0 && before_record(h, rs, i) == Some(rs[i].1);
            if i < n {
                assert(prev[i] == rs[i]);
                if i > 0 {
                    assert(prev[i - 1] == rs[i - 1]);
                }
                assert(before_record(h, prev, i) == before_record(h, rs, i));
                assert(repeats(h, prev));
            } else {
                assert(before_record(h, rs, n) == records(h, prev).last) by {
                    if n > 0 {
                        assert(prev.last() == rs[n - 1]);
                    }
                }
            }
        }
        let l = rs.last();
        if l.1.len() > 0 && records(h, prev).last == Some(l.1) {
            assert(before_record(h, rs, n) == Some(rs[n].1)) by {
                if n > 0 {
                    assert(prev.last() == rs[n - 1]);
                }
            }
            assert(repeats(h, rs));
        }
    }
}

} // verus!
