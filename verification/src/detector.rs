//! Agent identification and per-frame state classification.

use vstd::prelude::*;

use crate::config::{regex_group1, regex_matches, sources, texts, AgentConfig, Pattern, ReasonSource};
use crate::destructive::{basename, basename_of};
use crate::grid::Grid;
use crate::session::AgentState;
use crate::text::{
    chars_of, is_whitespace, is_ws, split_whitespace, split_ws, string_from_chars, trim_by,
};
use crate::track::{
    any_matches, changed_since, fresh_history, grid_fingerprint, matched_by_any, screen_lines,
    History, HistoryView,
};

verus! {

/// Whether `char::is_alphanumeric` holds of `c` (alphabetic or numeric in
/// Unicode's sense).
pub uninterp spec fn alphanumeric(c: char) -> bool;

/// `char::is_alphanumeric`.
#[verifier::external_body]
fn is_alphanumeric(c: char) -> (b: bool)
    ensures
        b == alphanumeric(c),
{
    c.is_alphanumeric()
}

/// One classification result: a state plus the human-readable reason for
/// it, and the pane's bridge-fed telemetry `T` when a feed is live. The
/// scrape never sets telemetry; the pane tracker attaches it.
#[derive(Clone, Debug, PartialEq)]
pub struct StateReading<T> {
    /// The classified state.
    pub state: AgentState,
    /// Why — the question a blocked agent is asking, a hint at what a
    /// working agent is doing. `None` when the screen offers nothing usable.
    pub reason: Option<String>,
    /// Statusline-fed numbers for the pane, when its bridge feed is live.
    pub telemetry: Option<T>,
}

/// An optional string as plain values.
pub open spec fn opt_text(s: Option<String>) -> Option<Seq<char>> {
    match s {
        Some(t) => Some(t@),
        None => None,
    }
}

impl<T> Default for StateReading<T> {
    fn default() -> (r: Self)
        ensures
            r.state == AgentState::Idle,
            r.reason is None,
            r.telemetry is None,
    {
        StateReading { state: AgentState::Idle, reason: None, telemetry: None }
    }
}

/// Identifies a configured agent within a [`Detector`]: only meaningful
/// for the detector that produced it.
#[derive(Clone, Copy, Debug, PartialEq, Eq, Structural)]
pub struct AgentKind(usize);

impl AgentKind {
    /// The agent's position in its detector's list.
    pub closed spec fn index(self) -> nat {
        self.0 as nat
    }
}

/// A char that is pane chrome around a reason: whitespace or a vertical
/// box border.
pub open spec fn is_chrome(c: char) -> bool {
    is_ws(c) || c == '│' || c == '┃' || c == '║'
}

/// A line with surrounding whitespace and box borders removed.
pub open spec fn clean(s: Seq<char>) -> Seq<char> {
    trim_by(s, |c: char| is_chrome(c))
}

/// The bottom-most of the first `n` rows that `src` matches.
pub open spec fn last_match_row(src: Seq<char>, lines: Seq<Seq<char>>, n: int) -> Option<int>
    decreases n,
{
    if n <= 0 {
        None
    } else if regex_matches(src, lines[n - 1]) {
        Some(n - 1)
    } else {
        last_match_row(src, lines, n - 1)
    }
}

/// The reason candidate a match of `src` on `line` gives: capture group 1
/// when it took part, else the whole line, cleaned.
pub open spec fn found_text(src: Seq<char>, line: Seq<char>) -> Seq<char> {
    match regex_group1(src, line) {
        Some(g) => clean(g),
        None => clean(line),
    }
}

/// Patterns from the `k`-th on, tried in order, each scanning the rows
/// bottom-up; the first hit's row and reason candidate.
pub open spec fn find_from(srcs: Seq<Seq<char>>, lines: Seq<Seq<char>>, k: int) -> Option<(int, Seq<char>)>
    decreases srcs.len() - k,
{
    if k < 0 || k >= srcs.len() {
        None
    } else {
        match last_match_row(srcs[k], lines, lines.len() as int) {
            Some(r) => Some((r, found_text(srcs[k], lines[r]))),
            None => find_from(srcs, lines, k + 1),
        }
    }
}

/// Whether a line holds an alphanumeric char.
pub open spec fn worded(line: Seq<char>) -> bool {
    exists|i: int| 0 <= i < line.len() && #[trigger] alphanumeric(line[i])
}

/// The bottom-most of the first `n` rows that has a word in it and that no
/// `reason.ignore` pattern matches, cleaned.
pub open spec fn last_worded(lines: Seq<Seq<char>>, ignore: Seq<Seq<char>>, n: int) -> Option<Seq<char>>
    decreases n,
{
    if n <= 0 {
        None
    } else if worded(lines[n - 1]) && !matched_by_any(ignore, lines[n - 1]) {
        Some(clean(lines[n - 1]))
    } else {
        last_worded(lines, ignore, n - 1)
    }
}

/// A matched state's reason, from the source its config names.
pub open spec fn reason_for(
    source: ReasonSource,
    found: (int, Seq<char>),
    lines: Seq<Seq<char>>,
    ignore: Seq<Seq<char>>,
) -> Option<Seq<char>> {
    match source {
        ReasonSource::MatchedLine => if found.1.len() > 0 {
            Some(found.1)
        } else {
            None
        },
        ReasonSource::LastNonempty => last_worded(lines, ignore, lines.len() as int),
    }
}

/// Whether the agent was working within `secs` seconds before `at` (ns);
/// a stamp after `at` counts as no time passed.
pub open spec fn recently_active(last: Option<u128>, at: u128, secs: u64) -> bool {
    match last {
        Some(t) => (if at >= t { at - t } else { 0 }) <= secs * 1_000_000_000,
        None => false,
    }
}

/// The state and reason one frame reads as. `changed` is whether its
/// activity rows differ from the last recorded frame's.
///
/// Signals, strongest first: a blocked pattern; a working pattern; the
/// screen changing once it has settled at least once; the idle prompt —
/// done when the agent was working within its window, idle otherwise;
/// and idle when nothing is recognized.
pub open spec fn classify_spec(
    config: AgentConfig,
    lines: Seq<Seq<char>>,
    history: HistoryView,
    changed: Option<bool>,
    at: u128,
) -> (AgentState, Option<Seq<char>>) {
    let ignore = sources(config.reason_ignore@);
    match find_from(sources(config.blocked@), lines, 0) {
        Some(f) => (AgentState::Blocked, reason_for(config.reason_blocked, f, lines, ignore)),
        None => match find_from(sources(config.working@), lines, 0) {
            Some(f) => (AgentState::Working, reason_for(config.reason_working, f, lines, ignore)),
            None => if history.settled && changed == Some(true) {
                (AgentState::Working, last_worded(lines, ignore, lines.len() as int))
            } else {
                match find_from(sources(config.idle@), lines, 0) {
                    Some(f) => if recently_active(
                        history.last_activity_at,
                        at,
                        config.done_after_activity_secs,
                    ) {
                        (AgentState::Done, last_worded(lines, ignore, f.0))
                    } else {
                        (AgentState::Idle, None)
                    },
                    None => (AgentState::Idle, None),
                }
            },
        },
    }
}

/// The name a command line runs: the basename of its first
/// whitespace-separated token.
pub open spec fn command_name(command: Seq<char>) -> Option<Seq<char>> {
    let tokens = split_ws(command);
    if tokens.len() == 0 {
        None
    } else {
        Some(basename(tokens[0]))
    }
}

/// Whether an agent lists `name` among its commands.
pub open spec fn claims(agent: AgentConfig, name: Seq<char>) -> bool {
    texts(agent.match_command@).contains(name)
}

/// The first agent from the `k`-th on that claims `name`.
pub open spec fn first_claiming(agents: Seq<AgentConfig>, name: Seq<char>, k: int) -> Option<nat>
    decreases agents.len() - k,
{
    if k < 0 || k >= agents.len() {
        None
    } else if claims(agents[k], name) {
        Some(k as nat)
    } else {
        first_claiming(agents, name, k + 1)
    }
}

/// The agent a command line identifies as, by position.
pub open spec fn identified(agents: Seq<AgentConfig>, command: Seq<char>) -> Option<nat> {
    match command_name(command) {
        Some(name) => first_claiming(agents, name, 0),
        None => None,
    }
}

/// Where a pattern matched and the reason it offers.
struct PatternMatch {
    row: usize,
    text: String,
}

/// `line` with surrounding whitespace and box borders removed.
fn clean_line(line: &str) -> (r: String)
    ensures
        r@ == clean(line@),
{
    let s = chars_of(line);
    let ghost pred = |c: char| is_chrome(c);
    let mut start: usize = 0;
    while start < s.len() && (is_whitespace(s[start]) || s[start] == '│' || s[start] == '┃'
        || s[start] == '║')
        invariant
            start <= s@.len(),
            s@ == line@,
            forall|j: int| 0 <= j < start ==> is_chrome(#[trigger] s@[j]),
        decreases s@.len() - start,
    {
        start += 1;
    }
    proof {
        crate::text::lemma_trim_start_skip(s@, pred, start as int);
    }
    let mut end: usize = s.len();
    while end > start && (is_whitespace(s[end - 1]) || s[end - 1] == '│' || s[end - 1] == '┃'
        || s[end - 1] == '║')
        invariant
            start <= end <= s@.len(),
            forall|j: int| end <= j < s@.len() ==> is_chrome(#[trigger] s@[j]),
        decreases end,
    {
        end -= 1;
    }
    let kept = vstd::slice::slice_subrange(s.as_slice(), start, end);
    proof {
        let rest = s@.skip(start as int);
        assert forall|j: int| end - start <= j < rest.len() implies pred(#[trigger] rest[j]) by {
            assert(rest[j] == s@[j + start]);
        }
        if end > start {
            assert(rest[end - start - 1] == s@[end - 1]);
        }
        crate::text::lemma_trim_end_take(rest, pred, (end - start) as int);
        assert(kept@ =~= rest.take((end - start) as int));
    }
    string_from_chars(kept)
}

/// Whether `line` holds an alphanumeric char.
fn has_word(line: &str) -> (b: bool)
    ensures
        b == worded(line@),
{
    let s = chars_of(line);
    let mut i: usize = 0;
    while i < s.len()
        invariant
            s@ == line@,
            i <= s@.len(),
            forall|j: int| 0 <= j < i ==> !alphanumeric(#[trigger] s@[j]),
        decreases s@.len() - i,
    {
        if is_alphanumeric(s[i]) {
            assert(alphanumeric(line@[i as int]));
            return true;
        }
        i += 1;
    }
    false
}

/// Rows without a match keep the bottom-most match below them unchanged.
proof fn lemma_last_match_row_skip(src: Seq<char>, lines: Seq<Seq<char>>, r: int, n: int)
    requires
        0 <= r <= n,
        forall|j: int| r <= j < n ==> !regex_matches(src, #[trigger] lines[j]),
    ensures
        last_match_row(src, lines, n) == last_match_row(src, lines, r),
    decreases n - r,
{
    if n > r {
        lemma_last_match_row_skip(src, lines, r, n - 1);
    }
}

/// Try `patterns` in order; for each, scan rows bottom-up. First hit wins.
fn find_match(patterns: &Vec<Pattern>, lines: &Vec<String>) -> (r: Option<PatternMatch>)
    ensures
        match find_from(sources(patterns@), texts(lines@), 0) {
            Some(f) => r is Some && r->Some_0.row == f.0 && r->Some_0.text@ == f.1,
            None => r is None,
        },
        r is Some ==> r->Some_0.row < lines@.len(),
{
    let ghost srcs = sources(patterns@);
    let ghost all = texts(lines@);
    let mut k: usize = 0;
    while k < patterns.len()
        invariant
            k <= patterns@.len(),
            srcs == sources(patterns@),
            all == texts(lines@),
            find_from(srcs, all, 0) == find_from(srcs, all, k as int),
        decreases patterns@.len() - k,
    {
        let pattern = &patterns[k];
        let mut r: usize = lines.len();
        while r > 0
            invariant
                r <= lines@.len(),
                srcs == sources(patterns@),
                all == texts(lines@),
                k < patterns@.len(),
                pattern@ == srcs[k as int],
                find_from(srcs, all, 0) == find_from(srcs, all, k as int),
                forall|j: int| r <= j < lines@.len() ==> !regex_matches(srcs[k as int], #[trigger] all[j]),
            decreases r,
        {
            let row = r - 1;
            let line = lines[row].as_str();
            assert(line@ == all[row as int]);
            match pattern.first_group(line) {
                Some(group) => {
                    let text = match group {
                        Some(g) => clean_line(g.as_str()),
                        None => clean_line(line),
                    };
                    proof {
                        lemma_last_match_row_skip(srcs[k as int], all, r as int, all.len() as int);
                        assert(regex_matches(srcs[k as int], all[row as int]));
                        assert(last_match_row(srcs[k as int], all, r as int) == Some(row as int));
                        assert(text@ == found_text(srcs[k as int], all[row as int]));
                        assert(find_from(srcs, all, k as int) == Some((row as int, text@)));
                    }
                    return Some(PatternMatch { row, text });
                },
                None => {},
            }
            r = row;
        }
        proof {
            lemma_last_match_row_skip(srcs[k as int], all, 0, all.len() as int);
        }
        k += 1;
    }
    None
}

/// The bottom-most of the first `n` lines that has a word and that no
/// `ignore` pattern matches, cleaned.
fn last_worded_line(lines: &Vec<String>, n: usize, ignore: &Vec<Pattern>) -> (r: Option<String>)
    requires
        n <= lines@.len(),
    ensures
        opt_text(r) == last_worded(texts(lines@), sources(ignore@), n as int),
{
    let ghost all = texts(lines@);
    let ghost ig = sources(ignore@);
    let mut r: usize = n;
    while r > 0
        invariant
            r <= n <= lines@.len(),
            all == texts(lines@),
            ig == sources(ignore@),
            last_worded(all, ig, n as int) == last_worded(all, ig, r as int),
        decreases r,
    {
        let line = lines[r - 1].as_str();
        assert(line@ == all[r - 1]);
        if has_word(line) && !any_matches(ignore, line) {
            return Some(clean_line(line));
        }
        r -= 1;
    }
    None
}

/// A matched state's reason from the source its config names.
fn reason_from(source: ReasonSource, found: &PatternMatch, lines: &Vec<String>, ignore: &Vec<Pattern>) -> (r: Option<String>)
    ensures
        opt_text(r) == reason_for(source, (found.row as int, found.text@), texts(lines@), sources(ignore@)),
{
    match source {
        ReasonSource::MatchedLine => {
            if found.text.as_str().is_empty() {
                None
            } else {
                Some(found.text.clone())
            }
        },
        ReasonSource::LastNonempty => last_worded_line(lines, lines.len(), ignore),
    }
}

/// Whether the agent was working within `secs` seconds before `at`.
fn was_recently_active(last: Option<u128>, at: u128, secs: u64) -> (b: bool)
    ensures
        b == recently_active(last, at, secs),
{
    match last {
        Some(t) => {
            let elapsed: u128 = if at >= t { at - t } else { 0 };
            elapsed <= (secs as u128) * 1_000_000_000
        },
        None => false,
    }
}

/// A reading as the scrape produces it: state and reason, never telemetry.
fn scraped<T>(state: AgentState, reason: Option<String>) -> (r: StateReading<T>)
    ensures
        r.state == state,
        r.reason == reason,
        r.telemetry is None,
{
    StateReading { state, reason, telemetry: None }
}

/// Classifies agent panes from parsed screen grids.
pub struct Detector {
    agents: Vec<AgentConfig>,
}

impl View for Detector {
    type V = Seq<AgentConfig>;

    closed spec fn view(&self) -> Seq<AgentConfig> {
        self.agents@
    }
}

impl Detector {
    /// A detector over the given agent configs, in the order given.
    pub fn new(agents: Vec<AgentConfig>) -> (d: Self)
        ensures
            d@ == agents@,
    {
        Detector { agents }
    }

    /// The configured agents, in order.
    pub fn agents(&self) -> (a: &[AgentConfig])
        ensures
            a@ == self@,
    {
        self.agents.as_slice()
    }

    /// The config behind an [`AgentKind`] of this detector.
    pub fn agent(&self, kind: AgentKind) -> (a: &AgentConfig)
        requires
            kind.index() < self@.len(),
        ensures
            *a == self@[kind.index() as int],
    {
        &self.agents[kind.0]
    }

    /// Match a pane's command line against the configured agents: the
    /// basename of its first whitespace-separated token, against each
    /// agent's commands in order, so `/usr/local/bin/agent --continue`
    /// identifies as `agent`.
    pub fn identify(&self, command: &str) -> (r: Option<AgentKind>)
        ensures
            match identified(self@, command@) {
                Some(i) => r is Some && r->Some_0.index() == i && i < self@.len(),
                None => r is None,
            },
    {
        let chars = chars_of(command);
        let tokens = split_whitespace(chars.as_slice());
        if tokens.len() == 0 {
            return None;
        }
        let base = basename_of(tokens[0].as_slice());
        let name = string_from_chars(base.as_slice());
        assert(tokens.deep_view()[0] == tokens@[0]@);
        let ghost want = name@;
        assert(command_name(command@) == Some(want));
        let mut i: usize = 0;
        while i < self.agents.len()
            invariant
                i <= self.agents@.len(),
                want == name@,
                command_name(command@) == Some(want),
                first_claiming(self.agents@, want, 0) == first_claiming(self.agents@, want, i as int),
            decreases self.agents@.len() - i,
        {
            let commands = &self.agents[i].match_command;
            let mut j: usize = 0;
            let mut hit = false;
            while j < commands.len()
                invariant
                    j <= commands@.len(),
                    i < self.agents@.len(),
                    want == name@,
                    *commands == self.agents@[i as int].match_command,
                    hit == exists|m: int| 0 <= m < j && #[trigger] commands@[m]@ == want,
                decreases commands@.len() - j,
            {
                let same = crate::text::same_text(commands[j].as_str(), name.as_str());
                assert(same == (commands@[j as int]@ == want));
                if same {
                    hit = true;
                }
                j += 1;
            }
            proof {
                let ts = texts(commands@);
                if hit {
                    let m = choose|m: int| 0 <= m < commands@.len() && #[trigger] commands@[m]@ == want;
                    assert(ts[m] == want);
                } else {
                    assert forall|m: int| 0 <= m < ts.len() implies ts[m] != want by {
                        assert(ts[m] == commands@[m]@);
                    }
                }
                assert(hit == claims(self.agents@[i as int], want));
            }
            if hit {
                assert(first_claiming(self.agents@, want, i as int) == Some(i as nat));
                return Some(AgentKind(i));
            }
            i += 1;
        }
        None
    }

    /// Classify one frame of an agent's screen: the first of the signals
    /// [`classify_spec`] lists that holds. Rows are matched bottom-up;
    /// within a state, patterns are tried in config order, so earlier
    /// patterns both win the match and supply the reason. `at` (ns) only
    /// feeds the done-vs-idle recency call — use the clock history is
    /// recorded with.
    pub fn classify<T>(&self, kind: AgentKind, grid: &Grid, history: &History, at: u128) -> (r: StateReading<T>)
        requires
            kind.index() < self@.len(),
            grid.wf(),
        ensures
            ({
                let config = self@[kind.index() as int];
                let c = classify_spec(
                    config,
                    screen_lines(grid@),
                    history@,
                    changed_since(history@, grid_fingerprint(grid@, config)),
                    at,
                );
                r.state == c.0 && opt_text(r.reason) == c.1
            }),
            r.telemetry is None,
    {
        let config = self.agent(kind);
        let lines = grid.lines();
        let ghost all = screen_lines(grid@);
        assert(texts(lines@) =~= all);
        let ghost ignore = sources(config.reason_ignore@);

        match find_match(&config.blocked, &lines) {
            Some(found) => {
                let reason = reason_from(config.reason_blocked, &found, &lines, &config.reason_ignore);
                return scraped(AgentState::Blocked, reason);
            },
            None => {},
        }
        match find_match(&config.working, &lines) {
            Some(found) => {
                let reason = reason_from(config.reason_working, &found, &lines, &config.reason_ignore);
                return scraped(AgentState::Working, reason);
            },
            None => {},
        }
        if history.has_settled() {
            let changed = history.content_changed(grid, config);
            if changed == Some(true) {
                let reason = last_worded_line(&lines, lines.len(), &config.reason_ignore);
                return scraped(AgentState::Working, reason);
            }
        }
        match find_match(&config.idle, &lines) {
            Some(found) => {
                if was_recently_active(
                    history.last_activity_at(),
                    at,
                    config.done_after_activity_secs,
                ) {
                    let reason = last_worded_line(&lines, found.row, &config.reason_ignore);
                    scraped(AgentState::Done, reason)
                } else {
                    scraped(AgentState::Idle, None)
                }
            },
            None => scraped(AgentState::Idle, None),
        }
    }
}


/// A first frame is not evidence of activity: with nothing recorded, a
/// frame never reads as done, and reads as working only when a working
/// pattern is on screen and no blocked one is.
pub proof fn lemma_fresh_history_reads(
    config: AgentConfig,
    lines: Seq<Seq<char>>,
    fp: Seq<(nat, Seq<char>)>,
    at: u128,
)
    ensures
        ({
            let c = classify_spec(config, lines, fresh_history(), changed_since(fresh_history(), fp), at);
            &&& c.0 != AgentState::Done
            &&& c.0 == AgentState::Working ==> find_from(sources(config.blocked@), lines, 0) is None
                && find_from(sources(config.working@), lines, 0) is Some
        }),
{
}

proof fn lemma_last_match_found(src: Seq<char>, lines: Seq<Seq<char>>, n: int, j: int)
    requires
        0 <= j < n <= lines.len(),
        regex_matches(src, lines[j]),
    ensures
        last_match_row(src, lines, n) is Some,
    decreases n,
{
    if !regex_matches(src, lines[n - 1]) {
        lemma_last_match_found(src, lines, n - 1, j);
    }
}

proof fn lemma_last_match_none(src: Seq<char>, lines: Seq<Seq<char>>, n: int)
    requires
        n <= lines.len(),
        forall|j: int| 0 <= j < lines.len() ==> !regex_matches(src, #[trigger] lines[j]),
    ensures
        last_match_row(src, lines, n) is None,
    decreases n,
{
    if n > 0 {
        lemma_last_match_none(src, lines, n - 1);
    }
}

/// Some pattern from the `k`-th on matching some row means the search
/// finds a hit.
proof fn lemma_find_from_found(srcs: Seq<Seq<char>>, lines: Seq<Seq<char>>, k: int, i: int, j: int)
    requires
        0 <= k <= i < srcs.len(),
        0 <= j < lines.len(),
        regex_matches(srcs[i], lines[j]),
    ensures
        find_from(srcs, lines, k) is Some,
    decreases srcs.len() - k,
{
    if k == i {
        lemma_last_match_found(srcs[i], lines, lines.len() as int, j);
    } else if last_match_row(srcs[k], lines, lines.len() as int) is None {
        lemma_find_from_found(srcs, lines, k + 1, i, j);
    }
}

/// No pattern matching any row means the search finds nothing.
proof fn lemma_find_from_none(srcs: Seq<Seq<char>>, lines: Seq<Seq<char>>, k: int)
    requires
        0 <= k,
        forall|i: int, j: int| 0 <= i < srcs.len() && 0 <= j < lines.len() ==> !regex_matches(#[trigger] srcs[i], #[trigger] lines[j]),
    ensures
        find_from(srcs, lines, k) is None,
    decreases srcs.len() - k,
{
    if k < srcs.len() {
        assert forall|j: int| 0 <= j < lines.len() implies !regex_matches(srcs[k], #[trigger] lines[j]) by {}
        lemma_last_match_none(srcs[k], lines, lines.len() as int);
        lemma_find_from_none(srcs, lines, k + 1);
    }
}

/// The row a pattern search reports is a row of the screen that the
/// pattern matches.
proof fn lemma_last_match_row_sound(src: Seq<char>, lines: Seq<Seq<char>>, n: int)
    requires
        n <= lines.len(),
    ensures
        last_match_row(src, lines, n) matches Some(r) ==> 0 <= r < n && regex_matches(src, lines[r]),
    decreases n,
{
    if n > 0 && !regex_matches(src, lines[n - 1]) {
        lemma_last_match_row_sound(src, lines, n - 1);
    }
}

/// The row the search over a list of patterns reports is matched by one
/// of them.
proof fn lemma_find_from_sound(srcs: Seq<Seq<char>>, lines: Seq<Seq<char>>, k: int)
    requires
        0 <= k,
    ensures
        find_from(srcs, lines, k) matches Some(f) ==> 0 <= f.0 < lines.len() && matched_by_any(
            srcs,
            lines[f.0],
        ),
    decreases srcs.len() - k,
{
    if k < srcs.len() {
        lemma_last_match_row_sound(srcs[k], lines, lines.len() as int);
        match last_match_row(srcs[k], lines, lines.len() as int) {
            Some(r) => {
                assert(regex_matches(srcs[k], lines[r]));
            },
            None => {
                lemma_find_from_sound(srcs, lines, k + 1);
            },
        }
    }
}

/// What the bottom-most usable row among the first `n` is, spelled out:
/// a row that holds a word and that no ignore pattern matches, with no
/// such row below it within the first `n`; none when there is no such row.
proof fn lemma_last_worded_shape(lines: Seq<Seq<char>>, ignore: Seq<Seq<char>>, n: int)
    requires
        n <= lines.len(),
    ensures
        match last_worded(lines, ignore, n) {
            Some(r) => exists|k: int|
                0 <= k < n && #[trigger] worded(lines[k]) && !matched_by_any(ignore, lines[k]) && r
                    == clean(lines[k]) && forall|m: int|
                    k < m < n ==> !(#[trigger] worded(lines[m]) && !matched_by_any(ignore, lines[m])),
            None => forall|m: int|
                0 <= m < n ==> !(#[trigger] worded(lines[m]) && !matched_by_any(ignore, lines[m])),
        },
    decreases n,
{
    if n > 0 {
        if worded(lines[n - 1]) && !matched_by_any(ignore, lines[n - 1]) {
            assert(worded(lines[n - 1]));
        } else {
            lemma_last_worded_shape(lines, ignore, n - 1);
            match last_worded(lines, ignore, n - 1) {
                Some(r) => {
                    let k = choose|k: int|
                        0 <= k < n - 1 && #[trigger] worded(lines[k]) && !matched_by_any(ignore, lines[k])
                            && r == clean(lines[k]) && forall|m: int|
                            k < m < n - 1 ==> !(#[trigger] worded(lines[m]) && !matched_by_any(
                                ignore,
                                lines[m],
                            ));
                    assert(worded(lines[k]));
                },
                None => {},
            }
        }
    }
}

/// A frame reads done only at an idle prompt, and its reason comes from
/// above the prompt: the frame has a row some idle pattern matches (the
/// prompt row the idle search reports), and the reason, when there is
/// one, is the cleaned text of the bottom-most row strictly above the
/// prompt that holds a word and that no `reason.ignore` pattern matches.
/// Rows at or below the prompt never supply it; with no such row above
/// the prompt there is no reason.
pub proof fn lemma_done_reason_is_above_the_prompt(
    config: AgentConfig,
    lines: Seq<Seq<char>>,
    history: HistoryView,
    changed: Option<bool>,
    at: u128,
)
    requires
        classify_spec(config, lines, history, changed, at).0 == AgentState::Done,
    ensures
        ({
            let ignore = sources(config.reason_ignore@);
            let reason = classify_spec(config, lines, history, changed, at).1;
            &&& find_from(sources(config.idle@), lines, 0) is Some
            &&& {
                let p = find_from(sources(config.idle@), lines, 0)->Some_0.0;
                &&& 0 <= p < lines.len()
                &&& matched_by_any(sources(config.idle@), lines[p])
                &&& match reason {
                    Some(r) => exists|k: int|
                        0 <= k < p && #[trigger] worded(lines[k]) && !matched_by_any(ignore, lines[k])
                            && r == clean(lines[k]) && forall|m: int|
                            k < m < p ==> !(#[trigger] worded(lines[m]) && !matched_by_any(
                                ignore,
                                lines[m],
                            )),
                    None => forall|m: int|
                        0 <= m < p ==> !(#[trigger] worded(lines[m]) && !matched_by_any(ignore, lines[m])),
                }
            }
        }),
{
    let ignore = sources(config.reason_ignore@);
    lemma_find_from_sound(sources(config.idle@), lines, 0);
    let p = find_from(sources(config.idle@), lines, 0)->Some_0.0;
    lemma_last_worded_shape(lines, ignore, p);
}

/// A blocked pattern on screen always wins: whatever else the screen
/// shows and whatever the history, a frame with any row matching any
/// blocked pattern reads blocked.
pub proof fn lemma_blocked_outranks_everything(
    config: AgentConfig,
    lines: Seq<Seq<char>>,
    history: HistoryView,
    changed: Option<bool>,
    at: u128,
    i: int,
    j: int,
)
    requires
        0 <= i < config.blocked@.len(),
        0 <= j < lines.len(),
        regex_matches(config.blocked@[i]@, lines[j]),
    ensures
        classify_spec(config, lines, history, changed, at).0 == AgentState::Blocked,
{
    lemma_find_from_found(sources(config.blocked@), lines, 0, i, j);
}

/// With no blocked pattern on screen, a working pattern wins over the
/// idle prompt and over the history: the frame reads working.
pub proof fn lemma_working_outranks_idle(
    config: AgentConfig,
    lines: Seq<Seq<char>>,
    history: HistoryView,
    changed: Option<bool>,
    at: u128,
    i: int,
    j: int,
)
    requires
        forall|b: int, r: int|
            0 <= b < config.blocked@.len() && 0 <= r < lines.len() ==> !regex_matches(
                #[trigger] config.blocked@[b]@,
                #[trigger] lines[r],
            ),
        0 <= i < config.working@.len(),
        0 <= j < lines.len(),
        regex_matches(config.working@[i]@, lines[j]),
    ensures
        classify_spec(config, lines, history, changed, at).0 == AgentState::Working,
{
    let blocked = sources(config.blocked@);
    assert forall|b: int, r: int| 0 <= b < blocked.len() && 0 <= r < lines.len() implies !regex_matches(
        #[trigger] blocked[b],
        #[trigger] lines[r],
    ) by {
        assert(blocked[b] == config.blocked@[b]@);
    }
    lemma_find_from_none(blocked, lines, 0);
    lemma_find_from_found(sources(config.working@), lines, 0, i, j);
}

} // verus!
