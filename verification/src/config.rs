//! Agent configuration: what each agent CLI's screens look like when it is
//! blocked, working or idle, compiled from the raw values of an
//! `agents.toml` table.
//!
//! Patterns are regular expressions; a [`Pattern`] pairs its source with
//! the compiled expression, and every match is answered by the `regex`
//! crate.

use vstd::prelude::*;

verus! {

#[verifier::external_type_specification]
#[verifier::external_body]
pub struct ExRegex(regex::Regex);

#[verifier::external_type_specification]
#[verifier::external_body]
pub struct ExRegexError(regex::Error);

#[verifier::external_type_specification]
#[verifier::external_body]
pub struct ExTomlError(toml::de::Error);

/// Whether `regex::Regex::new` accepts a pattern source.
pub uninterp spec fn compiles(src: Seq<char>) -> bool;

/// Whether the expression compiled from `src` matches somewhere in `text`.
pub uninterp spec fn regex_matches(src: Seq<char>, text: Seq<char>) -> bool;

/// The text of capture group 1 in the expression's first match in `text`,
/// when that group took part in it.
pub uninterp spec fn regex_group1(src: Seq<char>, text: Seq<char>) -> Option<Seq<char>>;

/// `regex::Regex::new`: the compiled expression, or why the source is not
/// one. Whether it compiles depends on the source alone.
#[verifier::external_body]
fn compile_regex(src: &str) -> (r: Result<regex::Regex, regex::Error>)
    ensures
        r is Ok <==> compiles(src@),
{
    regex::Regex::new(src)
}

/// A compiled regular expression together with its source. The only way
/// to make one is [`Pattern::new`], so the expression is always the one
/// compiled from the source.
pub struct Pattern {
    source: String,
    regex: regex::Regex,
}

impl View for Pattern {
    type V = Seq<char>;

    closed spec fn view(&self) -> Seq<char> {
        self.source@
    }
}

/// The sources of a list of patterns.
pub open spec fn sources(ps: Seq<Pattern>) -> Seq<Seq<char>> {
    ps.map_values(|p: Pattern| p@)
}

impl Pattern {
    /// Compile `source`; the `regex` crate's error when it is not a valid
    /// expression.
    pub fn new(source: String) -> (r: Result<Pattern, regex::Error>)
        ensures
            r is Ok <==> compiles(source@),
            r is Ok ==> r->Ok_0@ == source@,
    {
        match compile_regex(source.as_str()) {
            Ok(regex) => Ok(Pattern { source, regex }),
            Err(e) => Err(e),
        }
    }

    /// The pattern's source text.
    pub fn source(&self) -> (s: &str)
        ensures
            s@ == self@,
    {
        self.source.as_str()
    }

    /// `regex::Regex::is_match` on the expression compiled from this
    /// pattern's source: whether it matches somewhere in `text`.
    #[verifier::external_body]
    pub(crate) fn is_match(&self, text: &str) -> (b: bool)
        ensures
            b == regex_matches(self@, text@),
    {
        self.regex.is_match(text)
    }

    /// `regex::Regex::captures` on the expression compiled from this
    /// pattern's source: `None` when it does not match `text` (the crate
    /// documents that `captures` finds a match exactly when `is_match`
    /// does), else the text of capture group 1 when that group took part.
    #[verifier::external_body]
    pub(crate) fn first_group(&self, text: &str) -> (r: Option<Option<String>>)
        ensures
            r is None <==> !regex_matches(self@, text@),
            r is Some ==> match r->Some_0 {
                Some(g) => regex_group1(self@, text@) == Some(g@),
                None => regex_group1(self@, text@) is None,
            },
    {
        match self.regex.captures(text) {
            Some(caps) => match caps.get(1) {
                Some(m) => Some(Some(m.as_str().to_string())),
                None => Some(None),
            },
            None => None,
        }
    }
}

/// Which line supplies a state's reason.
#[derive(Clone, Copy, Debug, PartialEq, Eq, Structural)]
pub enum ReasonSource {
    /// The line (or capture group 1) the state's pattern matched.
    MatchedLine,
    /// The bottom-most line with words on it.
    LastNonempty,
}

impl Default for ReasonSource {
    fn default() -> (r: Self)
        ensures
            r == ReasonSource::MatchedLine,
    {
        ReasonSource::MatchedLine
    }
}

/// Why an agents config could not be used.
#[derive(Debug)]
pub enum ConfigError {
    /// The document is not valid TOML for the config's shape.
    Toml(toml::de::Error),
    /// A pattern did not compile.
    Pattern {
        /// The agent whose pattern it is.
        agent: String,
        /// The pattern's source.
        pattern: String,
        /// Why it did not compile.
        error: regex::Error,
    },
    /// A reason source names neither `matched_line` nor `last_nonempty`.
    ReasonSource {
        /// The agent whose setting it is.
        agent: String,
        /// The value given.
        value: String,
    },
}

/// What went wrong, as plain values: the error's variant and the agent,
/// pattern or value it names.
pub enum ConfigErrorView {
    Toml,
    Pattern { agent: Seq<char>, pattern: Seq<char> },
    ReasonSource { agent: Seq<char>, value: Seq<char> },
}

impl ConfigError {
    /// The error as plain values.
    pub open spec fn view(&self) -> ConfigErrorView {
        match self {
            ConfigError::Toml(_) => ConfigErrorView::Toml,
            ConfigError::Pattern { agent, pattern, .. } => ConfigErrorView::Pattern {
                agent: agent@,
                pattern: pattern@,
            },
            ConfigError::ReasonSource { agent, value } => ConfigErrorView::ReasonSource {
                agent: agent@,
                value: value@,
            },
        }
    }
}

/// The reason source a setting names, if any.
pub open spec fn reason_source_named(value: Seq<char>) -> Option<ReasonSource> {
    if value == "matched_line"@ {
        Some(ReasonSource::MatchedLine)
    } else if value == "last_nonempty"@ {
        Some(ReasonSource::LastNonempty)
    } else {
        None
    }
}

impl ReasonSource {
    /// The reason source `value` names; an error naming `agent` and the
    /// value when it names neither.
    pub fn parse(agent: &str, value: &str) -> (r: Result<Self, ConfigError>)
        ensures
            match reason_source_named(value@) {
                Some(s) => r == Ok::<ReasonSource, ConfigError>(s),
                None => r is Err && r->Err_0@ == (ConfigErrorView::ReasonSource {
                    agent: agent@,
                    value: value@,
                }),
            },
    {
        if crate::text::same_text(value, "matched_line") {
            Ok(ReasonSource::MatchedLine)
        } else if crate::text::same_text(value, "last_nonempty") {
            Ok(ReasonSource::LastNonempty)
        } else {
            Err(ConfigError::ReasonSource { agent: agent.to_owned(), value: value.to_owned() })
        }
    }
}

/// How long after its last working reading an agent at its idle prompt
/// still reads as done, by default, in seconds.
pub const DEFAULT_DONE_AFTER_SECS: u64 = 8;

/// One agent's table as written, before anything is compiled.
#[derive(Clone, Debug)]
pub struct RawAgent {
    /// Command basenames that identify the agent.
    pub match_command: Vec<String>,
    /// The command the launcher runs, when it differs.
    pub launch_command: Option<String>,
    /// Blocked-screen patterns.
    pub blocked: Vec<String>,
    /// Working-screen patterns.
    pub working: Vec<String>,
    /// Idle-prompt patterns.
    pub idle: Vec<String>,
    /// `reason.blocked`, when set.
    pub reason_blocked: Option<String>,
    /// `reason.working`, when set.
    pub reason_working: Option<String>,
    /// `reason.ignore` patterns.
    pub reason_ignore: Vec<String>,
    /// `activity.ignore` patterns.
    pub activity_ignore: Vec<String>,
    /// `done.after_activity_secs`, when set.
    pub done_after_activity_secs: Option<u64>,
}

/// One agent CLI's compiled configuration.
pub struct AgentConfig {
    /// The agent's config name.
    pub name: String,
    /// Command basenames that identify the agent.
    pub match_command: Vec<String>,
    /// The command the launcher runs, when it differs.
    pub launch_command: Option<String>,
    /// Patterns that mean the agent needs the human.
    pub blocked: Vec<Pattern>,
    /// Patterns that mean the agent is working.
    pub working: Vec<Pattern>,
    /// Patterns of the agent's idle prompt.
    pub idle: Vec<Pattern>,
    /// Where a blocked reading's reason comes from.
    pub reason_blocked: ReasonSource,
    /// Where a working reading's reason comes from.
    pub reason_working: ReasonSource,
    /// Lines never used as a reason.
    pub reason_ignore: Vec<Pattern>,
    /// Lines that never count as activity.
    pub activity_ignore: Vec<Pattern>,
    /// How long after its last working reading an agent at its idle prompt
    /// still reads as done, in seconds.
    pub done_after_activity_secs: u64,
}

/// The strings of a list, as plain values.
pub open spec fn texts(v: Seq<String>) -> Seq<Seq<char>> {
    v.map_values(|s: String| s@)
}

/// The index of the first source that does not compile, if any.
pub open spec fn first_bad(srcs: Seq<Seq<char>>, k: int) -> Option<int>
    decreases srcs.len() - k,
{
    if k < 0 || k >= srcs.len() {
        None
    } else if !compiles(srcs[k]) {
        Some(k)
    } else {
        first_bad(srcs, k + 1)
    }
}

/// The error compiling a list of pattern sources for `agent` gives, if any:
/// the first source that does not compile.
pub open spec fn patterns_error(agent: Seq<char>, srcs: Seq<Seq<char>>) -> Option<ConfigErrorView> {
    match first_bad(srcs, 0) {
        Some(k) => Some(ConfigErrorView::Pattern { agent, pattern: srcs[k] }),
        None => None,
    }
}

/// The error compiling an agent gives, if any: a bad reason source first
/// (blocked, then working), then the first bad pattern of the blocked,
/// working, idle, `reason.ignore` and `activity.ignore` lists, in that
/// order.
pub open spec fn agent_error(name: Seq<char>, raw: RawAgent) -> Option<ConfigErrorView> {
    let rb = match raw.reason_blocked {
        Some(v) => if reason_source_named(v@) is None {
            Some(ConfigErrorView::ReasonSource { agent: name, value: v@ })
        } else {
            None
        },
        None => None,
    };
    let rw = match raw.reason_working {
        Some(v) => if reason_source_named(v@) is None {
            Some(ConfigErrorView::ReasonSource { agent: name, value: v@ })
        } else {
            None
        },
        None => None,
    };
    if rb is Some {
        rb
    } else if rw is Some {
        rw
    } else if patterns_error(name, texts(raw.blocked@)) is Some {
        patterns_error(name, texts(raw.blocked@))
    } else if patterns_error(name, texts(raw.working@)) is Some {
        patterns_error(name, texts(raw.working@))
    } else if patterns_error(name, texts(raw.idle@)) is Some {
        patterns_error(name, texts(raw.idle@))
    } else if patterns_error(name, texts(raw.reason_ignore@)) is Some {
        patterns_error(name, texts(raw.reason_ignore@))
    } else {
        patterns_error(name, texts(raw.activity_ignore@))
    }
}

/// What a compiled agent holds, given its raw table compiled cleanly.
pub open spec fn compiled_as(c: AgentConfig, name: Seq<char>, raw: RawAgent) -> bool {
    &&& c.name@ == name
    &&& texts(c.match_command@) == texts(raw.match_command@)
    &&& match (c.launch_command, raw.launch_command) {
        (Some(a), Some(b)) => a@ == b@,
        (None, None) => true,
        _ => false,
    }
    &&& sources(c.blocked@) == texts(raw.blocked@)
    &&& sources(c.working@) == texts(raw.working@)
    &&& sources(c.idle@) == texts(raw.idle@)
    &&& sources(c.reason_ignore@) == texts(raw.reason_ignore@)
    &&& sources(c.activity_ignore@) == texts(raw.activity_ignore@)
    &&& c.reason_blocked == match raw.reason_blocked {
        Some(v) => reason_source_named(v@)->Some_0,
        None => ReasonSource::MatchedLine,
    }
    &&& c.reason_working == match raw.reason_working {
        Some(v) => reason_source_named(v@)->Some_0,
        None => ReasonSource::LastNonempty,
    }
    &&& c.done_after_activity_secs == match raw.done_after_activity_secs {
        Some(s) => s,
        None => DEFAULT_DONE_AFTER_SECS,
    }
}

/// Compile a list of pattern sources for `agent`, stopping at the first
/// that does not compile.
pub fn compile_patterns(agent: &str, patterns: Vec<String>) -> (r: Result<Vec<Pattern>, ConfigError>)
    ensures
        match patterns_error(agent@, texts(patterns@)) {
            Some(e) => r is Err && r->Err_0@ == e,
            None => r is Ok && sources(r->Ok_0@) == texts(patterns@),
        },
{
    let ghost srcs = texts(patterns@);
    let mut out: Vec<Pattern> = Vec::new();
    let mut k: usize = 0;
    while k < patterns.len()
        invariant
            srcs == texts(patterns@),
            k <= patterns@.len(),
            first_bad(srcs, 0) == first_bad(srcs, k as int),
            out@.len() == k,
            forall|j: int| 0 <= j < k ==> (#[trigger] out@[j])@ == srcs[j],
        decreases patterns@.len() - k,
    {
        let src = patterns[k].clone();
        assert(srcs[k as int] == src@);
        match Pattern::new(src) {
            Ok(p) => {
                out.push(p);
            },
            Err(error) => {
                assert(first_bad(srcs, k as int) == Some(k as int));
                return Err(ConfigError::Pattern {
                    agent: agent.to_owned(),
                    pattern: patterns[k].clone(),
                    error,
                });
            },
        }
        k += 1;
    }
    assert(first_bad(srcs, k as int) is None);
    assert(sources(out@) =~= srcs);
    Ok(out)
}

/// Compile one agent's raw table.
pub fn compile_agent(name: String, raw: RawAgent) -> (r: Result<AgentConfig, ConfigError>)
    ensures
        match agent_error(name@, raw) {
            Some(e) => r is Err && r->Err_0@ == e,
            None => r is Ok && compiled_as(r->Ok_0, name@, raw),
        },
{
    let reason_blocked = match &raw.reason_blocked {
        Some(value) => match ReasonSource::parse(name.as_str(), value.as_str()) {
            Ok(s) => s,
            Err(e) => return Err(e),
        },
        None => ReasonSource::MatchedLine,
    };
    let reason_working = match &raw.reason_working {
        Some(value) => match ReasonSource::parse(name.as_str(), value.as_str()) {
            Ok(s) => s,
            Err(e) => return Err(e),
        },
        None => ReasonSource::LastNonempty,
    };
    let RawAgent {
        match_command,
        launch_command,
        blocked,
        working,
        idle,
        reason_blocked: _,
        reason_working: _,
        reason_ignore,
        activity_ignore,
        done_after_activity_secs,
    } = raw;
    let blocked = match compile_patterns(name.as_str(), blocked) {
        Ok(p) => p,
        Err(e) => return Err(e),
    };
    let working = match compile_patterns(name.as_str(), working) {
        Ok(p) => p,
        Err(e) => return Err(e),
    };
    let idle = match compile_patterns(name.as_str(), idle) {
        Ok(p) => p,
        Err(e) => return Err(e),
    };
    let reason_ignore = match compile_patterns(name.as_str(), reason_ignore) {
        Ok(p) => p,
        Err(e) => return Err(e),
    };
    let activity_ignore = match compile_patterns(name.as_str(), activity_ignore) {
        Ok(p) => p,
        Err(e) => return Err(e),
    };
    let done = match done_after_activity_secs {
        Some(s) => s,
        None => DEFAULT_DONE_AFTER_SECS,
    };
    Ok(AgentConfig {
        name,
        match_command,
        launch_command,
        blocked,
        working,
        idle,
        reason_blocked,
        reason_working,
        reason_ignore,
        activity_ignore,
        done_after_activity_secs: done,
    })
}

/// The error compiling the agents in order gives, if any: the first
/// agent's error.
pub open spec fn agents_error(raw: Seq<(String, RawAgent)>, k: int) -> Option<ConfigErrorView>
    decreases raw.len() - k,
{
    if k < 0 || k >= raw.len() {
        None
    } else if agent_error(raw[k].0@, raw[k].1) is Some {
        agent_error(raw[k].0@, raw[k].1)
    } else {
        agents_error(raw, k + 1)
    }
}

/// Compile every agent's raw table, in the order given (the config's
/// tables in name order), stopping at the first error.
pub fn compile_agents(raw: Vec<(String, RawAgent)>) -> (r: Result<Vec<AgentConfig>, ConfigError>)
    ensures
        match agents_error(raw@, 0) {
            Some(e) => r is Err && r->Err_0@ == e,
            None => r is Ok && r->Ok_0@.len() == raw@.len() && forall|i: int|
                0 <= i < raw@.len() ==> compiled_as(#[trigger] r->Ok_0@[i], raw@[i].0@, raw@[i].1),
        },
{
    let ghost all = raw@;
    let mut out: Vec<AgentConfig> = Vec::new();
    let mut rest = raw;
    let n = rest.len();
    let mut k: usize = 0;
    while rest.len() > 0
        invariant
            all == raw@,
            n == all.len(),
            k + rest@.len() == all.len(),
            rest@ == all.skip(k as int),
            agents_error(all, 0) == agents_error(all, k as int),
            out@.len() == k,
            forall|i: int| 0 <= i < k ==> compiled_as(#[trigger] out@[i], all[i].0@, all[i].1),
        decreases rest@.len(),
    {
        let (name, agent) = rest.remove(0);
        assert((name, agent) == all[k as int]);
        assert(rest@ =~= all.skip(k + 1));
        let ghost this_error = agent_error(name@, agent);
        assert(this_error == agent_error(all[k as int].0@, all[k as int].1));
        match compile_agent(name, agent) {
            Ok(c) => out.push(c),
            Err(e) => {
                assert(this_error is Some);
                assert(e@ == this_error->Some_0);
                assert(agents_error(all, k as int) == this_error);
                return Err(e);
            },
        }
        assert(agents_error(all, k as int) == agents_error(all, k + 1));
        k += 1;
    }
    assert(agents_error(all, k as int) is None);
    Ok(out)
}

} // verus!
