//! Agent configuration, identification and classification scenarios.

use roster::config::{compile_agent, compile_agents, ConfigError, RawAgent, ReasonSource, DEFAULT_DONE_AFTER_SECS};
use roster::detector::{Detector, StateReading};
use roster::grid::Grid;
use roster::session::AgentState;
use roster::track::History;

/// One second, in the nanoseconds the library's clock counts.
const SEC: u128 = 1_000_000_000;

fn raw(commands: &[&str]) -> RawAgent {
    RawAgent {
        match_command: commands.iter().map(|c| c.to_string()).collect(),
        launch_command: None,
        blocked: vec![],
        working: vec![],
        idle: vec![],
        reason_blocked: None,
        reason_working: None,
        reason_ignore: vec![],
        activity_ignore: vec![],
        done_after_activity_secs: None,
    }
}

fn patterns(list: &[&str]) -> Vec<String> {
    list.iter().map(|p| p.to_string()).collect()
}

fn detector(tables: Vec<(&str, RawAgent)>) -> Detector {
    let named = tables.into_iter().map(|(n, t)| (n.to_string(), t)).collect();
    Detector::new(compile_agents(named).expect("test agents compile"))
}

fn classify(d: &Detector, command: &str, grid: &Grid, history: &History, at: u128) -> StateReading<()> {
    let kind = d.identify(command).expect("identifies");
    d.classify(kind, grid, history, at)
}

#[test]
fn minimal_agent_gets_defaults() {
    let agent = compile_agent("minimal".to_string(), raw(&["mini"])).unwrap();
    assert_eq!(agent.name, "minimal");
    assert_eq!(agent.reason_blocked, ReasonSource::MatchedLine);
    assert_eq!(agent.reason_working, ReasonSource::LastNonempty);
    assert_eq!(agent.done_after_activity_secs, DEFAULT_DONE_AFTER_SECS);
    assert!(agent.blocked.is_empty());
    assert_eq!(agent.launch_command, None);
}

#[test]
fn launch_command_parses_with_flags() {
    let mut table = raw(&["agent"]);
    table.launch_command = Some("agent --dangerously-skip-permissions".to_string());
    let agent = compile_agent("agent-code".to_string(), table).unwrap();
    assert_eq!(
        agent.launch_command.as_deref(),
        Some("agent --dangerously-skip-permissions")
    );
}

#[test]
fn bad_regex_is_reported_with_agent_and_pattern() {
    let mut table = raw(&["b"]);
    table.blocked = patterns(&["(unclosed"]);
    match compile_agent("broken".to_string(), table) {
        Err(ConfigError::Pattern { agent, pattern, .. }) => {
            assert_eq!(agent, "broken");
            assert_eq!(pattern, "(unclosed");
        }
        Err(_) => panic!("expected a Pattern error"),
        Ok(_) => panic!("expected an error"),
    }
}

#[test]
fn unknown_reason_source_is_an_error() {
    let mut table = raw(&["o"]);
    table.reason_blocked = Some("first_line".to_string());
    let err = compile_agent("odd".to_string(), table).err().unwrap();
    assert!(matches!(err, ConfigError::ReasonSource { .. }));
}

#[test]
fn reason_source_names_parse() {
    assert_eq!(ReasonSource::parse("a", "matched_line").ok(), Some(ReasonSource::MatchedLine));
    assert_eq!(ReasonSource::parse("a", "last_nonempty").ok(), Some(ReasonSource::LastNonempty));
    assert!(ReasonSource::parse("a", "Matched_Line").is_err());
}

#[test]
fn first_bad_agent_stops_compiling() {
    let mut bad = raw(&["b"]);
    bad.working = patterns(&["[oops"]);
    let mut worse = raw(&["c"]);
    worse.reason_working = Some("nope".to_string());
    let named = vec![
        ("alpha".to_string(), raw(&["a"])),
        ("beta".to_string(), bad),
        ("gamma".to_string(), worse),
    ];
    match compile_agents(named) {
        Err(ConfigError::Pattern { agent, pattern, .. }) => {
            assert_eq!(agent, "beta");
            assert_eq!(pattern, "[oops");
        }
        _ => panic!("expected beta's pattern error"),
    }
}

#[test]
fn capture_group_narrows_the_reason() {
    let mut table = raw(&["ta"]);
    table.blocked = patterns(&[r"Allow (.*)\?"]);
    let d = detector(vec![("test-agent", table)]);
    let grid = Grid::from_text("Allow edit to src/config.ts?");
    let reading = classify(&d, "ta", &grid, &History::new(), 0);
    assert_eq!(reading.state, AgentState::Blocked);
    assert_eq!(reading.reason.as_deref(), Some("edit to src/config.ts"));
}

#[test]
fn bottom_row_wins_within_one_pattern() {
    let mut table = raw(&["ta"]);
    table.blocked = patterns(&[r"Allow .*\?"]);
    let d = detector(vec![("test-agent", table)]);
    let grid = Grid::from_text("Allow read?\nsome output\nAllow write?");
    let reading = classify(&d, "ta", &grid, &History::new(), 0);
    assert_eq!(reading.reason.as_deref(), Some("Allow write?"));
}

#[test]
fn identify_compares_the_first_token_by_basename() {
    let d = detector(vec![("alpha", raw(&["alpha", "al"])), ("beta", raw(&["beta"]))]);
    let kind = d.identify("/opt/tools/bin/beta --continue").unwrap();
    assert_eq!(d.agent(kind).name, "beta");
    let kind = d.identify("  al  ").unwrap();
    assert_eq!(d.agent(kind).name, "alpha");
    assert!(d.identify("zsh").is_none());
    assert!(d.identify("").is_none());
    assert!(d.identify("alphabet").is_none());
    assert!(d.identify("/bin/").is_none());
}

#[test]
fn earlier_pattern_outranks_lower_row() {
    let mut table = raw(&["ta"]);
    table.blocked = patterns(&[r"Do you want to proceed\?", "❯ 1"]);
    let d = detector(vec![("ta", table)]);
    let grid = Grid::from_text("│ Do you want to proceed?\n│ ❯ 1. Yes\n│   2. No");
    let reading = classify(&d, "ta", &grid, &History::new(), 0);
    assert_eq!(reading.state, AgentState::Blocked);
    assert_eq!(reading.reason.as_deref(), Some("Do you want to proceed?"));
}

#[test]
fn working_reason_skips_ignored_and_chrome_lines() {
    let mut table = raw(&["ta"]);
    table.working = patterns(&["to interrupt"]);
    table.reason_ignore = patterns(&["to interrupt", "/effort"]);
    let d = detector(vec![("ta", table)]);
    let grid = Grid::from_text(
        "❯ do the thing\n✶ Flowing…\n                    ● high · /effort\n❯\n  esc to interrupt",
    );
    let reading = classify(&d, "ta", &grid, &History::new(), 0);
    assert_eq!(reading.state, AgentState::Working);
    assert_eq!(reading.reason.as_deref(), Some("✶ Flowing…"));
}

#[test]
fn matched_line_reason_is_cleaned_of_borders() {
    let mut table = raw(&["ta"]);
    table.blocked = patterns(&["proceed"]);
    let d = detector(vec![("ta", table)]);
    let grid = Grid::from_text("┃  Do you want to proceed ┃");
    let reading = classify(&d, "ta", &grid, &History::new(), 0);
    assert_eq!(reading.reason.as_deref(), Some("Do you want to proceed"));
}

#[test]
fn settled_content_change_reads_as_working_then_done() {
    let mut table = raw(&["ta"]);
    table.idle = patterns(&["^❯"]);
    let d = detector(vec![("ta", table)]);
    let kind = d.identify("ta").unwrap();
    let config = d.agent(kind);
    let mut history = History::new();
    let before = Grid::from_text("compiling one\n❯");
    history.record(AgentState::Idle, &before, config, 0);
    // One recorded frame has not settled: a change is not evidence yet.
    let after = Grid::from_text("compiling one\ncompiling two\n❯");
    assert_eq!(classify(&d, "ta", &after, &history, 0).state, AgentState::Idle);
    history.record(AgentState::Idle, &before, config, 0);
    let reading = classify(&d, "ta", &after, &history, 0);
    assert_eq!(reading.state, AgentState::Working);
    assert_eq!(reading.reason.as_deref(), Some("compiling two"));
    history.record(AgentState::Working, &after, config, SEC);
    let reading = classify(&d, "ta", &after, &history, 2 * SEC);
    assert_eq!(reading.state, AgentState::Done);
    assert_eq!(reading.reason.as_deref(), Some("compiling two"));
    // Past the done window the prompt reads idle.
    let reading = classify(&d, "ta", &after, &history, SEC + 9 * SEC);
    assert_eq!(reading.state, AgentState::Idle);
    assert_eq!(reading.reason, None);
}

#[test]
fn empty_and_blank_grids_read_as_idle() {
    let mut table = raw(&["ta"]);
    table.idle = patterns(&["^❯"]);
    table.working = patterns(&["esc to interrupt"]);
    let d = detector(vec![("ta", table)]);
    for grid in [Grid::new(0, 0), Grid::new(80, 24), Grid::from_text("\n\n\n")] {
        let reading = classify(&d, "ta", &grid, &History::new(), 0);
        assert_eq!(reading.state, AgentState::Idle);
        assert_eq!(reading.reason, None);
    }
}

#[test]
fn first_frame_is_not_evidence_of_activity() {
    let d = detector(vec![("ta", raw(&["ta"]))]);
    let grid = Grid::from_text("some startup banner");
    let reading = classify(&d, "ta", &grid, &History::new(), 0);
    assert_eq!(reading.state, AgentState::Idle);
    assert_eq!(reading.telemetry, None);
}

/// The stock configuration's one agent, run as `agent`.
fn stock() -> Detector {
    detector(vec![("agent-code", raw(&["agent"]))])
}

#[test]
fn identify_matches_bare_command() {
    let detector = stock();
    let kind = detector.identify("agent").unwrap();
    assert_eq!(detector.agent(kind).name, "agent-code");
}

#[test]
fn identify_matches_path_and_arguments() {
    let detector = stock();
    let kind = detector
        .identify("/opt/homebrew/bin/agent --continue")
        .unwrap();
    assert_eq!(detector.agent(kind).name, "agent-code");
}

#[test]
fn identify_rejects_non_agents() {
    let detector = stock();
    assert!(detector.identify("zsh").is_none());
    assert!(detector.identify("/bin/bash -l").is_none());
    assert!(detector.identify("").is_none());
    assert!(detector.identify("agentette").is_none());
    // Only the configured agent CLIs are identified.
    assert!(detector.identify("codex exec 'fix tests'").is_none());
    assert!(detector.identify("aider --model sonnet").is_none());
}

#[test]
fn blocked_outranks_working_and_working_outranks_the_prompt() {
    let mut table = raw(&["ta"]);
    table.blocked = patterns(&[r"Allow .*\?"]);
    table.working = patterns(&["esc to interrupt"]);
    table.idle = patterns(&["^❯"]);
    let d = detector(vec![("ta", table)]);
    let kind = d.identify("ta").unwrap();
    let config = d.agent(kind);
    // Recently active, so a bare prompt would read done.
    let mut history = History::new();
    let busy = Grid::from_text("esc to interrupt\n❯");
    history.record(AgentState::Working, &busy, config, SEC);
    let asking = Grid::from_text("esc to interrupt\nAllow edit?\n❯");
    assert_eq!(classify(&d, "ta", &asking, &history, 2 * SEC).state, AgentState::Blocked);
    assert_eq!(classify(&d, "ta", &busy, &history, 2 * SEC).state, AgentState::Working);
    let resting = Grid::from_text("all done\n❯");
    assert_eq!(classify(&d, "ta", &resting, &history, 2 * SEC).state, AgentState::Done);
}

#[test]
fn done_window_ends_exactly_at_its_length() {
    let mut table = raw(&["ta"]);
    table.idle = patterns(&["^❯"]);
    let d = detector(vec![("ta", table)]);
    let kind = d.identify("ta").unwrap();
    let config = d.agent(kind);
    let mut history = History::new();
    let busy = Grid::from_text("esc to interrupt\n❯");
    history.record(AgentState::Working, &busy, config, SEC);
    let window = u128::from(DEFAULT_DONE_AFTER_SECS) * SEC;
    let resting = Grid::from_text("all done\n❯");
    assert_eq!(classify(&d, "ta", &resting, &history, SEC + window).state, AgentState::Done);
    assert_eq!(classify(&d, "ta", &resting, &history, SEC + window + 1).state, AgentState::Idle);
}
