//! Reading history, debouncing and per-pane tracking scenarios.

use roster::config::{compile_agent, AgentConfig, RawAgent};
use roster::detector::{AgentKind, Detector, StateReading};
use roster::grid::Grid;
use roster::session::AgentState;
use roster::track::{Debouncer, History, PaneTracker, TELEMETRY_STALE_AFTER_NS};

/// An agent table with only its commands set.
fn raw(commands: &[&str]) -> RawAgent {
    RawAgent {
        match_command: commands.iter().map(|c| c.to_string()).collect(),
        launch_command: None,
        blocked: vec![],
        working: vec![],
        idle: vec![],
        reason_blocked: None,
        reason_working: None,
        reason_ignore: vec![],
        activity_ignore: vec![],
        done_after_activity_secs: None,
    }
}

fn patterns(list: &[&str]) -> Vec<String> {
    list.iter().map(|p| p.to_string()).collect()
}

fn compiled(name: &str, table: RawAgent) -> AgentConfig {
    compile_agent(name.to_string(), table).expect("test agent compiles")
}

/// A config with no activity filters at all — every row counts.
fn bare_config() -> AgentConfig {
    compiled("bare", raw(&["bare"]))
}

fn reading(state: AgentState, reason: &str) -> StateReading<()> {
    StateReading {
        state,
        reason: Some(reason.to_string()),
        telemetry: None,
    }
}

/// A detector with one working pattern, plus its kind.
fn tracker_detector() -> (Detector, AgentKind) {
    let mut table = raw(&["ta"]);
    table.working = patterns(&["SPINNING"]);
    let detector = Detector::new(vec![compiled("test-agent", table)]);
    let kind = detector.identify("ta").expect("ta identifies");
    (detector, kind)
}

/// A detector with an idle prompt pattern and no working patterns.
fn prompt_only_detector() -> (Detector, AgentKind) {
    let mut table = raw(&["ta"]);
    table.idle = patterns(&["^>"]);
    let detector = Detector::new(vec![compiled("ta", table)]);
    let kind = detector.identify("ta").expect("ta identifies");
    (detector, kind)
}

/// A stand-in for a pane's statusline telemetry.
#[derive(Clone, Debug, PartialEq)]
struct Telemetry {
    model: Option<String>,
    context_pct: Option<f32>,
}

fn sample_telemetry(context_pct: f32) -> Telemetry {
    Telemetry {
        model: Some("Opus".to_string()),
        context_pct: Some(context_pct),
    }
}

/// One second, in the nanoseconds the library's clock counts.
const SEC: u128 = 1_000_000_000;

const T0: u128 = 1_000 * SEC;

fn at(secs: u128) -> u128 {
    T0 + secs * SEC
}

#[test]
fn history_reports_content_changes() {
    let bare = bare_config();
    let mut history = History::new();
    let a = Grid::from_text("one");
    let b = Grid::from_text("two");
    assert_eq!(history.content_changed(&a, &bare), None);
    history.record(AgentState::Idle, &a, &bare, T0);
    assert_eq!(history.content_changed(&a, &bare), Some(false));
    assert_eq!(history.content_changed(&b, &bare), Some(true));
}

#[test]
fn ignored_rows_do_not_count_as_change() {
    let mut table = raw(&["ta"]);
    table.activity_ignore = patterns(&["^❯"]);
    let config = compiled("ta", table);
    let mut history = History::new();
    let resting = Grid::from_text("output\n❯");
    let typing = Grid::from_text("output\n❯ how do I");
    let more_output = Grid::from_text("more output\n❯ how do I");
    history.record(AgentState::Idle, &resting, &config, T0);
    assert_eq!(history.content_changed(&typing, &config), Some(false));
    assert_eq!(history.content_changed(&more_output, &config), Some(true));
}

#[test]
fn content_moving_rows_still_counts_as_change() {
    let bare = bare_config();
    let mut history = History::new();
    let before = Grid::from_text("phase one\n\nphase two");
    let shifted = Grid::from_text("\nphase one\n\nphase two");
    history.record(AgentState::Idle, &before, &bare, T0);
    assert_eq!(history.content_changed(&shifted, &bare), Some(true));
}

#[test]
fn history_settles_only_after_a_repeated_content_frame() {
    let bare = bare_config();
    let mut history = History::new();
    assert!(!history.has_settled());
    history.record(AgentState::Idle, &Grid::new(80, 24), &bare, T0);
    history.record(AgentState::Idle, &Grid::new(80, 24), &bare, T0);
    assert!(!history.has_settled(), "blank frames are not a settle");
    history.record(AgentState::Idle, &Grid::from_text("one"), &bare, T0);
    assert!(!history.has_settled());
    history.record(AgentState::Idle, &Grid::from_text("two"), &bare, T0);
    assert!(
        !history.has_settled(),
        "frames that keep differing are a paint, not a settle"
    );
    history.record(AgentState::Idle, &Grid::from_text("two"), &bare, T0);
    assert!(history.has_settled());
    history.record(AgentState::Working, &Grid::from_text("three"), &bare, T0);
    assert!(history.has_settled());
}

#[test]
fn a_single_changed_frame_does_not_stamp_activity() {
    let (detector, kind) = prompt_only_detector();
    let mut tracker: PaneTracker<()> = PaneTracker::new();
    let resting = Grid::from_text("banner\n>");
    tracker.update(&detector, kind, &resting, at(0));
    tracker.update(&detector, kind, &resting, at(1));
    let notice = Grid::from_text("banner\nnotice\n>");
    let seen = tracker.update(&detector, kind, &notice, at(2));
    assert_eq!(seen.state, AgentState::Idle);
    let seen = tracker.update(&detector, kind, &notice, at(3));
    assert_eq!(seen.state, AgentState::Idle, "no activity was stamped");
    let seen = tracker.update(&detector, kind, &notice, at(4));
    assert_eq!(seen.state, AgentState::Idle);
}

#[test]
fn sustained_change_still_stamps_and_reads_done() {
    let (detector, kind) = prompt_only_detector();
    let mut tracker: PaneTracker<()> = PaneTracker::new();
    let resting = Grid::from_text("banner\n>");
    tracker.update(&detector, kind, &resting, at(0));
    tracker.update(&detector, kind, &resting, at(1));
    let out = |line: &str| Grid::from_text(&format!("banner\n{line}\n>"));
    tracker.update(&detector, kind, &out("step one"), at(2));
    let seen = tracker.update(&detector, kind, &out("step two"), at(3));
    assert_eq!(seen.state, AgentState::Working);
    let seen = tracker.update(&detector, kind, &out("finished"), at(4));
    assert_eq!(seen.state, AgentState::Working);
    tracker.update(&detector, kind, &out("finished"), at(5));
    let seen = tracker.update(&detector, kind, &out("finished"), at(6));
    assert_eq!(seen.state, AgentState::Done);
}

#[test]
fn history_records_activity_only_for_working() {
    let bare = bare_config();
    let mut history = History::new();
    let grid = Grid::from_text("x");
    history.record(AgentState::Blocked, &grid, &bare, T0);
    assert_eq!(history.last_activity_at(), None);
    history.record(AgentState::Working, &grid, &bare, at(1));
    assert_eq!(history.last_activity_at(), Some(at(1)));
    history.record(AgentState::Idle, &grid, &bare, at(2));
    assert_eq!(history.last_activity_at(), Some(at(1)));
}

#[test]
fn single_frame_flicker_does_not_flip_state() {
    let mut d = Debouncer::new();
    d.observe(reading(AgentState::Working, "compiling"));
    d.observe(reading(AgentState::Working, "compiling"));
    assert_eq!(d.committed().state, AgentState::Working);

    let seen = d.observe(reading(AgentState::Idle, ""));
    assert_eq!(seen.state, AgentState::Working);
    let seen = d.observe(reading(AgentState::Working, "compiling"));
    assert_eq!(seen.state, AgentState::Working);
}

#[test]
fn new_state_commits_after_threshold() {
    let mut d = Debouncer::new();
    assert_eq!(d.committed().state, AgentState::Idle);
    let seen = d.observe(reading(AgentState::Working, "a"));
    assert_eq!(seen.state, AgentState::Idle);
    let seen = d.observe(reading(AgentState::Working, "b"));
    assert_eq!(seen.state, AgentState::Working);
    assert_eq!(seen.reason.as_deref(), Some("b"));
}

#[test]
fn blocked_commits_on_first_reading() {
    let mut d = Debouncer::new();
    d.observe(reading(AgentState::Working, "x"));
    d.observe(reading(AgentState::Working, "x"));
    let seen = d.observe(reading(AgentState::Blocked, "Allow edit?"));
    assert_eq!(seen.state, AgentState::Blocked);
    assert_eq!(seen.reason.as_deref(), Some("Allow edit?"));
}

#[test]
fn alternating_states_never_commit() {
    let mut d = Debouncer::new();
    for _ in 0..5 {
        assert_eq!(
            d.observe(reading(AgentState::Working, "w")).state,
            AgentState::Idle
        );
        assert_eq!(
            d.observe(reading(AgentState::Done, "d")).state,
            AgentState::Idle
        );
    }
}

#[test]
fn reason_updates_without_state_change() {
    let mut d = Debouncer::new();
    d.observe(reading(AgentState::Working, "compiling"));
    d.observe(reading(AgentState::Working, "compiling"));
    let seen = d.observe(reading(AgentState::Working, "running tests"));
    assert_eq!(seen.state, AgentState::Working);
    assert_eq!(seen.reason.as_deref(), Some("running tests"));
}

#[test]
fn candidate_resets_when_interrupted_by_committed_state() {
    let mut d = Debouncer::new();
    d.observe(reading(AgentState::Working, "w"));
    d.observe(reading(AgentState::Working, "w"));
    d.observe(reading(AgentState::Done, "d"));
    d.observe(reading(AgentState::Working, "w"));
    let seen = d.observe(reading(AgentState::Done, "d"));
    assert_eq!(seen.state, AgentState::Working);
}

#[test]
fn custom_thresholds_count_consecutive_readings() {
    let mut d: Debouncer<()> = Debouncer::with_thresholds(3, 0);
    assert_eq!(d.observe(reading(AgentState::Working, "a")).state, AgentState::Idle);
    assert_eq!(d.observe(reading(AgentState::Working, "b")).state, AgentState::Idle);
    assert_eq!(d.observe(reading(AgentState::Working, "c")).state, AgentState::Working);
    // A threshold of zero counts as one: blocked commits at once.
    assert_eq!(d.observe(reading(AgentState::Blocked, "?")).state, AgentState::Blocked);
}

#[test]
fn telemetry_supersedes_when_present() {
    let (detector, kind) = tracker_detector();
    let mut tracker = PaneTracker::new();
    let grid = Grid::from_text("SPINNING away");

    tracker.set_telemetry(sample_telemetry(62.0), T0);
    let seen = tracker.update(&detector, kind, &grid, T0);
    assert_eq!(seen.state, AgentState::Idle);
    assert_eq!(seen.telemetry, Some(sample_telemetry(62.0)));
    assert_eq!(tracker.committed().telemetry, Some(sample_telemetry(62.0)));

    tracker.set_telemetry(sample_telemetry(58.5), at(1));
    let seen = tracker.update(&detector, kind, &grid, at(1));
    assert_eq!(seen.state, AgentState::Working);
    assert_eq!(seen.telemetry, Some(sample_telemetry(58.5)));

    tracker.set_telemetry(sample_telemetry(99.0), T0);
    let seen = tracker.update(&detector, kind, &grid, at(2));
    assert_eq!(seen.telemetry, Some(sample_telemetry(58.5)));
}

#[test]
fn pane_without_telemetry_reads_unchanged() {
    let (detector, kind) = tracker_detector();
    let mut tracker: PaneTracker<Telemetry> = PaneTracker::new();
    let grid = Grid::from_text("SPINNING away");

    let seen = tracker.update(&detector, kind, &grid, T0);
    assert_eq!(seen.telemetry, None);
    let seen = tracker.update(&detector, kind, &grid, at(1));
    assert_eq!(seen.state, AgentState::Working);
    assert_eq!(seen.telemetry, None);
    assert_eq!(tracker.committed().telemetry, None);
    assert_eq!(StateReading::<Telemetry>::default().telemetry, None);
}

#[test]
fn stale_telemetry_ages_out() {
    let (detector, kind) = tracker_detector();
    let mut tracker = PaneTracker::new();
    let grid = Grid::from_text("SPINNING away");
    tracker.set_telemetry(sample_telemetry(41.0), T0);

    let seen = tracker.update(&detector, kind, &grid, T0 + TELEMETRY_STALE_AFTER_NS);
    assert_eq!(seen.telemetry, Some(sample_telemetry(41.0)));

    let t_stale = T0 + TELEMETRY_STALE_AFTER_NS + SEC;
    let seen = tracker.update(&detector, kind, &grid, t_stale);
    assert_eq!(seen.telemetry, None);
    assert_eq!(tracker.committed().telemetry, None);

    let t_fresh = t_stale + SEC;
    tracker.set_telemetry(sample_telemetry(12.0), t_fresh);
    let seen = tracker.update(&detector, kind, &grid, t_fresh);
    assert_eq!(seen.telemetry, Some(sample_telemetry(12.0)));
}

#[test]
fn telemetry_one_nanosecond_past_the_window_is_dropped() {
    let (detector, kind) = tracker_detector();
    let mut tracker = PaneTracker::new();
    let grid = Grid::from_text("SPINNING away");
    tracker.set_telemetry(sample_telemetry(41.0), T0);
    let seen = tracker.update(&detector, kind, &grid, T0 + TELEMETRY_STALE_AFTER_NS + 1);
    assert_eq!(seen.telemetry, None);
}

#[test]
fn a_full_run_of_readings_commits_whatever_came_before() {
    let mut d: Debouncer<()> = Debouncer::with_thresholds(3, 2);
    d.observe(reading(AgentState::Working, "w"));
    d.observe(reading(AgentState::Done, "d"));
    d.observe(reading(AgentState::Working, "w"));
    for _ in 0..2 {
        assert_eq!(d.observe(reading(AgentState::Done, "d")).state, AgentState::Idle);
    }
    assert_eq!(d.observe(reading(AgentState::Done, "d")).state, AgentState::Done);
    // Blocked needs only its own threshold of two.
    d.observe(reading(AgentState::Blocked, "q"));
    assert_eq!(d.observe(reading(AgentState::Blocked, "q")).state, AgentState::Blocked);
}
