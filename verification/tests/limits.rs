//! Fleet rate-limit scenarios: freshest-wins window selection and the
//! edge-triggered crossing notices.

use roster::context::ContextAlert;
use roster::limits::{freshest, LimitNotifier, LimitWindow};

/// The alert tier of a used share, at the documented thresholds: warn at
/// 70% used, critical at 90%; a non-finite share is not a reading.
fn tier(used_pct: f32) -> Option<Option<ContextAlert>> {
    if !used_pct.is_finite() {
        None
    } else if used_pct >= 90.0 {
        Some(Some(ContextAlert::Critical))
    } else if used_pct >= 70.0 {
        Some(Some(ContextAlert::Warn))
    } else {
        Some(None)
    }
}

/// A reading of the five-hour window only.
fn five_only(notifier: &mut LimitNotifier, used_pct: f32) -> Vec<(LimitWindow, ContextAlert)> {
    notifier.observe(tier(used_pct), None)
}

#[test]
fn a_stream_sitting_above_a_threshold_notifies_exactly_once() {
    let mut notifier = LimitNotifier::new();
    let mut fired = Vec::new();
    for used in [40.0, 75.0, 75.0, 76.0, 88.0] {
        fired.extend(five_only(&mut notifier, used));
    }
    assert_eq!(fired.len(), 1);
    assert_eq!(fired[0].0, LimitWindow::FiveHour);
    assert_eq!(fired[0].1, ContextAlert::Warn);
}

#[test]
fn crossing_ninety_fires_the_critical_tier_once_more() {
    let mut notifier = LimitNotifier::new();
    assert_eq!(five_only(&mut notifier, 75.0).len(), 1);
    let critical = five_only(&mut notifier, 91.0);
    assert_eq!(critical.len(), 1);
    assert_eq!(critical[0].1, ContextAlert::Critical);
    assert!(five_only(&mut notifier, 95.0).is_empty());
}

#[test]
fn jumping_straight_past_both_thresholds_fires_only_the_loud_tier() {
    let mut notifier = LimitNotifier::new();
    let fired = five_only(&mut notifier, 95.0);
    assert_eq!(fired.len(), 1);
    assert_eq!(fired[0].1, ContextAlert::Critical);
}

#[test]
fn dropping_below_a_threshold_rearms_the_notice() {
    let mut notifier = LimitNotifier::new();
    assert_eq!(five_only(&mut notifier, 75.0).len(), 1);
    assert!(five_only(&mut notifier, 3.0).is_empty());
    assert_eq!(five_only(&mut notifier, 72.0).len(), 1);
}

#[test]
fn absent_readings_leave_the_edge_state_alone() {
    let mut notifier = LimitNotifier::new();
    assert_eq!(five_only(&mut notifier, 75.0).len(), 1);
    assert!(notifier.observe(None, None).is_empty());
    assert!(five_only(&mut notifier, 75.0).is_empty());
    assert!(five_only(&mut notifier, f32::NAN).is_empty());
    assert!(five_only(&mut notifier, 76.0).is_empty());
}

#[test]
fn windows_cross_thresholds_independently() {
    let mut notifier = LimitNotifier::new();
    let fired = notifier.observe(tier(75.0), tier(91.0));
    assert_eq!(fired.len(), 2);
    assert_eq!(fired[0], (LimitWindow::FiveHour, ContextAlert::Warn));
    assert_eq!(fired[1], (LimitWindow::SevenDay, ContextAlert::Critical));
}

#[test]
fn freshest_reading_wins_each_fleet_window() {
    // Order must not matter — only the stamps do.
    assert_eq!(freshest(&[Some(100), Some(105)]), Some(1));
    assert_eq!(freshest(&[Some(105), Some(100)]), Some(0));
    // A reading without the window never supplies it.
    assert_eq!(freshest(&[Some(100), None]), Some(0));
    assert_eq!(freshest(&[None, Some(100)]), Some(1));
}

#[test]
fn fleetless_or_windowless_readings_aggregate_to_nothing() {
    assert_eq!(freshest(&[]), None);
    assert_eq!(freshest(&[None, None]), None);
}

#[test]
fn equally_fresh_readings_keep_the_first() {
    assert_eq!(freshest(&[Some(7), Some(9), Some(9)]), Some(1));
}

#[test]
fn repeating_a_reading_is_silent() {
    let mut notifier = LimitNotifier::new();
    assert_eq!(notifier.observe(tier(95.0), tier(80.0)).len(), 2);
    assert!(notifier.observe(tier(95.0), tier(80.0)).is_empty());
}

#[test]
fn critical_is_at_least_every_alert_and_warn_only_itself() {
    assert!(ContextAlert::Critical.at_least(ContextAlert::Warn));
    assert!(ContextAlert::Critical.at_least(ContextAlert::Critical));
    assert!(ContextAlert::Warn.at_least(ContextAlert::Warn));
    assert!(!ContextAlert::Warn.at_least(ContextAlert::Critical));
}
