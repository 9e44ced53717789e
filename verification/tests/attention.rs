//! Attention ordering scenarios.

use roster::attention::{rank, AttentionItem};
use roster::session::AgentState;

fn item(state: AgentState) -> AttentionItem {
    AttentionItem {
        state,
        waiting_for: None,
        destructive: false,
    }
}

/// A wait of `secs` seconds, in the nanoseconds the ranking reads.
fn secs(secs: u64) -> Option<u128> {
    Some(u128::from(secs) * 1_000_000_000)
}

fn waiting(state: AgentState, s: u64) -> AttentionItem {
    AttentionItem {
        state,
        waiting_for: secs(s),
        destructive: false,
    }
}

fn blocked(s: u64, destructive: bool) -> AttentionItem {
    AttentionItem {
        state: AgentState::Blocked,
        waiting_for: secs(s),
        destructive,
    }
}

#[test]
fn blocked_outranks_done() {
    let items = [item(AgentState::Done), blocked(1, false)];
    assert_eq!(rank(&items), vec![1, 0]);
}

#[test]
fn done_outranks_idle() {
    let items = [item(AgentState::Idle), item(AgentState::Done)];
    assert_eq!(rank(&items), vec![1, 0]);
}

#[test]
fn attention_working_sinks_below_idle() {
    let items = [item(AgentState::Working), item(AgentState::Idle)];
    assert_eq!(rank(&items), vec![1, 0]);
}

#[test]
fn tiers_order_blocked_done_idle_working() {
    let items = [
        item(AgentState::Working),
        item(AgentState::Idle),
        item(AgentState::Done),
        blocked(1, false),
    ];
    assert_eq!(rank(&items), vec![3, 2, 1, 0]);
}

#[test]
fn destructive_ask_outranks_older_plain_block() {
    let items = [blocked(600, false), blocked(5, true)];
    assert_eq!(rank(&items), vec![1, 0]);
}

#[test]
fn longest_blocked_first() {
    let items = [blocked(10, false), blocked(300, false), blocked(60, false)];
    assert_eq!(rank(&items), vec![1, 2, 0]);
}

#[test]
fn longest_wait_leads_within_every_tier() {
    let items = [
        waiting(AgentState::Done, 5),
        waiting(AgentState::Done, 90),
        waiting(AgentState::Idle, 5),
        waiting(AgentState::Idle, 90),
    ];
    assert_eq!(rank(&items), vec![1, 0, 3, 2]);
}

#[test]
fn ties_keep_input_order() {
    let items = [
        item(AgentState::Working),
        blocked(30, false),
        item(AgentState::Working),
        blocked(30, false),
    ];
    assert_eq!(rank(&items), vec![1, 3, 0, 2]);
}

#[test]
fn blocked_without_duration_ranks_below_timed_blocks() {
    let items = [item(AgentState::Blocked), blocked(1, false)];
    assert_eq!(rank(&items), vec![1, 0]);
}

#[test]
fn destructive_flag_is_inert_outside_blocked() {
    let mut destructive_done = item(AgentState::Done);
    destructive_done.destructive = true;
    assert_eq!(
        destructive_done.priority(),
        item(AgentState::Done).priority()
    );
}

#[test]
fn empty_input_ranks_to_nothing() {
    assert_eq!(rank(&[]), Vec::<usize>::new());
}

#[test]
fn priority_orders_like_the_ranking() {
    assert!(blocked(1, false).priority() < item(AgentState::Done).priority());
    assert!(blocked(5, true).priority() < blocked(600, false).priority());
    assert!(waiting(AgentState::Idle, 90).priority() < waiting(AgentState::Idle, 5).priority());
}

#[test]
fn waits_apart_by_a_nanosecond_still_rank() {
    let shorter = AttentionItem {
        state: AgentState::Blocked,
        waiting_for: Some(30_000_000_000),
        destructive: false,
    };
    let longer = AttentionItem {
        state: AgentState::Blocked,
        waiting_for: Some(30_000_000_001),
        destructive: false,
    };
    assert_eq!(rank(&[shorter, longer]), vec![1, 0]);
}
