//! Attention ordering: which agent needs the human first.
//!
//! The triage judgment shared by the sidebar and every other consumer that
//! ranks agents. Pure ranking over snapshots the caller assembles — no
//! clock, no I/O.

use vstd::prelude::*;
use crate::session::AgentState;

verus! {

/// One agent's attention-relevant snapshot, assembled by the caller.
#[derive(Clone, Copy, Debug)]
pub struct AttentionItem {
    /// The agent's committed (debounced) state.
    pub state: AgentState,
    /// How long the agent has sat in this state, in nanoseconds, measured
    /// by the caller against its own clock.
    pub waiting_for: Option<u128>,
    /// Whether the pending ask is destructive (delete, force-push, …).
    pub destructive: bool,
}

/// A totally ordered "needs-you-ness" key; smaller means more urgent.
///
/// Ordered by urgency tier, then the destructive sub-tier, then by wait,
/// longest first (`patience` is the wait counted down from `u128::MAX`, so
/// the derived field order is the triage order).
#[derive(Clone, Copy, Debug, PartialEq, Eq, Structural, PartialOrd, Ord)]
pub struct Priority {
    tier: u8,
    ask: u8,
    patience: u128,
}

/// The state's urgency tier: blocked needs a decision now, done holds
/// finished work awaiting review, idle may need a nudge, working needs
/// nothing from the human.
pub open spec fn tier_of(state: AgentState) -> u8 {
    match state {
        AgentState::Blocked => 0,
        AgentState::Done => 1,
        AgentState::Idle => 2,
        AgentState::Working => 3,
    }
}

impl Priority {
    /// The urgency tier.
    pub closed spec fn tier(self) -> u8 {
        self.tier
    }

    /// The destructive sub-tier: 0 for a destructive blocked ask, else 1.
    pub closed spec fn ask(self) -> u8 {
        self.ask
    }

    /// The wait this key was built from, in nanoseconds.
    pub closed spec fn wait(self) -> int {
        u128::MAX - self.patience
    }

    /// Strict "more urgent than": lower tier, then lower sub-tier, then the
    /// longer wait.
    pub open spec fn precedes(self, other: Priority) -> bool {
        ||| self.tier() < other.tier()
        ||| (self.tier() == other.tier() && self.ask() < other.ask())
        ||| (self.tier() == other.tier() && self.ask() == other.ask() && self.wait()
            > other.wait())
    }

    /// Two keys are the same urgency.
    pub open spec fn same_rank(self, other: Priority) -> bool {
        &&& self.tier() == other.tier()
        &&& self.ask() == other.ask()
        &&& self.wait() == other.wait()
    }

    /// Whether `self` sorts strictly before `other`.
    pub fn more_urgent_than(&self, other: &Priority) -> (r: bool)
        ensures
            r == self.precedes(*other),
    {
        if self.tier != other.tier {
            self.tier < other.tier
        } else if self.ask != other.ask {
            self.ask < other.ask
        } else {
            self.patience < other.patience
        }
    }

    /// Keys built from the same urgency are equal values.
    pub proof fn lemma_same_rank_is_equality(self, other: Priority)
        ensures
            self.same_rank(other) <==> self == other,
    {
    }
}

impl AttentionItem {
    /// The item's triage key, in spec form.
    pub open spec fn key(self) -> (Priority, ) {
        (self.priority_spec(), )
    }

    /// The item's triage key: tier, the destructive sub-tier (blocked only),
    /// and the wait (a missing duration counts as zero wait).
    pub closed spec fn priority_spec(self) -> Priority {
        Priority {
            tier: tier_of(self.state),
            ask: if self.state == AgentState::Blocked && self.destructive {
                0
            } else {
                1
            },
            patience: (u128::MAX - match self.waiting_for {
                Some(w) => w,
                None => 0u128,
            }) as u128,
        }
    }

    /// What the key says, field by field.
    pub proof fn lemma_priority_fields(self)
        ensures
            self.priority_spec().tier() == tier_of(self.state),
            self.priority_spec().ask() == (if self.state == AgentState::Blocked
                && self.destructive {
                0u8
            } else {
                1u8
            }),
            self.priority_spec().wait() == match self.waiting_for {
                Some(w) => w as int,
                None => 0,
            },
    {
    }

    /// The item's triage key — smaller sorts first.
    pub fn priority(&self) -> (p: Priority)
        ensures
            p == self.priority_spec(),
    {
        let tier: u8 = match self.state {
            AgentState::Blocked => 0,
            AgentState::Done => 1,
            AgentState::Idle => 2,
            AgentState::Working => 3,
        };
        let ask: u8 = match (self.state, self.destructive) {
            (AgentState::Blocked, true) => 0,
            _ => 1,
        };
        let wait: u128 = match self.waiting_for {
            Some(w) => w,
            None => 0,
        };
        Priority { tier, ask, patience: u128::MAX - wait }
    }
}

/// `order` lists the indices of `items` in attention order: a permutation
/// of `0..items.len()`, most urgent first, with ties in input order.
pub open spec fn is_attention_order(items: Seq<AttentionItem>, order: Seq<usize>) -> bool {
    &&& order.len() == items.len()
    &&& forall|j: int| 0 <= j < order.len() ==> #[trigger] order[j] < items.len()
    &&& forall|a: int, b: int|
        0 <= a < b < order.len() ==> #[trigger] order[a] != #[trigger] order[b]
    &&& forall|k: int| 0 <= k < items.len() ==> #[trigger] order_contains(order, k)
    &&& forall|a: int, b: int|
        0 <= a < b < order.len() ==> !(#[trigger] items[order[b] as int]).priority_spec().precedes(
            (#[trigger] items[order[a] as int]).priority_spec(),
        )
    &&& forall|a: int, b: int|
        0 <= a < b < order.len() && items[order[a] as int].priority_spec()
            == items[order[b] as int].priority_spec() ==> #[trigger] order[a]
            < #[trigger] order[b]
}

/// `order` holds the index `k`.
pub open spec fn order_contains(order: Seq<usize>, k: int) -> bool {
    exists|j: int| 0 <= j < order.len() && order[j] == k
}

/// Indices of `items` in attention order — most urgent first, per
/// [`AttentionItem::priority`]. Ties keep the input order.
pub fn rank(items: &[AttentionItem]) -> (order: Vec<usize>)
    ensures
        is_attention_order(items@, order@),
{
    let n = items.len();
    let mut order: Vec<usize> = Vec::new();
    let mut i: usize = 0;
    while i < n
        invariant
            n == items@.len(),
            i <= n,
            order@.len() == i,
            forall|j: int| 0 <= j < order@.len() ==> #[trigger] order@[j] < i,
            forall|a: int, b: int|
                0 <= a < b < order@.len() ==> #[trigger] order@[a] != #[trigger] order@[b],
            forall|k: int| 0 <= k < i ==> #[trigger] order_contains(order@, k),
            forall|a: int, b: int|
                0 <= a < b < order@.len() ==> !(#[trigger] items@[order@[b] as int]).priority_spec().precedes(
                    (#[trigger] items@[order@[a] as int]).priority_spec(),
                ),
            forall|a: int, b: int|
                0 <= a < b < order@.len() && items@[order@[a] as int].priority_spec()
                    == items@[order@[b] as int].priority_spec() ==> #[trigger] order@[a]
                    < #[trigger] order@[b],
        decreases n - i,
    {
        let key = items[i].priority();
        // Insert after every entry at least as urgent: ties keep input order.
        let mut pos: usize = 0;
        while pos < order.len() && !key.more_urgent_than(&items[order[pos]].priority())
            invariant
                n == items@.len(),
                i < n,
                key == items@[i as int].priority_spec(),
                pos <= order@.len(),
                forall|j: int| 0 <= j < order@.len() ==> #[trigger] order@[j] < i,
                forall|a: int, b: int|
                    0 <= a < b < order@.len() ==> !(#[trigger] items@[order@[b] as int]).priority_spec().precedes(
                        (#[trigger] items@[order@[a] as int]).priority_spec(),
                    ),
                forall|j: int|
                    0 <= j < pos ==> !key.precedes(
                        (#[trigger] items@[order@[j] as int]).priority_spec(),
                    ),
            decreases order@.len() - pos,
        {
            pos = pos + 1;
        }
        let ghost old_order = order@;
        order.insert(pos, i);
        proof {
            assert forall|k: int| 0 <= k < i + 1 implies #[trigger] order_contains(order@, k) by {
                if k == i {
                    assert(order@[pos as int] == i);
                } else {
                    assert(order_contains(old_order, k));
                    let j = choose|j: int| 0 <= j < old_order.len() && old_order[j] == k;
                    if j < pos {
                        assert(order@[j] == k);
                    } else {
                        assert(order@[j + 1] == k);
                    }
                }
            }
            assert forall|a: int, b: int| 0 <= a < b < order@.len() implies !(
            #[trigger] items@[order@[b] as int]).priority_spec().precedes(
                (#[trigger] items@[order@[a] as int]).priority_spec(),
            ) by {
                let pa = items@[order@[a] as int].priority_spec();
                let pb = items@[order@[b] as int].priority_spec();
                if a < pos && b == pos {
                    assert(order@[a] == old_order[a]);
                } else if a == pos && b > pos {
                    assert(order@[b] == old_order[b - 1]);
                    if pos < old_order.len() {
                        let pp = items@[old_order[pos as int] as int].priority_spec();
                        if b - 1 > pos {
                            assert(!pb.precedes(pp));
                        }
                    }
                } else if a < pos && b > pos {
                    assert(order@[a] == old_order[a]);
                    assert(order@[b] == old_order[b - 1]);
                } else if b < pos {
                    assert(order@[a] == old_order[a]);
                    assert(order@[b] == old_order[b]);
                } else {
                    assert(order@[a] == old_order[a - 1]);
                    assert(order@[b] == old_order[b - 1]);
                }
            }
        }
        i = i + 1;
    }
    order
}

} // verus!
