//! The urgency vocabulary for telemetry readings: the shared warn/critical
//! severity of the remaining-context and rate-limit thresholds.

use vstd::prelude::*;

verus! {

/// The urgency of a telemetry reading. Ordered by severity:
/// `Warn < Critical`.
#[derive(Clone, Copy, Debug, PartialEq, Eq, Structural, Hash, PartialOrd, Ord)]
pub enum ContextAlert {
    /// Getting low; worth a glance.
    Warn,
    /// Nearly exhausted; the agent is about to compact or stall.
    Critical,
}

/// A severity's rank: warn below critical.
pub open spec fn severity(a: ContextAlert) -> nat {
    match a {
        ContextAlert::Warn => 0,
        ContextAlert::Critical => 1,
    }
}

impl ContextAlert {
    /// Whether this alert is at least as severe as `other`.
    pub fn at_least(self, other: ContextAlert) -> (b: bool)
        ensures
            b == (severity(self) >= severity(other)),
    {
        match (self, other) {
            (ContextAlert::Warn, ContextAlert::Critical) => false,
            _ => true,
        }
    }
}

} // verus!
