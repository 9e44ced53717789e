//! The fleet view over account rate limits: which pane's reading supplies
//! each window (freshest wins), and the edge-triggered crossing detector
//! behind the limit toasts. The used shares themselves are floats and are
//! classified outside; this module decides on their alert tiers and stamps.

use vstd::prelude::*;

use crate::context::ContextAlert;

verus! {

/// Which account rate-limit window a notice concerns.
#[derive(Clone, Copy, Debug, PartialEq, Eq, Structural)]
pub enum LimitWindow {
    /// The five-hour window.
    FiveHour,
    /// The seven-day window.
    SevenDay,
}

/// Whether reading `i` supplies a window across the fleet: it carries the
/// window, no reading carries a later stamp, and every earlier reading
/// carrying it is strictly older — among equally fresh readings the first
/// wins.
pub open spec fn is_freshest(stamps: Seq<Option<u128>>, i: int) -> bool {
    &&& 0 <= i < stamps.len()
    &&& stamps[i] is Some
    &&& forall|j: int|
        0 <= j < stamps.len() && (#[trigger] stamps[j]) is Some ==> stamps[j]->Some_0
            <= stamps[i]->Some_0
    &&& forall|j: int|
        0 <= j < i && (#[trigger] stamps[j]) is Some ==> stamps[j]->Some_0 < stamps[i]->Some_0
}

/// The reading that supplies a window: given each reading's stamp when it
/// carries the window (a usable, finite reading of it), the index of the
/// freshest, or `None` when no reading carries the window. The stamps
/// decide, not the order the readings arrive in, save that among equally
/// fresh readings the first wins.
pub fn freshest(stamps: &[Option<u128>]) -> (r: Option<usize>)
    ensures
        match r {
            Some(i) => is_freshest(stamps@, i as int),
            None => forall|j: int| 0 <= j < stamps@.len() ==> (#[trigger] stamps@[j]) is None,
        },
{
    let mut best: Option<usize> = None;
    let mut k: usize = 0;
    while k < stamps.len()
        invariant
            k <= stamps@.len(),
            match best {
                Some(i) => i < k && is_freshest(stamps@.take(k as int), i as int),
                None => forall|j: int| 0 <= j < k ==> (#[trigger] stamps@[j]) is None,
            },
        decreases stamps@.len() - k,
    {
        let ghost before = stamps@.take(k as int);
        let ghost after = stamps@.take(k + 1);
        assert forall|j: int| 0 <= j < k implies #[trigger] after[j] == before[j] by {}
        match stamps[k] {
            Some(at) => {
                let take = match best {
                    Some(i) => match stamps[i] {
                        Some(seen) => at > seen,
                        None => true,
                    },
                    None => true,
                };
                if take {
                    best = Some(k);
                }
            },
            None => {},
        }
        assert(after[k as int] == stamps@[k as int]);
        k += 1;
    }
    assert(stamps@.take(stamps@.len() as int) =~= stamps@);
    best
}

/// An alert level's tier: healthy below warn below critical.
pub open spec fn tier(level: Option<ContextAlert>) -> nat {
    match level {
        None => 0,
        Some(ContextAlert::Warn) => 1,
        Some(ContextAlert::Critical) => 2,
    }
}

/// One window's edge step on a reading (`None` when the window is absent
/// from the fleet view, else its alert level): the level held next, and
/// the tier that fires — only when the level rises above the held one. An
/// absent reading leaves the held level alone.
pub open spec fn window_step(held: Option<ContextAlert>, reading: Option<Option<ContextAlert>>) -> (
    Option<ContextAlert>,
    Option<ContextAlert>,
) {
    match reading {
        None => (held, None),
        Some(level) => (level, if tier(level) > tier(held) { level } else { None }),
    }
}

/// The notices one observation fires: the five-hour window's, then the
/// seven-day window's.
pub open spec fn fired(
    held: (Option<ContextAlert>, Option<ContextAlert>),
    five_hour: Option<Option<ContextAlert>>,
    seven_day: Option<Option<ContextAlert>>,
) -> Seq<(LimitWindow, ContextAlert)> {
    let f = window_step(held.0, five_hour).1;
    let s = window_step(held.1, seven_day).1;
    (match f {
        Some(a) => seq![(LimitWindow::FiveHour, a)],
        None => Seq::empty(),
    }) + (match s {
        Some(a) => seq![(LimitWindow::SevenDay, a)],
        None => Seq::empty(),
    })
}

/// Edge-triggered crossing detection over the fleet's rate-limit readings:
/// one notice per threshold per window, however long the readings sit above
/// it. It fires only when a window's alert tier rises, and re-arms when the
/// tier falls — a window reset zeroes the used share, so a falling share
/// covers resets too.
#[derive(Debug)]
pub struct LimitNotifier {
    five_hour: Option<ContextAlert>,
    seven_day: Option<ContextAlert>,
}

impl View for LimitNotifier {
    type V = (Option<ContextAlert>, Option<ContextAlert>);

    closed spec fn view(&self) -> (Option<ContextAlert>, Option<ContextAlert>) {
        (self.five_hour, self.seven_day)
    }
}

impl Default for LimitNotifier {
    fn default() -> (n: Self)
        ensures
            n@ == (None::<ContextAlert>, None::<ContextAlert>),
    {
        LimitNotifier::new()
    }
}

/// An alert level's tier.
fn tier_of(level: Option<ContextAlert>) -> (t: u8)
    ensures
        t == tier(level),
{
    match level {
        None => 0,
        Some(ContextAlert::Warn) => 1,
        Some(ContextAlert::Critical) => 2,
    }
}

impl LimitNotifier {
    /// A notifier with no thresholds crossed yet.
    pub fn new() -> (n: Self)
        ensures
            n@ == (None::<ContextAlert>, None::<ContextAlert>),
    {
        LimitNotifier { five_hour: None, seven_day: None }
    }

    /// Feed the current fleet reading — per window, `None` when absent
    /// (feed stale or gone, or a non-finite share), else its alert level;
    /// the notices that fire on it, loudest tier only: a reading that jumps
    /// straight past both thresholds is one critical notice.
    pub fn observe(
        &mut self,
        five_hour: Option<Option<ContextAlert>>,
        seven_day: Option<Option<ContextAlert>>,
    ) -> (notices: Vec<(LimitWindow, ContextAlert)>)
        ensures
            final(self)@ == (
                window_step(old(self)@.0, five_hour).0,
                window_step(old(self)@.1, seven_day).0,
            ),
            notices@ == fired(old(self)@, five_hour, seven_day),
    {
        let mut notices: Vec<(LimitWindow, ContextAlert)> = Vec::new();
        Self::observe_window(&mut self.five_hour, five_hour, LimitWindow::FiveHour, &mut notices);
        let ghost first = notices@;
        Self::observe_window(&mut self.seven_day, seven_day, LimitWindow::SevenDay, &mut notices);
        assert(notices@ =~= fired(old(self)@, five_hour, seven_day));
        notices
    }

    /// One window's edge step: fire when the alert tier rises, silently
    /// re-arm when it falls; an absent reading leaves the state alone.
    fn observe_window(
        held: &mut Option<ContextAlert>,
        reading: Option<Option<ContextAlert>>,
        window: LimitWindow,
        notices: &mut Vec<(LimitWindow, ContextAlert)>,
    )
        ensures
            *final(held) == window_step(*old(held), reading).0,
            final(notices)@ == old(notices)@ + match window_step(*old(held), reading).1 {
                Some(a) => seq![(window, a)],
                None => Seq::empty(),
            },
    {
        match reading {
            None => {
                assert(notices@ =~= old(notices)@ + Seq::empty());
            },
            Some(level) => {
                if tier_of(level) > tier_of(*held) {
                    match level {
                        Some(a) => notices.push((window, a)),
                        None => {},
                    }
                } else {
                    assert(notices@ =~= old(notices)@ + Seq::empty());
                }
                *held = level;
            },
        }
    }
}

/// A reading sitting at a level notifies once: observing the same reading
/// again right after fires nothing; and an absent reading changes nothing.
pub proof fn lemma_repeat_reading_is_silent(held: Option<ContextAlert>, reading: Option<Option<ContextAlert>>)
    ensures
        window_step(window_step(held, reading).0, reading).1 is None,
        window_step(held, None) == (held, None::<ContextAlert>),
{
}

/// One window over a run of readings, oldest first: the level held after
/// them and the notices they fired, in order.
pub open spec fn window_run(held: Option<ContextAlert>, rs: Seq<Option<Option<ContextAlert>>>) -> (
    Option<ContextAlert>,
    Seq<ContextAlert>,
)
    decreases rs.len(),
{
    if rs.len() == 0 {
        (held, Seq::empty())
    } else {
        let (h, ns) = window_run(held, rs.drop_last());
        let (h2, n) = window_step(h, rs.last());
        (
            h2,
            ns + match n {
                Some(a) => seq![a],
                None => Seq::empty(),
            },
        )
    }
}

/// However long a window's readings sit at one level, it notifies once:
/// a run of the same present reading fires exactly one notice, at the
/// first of them, when its tier is above the held one, and none otherwise,
/// leaving that level held.
pub proof fn lemma_sustained_reading_fires_once(
    held: Option<ContextAlert>,
    level: Option<ContextAlert>,
    rs: Seq<Option<Option<ContextAlert>>>,
)
    requires
        rs.len() > 0,
        forall|i: int| 0 <= i < rs.len() ==> #[trigger] rs[i] == Some(level),
    ensures
        window_run(held, rs).0 == level,
        window_run(held, rs).1 == if tier(level) > tier(held) {
            seq![level->Some_0]
        } else {
            Seq::<ContextAlert>::empty()
        },
    decreases rs.len(),
{
    let prev = rs.drop_last();
    if prev.len() == 0 {
        assert(window_run(held, prev) == (held, Seq::<ContextAlert>::empty()));
        assert(rs.last() == Some(level));
        if tier(level) > tier(held) {
            assert(level is Some);
            assert(Seq::<ContextAlert>::empty() + seq![level->Some_0] =~= seq![level->Some_0]);
        } else {
            assert(Seq::<ContextAlert>::empty() + Seq::<ContextAlert>::empty() =~= Seq::<ContextAlert>::empty());
        }
    } else {
        assert forall|i: int| 0 <= i < prev.len() implies #[trigger] prev[i] == Some(level) by {
            assert(prev[i] == rs[i]);
        }
        lemma_sustained_reading_fires_once(held, level, prev);
        assert(rs.last() == Some(level));
        let ns = window_run(held, prev).1;
        assert(ns + Seq::<ContextAlert>::empty() =~= ns);
    }
}

} // verus!
