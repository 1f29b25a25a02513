//! When the controller looks at the desktop again and when it reflows: a
//! burst of desktop events is taken in 200 ms after the last of them, the
//! desktop is looked at least every 10 seconds, and a reflow follows half a
//! second after the managed windows changed. Times are milliseconds on a
//! clock the application reads.
use vstd::prelude::*;

verus! {

/// The desktop is looked at again at least this often.
pub const FALLBACK_RECONCILE_MS: u64 = 10000;

/// A burst of desktop events is taken in this long after the last event.
pub const DISCOVERY_DEBOUNCE_MS: u64 = 200;

/// A reflow follows this long after the managed windows changed.
pub const REFLOW_DEBOUNCE_MS: u64 = 500;

/// The pause between locating two ClubGG lobbies.
pub const LOBBY_LOCATE_GAP_MS: u64 = 80;

/// The controller's timers.
#[derive(Clone, Copy, Debug, PartialEq, Eq, Structural)]
pub struct Schedule {
    /// When the desktop was last looked at.
    pub last_reconcile: u64,
    /// When a pending burst of desktop events is to be taken in.
    pub discovery_due: Option<u64>,
    /// Since when a reflow has been pending.
    pub dirty_since: Option<u64>,
}

pub open spec fn saturating_add(a: int, b: int) -> int {
    if a + b > u64::MAX { u64::MAX as int } else { a + b }
}

/// Milliseconds from `now` until `due`, or none once it is due.
pub open spec fn remaining(due: int, now: int) -> int {
    if due > now { due - now } else { 0 }
}

pub open spec fn min_of(a: int, b: int) -> int {
    if a <= b { a } else { b }
}

/// How long the controller may wait for a command before a timer is due.
pub open spec fn wait_of(s: Schedule, now: int) -> int {
    let fallback = remaining(saturating_add(s.last_reconcile as int, FALLBACK_RECONCILE_MS as int), now);
    let with_discovery = match s.discovery_due {
        Some(due) => min_of(fallback, remaining(due as int, now)),
        None => fallback,
    };
    match s.dirty_since {
        Some(since) => min_of(with_discovery, remaining(saturating_add(since as int, REFLOW_DEBOUNCE_MS as int), now)),
        None => with_discovery,
    }
}

impl Schedule {
    /// The timers of a controller that looks at the desktop at `now`.
    pub fn new(now: u64) -> (r: Schedule)
        ensures
            r == (Schedule { last_reconcile: now, discovery_due: None, dirty_since: None }),
    {
        Schedule { last_reconcile: now, discovery_due: None, dirty_since: None }
    }

    /// Looking at the desktop is due: a burst of events has settled, or the
    /// last look is 10 seconds old.
    pub open spec fn discovery_is_due_at(self, now: int) -> bool {
        ||| (self.discovery_due matches Some(due) && due <= now)
        ||| saturating_add(self.last_reconcile as int, FALLBACK_RECONCILE_MS as int) <= now
    }

    pub fn discovery_due_now(&self, now: u64) -> (r: bool)
        ensures
            r == self.discovery_is_due_at(now as int),
    {
        let due = match self.discovery_due {
            Some(due) => due <= now,
            None => false,
        };
        due || self.last_reconcile.saturating_add(FALLBACK_RECONCILE_MS) <= now
    }

    /// A reflow is due: automatic arrangement is on and the change is half a
    /// second old.
    pub fn reflow_due_now(&self, now: u64, auto_arrange: bool) -> (r: bool)
        ensures
            r == (auto_arrange && match self.dirty_since {
                Some(since) => saturating_add(since as int, REFLOW_DEBOUNCE_MS as int) <= now,
                None => false,
            }),
    {
        match self.dirty_since {
            Some(since) => auto_arrange && since.saturating_add(REFLOW_DEBOUNCE_MS) <= now,
            None => false,
        }
    }

    /// How long to wait for a command before a timer is due.
    pub fn wait_ms(&self, now: u64) -> (r: u64)
        ensures
            r == wait_of(*self, now as int),
    {
        let fallback_at = self.last_reconcile.saturating_add(FALLBACK_RECONCILE_MS);
        let mut wait = if fallback_at > now {
            fallback_at - now
        } else {
            0
        };
        if let Some(due) = self.discovery_due {
            let left = if due > now {
                due - now
            } else {
                0
            };
            if left < wait {
                wait = left;
            }
        }
        if let Some(since) = self.dirty_since {
            let reflow_at = since.saturating_add(REFLOW_DEBOUNCE_MS);
            let left = if reflow_at > now {
                reflow_at - now
            } else {
                0
            };
            if left < wait {
                wait = left;
            }
        }
        wait
    }

    /// The desktop was just looked at: nothing is pending from earlier events.
    pub fn reconciled(&mut self, now: u64)
        ensures
            final(self).last_reconcile == now,
            final(self).discovery_due is None,
            final(self).dirty_since == old(self).dirty_since,
    {
        self.last_reconcile = now;
        self.discovery_due = None;
    }

    /// A desktop event arrived: the desktop is looked at 200 ms after the last one.
    pub fn event_arrived(&mut self, now: u64)
        ensures
            *final(self) == after_event(*old(self), now),
    {
        self.discovery_due = Some(now.saturating_add(DISCOVERY_DEBOUNCE_MS));
    }

    /// Follows the controller's reflow request: a new request starts the
    /// half-second wait, a standing one keeps its start, none clears it.
    pub fn track_reflow(&mut self, dirty: bool, now: u64)
        ensures
            final(self).dirty_since == if !dirty {
                None
            } else if old(self).dirty_since is Some {
                old(self).dirty_since
            } else {
                Some(now)
            },
            final(self).last_reconcile == old(self).last_reconcile,
            final(self).discovery_due == old(self).discovery_due,
    {
        if !dirty {
            self.dirty_since = None;
        } else if self.dirty_since.is_none() {
            self.dirty_since = Some(now);
        }
    }
}

/// The timers after a desktop event at `now`.
pub open spec fn after_event(s: Schedule, now: u64) -> Schedule {
    Schedule { discovery_due: Some(saturating_add(now as int, DISCOVERY_DEBOUNCE_MS as int) as u64), ..s }
}

/// The 10-second look is due at `now`.
pub open spec fn fallback_due(s: Schedule, now: int) -> bool {
    saturating_add(s.last_reconcile as int, FALLBACK_RECONCILE_MS as int) <= now
}

/// Debouncing: after a burst of desktop events the desktop is looked at
/// only once the last event is 200 ms old; a later event postpones what an
/// earlier one scheduled (unless the 10-second look falls due first).
pub proof fn law_later_event_postpones_discovery(s: Schedule, first: u64, last: u64, now: u64)
    requires
        first <= last,
        now < saturating_add(last as int, DISCOVERY_DEBOUNCE_MS as int),
        !fallback_due(s, now as int),
    ensures
        !after_event(after_event(s, first), last).discovery_is_due_at(now as int),
{
}

/// Once the last event of a burst is 200 ms old, looking at the desktop is due.
pub proof fn law_settled_burst_is_taken_in(s: Schedule, last: u64, now: u64)
    requires
        saturating_add(last as int, DISCOVERY_DEBOUNCE_MS as int) <= now,
    ensures
        after_event(s, last).discovery_is_due_at(now as int),
{
}

} // verus!
