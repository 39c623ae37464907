//! Staggerers: they debounce a stream of trigger signals into activation
//! signals, with a stagger delay after the last trigger and a minimum
//! interval between activations.

use vstd::prelude::*;

verus! {

#[verifier::external_type_specification]
#[verifier::external_body]
pub struct ExInstant(std::time::Instant);

/// Relies on `std::time::Instant::now`: a reading of the monotonic clock;
/// nothing is promised of its value.
#[verifier::external_body]
fn instant_now() -> std::time::Instant {
    std::time::Instant::now()
}

/// Relies on `Instant::duration_since` (zero when the other reading is later)
/// and `Duration::as_millis`: the milliseconds elapsed between the two clock
/// readings, capped at the largest expressible value.  Nothing is promised of
/// the result: the clock decides it.
#[verifier::external_body]
fn millis_since(earlier: &std::time::Instant, now: &std::time::Instant) -> u64 {
    u64::try_from(now.duration_since(*earlier).as_millis()).unwrap_or(u64::MAX)
}

/// Saturating addition on milliseconds.
fn add_millis(a: u64, b: u64) -> (r: u64)
    ensures
        r == if a + b <= u64::MAX {
            a + b
        } else {
            u64::MAX as int
        },
{
    if a <= u64::MAX - b {
        a + b
    } else {
        u64::MAX
    }
}

/// A staggerer on the real clock, all times in milliseconds since creation.
#[derive(Debug)]
pub struct TimedStaggerer {
    /// Stagger delay before activation after the last trigger.
    pub delay: u64,
    /// Minimal interval between activations.
    pub min_interval: u64,
    /// When the staggerer was created; all other times count from here.
    pub clock_base: std::time::Instant,
    /// No activation before this time.
    pub earliest_next_activation: u64,
    /// When the last trigger was received, if one is pending.
    pub last_trigger: Option<u64>,
}

impl TimedStaggerer {
    /// What `activated_at` decides and changes, given the current time: an
    /// activation fires when a trigger is pending, its stagger delay has
    /// passed, and the earliest allowed activation time has been reached;
    /// firing consumes the trigger and pushes the next allowed activation
    /// out by the minimum interval.
    pub open spec fn spec_activated(self, now: u64) -> (Self, bool) {
        if now < self.earliest_next_activation {
            (self, false)
        } else if self.last_trigger is None {
            (self, false)
        } else if now > self.last_trigger->0 + self.delay {
            (
                TimedStaggerer {
                    last_trigger: None,
                    earliest_next_activation: if now + self.min_interval <= u64::MAX {
                        (now + self.min_interval) as u64
                    } else {
                        u64::MAX
                    },
                    ..self
                },
                true,
            )
        } else {
            (self, false)
        }
    }

    /// A staggerer with the given delay and minimum interval, in
    /// milliseconds, ready to activate.
    pub fn new(delay: u64, min_interval: u64) -> (r: Self)
        ensures
            r.delay == delay,
            r.min_interval == min_interval,
            r.last_trigger is None,
    {
        TimedStaggerer {
            delay,
            min_interval,
            clock_base: instant_now(),
            earliest_next_activation: 0,
            last_trigger: None,
        }
    }

    /// Records a trigger at the given time.
    pub fn trigger_at(&mut self, now: u64)
        ensures
            final (self).last_trigger == Some(now),
            final (self).delay == old(self).delay,
            final (self).min_interval == old(self).min_interval,
            final (self).earliest_next_activation == old(self).earliest_next_activation,
    {
        self.last_trigger = Some(now);
    }

    /// Records a trigger now, on the real clock.
    pub fn trigger(&mut self)
        ensures
            final (self).last_trigger is Some,
            final (self).delay == old(self).delay,
            final (self).min_interval == old(self).min_interval,
            final (self).earliest_next_activation == old(self).earliest_next_activation,
    {
        let now = millis_since(&self.clock_base, &instant_now());
        self.trigger_at(now);
    }

    /// Decides, for the given time, whether the staggerer activates, and
    /// updates its state exactly as `spec_activated` says.
    pub fn activated_at(&mut self, now: u64) -> (r: bool)
        ensures
            (*final (self), r) == old(self).spec_activated(now),
    {
        if now < self.earliest_next_activation {
            return false;
        }
        let last = match self.last_trigger {
            Some(t) => t,
            None => {
                return false;
            },
        };
        if now > last && now - last > self.delay {
            self.last_trigger = None;
            self.earliest_next_activation = add_millis(now, self.min_interval);
            true
        } else {
            false
        }
    }

    /// Checks on the real clock whether the staggerer activates, consuming
    /// the pending trigger when it does.  Which branch is taken depends on
    /// the clock; the state always changes exactly as `spec_activated` says
    /// for the time that was read.
    pub fn activated(&mut self) -> (r: bool)
        ensures
            exists|now: u64| (*final (self), r) == old(self).spec_activated(now),
    {
        let now = millis_since(&self.clock_base, &instant_now());
        let r = self.activated_at(now);
        proof {
            assert((*self, r) == old(self).spec_activated(now));
        }
        r
    }
}

/// A staggerer without a clock: it activates once after each trigger.
#[derive(Debug)]
pub struct StaggererDummy {
    activated: bool,
}

impl StaggererDummy {
    /// Whether a trigger is pending.
    pub closed spec fn spec_pending(self) -> bool {
        self.activated
    }

    /// A dummy staggerer with nothing pending.
    pub fn new() -> (r: Self)
        ensures
            !r.spec_pending(),
    {
        StaggererDummy { activated: false }
    }

    /// Records a trigger.
    pub fn trigger(&mut self)
        ensures
            final (self).spec_pending(),
    {
        self.activated = true;
    }

    /// Consumes the pending trigger, if any: true exactly once per trigger.
    pub fn activated(&mut self) -> (r: bool)
        ensures
            r == old(self).spec_pending(),
            !final (self).spec_pending(),
    {
        if self.activated {
            self.activated = false;
            true
        } else {
            false
        }
    }
}

} // verus!
