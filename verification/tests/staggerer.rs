use match3::staggerer::{StaggererDummy, TimedStaggerer};

#[test]
fn dummy_activates_once_per_trigger() {
    let mut s = StaggererDummy::new();
    assert!(!s.activated());
    s.trigger();
    assert!(s.activated());
    assert!(!s.activated());
    s.trigger();
    s.trigger();
    assert!(s.activated());
    assert!(!s.activated());
}

#[test]
fn timed_staggerer_waits_out_the_delay() {
    let mut s = TimedStaggerer::new(100, 50);
    // Nothing triggered yet.
    assert!(!s.activated_at(10));
    s.trigger_at(10);
    // The stagger delay has not passed.
    assert!(!s.activated_at(60));
    assert!(!s.activated_at(110));
    // Just past the delay it fires, consuming the trigger.
    assert!(s.activated_at(111));
    assert!(!s.activated_at(112));
}

#[test]
fn timed_staggerer_respects_the_minimum_interval() {
    let mut s = TimedStaggerer::new(0, 1000);
    s.trigger_at(5);
    assert!(s.activated_at(6));
    s.trigger_at(7);
    // The next activation may come no earlier than 1006.
    assert!(!s.activated_at(500));
    assert!(!s.activated_at(1005));
    assert!(s.activated_at(1006));
}

#[test]
fn timed_staggerer_real_clock_smoke() {
    let mut s = TimedStaggerer::new(0, 0);
    s.trigger();
    // Whether this fires depends on the clock; it must simply not fault.
    let _ = s.activated();
}
