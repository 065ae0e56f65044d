use std::rc::Rc;

use echofront::clock::{clock_reading, Clock, ManualClock, SystemClock};

#[test]
fn manual_clock_advances_and_sets() {
    let mut c = ManualClock::new(1000);
    assert_eq!(c.now_millis(), 1000);
    c.advance(500);
    assert_eq!(c.now_millis(), 1500);
    c.set(42);
    assert_eq!(c.now_millis(), 42);
}

#[test]
fn rc_clock_delegates() {
    let c: Rc<dyn Clock> = Rc::new(ManualClock::new(7));
    assert_eq!(c.now_millis(), 7);
}

#[test]
fn borrowed_clock_delegates() {
    let c = ManualClock::new(7);
    let r: &dyn Clock = &c;
    assert_eq!((&r).now_millis(), 7);
}

#[test]
fn manual_clock_stops_at_the_top() {
    let mut c = ManualClock::default();
    assert_eq!(c.now_millis(), 0);
    c.set(u64::MAX - 1);
    c.advance(5);
    assert_eq!(c.now_millis(), u64::MAX);
}

#[test]
fn clock_reading_clamps_to_the_range() {
    assert_eq!(clock_reading(None), 0);
    assert_eq!(clock_reading(Some(1_700_000_000_000)), 1_700_000_000_000);
    assert_eq!(clock_reading(Some(u64::MAX as u128)), u64::MAX);
    assert_eq!(clock_reading(Some(u64::MAX as u128 + 1)), u64::MAX);
}

#[test]
fn system_clock_shows_a_time_after_the_epoch() {
    // Some time after September 2001, and far below the top of the range.
    let now = SystemClock.now_millis();
    assert!(now > 1_000_000_000_000);
    assert!(now < u64::MAX / 2);
}
