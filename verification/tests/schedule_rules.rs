use clubgg_table_arranger::schedule::{
    Schedule, DISCOVERY_DEBOUNCE_MS, FALLBACK_RECONCILE_MS, REFLOW_DEBOUNCE_MS,
};

#[test]
fn the_desktop_is_looked_at_every_ten_seconds() {
    let schedule = Schedule::new(1_000);
    assert_eq!(FALLBACK_RECONCILE_MS, 10_000);
    assert_eq!(schedule.wait_ms(1_000), 10_000);
    assert_eq!(schedule.wait_ms(4_000), 7_000);
    assert!(!schedule.discovery_due_now(10_999));
    assert!(schedule.discovery_due_now(11_000));
    assert_eq!(schedule.wait_ms(20_000), 0);
}

#[test]
fn a_burst_of_events_is_taken_in_once_it_settles() {
    let mut schedule = Schedule::new(0);
    schedule.event_arrived(100);
    schedule.event_arrived(250);
    assert_eq!(schedule.discovery_due, Some(250 + DISCOVERY_DEBOUNCE_MS));
    assert!(!schedule.discovery_due_now(300));
    assert!(!schedule.discovery_due_now(449));
    assert!(schedule.discovery_due_now(450));
    assert_eq!(schedule.wait_ms(400), 50);
    schedule.reconciled(450);
    assert_eq!(schedule.discovery_due, None);
    assert_eq!(schedule.last_reconcile, 450);
    assert!(!schedule.discovery_due_now(451));
}

#[test]
fn a_reflow_follows_half_a_second_after_the_first_change() {
    let mut schedule = Schedule::new(0);
    schedule.track_reflow(true, 1_000);
    schedule.track_reflow(true, 1_300);
    assert_eq!(schedule.dirty_since, Some(1_000));
    assert!(!schedule.reflow_due_now(1_499, true));
    assert!(schedule.reflow_due_now(1_000 + REFLOW_DEBOUNCE_MS, true));
    assert!(!schedule.reflow_due_now(5_000, false));
    assert_eq!(schedule.wait_ms(1_200), 300);
    schedule.track_reflow(false, 1_600);
    assert_eq!(schedule.dirty_since, None);
    assert!(!schedule.reflow_due_now(9_000, true));
}

#[test]
fn timers_saturate_at_the_end_of_the_clock() {
    let mut schedule = Schedule::new(u64::MAX - 5);
    assert!(!schedule.discovery_due_now(u64::MAX - 1));
    assert!(schedule.discovery_due_now(u64::MAX));
    schedule.event_arrived(u64::MAX - 10);
    assert_eq!(schedule.discovery_due, Some(u64::MAX));
}
