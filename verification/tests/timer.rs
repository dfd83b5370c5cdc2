use raft_core::timer::poll_reports;
use raft_core::HeartbeatTimer;
use std::time::{Duration, Instant};

fn wait(millis: u64) {
    let start = Instant::now();
    while start.elapsed() < Duration::from_millis(millis) {
        std::hint::spin_loop();
    }
}

#[test]
fn timer_is_armed_within_its_range() {
    for _ in 0..50 {
        let timer = HeartbeatTimer::new(150, 300);
        let millis = timer.armed_millis();
        assert!((150..=300).contains(&millis));
    }
}

#[test]
fn inverted_range_gives_the_lower_bound() {
    let timer = HeartbeatTimer::new(30, 10);
    assert_eq!(timer.armed_millis(), 30);
}

#[test]
fn durations_are_drawn_afresh() {
    let mut timer = HeartbeatTimer::new(0, 1_000_000);
    let first = timer.armed_millis();
    let mut changed = false;
    for _ in 0..50 {
        timer.renew();
        let millis = timer.armed_millis();
        assert!(millis <= 1_000_000);
        if millis != first {
            changed = true;
        }
    }
    assert!(changed);
}

#[test]
fn timer_reports_its_signal_until_it_is_renewed() {
    let mut timer = HeartbeatTimer::new(200, 250);
    assert!(!timer.fired());
    wait(400);
    assert!(timer.fired());
    assert!(timer.fired());
    wait(50);
    assert!(timer.fired());
    timer.renew();
    assert!(!timer.fired());
}

#[test]
fn renew_discards_a_pending_signal() {
    let mut timer = HeartbeatTimer::new(200, 250);
    wait(400);
    timer.renew();
    assert!(!timer.fired());
    wait(400);
    assert!(timer.fired());
}

#[test]
fn renew_rearms_a_timer_that_has_fired() {
    let mut timer = HeartbeatTimer::new(100, 120);
    wait(250);
    assert!(timer.fired());
    timer.renew();
    assert!(!timer.fired());
    wait(250);
    assert!(timer.fired());
    assert!(timer.fired());
}

#[test]
fn signal_has_occurred_if_reported_before_or_found_now() {
    assert!(poll_reports(false, true));
    assert!(!poll_reports(false, false));
    assert!(poll_reports(true, true));
    assert!(poll_reports(true, false));
}

#[test]
fn timer_is_armed_with_the_duration_given() {
    let timer = HeartbeatTimer::new_with(100, 300, 250);
    assert_eq!(timer.armed_millis(), 250);
    let timer = HeartbeatTimer::new_with(30, 10, 30);
    assert_eq!(timer.armed_millis(), 30);
}

#[test]
fn timer_waits_for_the_duration_given() {
    let mut long = HeartbeatTimer::new_with(0, 60_000, 60_000);
    let mut short = HeartbeatTimer::new_with(0, 60_000, 100);
    assert!(!long.fired());
    assert!(!short.fired());
    wait(300);
    assert!(!long.fired());
    assert!(short.fired());
}

#[test]
fn renewed_timer_waits_for_the_duration_given() {
    let mut timer = HeartbeatTimer::new_with(0, 60_000, 60_000);
    timer.renew_with(100);
    assert_eq!(timer.armed_millis(), 100);
    assert!(!timer.fired());
    wait(300);
    assert!(timer.fired());
    timer.renew_with(60_000);
    assert_eq!(timer.armed_millis(), 60_000);
    wait(300);
    assert!(!timer.fired());
}

#[test]
fn timer_can_be_renewed_without_limit() {
    let mut timer = HeartbeatTimer::new(50, 60);
    for round in 0..20 {
        timer.renew();
        assert!(!timer.fired());
        if round % 5 == 0 {
            wait(150);
            assert!(timer.fired());
        }
    }
    timer.renew();
    wait(150);
    assert!(timer.fired());
    assert!(timer.fired());
}
