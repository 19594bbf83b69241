//! Scheduler and controller behaviour.

use web_audio_api::control::Controller;
use web_audio_api::control::Scheduler;
use web_audio_api::control::Timestamp;

#[test]
fn test_controller() {
    let mut controller = Controller::new();

    assert!(!controller.loop_());
    assert!(controller.loop_start() == Timestamp::zero());
    assert!(controller.loop_end() == Timestamp::never());
    assert!(controller.should_seek().is_none());

    controller.seek(Timestamp::from_seconds(1));
    assert_eq!(controller.should_seek(), Some(Timestamp::from_seconds(1)));
    assert!(controller.should_seek().is_none());
}

#[test]
fn test_scheduler_active_window() {
    let mut s = Scheduler::new();
    // inactive before any scheduling
    assert!(!s.is_active(Timestamp::zero()));
    assert!(!s.is_active(Timestamp::from_seconds(5)));

    s.start_at(Timestamp::from_seconds(1));
    s.stop_at(Timestamp::from_seconds(3));
    // start is inclusive, stop exclusive
    assert!(!s.is_active(Timestamp::from_nanos(999_999_999)));
    assert!(s.is_active(Timestamp::from_seconds(1)));
    assert!(s.is_active(Timestamp::from_seconds(2)));
    assert!(!s.is_active(Timestamp::from_seconds(3)));
    assert!(!s.is_active(Timestamp::from_seconds(4)));
}

#[test]
fn test_controller_loop_region() {
    let mut c = Controller::new();
    c.set_loop(true);
    c.set_loop_start(Timestamp::from_seconds(2));
    c.set_loop_end(Timestamp::from_seconds(4));
    assert!(c.loop_());
    assert_eq!(c.loop_start(), Timestamp::from_seconds(2));
    assert_eq!(c.loop_end(), Timestamp::from_seconds(4));
    // a later seek replaces an unconsumed one
    c.seek(Timestamp::from_seconds(1));
    c.seek(Timestamp::from_seconds(2));
    assert_eq!(c.should_seek(), Some(Timestamp::from_seconds(2)));
    assert!(c.should_seek().is_none());
}

#[test]
fn test_controller_start_stop_via_scheduler() {
    let mut c = Controller::new();
    c.scheduler_mut().start_at(Timestamp::zero());
    c.scheduler_mut().stop_at(Timestamp::from_seconds(10));
    assert!(c.scheduler().is_active(Timestamp::zero()));
    assert!(c.scheduler().is_active(Timestamp::from_seconds(9)));
    assert!(!c.scheduler().is_active(Timestamp::from_seconds(10)));
}
