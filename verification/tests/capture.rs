use argos::capture::{
    failure_exhausted, find_monitor, interval_micros, nap, set_capture_error, Incoming, Outgoing,
    PaceStep, Pacer, Pump, PumpStep,
};

const MS: u64 = 1_000_000;
const SECOND: u64 = 1_000_000_000;

#[test]
fn intervals_are_at_least_a_microsecond() {
    assert_eq!(interval_micros(0), 1);
    assert_eq!(interval_micros(999), 1);
    assert_eq!(interval_micros(33 * MS), 33_000);
}

#[test]
fn failures_are_fatal_after_thirty_seconds() {
    let mut since = None;
    assert!(!failure_exhausted(&mut since, None, 100 * SECOND));
    assert_eq!(since, Some(100 * SECOND));
    assert!(!failure_exhausted(&mut since, None, 130 * SECOND - 1));
    assert!(failure_exhausted(&mut since, None, 130 * SECOND));
    assert_eq!(since, Some(100 * SECOND));
}

#[test]
fn health_starts_a_new_streak() {
    let mut since = Some(100 * SECOND);
    assert!(!failure_exhausted(&mut since, Some(140 * SECOND), 150 * SECOND));
    assert_eq!(since, Some(150 * SECOND));
    assert!(failure_exhausted(&mut since, Some(171 * SECOND), 180 * SECOND));
}

#[test]
fn pauses_double_up_to_two_seconds() {
    let mut pump = Pump::new();
    let mut pauses = Vec::new();
    for i in 0..5 {
        match pump.open_failed("no screen", (100 + i) * SECOND) {
            PumpStep::Retry(pause) => pauses.push(pause / MS),
            _ => panic!("gave up"),
        }
    }
    assert_eq!(pauses, vec![500, 1000, 2000, 2000, 2000]);
    pump.opened(110 * SECOND);
    assert_eq!(pump.backoff, 500 * MS);
    assert_eq!(pump.connected_at, Some(110 * SECOND));
}

#[test]
fn capture_gives_up_in_words() {
    let mut pump = Pump::new();
    pump.open_failed("no screen", 100 * SECOND);
    match pump.open_failed("monitor 'A' not found", 130 * SECOND) {
        PumpStep::GiveUp(message) => assert_eq!(message, "capture failed: monitor 'A' not found"),
        _ => panic!("went on"),
    }
    match pump.recorder_ended(true, false, 131 * SECOND) {
        PumpStep::GiveUp(message) => {
            assert_eq!(message, "capture stopped: the capture source did not recover");
        }
        _ => panic!("went on"),
    }
}

#[test]
fn recorder_that_died_is_opened_again() {
    let mut pump = Pump::new();
    pump.opened(100 * SECOND);
    assert!(matches!(pump.recorder_ended(false, false, 101 * SECOND), PumpStep::Finish));
    assert!(matches!(pump.recorder_ended(true, true, 101 * SECOND), PumpStep::Finish));
    assert!(matches!(
        pump.recorder_ended(true, false, 101 * SECOND),
        PumpStep::Retry(pause) if pause == 500 * MS
    ));
    assert_eq!(pump.connected_at, None);
    assert_eq!(pump.failed_since, Some(101 * SECOND));
    assert!(matches!(Pump::begin(true), PumpStep::Finish));
    assert!(matches!(Pump::begin(false), PumpStep::Open));
}

#[test]
fn screens_are_found_by_name() {
    let names = vec![None, Some("A".to_string()), Some("B".to_string()), Some("B".to_string())];
    assert_eq!(find_monitor(&names, "B"), Ok(2));
    assert_eq!(find_monitor(&names, "C"), Err("monitor 'C' not found".to_string()));
}

#[test]
fn pauses_are_taken_in_naps() {
    assert_eq!(nap(0, 500 * MS, false), Some(20 * MS));
    assert_eq!(nap(495 * MS, 500 * MS, false), Some(5 * MS));
    assert_eq!(nap(500 * MS, 500 * MS, false), None);
    assert_eq!(nap(0, 500 * MS, true), None);
}

#[test]
fn frames_are_paced() {
    let mut pacer = Pacer::new(100 * SECOND);
    assert_eq!(
        pacer.turn(false, true, 33_000, 100 * SECOND),
        PaceStep::Take { sleep: 0, target: 33 * MS }
    );
    pacer.taken(100 * SECOND);
    assert_eq!(
        pacer.turn(false, true, 33_000, 100 * SECOND + 10 * MS),
        PaceStep::Take { sleep: 23 * MS, target: 33 * MS }
    );
    assert_eq!(
        pacer.turn(false, true, 0, 101 * SECOND),
        PaceStep::Take { sleep: 0, target: 1000 }
    );
    assert_eq!(pacer.turn(false, false, 33_000, 0), PaceStep::Rest);
    assert_eq!(pacer.turn(true, true, 33_000, 0), PaceStep::Leave { died: false });
}

#[test]
fn pump_ends_where_either_side_is_gone() {
    let mut pacer = Pacer::new(100 * SECOND);
    assert_eq!(pacer.rested(Incoming::Frame, 101 * SECOND), None);
    assert_eq!(pacer.last, 101 * SECOND);
    assert_eq!(pacer.rested(Incoming::Nothing, 102 * SECOND), None);
    assert_eq!(pacer.rested(Incoming::Gone, 103 * SECOND), Some(PaceStep::Leave { died: true }));
    assert_eq!(Pacer::handed_on(Incoming::Frame, Outgoing::Sent), None);
    assert_eq!(Pacer::handed_on(Incoming::Frame, Outgoing::Full), None);
    assert_eq!(
        Pacer::handed_on(Incoming::Frame, Outgoing::Gone),
        Some(PaceStep::Leave { died: false })
    );
    assert_eq!(Pacer::handed_on(Incoming::Nothing, Outgoing::Gone), None);
    assert_eq!(
        Pacer::handed_on(Incoming::Gone, Outgoing::Sent),
        Some(PaceStep::Leave { died: true })
    );
}

#[test]
fn first_error_stays() {
    let mut slot = None;
    set_capture_error(&mut slot, "first".to_string());
    set_capture_error(&mut slot, "second".to_string());
    assert_eq!(slot, Some("first".to_string()));
}
