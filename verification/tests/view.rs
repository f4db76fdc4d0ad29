use argos::receive::ViewStats;
use argos::view::{Picture, Quality, Reconnect, Sample, ViewSession};

const SECOND: u64 = 1_000_000_000;

fn session() -> ViewSession {
    ViewSession {
        answer_code: None,
        error: None,
        texture: None,
        audio_on: true,
        audio_error: None,
        quality: Quality::new(0),
        was_connected: true,
        reconnect: None,
        lan_peer: Some("a".to_string()),
        peer_id: Some("a".to_string()),
    }
}

#[test]
fn quality_is_measured_twice_a_second() {
    let mut quality = Quality::new(SECOND);
    let mut stats = ViewStats::default();
    stats.packets = 50;
    stats.audio_packets = 20;
    stats.decoded = 15;
    stats.bytes = 4000;
    stats.lost = 3;
    assert_eq!(quality.measure(&stats, SECOND + 499_999_983), None);
    assert_eq!(
        quality.measure(&stats, SECOND + 500_000_000),
        Some(Sample { elapsed: 500_000_000, frames: 15, bytes: 4000, lost: 3, received: 30 })
    );
    stats.packets = 60;
    stats.decoded = 14;
    assert_eq!(
        quality.measure(&stats, 3 * SECOND),
        Some(Sample { elapsed: 1_500_000_000, frames: 0, bytes: 0, lost: 0, received: 10 })
    );
}

#[test]
fn half_a_second_is_that_of_single_precision() {
    let stats = ViewStats::default();
    for nanos in 499_999_900..500_000_100 {
        let mut quality = Quality::new(SECOND);
        let seconds = std::time::Duration::from_nanos(nanos).as_secs_f32();
        assert_eq!(quality.measure(&stats, SECOND + nanos).is_some(), seconds >= 0.5);
    }
}

#[test]
fn lost_connection_is_asked_for_five_times() {
    let mut view = session();
    assert!(!view.recover(false, 10 * SECOND));
    assert_eq!(view.reconnect, Some(Reconnect { attempts: 0, last_request: 10 * SECOND }));
    assert!(!view.recover(false, 13 * SECOND - 1));
    for attempt in 1..=5 {
        assert!(view.recover(false, (10 + 3 * attempt) * SECOND));
    }
    assert_eq!(view.error, None);
    assert!(!view.recover(false, 28 * SECOND));
    assert_eq!(
        view.error,
        Some("Connection lost — reconnect attempts exhausted".to_string())
    );
    view.note_connection(true);
    assert_eq!(view.reconnect, None);
}

#[test]
fn connection_by_code_is_not_asked_for() {
    let mut view = session();
    view.lan_peer = None;
    assert!(!view.recover(false, 100 * SECOND));
    assert_eq!(view.reconnect, None);
    let mut view = session();
    view.was_connected = false;
    assert!(!view.recover(false, 100 * SECOND));
    assert_eq!(view.reconnect, None);
    let mut view = session();
    assert!(!view.recover(true, 100 * SECOND));
    assert_eq!(view.reconnect, None);
}

#[test]
fn pictures_keep_their_size_or_not() {
    let mut view = session();
    let small = Picture { width: 32, height: 24 };
    let large = Picture { width: 64, height: 48 };
    assert!(!view.show(small));
    assert!(view.show(small));
    assert!(!view.show(large));
    assert_eq!(view.texture, Some(large));
}
