use argos::encode::H264Encoder;
use argos::share::{EncodeMsg, EncodeStats, EncodeWorker, ShareSession};

const SECOND: u64 = 1_000_000_000;

fn worker() -> EncodeWorker {
    EncodeWorker::new(H264Encoder::new().unwrap(), 30, SECOND)
}

fn frame() -> EncodeMsg {
    EncodeMsg::Frame { rgba: vec![90; 64 * 48 * 4], width: 64, height: 48 }
}

fn session() -> ShareSession {
    ShareSession {
        offer_code: None,
        answer_input: String::new(),
        error: None,
        last_encode: 0,
        audio_on: true,
        audio_error: None,
        audio_timestamp: u32::MAX - 959,
        audio_frames_sent: 0,
        lan_peer: None,
    }
}

#[test]
fn frames_get_their_times() {
    let mut worker = worker();
    assert!(worker.accepts(&frame()));
    let (first, at) = worker.handle(frame(), SECOND).unwrap();
    assert!(!first.is_empty());
    assert_eq!(at, 0);
    assert_eq!(worker.handle(frame(), SECOND).unwrap().1, 3000);
    assert_eq!(worker.handle(frame(), SECOND).unwrap().1, 6000);
}

#[test]
fn keyframe_comes_every_two_seconds() {
    let mut worker = worker();
    worker.handle(frame(), SECOND).unwrap();
    let (delta, _) = worker.handle(frame(), 2 * SECOND).unwrap();
    assert_eq!(delta[4] & 0x1f, 1);
    let (key, _) = worker.handle(frame(), 3 * SECOND).unwrap();
    assert_eq!(key[4] & 0x1f, 7);
    let (delta, _) = worker.handle(frame(), 4 * SECOND).unwrap();
    assert_eq!(delta[4] & 0x1f, 1);
}

#[test]
fn bad_frames_are_counted_and_keep_the_time() {
    let mut worker = worker();
    let odd = EncodeMsg::Frame { rgba: vec![0; 12], width: 3, height: 1 };
    assert!(worker.accepts(&odd));
    assert!(worker.handle(odd, SECOND).is_none());
    let short = EncodeMsg::Frame { rgba: vec![0; 3], width: 2, height: 2 };
    assert!(worker.handle(short, SECOND).is_none());
    assert_eq!(worker.stats().encode_errors, 2);
    assert_eq!(worker.stats().error, Some("frame dimensions must be even".to_string()));
    assert_eq!(worker.take_error(), Some("frame dimensions must be even".to_string()));
    assert_eq!(worker.take_error(), None);
    assert_eq!(worker.handle(frame(), SECOND).unwrap().1, 0);
}

#[test]
fn bitstreams_get_their_times_and_errors_are_noted_once() {
    let mut worker = worker();
    assert_eq!(worker.encoded(Ok(vec![1, 2, 3])), Some((vec![1, 2, 3], 0)));
    assert_eq!(worker.encoded(Err("first".to_string())), None);
    assert_eq!(worker.encoded(Err("second".to_string())), None);
    assert_eq!(worker.encoded(Ok(vec![4])), Some((vec![4], 3000)));
    assert_eq!((worker.stats().frames_sent, worker.stats().encode_errors), (0, 2));
    assert_eq!(worker.take_error(), Some("first".to_string()));
}

#[test]
fn quality_changes_the_size_of_the_stream() {
    let mut worker = worker();
    worker.handle(frame(), SECOND).unwrap();
    assert!(worker.handle(EncodeMsg::Quality { target_height: Some(24) }, SECOND).is_none());
    let (bitstream, _) = worker.handle(frame(), SECOND).unwrap();
    let mut decoder = argos::decode::H264Decoder::new().unwrap();
    let picture = decoder.decode(&bitstream).unwrap().unwrap();
    assert_eq!((picture.width, picture.height), (32, 24));
}

#[test]
fn sent_frames_are_counted() {
    let mut worker = worker();
    worker.sent(Ok(()));
    worker.sent(Err("gone".to_string()));
    worker.sent(Err("still gone".to_string()));
    assert_eq!(worker.stats().frames_sent, 1);
    assert_eq!(worker.stats().error, Some("gone".to_string()));
    let empty = EncodeStats::default();
    assert_eq!((empty.frames_sent, empty.encode_errors), (0, 0));
}

#[test]
fn answer_code_is_asked_for() {
    let mut share = session();
    share.answer_input = "  \n".to_string();
    assert_eq!(share.answer_code(), None);
    assert_eq!(share.error, Some("paste the viewer's answer code first".to_string()));
    share.answer_input = " abc ".to_string();
    assert_eq!(share.answer_code(), Some("abc".to_string()));
    share.answered(Ok(()));
    assert_eq!(share.error, None);
    share.answered(Err("bad".to_string()));
    assert_eq!(share.error, Some("bad".to_string()));
}

#[test]
fn sound_gets_its_times() {
    let mut share = session();
    assert_eq!(share.sound_encoded(Ok(vec![1])), Some((vec![1], u32::MAX - 959)));
    assert!(share.sound_sent(Ok(())));
    assert_eq!(share.sound_encoded(Ok(vec![2])), Some((vec![2], 0)));
    assert!(!share.sound_sent(Err("gone".to_string())));
    assert_eq!(share.audio_frames_sent, 1);
    assert_eq!(share.audio_error, Some("gone".to_string()));
    assert_eq!(share.sound_encoded(Err("bad".to_string())), None);
    assert_eq!(share.audio_error, Some("bad".to_string()));
    assert_eq!(share.audio_timestamp, 960);
}

#[test]
fn frames_are_due_at_their_interval() {
    let mut share = session();
    share.last_encode = SECOND;
    assert!(!share.is_due(false, 10, 2 * SECOND));
    assert!(!share.is_due(true, 10, SECOND + 9));
    assert!(share.is_due(true, 10, SECOND + 10));
}
