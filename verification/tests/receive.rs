use argos::h264::{Header, Packet};
use argos::receive::{Received, Receiver, ViewStats};
use argos::session::{Sharer, AUDIO_PT, VIDEO_PT};
use bytes::Bytes;

fn header(payload_type: u8, sequence_number: u16) -> Header {
    Header {
        version: 2,
        padding: false,
        extension: false,
        marker: true,
        payload_type,
        sequence_number,
        timestamp: 0,
        ssrc: 1,
    }
}

#[test]
fn gaps_count_as_lost() {
    let mut stats = ViewStats::default();
    stats.count(&header(VIDEO_PT, 65534), 100);
    assert_eq!((stats.base_seq, stats.highest_seq, stats.lost), (Some(65534), Some(65534), 0));
    stats.count(&header(VIDEO_PT, 65535), 100);
    assert_eq!(stats.lost, 0);
    stats.count(&header(VIDEO_PT, 2), 100);
    assert_eq!((stats.highest_seq, stats.lost), (Some(2), 2));
    assert_eq!((stats.packets, stats.bytes), (3, 300));
}

#[test]
fn what_came_and_what_was_lost_make_up_what_was_sent() {
    let mut stats = ViewStats::default();
    stats.count(&header(VIDEO_PT, 65000), 1);
    for number in [65001, 65010, 65535, 4, 5, 30000] {
        stats.count(&header(VIDEO_PT, number), 1);
    }
    let sent: u64 = 30000 + 65536 - 65000;
    assert_eq!(stats.lost + 6, sent);
}

#[test]
fn frames_that_arrive_whole_lose_nothing() {
    let mut sharer = Sharer::new();
    let mut stats = ViewStats::default();
    let frame: Vec<u8> = [0, 0, 1, 0x65].into_iter().chain(std::iter::repeat(9).take(200_000)).collect();
    let mut count = 0;
    for i in 0..500u32 {
        for packet in sharer.send_frame(&frame, i) {
            stats.count(&packet.header, packet.payload.len());
            count += 1;
        }
    }
    assert!(count > 65536);
    assert_eq!((stats.packets, stats.lost), (count, 0));
}

#[test]
fn late_packets_change_no_loss() {
    let mut stats = ViewStats::default();
    stats.count(&header(VIDEO_PT, 10), 1);
    stats.count(&header(VIDEO_PT, 13), 1);
    stats.count(&header(VIDEO_PT, 11), 1);
    stats.count(&header(VIDEO_PT, 13), 1);
    assert_eq!((stats.highest_seq, stats.lost), (Some(13), 2));
    stats.count(&header(VIDEO_PT, 13u16.wrapping_add(0x8000)), 1);
    assert_eq!((stats.highest_seq, stats.lost), (Some(13), 2));
    stats.count(&header(VIDEO_PT, 13u16.wrapping_add(0x7fff)), 1);
    assert_eq!(stats.lost, 2 + 0x7ffe);
}

#[test]
fn sound_counts_apart() {
    let mut stats = ViewStats::default();
    stats.count(&header(AUDIO_PT, 500), 100);
    assert_eq!((stats.packets, stats.audio_packets, stats.bytes), (1, 1, 0));
    assert_eq!(stats.highest_seq, None);
    stats.sound_decoded(Ok(()));
    stats.sound_decoded(Err("bad".to_string()));
    stats.sound_decoded(Err("worse".to_string()));
    assert_eq!((stats.audio_decoded, stats.audio_errors), (1, 2));
    assert_eq!(stats.audio_error, Some("bad".to_string()));
}

#[test]
fn counts_have_room() {
    let mut stats = ViewStats::default();
    assert!(stats.can_count(1200));
    stats.bytes = u64::MAX - 10;
    assert!(stats.can_count(10));
    assert!(!stats.can_count(11));
}

#[test]
fn encoded_frames_reach_the_decoder() {
    let mut encoder = argos::encode::H264Encoder::new().unwrap();
    let mut sharer = Sharer::new();
    let mut receiver = Receiver::new();
    let rgba = vec![128u8; 64 * 48 * 4];
    for i in 0..3 {
        encoder.force_keyframe();
        let bitstream = encoder.encode(&rgba, 64, 48).unwrap();
        for packet in sharer.send_frame(&bitstream, i * 3000) {
            assert!(receiver.stats().can_count(packet.payload.len()));
            assert!(matches!(receiver.receive(&packet), Received::Picture));
        }
    }
    let stats = receiver.stats();
    assert_eq!(stats.aus, 3);
    assert_eq!(stats.decoded + stats.decode_none + stats.decode_errors, 3);
    assert_eq!(stats.lost, 0);
}

#[test]
fn receiver_decodes_only_with_a_decoder() {
    let packet = Packet {
        header: header(VIDEO_PT, 0),
        payload: Bytes::copy_from_slice(&[0x65, 1, 2, 3]),
    };
    let mut without = Receiver::with_decoder(Err("no library".to_string()));
    without.receive(&packet);
    let stats = without.stats();
    assert_eq!((stats.aus, stats.decoded, stats.decode_none, stats.decode_errors), (1, 0, 0, 0));
    let mut with = Receiver::with_decoder(argos::decode::H264Decoder::new());
    with.receive(&packet);
    let stats = with.stats();
    assert_eq!(stats.aus, 1);
    assert_eq!(stats.decoded + stats.decode_none + stats.decode_errors, 1);
}

#[test]
fn sound_is_left_to_the_caller() {
    let mut receiver = Receiver::new();
    let packet = Packet { header: header(AUDIO_PT, 0), payload: Bytes::copy_from_slice(&[1]) };
    assert!(matches!(receiver.receive(&packet), Received::Sound));
    receiver.sound_decoded(Ok(()));
    assert_eq!((receiver.stats().audio_packets, receiver.stats().audio_decoded), (1, 1));
    assert!(receiver.take_latest().is_none());
}

#[test]
fn answers_of_the_decoder_are_counted() {
    let mut receiver = Receiver::new();
    let frame = |width, height| argos::decode::DecodedFrame {
        rgba: vec![0; 4],
        width,
        height,
    };
    receiver.decoded(Ok(Some(frame(64, 48))));
    receiver.decoded(Ok(Some(frame(32, 24))));
    receiver.decoded(Ok(None));
    receiver.decoded(Err("first".to_string()));
    receiver.decoded(Err("second".to_string()));
    let stats = receiver.stats();
    assert_eq!((stats.decoded, stats.decode_none, stats.decode_errors), (2, 1, 2));
    assert_eq!((stats.first_width, stats.first_height), (64, 48));
    assert_eq!(stats.first_error, Some("first".to_string()));
    let latest = receiver.take_latest().unwrap();
    assert_eq!((latest.width, latest.height), (32, 24));
    assert!(receiver.take_latest().is_none());
}

#[test]
fn errors_drop_everything_until_a_keyframe() {
    let mut receiver = Receiver::new();
    let packet = |unit: &[u8], number| Packet {
        header: header(VIDEO_PT, number),
        payload: Bytes::copy_from_slice(unit),
    };
    assert_eq!(receiver.assemble(&packet(&[0x65, 1], 0)), Some(vec![0, 0, 0, 1, 0x65, 1]));
    assert_eq!(receiver.assemble(&packet(&[0x61, 1], 1)), Some(vec![0, 0, 0, 1, 0x61, 1]));
    receiver.decoded(Err("lost".to_string()));
    assert_eq!(receiver.assemble(&packet(&[0x61, 2], 2)), None);
    assert_eq!(receiver.assemble(&packet(&[0x65, 2], 3)), Some(vec![0, 0, 0, 1, 0x65, 2]));
    assert_eq!(receiver.stats().aus, 3);
}
