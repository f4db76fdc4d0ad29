use argos::h264::{
    access_unit_to_annexb, nalu_type, timestamp_interval, AnnexBIter, Depacketizer, Header, Packet,
    Packetizer,
};
use bytes::Bytes;

fn single(payload: &[u8], marker: bool) -> Packet {
    Packet {
        header: Header {
            version: 2,
            padding: false,
            extension: false,
            marker,
            payload_type: 96,
            sequence_number: 0,
            timestamp: 0,
            ssrc: 1,
        },
        payload: Bytes::copy_from_slice(payload),
    }
}

#[test]
fn type_is_in_the_low_bits() {
    assert_eq!(nalu_type(&[0x67, 1]), 7);
    assert_eq!(nalu_type(&[0x65]), 5);
    assert_eq!(nalu_type(&[]), 0);
}

#[test]
fn units_lie_between_start_codes() {
    let data = [0, 0, 1, 0x67, 7, 0, 0, 1, 0x68, 8, 9, 0, 0, 1, 0x65, 1, 2, 3, 4];
    let units = AnnexBIter::new(&data).collect();
    assert_eq!(units, vec![&[0x67u8, 7][..], &[0x68, 8, 9][..], &[0x65, 1, 2][..]]);
}

#[test]
fn long_start_codes_leave_a_zero_behind() {
    let data = [0, 0, 0, 1, 0x67, 7, 0, 0, 0, 1, 0x65, 5, 5, 5];
    let mut iter = AnnexBIter::new(&data);
    assert_eq!(iter.next(), Some(&[0x67u8, 7, 0][..]));
    assert_eq!(iter.next(), Some(&[0x65u8, 5][..]));
    assert_eq!(iter.next(), None);
    assert_eq!(iter.next(), None);
}

#[test]
fn data_without_units_gives_none() {
    assert!(AnnexBIter::new(&[]).collect().is_empty());
    assert!(AnnexBIter::new(&[1, 2, 3, 4, 5]).collect().is_empty());
    assert!(AnnexBIter::new(&[0, 0, 1]).collect().is_empty());
    assert!(AnnexBIter::new(&[0, 0, 1, 0, 0, 1]).collect().is_empty());
}

#[test]
fn empty_units_are_passed_over() {
    let data = [0, 0, 1, 0, 0, 0, 1, 0x65, 1, 2, 3];
    assert_eq!(AnnexBIter::new(&data).collect(), vec![&[0x65u8, 1][..]]);
}

#[test]
fn small_unit_is_one_packet() {
    let mut packetizer = Packetizer::new(7, 96, 1200);
    packetizer.sequence_number = u16::MAX;
    let packets = packetizer.packetize(&[0x65, 1, 2], 3000, true);
    assert_eq!(packets.len(), 1);
    assert_eq!(&packets[0].payload[..], &[0x65, 1, 2]);
    assert_eq!(
        packets[0].header,
        Header {
            version: 2,
            padding: false,
            extension: false,
            marker: true,
            payload_type: 96,
            sequence_number: u16::MAX,
            timestamp: 3000,
            ssrc: 7,
        }
    );
    assert_eq!(packetizer.sequence_number, 0);
}

#[test]
fn empty_unit_is_an_empty_packet() {
    let mut packetizer = Packetizer::new(7, 96, 0);
    let packets = packetizer.packetize(&[], 0, false);
    assert_eq!(packets.len(), 1);
    assert!(packets[0].payload.is_empty());
}

#[test]
fn large_unit_is_cut_into_fragments() {
    let mut packetizer = Packetizer::new(7, 96, 5);
    let packets = packetizer.packetize(&[0x65, 1, 2, 3, 4, 5, 6, 7], 90, true);
    let payloads: Vec<&[u8]> = packets.iter().map(|packet| &packet.payload[..]).collect();
    assert_eq!(
        payloads,
        vec![
            &[0x7c, 0x85, 1, 2, 3][..],
            &[0x7c, 0x05, 4, 5, 6][..],
            &[0x7c, 0x45, 7][..]
        ]
    );
    let numbers: Vec<u16> = packets.iter().map(|packet| packet.header.sequence_number).collect();
    assert_eq!(numbers, vec![0, 1, 2]);
    let markers: Vec<bool> = packets.iter().map(|packet| packet.header.marker).collect();
    assert_eq!(markers, vec![false, false, true]);
    assert!(packets.iter().all(|packet| packet.payload.len() <= 5));
}

#[test]
fn frame_comes_back_from_its_packets() {
    let units: Vec<Vec<u8>> = vec![vec![0x67, 1, 2], vec![0x68, 3], (0..5000u32).map(|i| if i == 0 { 0x65 } else { i as u8 }).collect()];
    let mut packetizer = Packetizer::new(7, 96, 1200);
    let mut depacketizer = Depacketizer::new();
    let mut frames = Vec::new();
    for (index, unit) in units.iter().enumerate() {
        for packet in packetizer.packetize(unit, 0, index + 1 == units.len()) {
            if let Some(frame) = depacketizer.push(&packet) {
                frames.push(frame);
            }
        }
    }
    assert_eq!(frames, vec![units]);
}

#[test]
fn nothing_comes_before_a_keyframe() {
    let mut depacketizer = Depacketizer::new();
    assert_eq!(depacketizer.push(&single(&[0x61, 1], true)), None);
    assert_eq!(depacketizer.push(&single(&[0x65, 1], true)), Some(vec![vec![0x65, 1]]));
    assert_eq!(depacketizer.push(&single(&[0x61, 2], true)), Some(vec![vec![0x61, 2]]));
    depacketizer.reset();
    assert_eq!(depacketizer.push(&single(&[0x61, 3], true)), None);
}

#[test]
fn stray_fragments_are_dropped() {
    let mut depacketizer = Depacketizer::new();
    assert_eq!(depacketizer.push(&single(&[0x7c, 0x45, 1], false)), None);
    assert_eq!(depacketizer.push(&single(&[0x7c], false)), None);
    assert_eq!(depacketizer.push(&single(&[], true)), None);
    assert_eq!(depacketizer.push(&single(&[0x65, 9], true)), Some(vec![vec![0x65, 9]]));
}

#[test]
fn frame_as_a_byte_stream() {
    let stream = access_unit_to_annexb(&vec![vec![0x67, 1], vec![0x65]]);
    assert_eq!(stream, vec![0, 0, 0, 1, 0x67, 1, 0, 0, 0, 1, 0x65]);
    assert!(access_unit_to_annexb(&vec![]).is_empty());
}

#[test]
fn walk_over_a_frame_finds_its_units() {
    let units = vec![vec![0x67, 1, 2], vec![0x68, 3], vec![0x65, 4, 5, 6]];
    let stream = access_unit_to_annexb(&units);
    assert_eq!(
        AnnexBIter::new(&stream).collect(),
        vec![&[0x67u8, 1, 2, 0][..], &[0x68, 3, 0][..], &[0x65, 4][..]]
    );
    let stream = access_unit_to_annexb(&vec![vec![0x67, 1], vec![0x65, 4]]);
    assert_eq!(AnnexBIter::new(&stream).collect(), vec![&[0x67u8, 1, 0][..]]);
}

#[test]
fn timestamps_count_ninety_thousand_a_second() {
    assert_eq!(timestamp_interval(30), 3000);
    assert_eq!(timestamp_interval(60), 1500);
    assert_eq!(timestamp_interval(7), 12857);
}
