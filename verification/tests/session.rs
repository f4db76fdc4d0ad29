use argos::h264::Depacketizer;
use argos::session::{
    h264_codec, local_code, opus_codec, wait_for_gathering, HandlerState, Sharer, Viewer, WaitStep,
    AUDIO_PT, AUDIO_SSRC, MTU, VIDEO_PT, VIDEO_SSRC,
};
use argos::signal::{decode, SdpType, SessionDescription};

const SECOND: u64 = 1_000_000_000;

fn stream() -> Vec<u8> {
    let mut data = vec![0, 0, 1, 0x67, 1, 2, 3, 0, 0, 1, 0x68, 4, 0, 0, 1, 0x65];
    data.extend((0..3000u32).map(|i| (i % 200 + 2) as u8));
    data
}

#[test]
fn frame_is_sent_in_numbered_packets() {
    let mut sharer = Sharer::new();
    let packets = sharer.send_frame(&stream(), 9000);
    assert_eq!(packets.len(), 5);
    for (i, packet) in packets.iter().enumerate() {
        assert_eq!(packet.header.sequence_number, i as u16);
        assert_eq!(packet.header.timestamp, 9000);
        assert_eq!(packet.header.ssrc, VIDEO_SSRC);
        assert_eq!(packet.header.payload_type, VIDEO_PT);
        assert_eq!(packet.header.marker, i == 4);
        assert!(packet.payload.len() <= MTU);
    }
    assert_eq!(&packets[0].payload[..], &[0x67, 1, 2, 3]);
    let next = sharer.send_frame(&stream(), 12000);
    assert_eq!(next[0].header.sequence_number, 5);
}

#[test]
fn frame_without_units_sends_nothing() {
    let mut sharer = Sharer::new();
    assert!(sharer.send_frame(&[], 0).is_empty());
    assert!(sharer.send_frame(&[1, 2, 3], 0).is_empty());
}

#[test]
fn sent_frame_reaches_the_viewer() {
    let mut sharer = Sharer::new();
    let mut depacketizer = Depacketizer::new();
    let data = stream();
    let mut frames = Vec::new();
    for packet in sharer.send_frame(&data, 0) {
        if let Some(frame) = depacketizer.push(&packet) {
            frames.push(frame);
        }
    }
    assert_eq!(frames.len(), 1);
    assert_eq!(frames[0][0], vec![0x67, 1, 2, 3]);
    assert_eq!(frames[0][1], vec![0x68, 4]);
    assert_eq!(frames[0][2][..], data[15..data.len() - 2]);
}

#[test]
fn sound_has_numbers_of_its_own() {
    let mut sharer = Sharer::new();
    sharer.send_frame(&stream(), 0);
    let packets = sharer.send_audio(&[1, 2, 3], 960);
    assert_eq!(packets.len(), 1);
    assert_eq!(packets[0].header.sequence_number, 0);
    assert_eq!(packets[0].header.ssrc, AUDIO_SSRC);
    assert_eq!(packets[0].header.payload_type, AUDIO_PT);
    assert!(packets[0].header.marker);
    assert_eq!(sharer.send_audio(&[4], 1920)[0].header.sequence_number, 1);
}

#[test]
fn state_is_told_in_words() {
    let mut state = HandlerState::default();
    assert_eq!(state.status(), "Gathering");
    state.on_ice_gathering_state_change(false);
    assert_eq!(state.status(), "Gathering");
    state.on_ice_gathering_state_change(true);
    assert_eq!(state.status(), "Waiting for peer");
    state.on_ice_gathering_state_change(false);
    assert_eq!(state.status(), "Waiting for peer");
    state.on_connection_state_change(true);
    state.on_connection_state_change(false);
    let mut sharer = Sharer::new();
    assert!(!sharer.is_connected());
    sharer.set_state(state);
    assert_eq!(sharer.status(), "Connected");
    assert!(sharer.is_connected());
    let mut viewer = Viewer::new();
    assert_eq!(viewer.status(), "Gathering");
    viewer.set_state(state);
    assert_eq!(viewer.status(), "Connected");
    assert!(viewer.is_connected());
}

#[test]
fn wait_ends_after_ten_seconds() {
    let mut state = HandlerState::default();
    assert!(matches!(wait_for_gathering(state, SECOND, 2 * SECOND), WaitStep::Sleep(25_000_000)));
    assert!(matches!(
        wait_for_gathering(state, SECOND, 11 * SECOND),
        WaitStep::Done(Err(message)) if message == "timed out waiting for ICE gathering"
    ));
    state.on_ice_gathering_state_change(true);
    assert!(matches!(wait_for_gathering(state, SECOND, 99 * SECOND), WaitStep::Done(Ok(()))));
}

#[test]
fn codes_carry_descriptions() {
    let description = SessionDescription { sdp_type: SdpType::Answer, sdp: "v=0".to_string() };
    let code = local_code(Some(description)).unwrap();
    assert_eq!(decode(&code).unwrap().sdp, "v=0");
    assert_eq!(Sharer::set_answer(&code).unwrap().sdp_type, SdpType::Answer);
    assert_eq!(Viewer::answer_offer(&code).unwrap().sdp, "v=0");
    assert_eq!(Sharer::create_offer(None), Err("no local description".to_string()));
    assert!(Sharer::set_answer("!").unwrap_err().starts_with("invalid answer code: Invalid"));
    assert!(Viewer::answer_offer("!").unwrap_err().starts_with("invalid offer code: Invalid"));
}

#[test]
fn codecs_are_described() {
    let video = h264_codec();
    assert_eq!((video.clock_rate, video.channels), (90_000, 0));
    assert!(video.sdp_fmtp_line.contains("packetization-mode=1"));
    let audio = opus_codec();
    assert_eq!((audio.clock_rate, audio.channels), (48_000, 2));
    assert_eq!(audio.sdp_fmtp_line, "minptime=10;useinbandfec=1");
}
