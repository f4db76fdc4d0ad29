use argos::decode::H264Decoder;
use argos::encode::{encoder_settings, Effort, H264Encoder, Usage};

fn picture(width: usize, height: usize) -> Vec<u8> {
    let mut rgba = vec![255u8; width * height * 4];
    for y in 0..height {
        for x in 0..width {
            let at = (y * width + x) * 4;
            rgba[at] = (x * 255 / width) as u8;
            rgba[at + 1] = (y * 255 / height) as u8;
            rgba[at + 2] = 128;
        }
    }
    rgba
}

#[test]
fn settings_follow_the_frame_rate() {
    let slow = encoder_settings(44);
    assert_eq!((slow.max_frame_rate, slow.bitrate_bps), (30, 4_000_000));
    let fast = encoder_settings(45);
    assert_eq!((fast.max_frame_rate, fast.bitrate_bps), (60, 6_000_000));
    assert_eq!(fast.usage, Usage::Camera);
    assert_eq!(fast.effort, Effort::Low);
    assert!(!fast.skip_frames && !fast.scene_change_detect && !fast.adaptive_quantization);
}

#[test]
fn stream_keeps_the_shape_of_the_source() {
    assert_eq!(H264Encoder::target_dims(1920, 1080, Some(720)), (1280, 720));
    assert_eq!(H264Encoder::target_dims(1920, 1080, Some(361)), (640, 360));
    assert_eq!(H264Encoder::target_dims(1920, 1080, Some(1080)), (1920, 1080));
    assert_eq!(H264Encoder::target_dims(1920, 1080, Some(1)), (1920, 1080));
    assert_eq!(H264Encoder::target_dims(1920, 1080, None), (1920, 1080));
    assert_eq!(H264Encoder::target_dims(2, 1000, Some(100)), (2, 100));
}

#[test]
fn stream_sizes_are_even_and_no_larger() {
    for target in [2, 3, 99, 360, 540, 720] {
        let (width, height) = H264Encoder::target_dims(1366, 768, Some(target));
        assert_eq!((width % 2, height % 2), (0, 0));
        assert!(2 <= width && width <= 1366);
        assert!(height <= target as usize);
    }
}

#[test]
fn encoder_that_cannot_be_made_tells_why() {
    let outcome = H264Encoder::opened(Err("no library".to_string()));
    assert_eq!(outcome.err(), Some("no library".to_string()));
    let native = openh264::encoder::Encoder::new().unwrap();
    let mut encoder = H264Encoder::opened(Ok(native)).ok().unwrap();
    assert_eq!(encoder.prepare(&picture(64, 48), 64, 48), Ok((64, 48)));
}

#[test]
fn odd_frames_are_refused() {
    let mut encoder = H264Encoder::new().unwrap();
    assert_eq!(
        encoder.encode(&[0; 12], 3, 1),
        Err("frame dimensions must be even".to_string())
    );
    assert_eq!(
        encoder.prepare(&[0; 24], 2, 3),
        Err("frame dimensions must be even".to_string())
    );
}

#[test]
fn frames_of_the_wrong_length_are_refused() {
    let mut encoder = H264Encoder::new_at(60).unwrap();
    assert_eq!(
        encoder.encode(&[0; 15], 2, 2),
        Err("rgba buffer length 15 does not match 2x2".to_string())
    );
}

#[test]
fn prepared_frames_have_the_size_of_the_stream() {
    let mut encoder = H264Encoder::new().unwrap();
    let rgba = picture(64, 48);
    assert_eq!(encoder.prepare(&rgba, 64, 48), Ok((64, 48)));
    encoder.set_target_height(Some(24));
    assert!(encoder.can_scale(&rgba, 64, 48));
    assert_eq!(encoder.prepare(&rgba, 64, 48), Ok((32, 24)));
}

#[test]
fn encoded_frames_can_be_decoded() {
    let mut encoder = H264Encoder::new().unwrap();
    let mut decoder = H264Decoder::new().unwrap();
    let rgba = picture(64, 48);
    let bitstream = encoder.encode(&rgba, 64, 48).unwrap();
    assert!(bitstream.starts_with(&[0, 0, 0, 1]));
    let frame = decoder.decode(&bitstream).unwrap().unwrap();
    assert_eq!((frame.width, frame.height), (64, 48));
    assert_eq!(frame.rgba.len(), 64 * 48 * 4);
    let at = (24 * 64 + 32) * 4;
    for c in 0..3 {
        assert!((frame.rgba[at + c] as i32 - rgba[at + c] as i32).abs() < 24);
    }
}

#[test]
fn forced_keyframes_stand_on_their_own() {
    let mut encoder = H264Encoder::new().unwrap();
    let rgba = picture(64, 48);
    encoder.encode(&rgba, 64, 48).unwrap();
    let second = encoder.encode(&rgba, 64, 48).unwrap();
    assert_eq!(second[4] & 0x1f, 1);
    encoder.force_keyframe();
    let third = encoder.encode(&rgba, 64, 48).unwrap();
    let mut decoder = H264Decoder::new().unwrap();
    assert!(decoder.decode(&third).unwrap().is_some());
}

#[test]
fn pictures_beyond_the_limit_are_refused() {
    let mut encoder = H264Encoder::new().unwrap();
    assert!(encoder.encode(&vec![0; 3842 * 2 * 4], 3842, 2).is_err());
    assert!(encoder.encode(&vec![0; 2162 * 2162 * 4], 2162, 2162).is_err());
}
