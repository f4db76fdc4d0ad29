use argos::decode::{decode_error_message, decode_state_flags, decoded, H264Decoder};

#[test]
fn maps_bitstream_error_with_no_param_sets() {
    // OpenH264 returned 20 on the reported receiver failure:
    // dsBitstreamError (4) | dsNoParamSets (16).
    assert_eq!(
        decode_state_flags(20),
        vec!["dsBitstreamError", "dsNoParamSets"]
    );
}

#[test]
fn maps_single_flags_and_ignores_unknown_bits() {
    assert_eq!(decode_state_flags(4), vec!["dsBitstreamError"]);
    assert_eq!(decode_state_flags(16), vec!["dsNoParamSets"]);
    assert_eq!(decode_state_flags(2), vec!["dsRefLost"]);
    assert_eq!(decode_state_flags(0x800), Vec::<&str>::new());
}

#[test]
fn every_state_has_its_name() {
    assert_eq!(decode_state_flags(1), vec!["dsFramePending"]);
    assert_eq!(decode_state_flags(32), vec!["dsDataErrorConcealed"]);
    assert_eq!(decode_state_flags(64), vec!["dsRefListNullPtrs"]);
    assert_eq!(decode_state_flags(4096), vec!["dsInvalidArgument"]);
    assert_eq!(decode_state_flags(16_384), vec!["dsOutOfMemory"]);
    assert_eq!(decode_state_flags(32_768), vec!["dsDstBufNeedExpan"]);
    assert_eq!(decode_state_flags(-1).len(), 9);
    assert_eq!(decode_state_flags(20 | 0x808), decode_state_flags(20));
}

#[test]
fn errors_are_put_in_words() {
    assert_eq!(
        decode_error_message(20),
        "OpenH264 decode failed: state 20 (dsBitstreamError | dsNoParamSets)"
    );
    assert_eq!(decode_error_message(2048), "OpenH264 decode failed: native error 2048");
    assert_eq!(decode_error_message(0), "OpenH264 decode failed: native error 0");
    assert_eq!(
        decode_error_message(-9_223_372_036_854_775_808),
        "OpenH264 decode failed: native error -9223372036854775808"
    );
    assert_eq!(
        decode_error_message(0x1_0000_0004),
        "OpenH264 decode failed: state 4294967300 (dsBitstreamError)"
    );
}

#[test]
fn outcomes_are_handed_on() {
    match decoded(Ok(Some((vec![1, 2, 3, 4], 1, 1)))) {
        Ok(Some(frame)) => {
            assert_eq!(frame.rgba, vec![1, 2, 3, 4]);
            assert_eq!((frame.width, frame.height), (1, 1));
        }
        _ => panic!("no picture"),
    }
    assert!(matches!(decoded(Ok(None)), Ok(None)));
    assert!(matches!(decoded(Err(4)), Err(message) if message.contains("dsBitstreamError")));
}

#[test]
fn decoder_that_cannot_be_made_tells_why() {
    let outcome = H264Decoder::opened(Err("no library".to_string()));
    assert_eq!(outcome.err(), Some("no library".to_string()));
    let native = openh264::decoder::Decoder::new().unwrap();
    assert!(H264Decoder::opened(Ok(native)).is_ok());
}

#[test]
fn garbage_is_refused_in_words() {
    let mut decoder = H264Decoder::new().unwrap();
    let outcome = decoder.decode(&[0, 0, 0, 1, 0x65, 1, 2, 3]);
    match outcome {
        Err(message) => assert!(message.starts_with("OpenH264 decode failed: ")),
        Ok(frame) => assert!(frame.is_none()),
    }
}
