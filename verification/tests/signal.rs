use argos::signal::{decode, described, encode, SdpType, SessionDescription};

fn offer(sdp: &str) -> SessionDescription {
    SessionDescription { sdp_type: SdpType::Offer, sdp: sdp.to_string() }
}

#[test]
fn code_is_json_in_base64() {
    assert_eq!(encode(&offer("v=0")), "eyJ0eXBlIjoib2ZmZXIiLCJzZHAiOiJ2PTAifQ==");
    assert_eq!(encode(&offer("v=0\r")), "eyJ0eXBlIjoib2ZmZXIiLCJzZHAiOiJ2PTBcciJ9");
    assert_eq!(encode(&offer("v")), "eyJ0eXBlIjoib2ZmZXIiLCJzZHAiOiJ2In0=");
}

#[test]
fn decoding_gives_the_description_back() {
    let types = [
        SdpType::Unspecified,
        SdpType::Offer,
        SdpType::Pranswer,
        SdpType::Answer,
        SdpType::Rollback,
    ];
    for sdp_type in types {
        for sdp in ["", "v=0\r\no=- 1 2 IN IP4 0.0.0.0\r\n", "\"\\ é \u{1f600} \u{0}"] {
            let code = encode(&SessionDescription { sdp_type, sdp: sdp.to_string() });
            let back = decode(&code).unwrap();
            assert_eq!(back.sdp_type, sdp_type);
            assert_eq!(back.sdp, sdp);
        }
    }
}

#[test]
fn text_that_is_no_base64_is_refused() {
    assert_eq!(decode("a b").unwrap_err(), "Invalid symbol 32, offset 1.");
    assert_eq!(decode("eyJ0").unwrap_err().is_empty(), false);
    assert_eq!(decode("ab").unwrap_err(), "Invalid padding");
    assert_eq!(decode("ab==").unwrap_err(), "Invalid last symbol 98, offset 1.");
    assert!(decode("é").is_err());
}

#[test]
fn base64_of_something_else_is_refused() {
    let error = decode("e30=").unwrap_err();
    assert!(error.contains("missing field"), "{error}");
    assert!(decode("").unwrap_err().contains("EOF"));
}

#[test]
fn what_was_read_is_handed_on() {
    let made = described(Ok((SdpType::Answer, "x".to_string()))).unwrap();
    assert_eq!((made.sdp_type, made.sdp.as_str()), (SdpType::Answer, "x"));
    assert_eq!(described(Err("bad".to_string())).unwrap_err(), "bad");
}
