//! Session descriptions as codes that can be sent as text.
use base64::Engine;
use rtc::peer_connection::sdp::{RTCSdpType, RTCSessionDescription};
use vstd::prelude::*;
use vstd::utf8::encode_utf8;

verus! {

/// What a session description is: an offer, or one of the answers to it.
#[derive(Clone, Copy, Debug, PartialEq, Eq, Structural)]
pub enum SdpType {
    Unspecified,
    Offer,
    Pranswer,
    Answer,
    Rollback,
}

/// A session description.
#[derive(Debug)]
pub struct SessionDescription {
    pub sdp_type: SdpType,
    pub sdp: String,
}

/// What `serde_json::to_string` gives for an `RTCSessionDescription`.
pub uninterp spec fn json_text(sdp_type: SdpType, sdp: Seq<char>) -> Seq<char>;

/// What `serde_json::from_slice` gives for an `RTCSessionDescription`: the
/// description, or the error in words.
pub uninterp spec fn json_read(json: Seq<u8>) -> Result<(SdpType, Seq<char>), Seq<char>>;

/// The character that stands for six bits in base64.
pub open spec fn symbol(n: int) -> char {
    if n < 26 {
        (65 + n) as char
    } else if n < 52 {
        (71 + n) as char
    } else if n < 62 {
        (n - 4) as char
    } else if n == 62 {
        '+'
    } else {
        '/'
    }
}

/// Bytes in base64: three at a time as four characters, padded at the end.
pub open spec fn base64(data: Seq<u8>) -> Seq<char>
    decreases data.len(),
{
    if data.len() == 0 {
        seq![]
    } else if data.len() == 1 {
        let n = data[0] * 16;
        seq![symbol(n / 64), symbol(n % 64), '=', '=']
    } else if data.len() == 2 {
        let n = data[0] * 1_024 + data[1] * 4;
        seq![symbol(n / 4_096), symbol(n / 64 % 64), symbol(n % 64), '=']
    } else {
        let n = data[0] * 65_536 + data[1] * 256 + data[2];
        seq![
            symbol(n / 262_144),
            symbol(n / 4_096 % 64),
            symbol(n / 64 % 64),
            symbol(n % 64),
        ] + base64(data.skip(3))
    }
}

/// The words in which the standard engine of `base64` refuses a text.
pub uninterp spec fn base64_error(packed: Seq<char>) -> Seq<char>;

/// Whether a text is base64 of some bytes.
pub open spec fn is_base64(packed: Seq<char>) -> bool {
    exists|data: Seq<u8>| #[trigger] base64(data) == packed
}

/// Whether bytes are read as a description of this type and text.
pub open spec fn describes(json: Seq<u8>, sdp_type: SdpType, sdp: Seq<char>) -> bool {
    json_read(json) matches Ok(held) && held == (sdp_type, sdp)
}

/// `serde_json::to_string` on an `RTCSessionDescription` of this type and text. The
/// two alone decide what is written, and `serde_json::from_slice` reads them back.
#[verifier::external_body]
fn write_json(sdp_type: SdpType, sdp: &str) -> (json: String)
    ensures
        json@ == json_text(sdp_type, sdp@),
        describes(encode_utf8(json@), sdp_type, sdp@),
{
    let mut description = RTCSessionDescription::default();
    description.sdp_type = match sdp_type {
        SdpType::Unspecified => RTCSdpType::Unspecified,
        SdpType::Offer => RTCSdpType::Offer,
        SdpType::Pranswer => RTCSdpType::Pranswer,
        SdpType::Answer => RTCSdpType::Answer,
        SdpType::Rollback => RTCSdpType::Rollback,
    };
    description.sdp = sdp.to_owned();
    serde_json::to_string(&description).expect("serialize session description")
}

/// `serde_json::from_slice` into an `RTCSessionDescription`. The bytes alone decide
/// what comes of it.
#[verifier::external_body]
fn read_json(json: &[u8]) -> (read: Result<(SdpType, String), String>)
    ensures
        match read {
            Ok((sdp_type, sdp)) => json_read(json@) matches Ok(held) && held == (sdp_type, sdp@),
            Err(error) => json_read(json@) matches Err(message) && message == error@,
        },
{
    let read: Result<RTCSessionDescription, serde_json::Error> = serde_json::from_slice(json);
    let description = read.map_err(|error| error.to_string())?;
    let sdp_type = match description.sdp_type {
        RTCSdpType::Unspecified => SdpType::Unspecified,
        RTCSdpType::Offer => SdpType::Offer,
        RTCSdpType::Pranswer => SdpType::Pranswer,
        RTCSdpType::Answer => SdpType::Answer,
        RTCSdpType::Rollback => SdpType::Rollback,
    };
    Ok((sdp_type, description.sdp))
}

/// `base64::Engine::encode` of the standard engine: the bytes in base64.
#[verifier::external_body]
fn pack(data: &[u8]) -> (packed: String)
    ensures
        packed@ == base64(data@),
{
    base64::engine::general_purpose::STANDARD.encode(data)
}

/// `base64::Engine::decode` of the standard engine: the bytes that the text is
/// base64 of. The engine refuses every other text, among them what lacks padding or
/// has bits left over, in words that the text alone decides.
#[verifier::external_body]
fn unpack(packed: &str) -> (data: Result<Vec<u8>, String>)
    ensures
        match data {
            Ok(bytes) => packed@ == base64(bytes@),
            Err(error) => !is_base64(packed@) && error@ == base64_error(packed@),
        },
{
    base64::engine::general_purpose::STANDARD.decode(packed).map_err(|error| error.to_string())
}

proof fn lemma_symbol(m: int, n: int)
    requires
        0 <= m < 64,
        0 <= n < 64,
        symbol(m) == symbol(n),
    ensures
        m == n,
{
}

proof fn lemma_symbol_pads(n: int)
    requires
        0 <= n < 64,
    ensures
        symbol(n) != '=',
{
}

/// No two byte strings are the same in base64.
pub proof fn law_base64_is_faithful(a: Seq<u8>, b: Seq<u8>)
    requires
        base64(a) == base64(b),
    ensures
        a == b,
    decreases a.len(),
{
    lemma_base64_len(a);
    lemma_base64_len(b);
    if a.len() > 0 && b.len() > 0 {
        lemma_first_group(a, b);
        if a.len() >= 3 {
            assert(base64(a).skip(4) == base64(a.skip(3)));
            assert(base64(b).skip(4) == base64(b.skip(3)));
            law_base64_is_faithful(a.skip(3), b.skip(3));
            assert(a == seq![a[0], a[1], a[2]] + a.skip(3));
            assert(b == seq![b[0], b[1], b[2]] + b.skip(3));
        } else {
            assert(a =~= b);
        }
    }
}

/// The first four characters tell the first three bytes, and whether there are so
/// many.
proof fn lemma_first_group(a: Seq<u8>, b: Seq<u8>)
    requires
        a.len() > 0,
        b.len() > 0,
        base64(a) == base64(b),
    ensures
        (a.len() == 1) == (b.len() == 1),
        (a.len() == 2) == (b.len() == 2),
        a[0] == b[0],
        a.len() >= 2 ==> a[1] == b[1],
        a.len() >= 3 ==> a[2] == b[2],
{
    let m = group(a);
    let n = group(b);
    lemma_group(a);
    lemma_group(b);
    lemma_symbol(m / 262_144, n / 262_144);
    lemma_symbol(m / 4_096 % 64, n / 4_096 % 64);
    lemma_symbol_pads(m / 64 % 64);
    lemma_symbol_pads(n / 64 % 64);
    lemma_symbol_pads(m % 64);
    lemma_symbol_pads(n % 64);
    if a.len() >= 2 {
        lemma_symbol(m / 64 % 64, n / 64 % 64);
    }
    if a.len() >= 3 {
        lemma_symbol(m % 64, n % 64);
    }
    lemma_same_bits(m, n);
    lemma_same_bytes(a, b);
}

proof fn lemma_same_bits(m: int, n: int)
    requires
        0 <= m < 0x100_0000,
        0 <= n < 0x100_0000,
        m / 262_144 == n / 262_144,
        m / 4_096 % 64 == n / 4_096 % 64,
        m / 64 % 64 == n / 64 % 64,
        m % 64 == n % 64,
    ensures
        m == n,
{
}

proof fn lemma_same_bytes(a: Seq<u8>, b: Seq<u8>)
    requires
        a.len() > 0,
        b.len() > 0,
        (a.len() == 1) == (b.len() == 1),
        (a.len() == 2) == (b.len() == 2),
        group(a) == group(b),
    ensures
        a[0] == b[0],
        a.len() >= 2 ==> a[1] == b[1],
        a.len() >= 3 ==> a[2] == b[2],
{
    reveal(group);
}

/// The twenty-four bits of the first three bytes, with zeros for those that are not
/// there.
#[verifier::opaque]
spec fn group(data: Seq<u8>) -> int {
    if data.len() == 1 {
        data[0] * 65_536
    } else if data.len() == 2 {
        data[0] * 65_536 + data[1] * 256
    } else {
        data[0] * 65_536 + data[1] * 256 + data[2]
    }
}

proof fn lemma_group(data: Seq<u8>)
    requires
        data.len() > 0,
    ensures
        ({
            let n = group(data);
            &&& 0 <= n < 0x100_0000
            &&& 0 <= n / 262_144 < 64
            &&& data.len() == 1 ==> n / 64 % 64 == 0
            &&& data.len() <= 2 ==> n % 64 == 0
            &&& base64(data)[0] == symbol(n / 262_144)
            &&& base64(data)[1] == symbol(n / 4_096 % 64)
            &&& base64(data)[2] == if data.len() == 1 {
                '='
            } else {
                symbol(n / 64 % 64)
            }
            &&& base64(data)[3] == if data.len() <= 2 {
                '='
            } else {
                symbol(n % 64)
            }
        }),
{
    reveal(group);
}

proof fn lemma_base64_len(data: Seq<u8>)
    ensures
        base64(data).len() == (data.len() + 2) / 3 * 4,
    decreases data.len(),
{
    if data.len() > 2 {
        lemma_base64_len(data.skip(3));
    }
}

/// The description that a code holds, or what is wrong with it: first whether it is
/// base64, then whether that holds a description.
pub open spec fn meaning(packed: Seq<char>) -> Result<(SdpType, Seq<char>), Seq<char>> {
    if is_base64(packed) {
        json_read(choose|json: Seq<u8>| #[trigger] base64(json) == packed)
    } else {
        Err(base64_error(packed))
    }
}

proof fn lemma_meaning(json: Seq<u8>)
    ensures
        meaning(base64(json)) == json_read(json),
{
    assert(is_base64(base64(json)));
    law_base64_is_faithful(choose|other: Seq<u8>| #[trigger] base64(other) == base64(json), json);
}

/// The code of a description: its JSON in base64.
pub open spec fn code_of(sdp_type: SdpType, sdp: Seq<char>) -> Seq<char> {
    base64(encode_utf8(json_text(sdp_type, sdp)))
}

/// The code of a description. What it means is the description: `decode` gives it
/// back.
pub fn encode(description: &SessionDescription) -> (packed: String)
    ensures
        packed@ == code_of(description.sdp_type, description.sdp@),
        meaning(packed@) matches Ok(back) && back == (description.sdp_type, description.sdp@),
{
    let json: String = write_json(description.sdp_type, description.sdp.as_str());
    let packed: String = pack(json.as_str().as_bytes());
    proof {
        lemma_meaning(encode_utf8(json@));
    }
    packed
}

/// What is made of a description that was read.
pub fn described(read: Result<(SdpType, String), String>) -> (description: Result<
    SessionDescription,
    String,
>)
    ensures
        match read {
            Ok((sdp_type, sdp)) => description matches Ok(made) && made.sdp_type == sdp_type
                && made.sdp == sdp,
            Err(error) => description matches Err(message) && message == error,
        },
{
    match read {
        Ok((sdp_type, sdp)) => Ok(SessionDescription { sdp_type, sdp }),
        Err(error) => Err(error),
    }
}

/// The description that a code holds.
pub fn decode(packed: &str) -> (description: Result<SessionDescription, String>)
    ensures
        match meaning(packed@) {
            Ok((sdp_type, sdp)) => description matches Ok(made) && made.sdp_type == sdp_type
                && made.sdp@ == sdp,
            Err(error) => description matches Err(message) && message@ == error,
        },
{
    match unpack(packed) {
        Ok(json) => {
            proof {
                lemma_meaning(json@);
            }
            described(read_json(json.as_slice()))
        },
        Err(error) => Err(error),
    }
}

/// What bytes in base64 mean is what the bytes are read as. A text that is base64 of no
/// bytes means nothing but an error.
pub proof fn law_code_means_its_bytes(json: Seq<u8>, packed: Seq<char>)
    ensures
        meaning(base64(json)) == json_read(json),
        (forall|data: Seq<u8>| #[trigger] base64(data) != packed) ==> meaning(packed) is Err,
{
    lemma_meaning(json);
}

/// Base64 has four characters for every three bytes begun.
pub proof fn law_base64_has_four_for_three(data: Seq<u8>)
    ensures
        base64(data).len() % 4 == 0,
        3 * base64(data).len() >= 4 * data.len(),
        3 * base64(data).len() < 4 * data.len() + 12,
{
    lemma_base64_len(data);
}

} // verus!
