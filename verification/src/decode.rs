//! From H.264 access units to pictures, through the OpenH264 decoder.
use openh264::decoder::Decoder;
use vstd::prelude::*;

use crate::text::{law_parts_occur, occurs_in, push_signed, signed_digits};

verus! {

/// The name of a state, if its bit is set in `code`.
pub open spec fn flag(code: i32, bit: i32, name: Seq<char>) -> Seq<Seq<char>> {
    if code & bit != 0 {
        seq![name]
    } else {
        seq![]
    }
}

/// The names of the decoding states that a code is made of, in the order of their
/// bits. Other bits have no name.
pub open spec fn state_flags(code: i32) -> Seq<Seq<char>> {
    flag(code, 1, "dsFramePending"@) + flag(code, 2, "dsRefLost"@) + flag(
        code,
        4,
        "dsBitstreamError"@,
    ) + flag(code, 16, "dsNoParamSets"@) + flag(code, 32, "dsDataErrorConcealed"@) + flag(
        code,
        64,
        "dsRefListNullPtrs"@,
    ) + flag(code, 4096, "dsInvalidArgument"@) + flag(code, 16_384, "dsOutOfMemory"@) + flag(
        code,
        32_768,
        "dsDstBufNeedExpan"@,
    )
}

/// Bits without a name change nothing in the names: 53367 has the bits that have
/// one.
pub proof fn law_unknown_bits_are_ignored(code: i32)
    ensures
        state_flags(code) == state_flags(code & 53_367),
{
    assert((code & 53_367) & 1 == code & 1) by (bit_vector);
    assert((code & 53_367) & 2 == code & 2) by (bit_vector);
    assert((code & 53_367) & 4 == code & 4) by (bit_vector);
    assert((code & 53_367) & 16 == code & 16) by (bit_vector);
    assert((code & 53_367) & 32 == code & 32) by (bit_vector);
    assert((code & 53_367) & 64 == code & 64) by (bit_vector);
    assert((code & 53_367) & 4096 == code & 4096) by (bit_vector);
    assert((code & 53_367) & 16_384 == code & 16_384) by (bit_vector);
    assert((code & 53_367) & 32_768 == code & 32_768) by (bit_vector);
}

/// The texts that a list of string slices holds.
pub open spec fn texts(list: Seq<&'static str>) -> Seq<Seq<char>> {
    Seq::new(list.len(), |i: int| list[i]@)
}

fn push_flag(flags: &mut Vec<&'static str>, code: i32, bit: i32, name: &'static str)
    ensures
        texts(final(flags)@) == texts(old(flags)@) + flag(code, bit, name@),
{
    if code & bit != 0 {
        flags.push(name);
    }
    assert(texts(flags@) == texts(old(flags)@) + flag(code, bit, name@));
}

/// The known `DECODING_STATE` flags of OpenH264 that are set in `code`.
pub fn decode_state_flags(code: i32) -> (flags: Vec<&'static str>)
    ensures
        texts(flags@) == state_flags(code),
{
    let mut flags: Vec<&'static str> = Vec::new();
    push_flag(&mut flags, code, 1, "dsFramePending");
    push_flag(&mut flags, code, 2, "dsRefLost");
    push_flag(&mut flags, code, 4, "dsBitstreamError");
    push_flag(&mut flags, code, 16, "dsNoParamSets");
    push_flag(&mut flags, code, 32, "dsDataErrorConcealed");
    push_flag(&mut flags, code, 64, "dsRefListNullPtrs");
    push_flag(&mut flags, code, 4096, "dsInvalidArgument");
    push_flag(&mut flags, code, 16_384, "dsOutOfMemory");
    push_flag(&mut flags, code, 32_768, "dsDstBufNeedExpan");
    assert(texts(flags@) == state_flags(code));
    flags
}

/// Texts one after the other, with `separator` between them.
pub open spec fn joined(parts: Seq<Seq<char>>, separator: Seq<char>) -> Seq<char>
    decreases parts.len(),
{
    if parts.len() == 0 {
        seq![]
    } else if parts.len() == 1 {
        parts[0]
    } else {
        joined(parts.drop_last(), separator) + separator + parts.last()
    }
}

fn join(parts: &Vec<&'static str>, separator: &str) -> (text: String)
    ensures
        text@ == joined(texts(parts@), separator@),
{
    let mut text: String = String::new();
    let mut i: usize = 0;
    assert(texts(parts@).take(0) == Seq::<Seq<char>>::empty());
    while i < parts.len()
        invariant
            i <= parts@.len(),
            text@ == joined(texts(parts@).take(i as int), separator@),
        decreases parts@.len() - i,
    {
        let ghost shown = texts(parts@).take(i + 1);
        assert(shown.drop_last() == texts(parts@).take(i as int));
        if i > 0 {
            text.append(separator);
        }
        text.append(parts[i]);
        assert(shown.last() == parts@[i as int]@);
        assert(text@ == joined(shown, separator@));
        i += 1;
    }
    assert(texts(parts@).take(parts@.len() as int) == texts(parts@));
    text
}

/// What is reported of a decoding that failed with the native code `code`.
pub open spec fn error_message(code: i64) -> Seq<char> {
    let flags = state_flags(code as i32);
    if flags.len() == 0 {
        "OpenH264 decode failed: native error "@ + signed_digits(code as int)
    } else {
        "OpenH264 decode failed: state "@ + signed_digits(code as int) + " ("@ + joined(
            flags,
            " | "@,
        ) + ")"@
    }
}

/// Turns the native code of a failed decoding into something readable: the names
/// of the states that it is made of, or the bare number where none is known.
pub fn decode_error_message(code: i64) -> (message: String)
    ensures
        message@ == error_message(code),
{
    let flags = decode_state_flags(#[verifier::truncate] (code as i32));
    assert(flags@.len() == texts(flags@).len());
    if flags.len() == 0 {
        let mut message: String = "OpenH264 decode failed: native error ".to_owned();
        push_signed(&mut message, code);
        message
    } else {
        let mut message: String = "OpenH264 decode failed: state ".to_owned();
        push_signed(&mut message, code);
        message.append(" (");
        message.append(join(&flags, " | ").as_str());
        message.append(")");
        message
    }
}

/// The OpenH264 decoder. Its state is its own.
#[verifier::external_type_specification]
#[verifier::external_body]
pub struct ExDecoder(openh264::decoder::Decoder);

/// A decoded picture, four bytes a pixel.
pub struct DecodedFrame {
    pub rgba: Vec<u8>,
    pub width: u32,
    pub height: u32,
}

/// The access units that a decoder was given so far, in order.
pub uninterp spec fn fed(decoder: Decoder) -> Seq<Seq<u8>>;

/// What a decoder has made of the access units so far, in order: a picture as RGBA with
/// its width and height, nothing yet, or the native error code.
pub uninterp spec fn outcomes(decoder: Decoder) -> Seq<
    Result<Option<(Seq<u8>, usize, usize)>, i64>,
>;

/// What an outcome of the native decoder holds.
pub open spec fn outcome_of(outcome: Result<Option<(Vec<u8>, usize, usize)>, i64>) -> Result<
    Option<(Seq<u8>, usize, usize)>,
    i64,
> {
    match outcome {
        Ok(Some(picture)) => Ok(Some((picture.0@, picture.1, picture.2))),
        Ok(None) => Ok(None),
        Err(code) => Err(code),
    }
}

/// Whether `frame` is what is made of an outcome: the picture as it is, nothing, or the
/// error in words.
pub open spec fn shows(
    frame: Result<Option<DecodedFrame>, String>,
    outcome: Result<Option<(Seq<u8>, usize, usize)>, i64>,
) -> bool {
    match outcome {
        Ok(Some((rgba, width, height))) => frame matches Ok(Some(made)) && made.rgba@ == rgba
            && made.width == width as u32 && made.height == height as u32,
        Ok(None) => frame matches Ok(None),
        Err(code) => frame matches Err(message) && message@ == error_message(code),
    }
}

/// `openh264::decoder::Decoder::new`: a decoder that was given nothing yet and has made
/// nothing. Whether the native library can make one is not claimed: that is up to the machine.
#[verifier::external_body]
fn open_decoder() -> (decoder: Result<Decoder, String>)
    ensures
        decoder matches Ok(made) ==> fed(made) == Seq::<Seq<u8>>::empty(),
        decoder matches Ok(made) ==> outcomes(made).len() == 0,
{
    Decoder::new().map_err(|error| error.to_string())
}

/// `openh264::decoder::Decoder::decode`: a picture as RGBA with its width and
/// height, nothing yet, or the native error code. In each case the decoder was given
/// the access unit, and the result is what it made of it. A picture has four bytes for
/// each pixel. What it shows is not
/// claimed: it comes out of the native decoder, from this access unit and from all
/// that it was given before.
#[verifier::external_body]
fn decode_unit(decoder: &mut Decoder, access_unit: &[u8]) -> (outcome: Result<
    Option<(Vec<u8>, usize, usize)>,
    i64,
>)
    ensures
        fed(*final(decoder)) == fed(*old(decoder)).push(access_unit@),
        outcomes(*final(decoder)) == outcomes(*old(decoder)).push(outcome_of(outcome)),
        outcome matches Ok(Some(picture)) ==> picture.0@.len() == picture.1 * picture.2 * 4,
{
    match decoder.decode(access_unit) {
        Ok(Some(frame)) => {
            let (width, height) = openh264::formats::YUVSource::dimensions(&frame);
            let mut rgba = vec![0u8; openh264::formats::YUVSource::rgba8_len(&frame)];
            frame.write_rgba8(&mut rgba);
            Ok(Some((rgba, width, height)))
        },
        Ok(None) => Ok(None),
        Err(error) => Err(error.native_code()),
    }
}

/// What is made of an outcome of the native decoder: the picture as it is, or the
/// error in words.
pub fn decoded(outcome: Result<Option<(Vec<u8>, usize, usize)>, i64>) -> (frame: Result<
    Option<DecodedFrame>,
    String,
>)
    ensures
        match outcome {
            Ok(Some(picture)) => frame matches Ok(Some(made)) && made.rgba == picture.0
                && made.width == picture.1 as u32 && made.height == picture.2 as u32,
            Ok(None) => frame matches Ok(None),
            Err(code) => frame matches Err(message) && message@ == error_message(code),
        },
{
    match outcome {
        Ok(Some((rgba, width, height))) => Ok(
            Some(
                DecodedFrame {
                    rgba,
                    width: #[verifier::truncate]
                    (width as u32),
                    height: #[verifier::truncate]
                    (height as u32),
                },
            ),
        ),
        Ok(None) => Ok(None),
        Err(code) => Err(decode_error_message(code)),
    }
}

/// A stream of access units on its way to pictures.
pub struct H264Decoder {
    decoder: Decoder,
}

impl H264Decoder {
    /// The access units that were decoded so far, or tried to.
    pub closed spec fn given(&self) -> Seq<Seq<u8>> {
        fed(self.decoder)
    }

    /// What the native decoder has made of them.
    pub closed spec fn made(&self) -> Seq<Result<Option<(Seq<u8>, usize, usize)>, i64>> {
        outcomes(self.decoder)
    }

    pub fn new() -> (decoder: Result<Self, String>)
        ensures
            decoder matches Ok(opened) ==> opened.given().len() == 0 && opened.made().len() == 0,
    {
        Self::opened(open_decoder())
    }

    /// What is made of an outcome of the native library: its decoder, or its error.
    pub fn opened(outcome: Result<Decoder, String>) -> (decoder: Result<Self, String>)
        ensures
            match outcome {
                Ok(native) => decoder matches Ok(opened) && opened.given() == fed(native)
                    && opened.made() == outcomes(native),
                Err(error) => decoder matches Err(message) && message == error,
            },
    {
        match outcome {
            Ok(decoder) => Ok(Self { decoder }),
            Err(error) => Err(error),
        }
    }

    /// Feeds one access unit to the decoder. The result is what the decoder made of it: a
    /// picture, which has as many bytes as its dimensions call for, or none yet, or an
    /// error, which is put in words.
    pub fn decode(&mut self, access_unit: &[u8]) -> (frame: Result<Option<DecodedFrame>, String>)
        ensures
            final(self).given() == old(self).given().push(access_unit@),
            final(self).made().len() > 0,
            final(self).made().drop_last() == old(self).made(),
            shows(frame, final(self).made().last()),
            final(self).made().last() matches Ok(Some((rgba, width, height))) ==> rgba.len()
                == width * height * 4,
    {
        let outcome = decode_unit(&mut self.decoder, access_unit);
        assert(self.made().drop_last() == old(self).made());
        decoded(outcome)
    }
}

proof fn lemma_in_either(a: Seq<Seq<char>>, b: Seq<Seq<char>>, name: Seq<char>)
    ensures
        a.contains(name) || b.contains(name) ==> (a + b).contains(name),
{
    if a.contains(name) {
        let i = a.index_of(name);
        assert((a + b)[i] == name);
    } else if b.contains(name) {
        let i = b.index_of(name);
        assert((a + b)[a.len() + i] == name);
    }
}

proof fn lemma_flag(code: i32, bit: i32, name: Seq<char>)
    ensures
        code & bit != 0 ==> flag(code, bit, name).contains(name),
        flag(code, bit, name).len() == (if code & bit != 0 {
            1int
        } else {
            0
        }),
{
    if code & bit != 0 {
        assert(flag(code, bit, name)[0] == name);
    }
}

/// Each state whose bit is set is named, and as many names are given as there are such
/// bits.
pub proof fn law_states_are_named(code: i32)
    ensures
        code & 1 != 0 ==> state_flags(code).contains("dsFramePending"@),
        code & 2 != 0 ==> state_flags(code).contains("dsRefLost"@),
        code & 4 != 0 ==> state_flags(code).contains("dsBitstreamError"@),
        code & 16 != 0 ==> state_flags(code).contains("dsNoParamSets"@),
        code & 32 != 0 ==> state_flags(code).contains("dsDataErrorConcealed"@),
        code & 64 != 0 ==> state_flags(code).contains("dsRefListNullPtrs"@),
        code & 4096 != 0 ==> state_flags(code).contains("dsInvalidArgument"@),
        code & 16_384 != 0 ==> state_flags(code).contains("dsOutOfMemory"@),
        code & 32_768 != 0 ==> state_flags(code).contains("dsDstBufNeedExpan"@),
        state_flags(code).len() == bit_count(code, 1) + bit_count(code, 2) + bit_count(code, 4)
            + bit_count(code, 16) + bit_count(code, 32) + bit_count(code, 64) + bit_count(code, 4096)
            + bit_count(code, 16_384) + bit_count(code, 32_768),
{
    let names = seq![
        flag(code, 1, "dsFramePending"@),
        flag(code, 2, "dsRefLost"@),
        flag(code, 4, "dsBitstreamError"@),
        flag(code, 16, "dsNoParamSets"@),
        flag(code, 32, "dsDataErrorConcealed"@),
        flag(code, 64, "dsRefListNullPtrs"@),
        flag(code, 4096, "dsInvalidArgument"@),
        flag(code, 16_384, "dsOutOfMemory"@),
        flag(code, 32_768, "dsDstBufNeedExpan"@),
    ];
    lemma_flag(code, 1, "dsFramePending"@);
    lemma_flag(code, 2, "dsRefLost"@);
    lemma_flag(code, 4, "dsBitstreamError"@);
    lemma_flag(code, 16, "dsNoParamSets"@);
    lemma_flag(code, 32, "dsDataErrorConcealed"@);
    lemma_flag(code, 64, "dsRefListNullPtrs"@);
    lemma_flag(code, 4096, "dsInvalidArgument"@);
    lemma_flag(code, 16_384, "dsOutOfMemory"@);
    lemma_flag(code, 32_768, "dsDstBufNeedExpan"@);
    let two = names[0] + names[1];
    let three = two + names[2];
    let four = three + names[3];
    let five = four + names[4];
    let six = five + names[5];
    let seven = six + names[6];
    let eight = seven + names[7];
    assert(state_flags(code) == eight + names[8]);
    assert forall|name: Seq<char>|
        names[0].contains(name) || names[1].contains(name) || names[2].contains(name)
            || names[3].contains(name) || names[4].contains(name) || names[5].contains(name)
            || names[6].contains(name) || names[7].contains(name) || names[8].contains(
            name,
        ) implies #[trigger] state_flags(code).contains(name) by {
        lemma_in_either(names[0], names[1], name);
        lemma_in_either(two, names[2], name);
        lemma_in_either(three, names[3], name);
        lemma_in_either(four, names[4], name);
        lemma_in_either(five, names[5], name);
        lemma_in_either(six, names[6], name);
        lemma_in_either(seven, names[7], name);
        lemma_in_either(eight, names[8], name);
    }
}

/// One where a bit of a code is set.
pub open spec fn bit_count(code: i32, bit: i32) -> int {
    if code & bit != 0 {
        1
    } else {
        0
    }
}

/// One text is joined to itself; of two lists, each joined, the separator stands between
/// them.
pub proof fn law_joining_puts_separators_between(
    a: Seq<Seq<char>>,
    b: Seq<Seq<char>>,
    text: Seq<char>,
    separator: Seq<char>,
)
    requires
        a.len() > 0,
        b.len() > 0,
    ensures
        joined(seq![text], separator) == text,
        joined(a + b, separator) == joined(a, separator) + separator + joined(b, separator),
    decreases b.len(),
{
    let both = a + b;
    assert(both.drop_last() =~= a + b.drop_last());
    if b.len() == 1 {
        assert(a + b.drop_last() =~= a);
        assert(both.last() == b[0]);
    } else {
        law_joining_puts_separators_between(a, b.drop_last(), text, separator);
        let (x, y, z) = (joined(a, separator), joined(b.drop_last(), separator), b.last());
        assert(x + separator + y + separator + z =~= x + separator + (y + separator + z));
    }
}

/// What is reported of a failure has its number in it, and the names of its states.
pub proof fn law_report_tells_the_failure(code: i64)
    ensures
        occurs_in(signed_digits(code as int), error_message(code)),
        state_flags(code as i32).len() > 0 ==> occurs_in(
            joined(state_flags(code as i32), " | "@),
            error_message(code),
        ),
{
    let number = signed_digits(code as int);
    let flags = state_flags(code as i32);
    let message = error_message(code);
    if flags.len() == 0 {
        let front = "OpenH264 decode failed: native error "@;
        assert(message =~= front + number + Seq::<char>::empty());
        law_parts_occur(number, message, front, Seq::empty());
    } else {
        let front = "OpenH264 decode failed: state "@;
        let names = joined(flags, " | "@);
        assert(message =~= front + number + (" ("@ + names + ")"@));
        law_parts_occur(number, message, front, " ("@ + names + ")"@);
        law_parts_occur(names, message, front + number + " ("@, ")"@);
    }
}

/// What the decoder made is shown as it is: the picture with its size, nothing, or an
/// error.
pub proof fn law_pictures_are_shown_as_they_are(
    frame: Result<Option<DecodedFrame>, String>,
    outcome: Result<Option<(Seq<u8>, usize, usize)>, i64>,
)
    requires
        shows(frame, outcome),
    ensures
        (frame is Err) == (outcome is Err),
        outcome matches Ok(Some((rgba, width, height))) ==> (frame matches Ok(Some(made))
            && made.rgba@ == rgba && (width <= u32::MAX ==> made.width == width) && (height
            <= u32::MAX ==> made.height == height)),
        outcome matches Ok(None) ==> frame matches Ok(None),
{
}

/// The texts of a list are those of its slices, in their order.
pub proof fn law_texts_stay_in_order(list: Seq<&'static str>, i: int)
    ensures
        texts(list).len() == list.len(),
        0 <= i < list.len() ==> texts(list)[i] == list[i]@,
{
}

} // verus!
