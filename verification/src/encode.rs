//! From captured frames to an H.264 bitstream, through the OpenH264 encoder.
use openh264::encoder::Encoder;
use vstd::prelude::*;

use crate::convert::{
    i420, i420_len, image_fits, law_one_colour_one_picture, law_scaling_keeps_a_colour,
    law_screens_fit, lemma_full_frame, one_colour, rgba_to_i420, rgba_to_i420_scaled, scaling_of,
};
use crate::text::{digits, law_parts_occur, occurs_in, push_number};

verus! {

/// The OpenH264 encoder. Its state is its own.
#[verifier::external_type_specification]
#[verifier::external_body]
pub struct ExEncoder(openh264::encoder::Encoder);

/// What the encoder is tuned for.
#[derive(Clone, Copy, Debug, PartialEq, Eq, Structural)]
pub enum Usage {
    Camera,
    Screen,
}

/// How much work the encoder puts into a frame.
#[derive(Clone, Copy, Debug, PartialEq, Eq, Structural)]
pub enum Effort {
    Low,
    Medium,
    High,
}

/// The settings that an encoder is made with.
#[derive(Clone, Copy, Debug, PartialEq, Eq, Structural)]
pub struct EncoderSettings {
    pub usage: Usage,
    pub bitrate_bps: u32,
    pub max_frame_rate: u16,
    pub effort: Effort,
    pub skip_frames: bool,
    pub scene_change_detect: bool,
    pub adaptive_quantization: bool,
}

/// The settings for a stream of `fps` frames a second: 6 Mbit/s at 60 from 45
/// frames a second on, 4 Mbit/s at 30 below.
pub open spec fn settings_for(fps: u32) -> EncoderSettings {
    EncoderSettings {
        usage: Usage::Camera,
        bitrate_bps: if fps >= 45 {
            6_000_000
        } else {
            4_000_000
        },
        max_frame_rate: if fps >= 45 {
            60
        } else {
            30
        },
        effort: Effort::Low,
        skip_frames: false,
        scene_change_detect: false,
        adaptive_quantization: false,
    }
}

/// Sane targets for desktop content. Tens of megabits a second would make the
/// software encoder frame-bound and flood the network with packets.
pub fn encoder_settings(fps: u32) -> (settings: EncoderSettings)
    ensures
        settings == settings_for(fps),
{
    let (max_frame_rate, bitrate_bps): (u16, u32) = if fps >= 45 {
        (60, 6_000_000)
    } else {
        (30, 4_000_000)
    };
    EncoderSettings {
        usage: Usage::Camera,
        bitrate_bps,
        max_frame_rate,
        effort: Effort::Low,
        skip_frames: false,
        scene_change_detect: false,
        adaptive_quantization: false,
    }
}

/// What an encoder can be told: the settings that it is made with, that the next frame
/// is to stand on its own, and the planes of a picture.
#[verifier::ext_equal]
pub enum Order {
    Start(EncoderSettings),
    Keyframe,
    Picture { y: Seq<u8>, u: Seq<u8>, v: Seq<u8>, width: int, height: int },
}

/// What an encoder was told so far, in order.
pub uninterp spec fn orders(encoder: Encoder) -> Seq<Order>;

/// What an encoder has made of the pictures so far, in order: the bitstream of each, or
/// the error in words.
pub uninterp spec fn answers(encoder: Encoder) -> Seq<Result<Seq<u8>, Seq<char>>>;

/// What a bitstream holds, or an error says.
pub open spec fn answer_of(outcome: Result<Vec<u8>, String>) -> Result<Seq<u8>, Seq<char>> {
    match outcome {
        Ok(bitstream) => Ok(bitstream@),
        Err(error) => Err(error@),
    }
}

/// `openh264::encoder::Encoder::with_api_config`, with the settings handed over
/// field by field: an encoder that was told these settings and nothing else, and has
/// made nothing yet. Whether the native library can make one is not claimed: that is
/// up to the machine.
#[verifier::external_body]
fn open_encoder(settings: EncoderSettings) -> (encoder: Result<Encoder, String>)
    ensures
        encoder matches Ok(made) ==> orders(made) == seq![Order::Start(settings)],
        encoder matches Ok(made) ==> answers(made).len() == 0,
{
    let usage = match settings.usage {
        Usage::Camera => openh264::encoder::UsageType::CameraVideoRealTime,
        Usage::Screen => openh264::encoder::UsageType::ScreenContentRealTime,
    };
    let effort = match settings.effort {
        Effort::Low => openh264::encoder::Complexity::Low,
        Effort::Medium => openh264::encoder::Complexity::Medium,
        Effort::High => openh264::encoder::Complexity::High,
    };
    let rate = openh264::encoder::FrameRate::from_hz(settings.max_frame_rate.into());
    let bitrate = openh264::encoder::BitRate::from_bps(settings.bitrate_bps);
    let config = openh264::encoder::EncoderConfig::new().usage_type(usage).bitrate(bitrate).max_frame_rate(rate).complexity(effort).skip_frames(settings.skip_frames).scene_change_detect(settings.scene_change_detect).adaptive_quantization(settings.adaptive_quantization);
    Encoder::with_api_config(openh264::OpenH264API::from_source(), config).map_err(|error| error.to_string())
}

/// Whether a picture is larger than OpenH264 encodes.
pub open spec fn too_large(width: int, height: int) -> bool {
    ||| width > 3840
    ||| height > 3840
    ||| width > 2160 && height > 2160
}

/// `openh264::encoder::Encoder::encode` on three planes, which the encoder is told of
/// with their size. The result is what the encoder made of them. A picture that is
/// larger than 3840 by 2160, either way round, is refused. Nothing else is claimed of
/// the bitstream: it comes out of the native encoder, from these planes and from all
/// that it was told before.
#[verifier::external_body]
fn encode_planes(
    encoder: &mut Encoder,
    y: &[u8],
    u: &[u8],
    v: &[u8],
    width: usize,
    height: usize,
    half: usize,
) -> (bitstream: Result<Vec<u8>, String>)
    requires
        y@.len() == height * width,
        u@.len() == (height / 2) * half,
        v@.len() == (height / 2) * half,
        half == width / 2,
    ensures
        orders(*final(encoder)) == orders(*old(encoder)).push(
            Order::Picture { y: y@, u: u@, v: v@, width: width as int, height: height as int },
        ),
        answers(*final(encoder)) == answers(*old(encoder)).push(answer_of(bitstream)),
        too_large(width as int, height as int) && width <= i32::MAX && height <= i32::MAX
            ==> bitstream is Err,
{
    let yuv = openh264::formats::YUVSlices::new((y, u, v), (width, height), (width, half, half));
    encoder.encode(&yuv).map(|bitstream| bitstream.to_vec()).map_err(|error| error.to_string())
}

/// `openh264::encoder::Encoder::force_intra_frame`: the encoder is told that the next
/// frame is to stand on its own, and makes nothing yet. That the frame does is not
/// claimed here: it shows in what the native encoder makes of the next picture.
#[verifier::external_body]
fn force_intra_frame(encoder: &mut Encoder)
    ensures
        orders(*final(encoder)) == orders(*old(encoder)).push(Order::Keyframe),
        answers(*final(encoder)) == answers(*old(encoder)),
{
    encoder.force_intra_frame();
}

/// The order to encode the planes of a picture of this size, which lie one behind the
/// other.
pub open spec fn picture_order(planes: Seq<u8>, width: int, height: int) -> Order {
    let luma = width * height;
    let chroma = (width / 2) * (height / 2);
    Order::Picture {
        y: planes.take(luma),
        u: planes.subrange(luma, luma + chroma),
        v: planes.skip(luma + chroma),
        width,
        height,
    }
}

/// An even number, `x` or one below.
pub open spec fn even(x: int) -> int {
    x - x % 2
}

/// The size of a stream that is `target` lines high: the same shape as the source,
/// in even numbers, and never larger than the source.
pub open spec fn scaled_dims(width: int, height: int, target: Option<u32>) -> (int, int) {
    match target {
        Some(lines) if 2 <= lines && lines < height => {
            let across = even(width * even(lines as int) / height);
            (
                if across < 2 {
                    2
                } else {
                    across
                },
                even(lines as int),
            )
        },
        _ => (width, height),
    }
}

fn make_even(x: usize) -> (r: usize)
    ensures
        r == even(x as int),
{
    assert(x & !1 == x - x % 2) by (bit_vector);
    x & !1
}

proof fn lemma_scaled_dims(width: int, height: int, target: Option<u32>)
    requires
        0 <= width,
        0 <= height,
    ensures
        target matches Some(lines) ==> 2 <= lines && lines < height ==> 0 <= width * even(
            lines as int,
        ) <= width * height,
{
    if let Some(lines) = target {
        if 2 <= lines && lines < height {
            assert(0 <= width * even(lines as int) <= width * height) by (nonlinear_arith)
                requires
                    0 <= width,
                    0 <= even(lines as int) <= height,
            ;
        }
    }
}

/// The stream has even dimensions, is no larger than the source, and no higher than
/// asked for where the source is higher.
pub proof fn law_stream_is_even_and_no_larger(width: int, height: int, target: Option<u32>)
    requires
        width >= 2,
        height >= 2,
        width % 2 == 0,
        height % 2 == 0,
    ensures
        ({
            let dims = scaled_dims(width, height, target);
            &&& dims.0 % 2 == 0
            &&& dims.1 % 2 == 0
            &&& 2 <= dims.0 <= width
            &&& 2 <= dims.1 <= height
            &&& target matches Some(lines) ==> 2 <= lines && lines < height ==> dims.1 <= lines
        }),
{
    if let Some(lines) = target {
        if 2 <= lines && lines < height {
            lemma_scaled_dims(width, height, target);
            let across = width * even(lines as int) / height;
            assert(across <= width) by (nonlinear_arith)
                requires
                    across == width * even(lines as int) / height,
                    width * even(lines as int) <= width * height,
                    height > 0,
            ;
        }
    }
}

/// An encoder and the size of the stream that it is to produce.
pub struct H264Encoder {
    encoder: Encoder,
    planes: Vec<u8>,
    target_height: Option<u32>,
}

/// What is said of a buffer of the wrong length.
pub open spec fn length_message(len: int, width: u32, height: u32) -> Seq<char> {
    "rgba buffer length "@ + digits(len as nat) + " does not match "@ + digits(width as nat) + "x"@
        + digits(height as nat)
}

impl H264Encoder {
    /// The planes of the frame that was encoded last.
    pub closed spec fn planes(&self) -> Seq<u8> {
        self.planes@
    }

    /// What the encoder was told so far.
    pub closed spec fn told(&self) -> Seq<Order> {
        orders(self.encoder)
    }

    /// What the encoder has made of the frames so far.
    pub closed spec fn made(&self) -> Seq<Result<Seq<u8>, Seq<char>>> {
        answers(self.encoder)
    }

    /// How many lines the stream is scaled down to, if at all.
    pub closed spec fn target_height(&self) -> Option<u32> {
        self.target_height
    }

    /// Whether a frame has even dimensions and as many bytes as they call for.
    pub open spec fn well_sized(len: int, width: u32, height: u32) -> bool {
        width % 2 == 0 && height % 2 == 0 && len == width * height * 4
    }

    /// Whether a frame can be brought to the stream's size within the machine's integers.
    pub open spec fn scalable(&self, rgba: Seq<u8>, width: u32, height: u32) -> bool {
        let dims = scaled_dims(width as int, height as int, self.target_height());
        dims == (width as int, height as int) || (dims.0 <= usize::MAX && dims.1 <= usize::MAX
            && scaling_of(
            width as usize,
            height as usize,
            dims.0 as usize,
            dims.1 as usize,
        ).fits_for(rgba))
    }

    /// The planes that the encoder is given for a frame.
    pub open spec fn source_planes(&self, rgba: Seq<u8>, width: u32, height: u32) -> Seq<u8> {
        let dims = scaled_dims(width as int, height as int, self.target_height());
        if dims == (width as int, height as int) {
            i420(rgba, width as int, height as int)
        } else {
            scaling_of(width as usize, height as usize, dims.0 as usize, dims.1 as usize).i420(rgba)
        }
    }

    /// The order to encode a frame, brought to the stream's size.
    pub open spec fn source_order(&self, rgba: Seq<u8>, width: u32, height: u32) -> Order {
        let dims = scaled_dims(width as int, height as int, self.target_height());
        picture_order(self.source_planes(rgba, width, height), dims.0, dims.1)
    }

    /// An encoder for 30 frames a second.
    pub fn new() -> (encoder: Result<Self, String>)
        ensures
            encoder matches Ok(opened) ==> {
                &&& opened.told() == seq![Order::Start(settings_for(30))]
                &&& opened.made().len() == 0
                &&& opened.planes().len() == 0
                &&& opened.target_height() is None
            },
    {
        Self::new_at(30)
    }

    /// An encoder for `fps` frames a second, with the settings that
    /// `encoder_settings` gives.
    pub fn new_at(fps: u32) -> (encoder: Result<Self, String>)
        ensures
            encoder matches Ok(opened) ==> {
                &&& opened.told() == seq![Order::Start(settings_for(fps))]
                &&& opened.made().len() == 0
                &&& opened.planes().len() == 0
                &&& opened.target_height() is None
            },
    {
        Self::opened(open_encoder(encoder_settings(fps)))
    }

    /// What is made of an outcome of the native library: its encoder, with nothing
    /// encoded yet and no height set, or its error.
    pub fn opened(outcome: Result<Encoder, String>) -> (encoder: Result<Self, String>)
        ensures
            match outcome {
                Ok(native) => encoder matches Ok(opened) && {
                    &&& opened.told() == orders(native)
                    &&& opened.made() == answers(native)
                    &&& opened.planes().len() == 0
                    &&& opened.target_height() is None
                },
                Err(error) => encoder matches Err(message) && message == error,
            },
    {
        match outcome {
            Ok(encoder) => Ok(Self { encoder, planes: Vec::new(), target_height: None }),
            Err(error) => Err(error),
        }
    }

    pub fn set_target_height(&mut self, height: Option<u32>)
        ensures
            final(self).target_height() == height,
            final(self).planes() == old(self).planes(),
            final(self).told() == old(self).told(),
            final(self).made() == old(self).made(),
    {
        self.target_height = height;
    }

    /// The size of the stream for a source of `width` by `height`.
    pub fn target_dims(width: usize, height: usize, target_height: Option<u32>) -> (dims: (
        usize,
        usize,
    ))
        requires
            target_height matches Some(lines) ==> 2 <= lines && lines < height ==> width * even(
                lines as int,
            ) <= usize::MAX,
        ensures
            dims.0 == scaled_dims(width as int, height as int, target_height).0,
            dims.1 == scaled_dims(width as int, height as int, target_height).1,
    {
        match target_height {
            Some(target) => {
                if target >= 2 && (target as usize) < height {
                    let out_height: usize = make_even(target as usize);
                    let across: usize = make_even(width * out_height / height);
                    if across < 2 {
                        (2, out_height)
                    } else {
                        (across, out_height)
                    }
                } else {
                    (width, height)
                }
            },
            None => (width, height),
        }
    }

    /// Whether `encode` can bring a frame to the stream's size.
    pub fn can_scale(&self, rgba: &[u8], width: u32, height: u32) -> (can: bool)
        requires
            Self::well_sized(rgba@.len() as int, width, height),
        ensures
            can == self.scalable(rgba@, width, height),
    {
        let (w, h): (usize, usize) = (width as usize, height as usize);
        proof {
            assert(rgba.len() == rgba@.len());
            assert(0 <= width * height <= width * height * 4) by (nonlinear_arith)
                requires
                    0 <= width,
                    0 <= height,
            ;
            lemma_scaled_dims(width as int, height as int, self.target_height);
            lemma_full_frame(rgba@.len() as int, width as int, height as int);
        }
        let (to_w, to_h) = Self::target_dims(w, h, self.target_height);
        (to_w == w && to_h == h) || image_fits(rgba, w, h, to_w, to_h)
    }

    /// Checks a frame and turns it into planes of the stream's size, which it
    /// returns.
    pub fn prepare(&mut self, rgba: &[u8], width: u32, height: u32) -> (dims: Result<
        (usize, usize),
        String,
    >)
        requires
            Self::well_sized(rgba@.len() as int, width, height) ==> old(self).scalable(
                rgba@,
                width,
                height,
            ),
        ensures
            final(self).target_height() == old(self).target_height(),
            final(self).told() == old(self).told(),
            final(self).made() == old(self).made(),
            dims is Ok == Self::well_sized(rgba@.len() as int, width, height),
            match dims {
                Ok((w, h)) => {
                    &&& (w as int, h as int) == scaled_dims(
                        width as int,
                        height as int,
                        old(self).target_height(),
                    )
                    &&& final(self).planes() == old(self).source_planes(rgba@, width, height)
                    &&& final(self).planes().len() == i420_len(w as int, h as int)
                },
                Err(message) => {
                    &&& final(self).planes() == old(self).planes()
                    &&& message@ == if width % 2 != 0 || height % 2 != 0 {
                        "frame dimensions must be even"@
                    } else {
                        length_message(rgba@.len() as int, width, height)
                    }
                },
            },
    {
        if width % 2 != 0 || height % 2 != 0 {
            return Err("frame dimensions must be even".to_owned());
        }
        proof {
            assert(0 <= width * height * 4 <= u32::MAX * u32::MAX * 4) by (nonlinear_arith)
                requires
                    0 <= width <= u32::MAX,
                    0 <= height <= u32::MAX,
            ;
            assert(width * height * 4 == 4 * (width * height)) by (nonlinear_arith);
        }
        if rgba.len() as u128 != width as u128 * height as u128 * 4 {
            let mut message: String = "rgba buffer length ".to_owned();
            push_number(&mut message, rgba.len() as u64);
            message.append(" does not match ");
            push_number(&mut message, width as u64);
            message.append("x");
            push_number(&mut message, height as u64);
            return Err(message);
        }
        let src_width: usize = width as usize;
        let src_height: usize = height as usize;
        proof {
            lemma_scaled_dims(width as int, height as int, self.target_height);
            lemma_full_frame(rgba.len() as int, width as int, height as int);
        }
        let (to_width, to_height) = Self::target_dims(src_width, src_height, self.target_height);
        if to_width == src_width && to_height == src_height {
            rgba_to_i420(rgba, to_width, to_height, &mut self.planes);
        } else {
            rgba_to_i420_scaled(
                rgba,
                src_width,
                src_height,
                to_width,
                to_height,
                &mut self.planes,
            );
        }
        Ok((to_width, to_height))
    }

    /// Encodes a frame, scaled down to the stream's size. A frame that is refused before
    /// that is not handed to the encoder; else the result is what the encoder made of it.
    pub fn encode(&mut self, rgba: &[u8], width: u32, height: u32) -> (bitstream: Result<
        Vec<u8>,
        String,
    >)
        requires
            Self::well_sized(rgba@.len() as int, width, height) ==> old(self).scalable(
                rgba@,
                width,
                height,
            ),
        ensures
            final(self).target_height() == old(self).target_height(),
            if Self::well_sized(rgba@.len() as int, width, height) {
                let dims = scaled_dims(width as int, height as int, old(self).target_height());
                &&& final(self).planes() == old(self).source_planes(rgba@, width, height)
                &&& final(self).told() == old(self).told().push(
                    old(self).source_order(rgba@, width, height),
                )
                &&& final(self).made() == old(self).made().push(answer_of(bitstream))
                &&& too_large(dims.0, dims.1) && dims.0 <= i32::MAX && dims.1 <= i32::MAX
                    ==> bitstream is Err
            } else {
                &&& final(self).planes() == old(self).planes()
                &&& final(self).told() == old(self).told()
                &&& final(self).made() == old(self).made()
                &&& bitstream matches Err(message) && message@ == if width % 2 != 0 || height % 2
                    != 0 {
                    "frame dimensions must be even"@
                } else {
                    length_message(rgba@.len() as int, width, height)
                }
            },
    {
        let (width, height) = match self.prepare(rgba, width, height) {
            Ok(dims) => dims,
            Err(message) => {
                return Err(message);
            },
        };
        let half: usize = width / 2;
        proof {
            assert(width * height == height * width) by (nonlinear_arith);
            assert((width / 2) * (height / 2) == (height / 2) * half && 0 <= (width / 2) * (height
                / 2)) by (nonlinear_arith)
                requires
                    half == width / 2,
            ;
            assert(self.planes.len() == self.planes@.len());
        }
        let (y, rest) = self.planes.as_slice().split_at(width * height);
        let (u, v) = rest.split_at(half * (height / 2));
        proof {
            let order = picture_order(self.planes@, width as int, height as int);
            assert(order == Order::Picture {
                y: y@,
                u: u@,
                v: v@,
                width: width as int,
                height: height as int,
            });
        }
        encode_planes(&mut self.encoder, y, u, v, width, height, half)
    }

    /// Makes the next frame stand on its own, so that a receiver can start there.
    pub fn force_keyframe(&mut self)
        ensures
            final(self).told() == old(self).told().push(Order::Keyframe),
            final(self).made() == old(self).made(),
            final(self).planes() == old(self).planes(),
            final(self).target_height() == old(self).target_height(),
    {
        force_intra_frame(&mut self.encoder);
    }
}

/// Where the stream is scaled down, it is as high as asked for, in an even number, and has
/// the shape of the source up to rounding: one step wider, and it would be too wide. It is
/// at least two pixels wide. Else it has the size of the source.
pub proof fn law_stream_keeps_the_shape(width: int, height: int, target: Option<u32>)
    requires
        0 <= width,
        0 <= height,
    ensures
        ({
            let (w, h) = scaled_dims(width, height, target);
            match target {
                Some(lines) if 2 <= lines && lines < height => {
                    &&& w % 2 == 0 && h % 2 == 0
                    &&& h <= lines < h + 2
                    &&& 2 <= w
                    &&& w > 2 ==> w * height <= width * h
                    &&& width * h < (w + 2) * height
                },
                _ => w == width && h == height,
            }
        }),
{
    if let Some(lines) = target {
        if 2 <= lines && lines < height {
            let h = even(lines as int);
            let across = width * h / height;
            lemma_scaled_dims(width, height, target);
            vstd::arithmetic::div_mod::lemma_fundamental_div_mod(width * h, height);
            assert(across * height <= width * h < (across + 1) * height && 0 <= across)
                by (nonlinear_arith)
                requires
                    width * h == height * across + width * h % height,
                    0 <= width * h,
                    0 < height,
                    across == width * h / height,
            ;
            let w = scaled_dims(width, height, target).0;
            assert((across + 1) * height <= (w + 2) * height) by (nonlinear_arith)
                requires
                    across + 1 <= w + 2,
                    0 < height,
            ;
            if w > 2 {
                assert(w * height <= across * height) by (nonlinear_arith)
                    requires
                        w <= across,
                        0 < height,
                ;
            }
        }
    }
}

/// The planes of a picture are handed over whole and in their order: luma of every pixel,
/// and of each chroma a quarter as much.
pub proof fn law_planes_are_handed_over(planes: Seq<u8>, width: int, height: int)
    requires
        0 <= width,
        0 <= height,
        planes.len() == width * height + 2 * ((width / 2) * (height / 2)),
    ensures
        picture_order(planes, width, height) matches Order::Picture {
            y,
            u,
            v,
            width: w,
            height: h,
        } && y + u + v == planes && y.len() == width * height && u.len() == (width / 2) * (height
            / 2) && v.len() == u.len() && w == width && h == height,
{
    assert(0 <= width * height && 0 <= (width / 2) * (height / 2)) by (nonlinear_arith)
        requires
            0 <= width,
            0 <= height,
    ;
    let (luma, chroma) = (width * height, (width / 2) * (height / 2));
    assert(planes.take(luma) + planes.subrange(luma, luma + chroma) + planes.skip(luma + chroma)
        =~= planes);
}

/// A stream is made for 30 or for 60 frames a second, whichever is nearer to what is asked
/// for, and gets 4 or 6 Mbit/s for it. In all else streams are made alike.
pub proof fn law_settings_follow_the_rate(fps: u32, other: u32)
    ensures
        ({
            let (a, b) = (settings_for(fps), settings_for(other));
            &&& a.max_frame_rate == 30 && a.bitrate_bps == 4_000_000 && 2 * fps < 30 + 60
                || a.max_frame_rate == 60 && a.bitrate_bps == 6_000_000 && 2 * fps >= 30 + 60
            &&& fps <= other ==> a.max_frame_rate <= b.max_frame_rate && a.bitrate_bps
                <= b.bitrate_bps
            &&& a == (EncoderSettings {
                bitrate_bps: a.bitrate_bps,
                max_frame_rate: a.max_frame_rate,
                ..b
            })
            &&& a.usage == Usage::Camera && a.effort == Effort::Low
            &&& !a.skip_frames && !a.scene_change_detect && !a.adaptive_quantization
        }),
{
}

/// A frame of one colour goes to the encoder as a picture of that colour, of the stream's
/// size.
pub proof fn law_encoder_is_shown_the_colour(
    encoder: H264Encoder,
    rgba: Seq<u8>,
    width: u32,
    height: u32,
    same: Seq<u8>,
    r: u8,
    g: u8,
    b: u8,
)
    requires
        0 < width,
        0 < height,
        scaled_dims(width as int, height as int, encoder.target_height()).0 <= usize::MAX,
        one_colour(rgba, width * height, r, g, b),
        ({
            let (w, h) = scaled_dims(width as int, height as int, encoder.target_height());
            one_colour(same, w * h, r, g, b)
        }),
    ensures
        ({
            let (w, h) = scaled_dims(width as int, height as int, encoder.target_height());
            encoder.source_planes(rgba, width, height) == i420(same, w, h)
        }),
{
    let (w, h) = scaled_dims(width as int, height as int, encoder.target_height());
    law_stream_keeps_the_shape(width as int, height as int, encoder.target_height());
    let s = scaling_of(width as usize, height as usize, w as usize, h as usize);
    if (w, h) == (width as int, height as int) {
        law_one_colour_one_picture(rgba, same, w, h, r, g, b);
    } else {
        law_scaling_keeps_a_colour(s, rgba, same, r, g, b);
    }
}

/// A frame goes to the encoder as it is where the stream has its size.
pub proof fn law_full_size_is_not_scaled(
    encoder: H264Encoder,
    rgba: Seq<u8>,
    width: u32,
    height: u32,
)
    requires
        encoder.target_height() matches Some(lines) ==> lines >= height,
    ensures
        encoder.source_planes(rgba, width, height) == i420(rgba, width as int, height as int),
        encoder.source_order(rgba, width, height) == picture_order(
            i420(rgba, width as int, height as int),
            width as int,
            height as int,
        ),
{
}

/// A frame that is scaled goes to the encoder as its own pixels scaled, from its size to
/// that of the stream.
pub proof fn law_scaled_frame_shows_the_frame(
    encoder: H264Encoder,
    rgba: Seq<u8>,
    width: u32,
    height: u32,
)
    requires
        encoder.target_height() matches Some(lines) && 2 <= lines && lines < height,
        scaled_dims(width as int, height as int, encoder.target_height()).0 <= usize::MAX,
    ensures
        ({
            let (w, h) = scaled_dims(width as int, height as int, encoder.target_height());
            let s = crate::convert::Scaling {
                src_width: width as int,
                src_height: height as int,
                dst_width: w,
                dst_height: h,
            };
            &&& encoder.source_planes(rgba, width, height) == s.i420(rgba)
            &&& encoder.source_order(rgba, width, height) == picture_order(s.i420(rgba), w, h)
        }),
{
    law_stream_keeps_the_shape(width as int, height as int, encoder.target_height());
}

/// A frame is well sized where both dimensions are even and there are four bytes for each
/// pixel.
pub proof fn law_frames_have_four_bytes_a_pixel(len: int, width: u32, height: u32)
    ensures
        H264Encoder::well_sized(4 * (width * height), width, height) == (width % 2 == 0 && height
            % 2 == 0),
        H264Encoder::well_sized(len, width, height) ==> len == 4 * (width * height),
{
    assert(width * height * 4 == 4 * (width * height)) by (nonlinear_arith);
}

/// A frame of an ordinary screen can always be scaled to the stream's size.
pub proof fn law_ordinary_frames_can_be_scaled(
    encoder: H264Encoder,
    rgba: Seq<u8>,
    width: u32,
    height: u32,
)
    requires
        2 <= width <= 0xffff,
        2 <= height <= 0xffff,
        width % 2 == 0,
        height % 2 == 0,
        width * height <= 8_421_504,
    ensures
        encoder.scalable(rgba, width, height),
{
    let dims = scaled_dims(width as int, height as int, encoder.target_height());
    law_stream_is_even_and_no_larger(width as int, height as int, encoder.target_height());
    let s = scaling_of(width as usize, height as usize, dims.0 as usize, dims.1 as usize);
    law_screens_fit(s, rgba);
}

/// What is said of a buffer of the wrong length tells the length and the size.
pub proof fn law_length_and_size_are_told(len: nat, width: u32, height: u32)
    ensures
        occurs_in("length "@ + digits(len) + " "@, length_message(len as int, width, height)),
        occurs_in(
            " "@ + digits(width as nat) + "x"@ + digits(height as nat),
            length_message(len as int, width, height),
        ),
{
    reveal_strlit("rgba buffer length ");
    reveal_strlit("rgba buffer ");
    reveal_strlit("length ");
    reveal_strlit(" ");
    reveal_strlit(" does not match ");
    reveal_strlit("does not match ");
    reveal_strlit(" does not match");
    assert("rgba buffer length "@ =~= "rgba buffer "@ + "length "@);
    assert(" does not match "@ =~= " "@ + "does not match "@);
    assert(" does not match "@ =~= " does not match"@ + " "@);
    let message = length_message(len as int, width, height);
    let size = digits(width as nat) + "x"@ + digits(height as nat);
    let part = "length "@ + digits(len) + " "@;
    assert(message =~= "rgba buffer "@ + part + ("does not match "@ + size));
    law_parts_occur(part, message, "rgba buffer "@, "does not match "@ + size);
    let other = " "@ + digits(width as nat) + "x"@ + digits(height as nat);
    let front = "rgba buffer length "@ + digits(len) + " does not match"@;
    assert(message =~= front + other + Seq::<char>::empty());
    law_parts_occur(other, message, front, Seq::empty());
}

} // verus!
