//! Sharing a screen: the worker that encodes frames, and the session around it.
use vstd::prelude::*;

use crate::audio::FRAME_SAMPLES;
use crate::encode::{
    law_ordinary_frames_can_be_scaled, length_message, scaled_dims, too_large, H264Encoder, Order,
};
use crate::h264::timestamp_interval;
use crate::text::{trim, trimmed};
use crate::time::{elapsed, span};

verus! {

/// How often a frame is made to stand on its own, so that a receiver can start
/// there without asking.
pub const KEYFRAME_INTERVAL: u64 = 2_000_000_000;

/// What the worker is told.
pub enum EncodeMsg {
    Frame { rgba: Vec<u8>, width: u32, height: u32 },
    Quality { target_height: Option<u32> },
}

/// What the worker has done.
pub struct EncodeStats {
    pub frames_sent: u64,
    pub encode_errors: u64,
    pub error: Option<String>,
}

impl Default for EncodeStats {
    fn default() -> (stats: Self)
        ensures
            stats == (EncodeStats { frames_sent: 0, encode_errors: 0, error: None }),
    {
        Self { frames_sent: 0, encode_errors: 0, error: None }
    }
}

/// An error that is noted only where none is.
pub open spec fn noted(slot: Option<String>, error: String) -> Option<String> {
    if slot is None {
        Some(error)
    } else {
        slot
    }
}

/// Whether a stream of a source of this size is larger than the encoder takes.
pub open spec fn beyond_encoder(width: u32, height: u32, target: Option<u32>) -> bool {
    let dims = scaled_dims(width as int, height as int, target);
    too_large(dims.0, dims.1) && dims.0 <= i32::MAX && dims.1 <= i32::MAX
}

/// Encodes frames and gives them their times.
pub struct EncodeWorker {
    encoder: H264Encoder,
    interval: u32,
    timestamp: u32,
    last_keyframe: u64,
    stats: EncodeStats,
}

impl EncodeWorker {
    pub closed spec fn encoder(&self) -> H264Encoder {
        self.encoder
    }

    /// How far the timestamp moves with each frame.
    pub closed spec fn interval(&self) -> u32 {
        self.interval
    }

    /// The timestamp of the next frame.
    pub closed spec fn timestamp(&self) -> u32 {
        self.timestamp
    }

    pub closed spec fn last_keyframe(&self) -> u64 {
        self.last_keyframe
    }

    pub closed spec fn done(&self) -> EncodeStats {
        self.stats
    }

    /// Whether a message can be dealt with: a frame of the right size must fit the
    /// machine's integers when it is scaled.
    pub open spec fn can_take(&self, msg: EncodeMsg) -> bool {
        &&& self.done().encode_errors < u64::MAX
        &&& msg matches EncodeMsg::Frame { rgba, width, height } ==> H264Encoder::well_sized(
            rgba@.len() as int,
            width,
            height,
        ) ==> self.encoder().scalable(rgba@, width, height)
    }

    pub fn new(encoder: H264Encoder, frame_rate: u32, now: u64) -> (worker: Self)
        requires
            frame_rate > 0,
        ensures
            worker.encoder() == encoder,
            worker.interval() == 90_000u32 / frame_rate,
            worker.interval() * frame_rate <= 90_000 < (worker.interval() + 1) * frame_rate,
            worker.timestamp() == 0,
            worker.last_keyframe() == now,
            worker.done() == (EncodeStats { frames_sent: 0, encode_errors: 0, error: None }),
    {
        Self {
            encoder,
            interval: timestamp_interval(frame_rate),
            timestamp: 0,
            last_keyframe: now,
            stats: EncodeStats::default(),
        }
    }

    pub fn accepts(&self, msg: &EncodeMsg) -> (can: bool)
        ensures
            can == self.can_take(*msg),
    {
        if self.stats.encode_errors == u64::MAX {
            return false;
        }
        match msg {
            EncodeMsg::Frame { rgba, width, height } => {
                proof {
                    assert(0 <= *width * *height <= u32::MAX * u32::MAX) by (nonlinear_arith)
                        requires
                            0 <= *width <= u32::MAX,
                            0 <= *height <= u32::MAX,
                    ;
                }
                let pixels: u64 = *width as u64 * *height as u64;
                assert(*width * *height * 4 == 4 * (*width * *height)) by (nonlinear_arith);
                assert(rgba.len() == rgba@.len());
                let sized: bool = *width % 2 == 0 && *height % 2 == 0 && rgba.len() as u128
                    == pixels as u128 * 4;
                !sized || self.encoder.can_scale(rgba.as_slice(), *width, *height)
            },
            EncodeMsg::Quality { .. } => true,
        }
    }

    /// Deals with a message. A frame that could be encoded comes back as a bitstream
    /// with its timestamp; an error is counted and noted.
    pub fn handle(&mut self, msg: EncodeMsg, now: u64) -> (encoded: Option<(Vec<u8>, u32)>)
        requires
            old(self).can_take(msg),
        ensures
            final(self).interval() == old(self).interval(),
            final(self).done().frames_sent == old(self).done().frames_sent,
            match msg {
                EncodeMsg::Quality { target_height } => {
                    &&& encoded is None
                    &&& final(self).encoder().target_height() == target_height
                    &&& final(self).encoder().planes() == old(self).encoder().planes()
                    &&& final(self).encoder().told() == old(self).encoder().told().push(
                        Order::Keyframe,
                    )
                    &&& final(self).encoder().made() == old(self).encoder().made()
                    &&& final(self).timestamp() == old(self).timestamp()
                    &&& final(self).last_keyframe() == old(self).last_keyframe()
                    &&& final(self).done() == old(self).done()
                },
                EncodeMsg::Frame { rgba, width, height } => {
                    let sized = H264Encoder::well_sized(rgba@.len() as int, width, height);
                    &&& final(self).encoder().target_height() == old(
                        self,
                    ).encoder().target_height()
                    &&& final(self).encoder().planes() == if sized {
                        old(self).encoder().source_planes(rgba@, width, height)
                    } else {
                        old(self).encoder().planes()
                    }
                    &&& final(self).encoder().told() == old(self).encoder().told() + (if span(
                        now,
                        old(self).last_keyframe(),
                    ) >= KEYFRAME_INTERVAL {
                        seq![Order::Keyframe]
                    } else {
                        seq![]
                    }) + (if sized {
                        seq![old(self).encoder().source_order(rgba@, width, height)]
                    } else {
                        seq![]
                    })
                    &&& encoded is Some ==> !beyond_encoder(
                        width,
                        height,
                        old(self).encoder().target_height(),
                    )
                    &&& final(self).last_keyframe() == if span(now, old(self).last_keyframe())
                        >= KEYFRAME_INTERVAL {
                        now
                    } else {
                        old(self).last_keyframe()
                    }
                    &&& match encoded {
                        Some((bitstream, timestamp)) => {
                            &&& sized
                            &&& final(self).encoder().made() == old(self).encoder().made().push(
                                Ok(bitstream@),
                            )
                            &&& timestamp == old(self).timestamp()
                            &&& final(self).timestamp() == (old(self).timestamp() + old(
                                self,
                            ).interval()) % 0x1_0000_0000
                            &&& final(self).done() == old(self).done()
                        },
                        None => {
                            &&& final(self).timestamp() == old(self).timestamp()
                            &&& final(self).done().encode_errors == old(self).done().encode_errors
                                + 1
                            &&& final(self).done().error is Some
                            &&& old(self).done().error is Some ==> final(self).done().error == old(
                                self,
                            ).done().error
                            &&& if sized {
                                &&& final(self).encoder().made().len() > 0
                                &&& final(self).encoder().made().drop_last() == old(
                                    self,
                                ).encoder().made()
                                &&& final(self).encoder().made().last() matches Err(error) && (old(
                                    self,
                                ).done().error is None ==> final(self).done().error->0@ == error)
                            } else {
                                final(self).encoder().made() == old(self).encoder().made()
                            }
                            &&& !sized && old(self).done().error is None
                                ==> final(self).done().error->0@ == if width % 2 != 0 || height % 2
                                != 0 {
                                "frame dimensions must be even"@
                            } else {
                                length_message(rgba@.len() as int, width, height)
                            }
                        },
                    }
                },
            },
    {
        match msg {
            EncodeMsg::Quality { target_height } => {
                self.encoder.set_target_height(target_height);
                self.encoder.force_keyframe();
                None
            },
            EncodeMsg::Frame { rgba, width, height } => {
                if elapsed(now, self.last_keyframe) >= KEYFRAME_INTERVAL {
                    self.encoder.force_keyframe();
                    self.last_keyframe = now;
                }
                let outcome = self.encoder.encode(rgba.as_slice(), width, height);
                self.encoded(outcome)
            },
        }
    }

    /// Takes what the encoder made of a frame. A bitstream comes back with its timestamp;
    /// an error is counted, and noted where none is.
    pub fn encoded(&mut self, outcome: Result<Vec<u8>, String>) -> (packet: Option<(Vec<u8>, u32)>)
        requires
            old(self).done().encode_errors < u64::MAX,
        ensures
            final(self).encoder() == old(self).encoder(),
            final(self).interval() == old(self).interval(),
            final(self).last_keyframe() == old(self).last_keyframe(),
            match outcome {
                Ok(bitstream) => {
                    &&& (final(self).timestamp() - old(self).timestamp() - old(self).interval())
                        % 0x1_0000_0000 == 0
                    &&& packet == Some((bitstream, old(self).timestamp()))
                    &&& final(self).timestamp() == (old(self).timestamp() + old(self).interval())
                        % 0x1_0000_0000
                    &&& final(self).done() == old(self).done()
                },
                Err(error) => {
                    &&& packet is None
                    &&& final(self).timestamp() == old(self).timestamp()
                    &&& final(self).done() == (EncodeStats {
                        encode_errors: (old(self).done().encode_errors + 1) as u64,
                        error: noted(old(self).done().error, error),
                        ..old(self).done()
                    })
                },
            },
    {
        match outcome {
            Ok(bitstream) => {
                let timestamp: u32 = self.timestamp;
                self.timestamp = timestamp.wrapping_add(self.interval);
                Some((bitstream, timestamp))
            },
            Err(error) => {
                self.stats.encode_errors += 1;
                if self.stats.error.is_none() {
                    self.stats.error = Some(error);
                }
                None
            },
        }
    }

    /// Takes what came of sending a frame.
    pub fn sent(&mut self, outcome: Result<(), String>)
        requires
            old(self).done().frames_sent < u64::MAX,
        ensures
            final(self).encoder() == old(self).encoder(),
            final(self).interval() == old(self).interval(),
            final(self).timestamp() == old(self).timestamp(),
            final(self).last_keyframe() == old(self).last_keyframe(),
            final(self).done() == match outcome {
                Ok(()) => EncodeStats {
                    frames_sent: (old(self).done().frames_sent + 1) as u64,
                    ..old(self).done()
                },
                Err(error) => EncodeStats {
                    error: noted(old(self).done().error, error),
                    ..old(self).done()
                },
            },
    {
        match outcome {
            Ok(()) => {
                self.stats.frames_sent += 1;
            },
            Err(error) => {
                if self.stats.error.is_none() {
                    self.stats.error = Some(error);
                }
            },
        }
    }

    pub fn stats(&self) -> (stats: &EncodeStats)
        ensures
            *stats == self.done(),
    {
        &self.stats
    }

    /// Takes the error that was noted.
    pub fn take_error(&mut self) -> (error: Option<String>)
        ensures
            error == old(self).done().error,
            final(self).done() == (EncodeStats { error: None, ..old(self).done() }),
            final(self).encoder() == old(self).encoder(),
            final(self).interval() == old(self).interval(),
            final(self).timestamp() == old(self).timestamp(),
            final(self).last_keyframe() == old(self).last_keyframe(),
    {
        self.stats.error.take()
    }
}

/// A session in which the screen is shared with one other machine.
pub struct ShareSession {
    pub offer_code: Option<String>,
    pub answer_input: String,
    pub error: Option<String>,
    pub last_encode: u64,
    pub audio_on: bool,
    pub audio_error: Option<String>,
    pub audio_timestamp: u32,
    pub audio_frames_sent: u64,
    pub lan_peer: Option<String>,
}

impl ShareSession {
    /// Whether the next frame is to be encoded.
    pub open spec fn due(&self, connected: bool, interval: u64, now: u64) -> bool {
        connected && span(now, self.last_encode) >= interval
    }

    pub fn is_due(&self, connected: bool, interval: u64, now: u64) -> (due: bool)
        ensures
            due == self.due(connected, interval, now),
    {
        connected && elapsed(now, self.last_encode) >= interval
    }

    /// The answer code that was typed in. Where there is none, that is the error.
    pub fn answer_code(&mut self) -> (code: Option<String>)
        ensures
            match code {
                Some(text) => text@ == trimmed(old(self).answer_input@) && text@.len() > 0
                    && *final(self) == *old(self),
                None => {
                    &&& trimmed(old(self).answer_input@).len() == 0
                    &&& final(self).error matches Some(message) && message@
                        == "paste the viewer's answer code first"@
                    &&& *final(self) == (ShareSession { error: final(self).error, ..*old(self) })
                },
            },
    {
        let code: String = trim(self.answer_input.as_str());
        if code.as_str().unicode_len() == 0 {
            self.error = Some("paste the viewer's answer code first".to_owned());
            return None;
        }
        Some(code)
    }

    /// Takes what the connection said to the answer.
    pub fn answered(&mut self, outcome: Result<(), String>)
        ensures
            *final(self) == (ShareSession {
                error: match outcome {
                    Ok(()) => None,
                    Err(error) => Some(error),
                },
                ..*old(self)
            }),
    {
        match outcome {
            Ok(()) => {
                self.error = None;
            },
            Err(error) => {
                self.error = Some(error);
            },
        }
    }

    /// Takes an encoded stretch of sound: it goes out with its timestamp. An error ends
    /// the round.
    pub fn sound_encoded(&mut self, encoded: Result<Vec<u8>, String>) -> (packet: Option<
        (Vec<u8>, u32),
    >)
        ensures
            match encoded {
                Ok(data) => packet == Some((data, old(self).audio_timestamp)) && *final(self) == (
                ShareSession {
                    audio_timestamp: ((old(self).audio_timestamp + FRAME_SAMPLES)
                        % 0x1_0000_0000) as u32,
                    ..*old(self)
                }),
                Err(error) => packet is None && *final(self) == (ShareSession {
                    audio_error: Some(error),
                    ..*old(self)
                }),
            },
            encoded is Ok ==> (final(self).audio_timestamp - old(self).audio_timestamp - 960)
                % 0x1_0000_0000 == 0,
    {
        match encoded {
            Ok(data) => {
                let timestamp: u32 = self.audio_timestamp;
                self.audio_timestamp = timestamp.wrapping_add(FRAME_SAMPLES as u32);
                Some((data, timestamp))
            },
            Err(error) => {
                self.audio_error = Some(error);
                None
            },
        }
    }

    /// Takes what came of sending a stretch of sound. True if the round goes on.
    pub fn sound_sent(&mut self, outcome: Result<(), String>) -> (more: bool)
        requires
            old(self).audio_frames_sent < u64::MAX,
        ensures
            more == (outcome is Ok),
            *final(self) == match outcome {
                Ok(()) => ShareSession {
                    audio_frames_sent: (old(self).audio_frames_sent + 1) as u64,
                    ..*old(self)
                },
                Err(error) => ShareSession { audio_error: Some(error), ..*old(self) },
            },
    {
        match outcome {
            Ok(()) => {
                self.audio_frames_sent += 1;
                true
            },
            Err(error) => {
                self.audio_error = Some(error);
                false
            },
        }
    }
}

/// A frame is due once the time between two frames has passed since the last one, while the
/// other end is there.
pub proof fn law_frames_are_an_interval_apart(
    session: ShareSession,
    connected: bool,
    interval: u64,
    now: u64,
)
    requires
        interval > 0,
    ensures
        session.due(connected, interval, now) == (connected && now >= session.last_encode
            + interval),
{
}

/// The error that is noted first stays.
pub proof fn law_first_error_stays(slot: Option<String>, first: String, second: String)
    ensures
        slot is None ==> noted(slot, first) == Some(first),
        slot is Some ==> noted(slot, first) == slot,
        noted(noted(slot, first), second) == noted(slot, first),
{
}

/// A stream is larger than the encoder takes just where it does not fit into 3840 by 2160
/// pixels, whichever way round it lies.
pub proof fn law_encoder_takes_two_shapes(width: u32, height: u32)
    requires
        width <= i32::MAX,
        height <= i32::MAX,
    ensures
        beyond_encoder(width, height, None) == !((width <= 3840 && height <= 2160) || (width
            <= 2160 && height <= 3840)),
{
}

/// A worker takes every message on the quality, and every frame of an ordinary screen.
pub proof fn law_ordinary_messages_are_taken(
    worker: EncodeWorker,
    target_height: Option<u32>,
    rgba: Vec<u8>,
    width: u32,
    height: u32,
)
    requires
        worker.done().encode_errors < u64::MAX,
        2 <= width <= 0xffff,
        2 <= height <= 0xffff,
        width * height <= 8_421_504,
    ensures
        worker.can_take(EncodeMsg::Quality { target_height }),
        worker.can_take(EncodeMsg::Frame { rgba, width, height }),
{
    if H264Encoder::well_sized(rgba@.len() as int, width, height) {
        law_ordinary_frames_can_be_scaled(worker.encoder(), rgba@, width, height);
    }
}

/// A receiver that starts anew waits two seconds for a picture at most. The time of the
/// sound moves on by as many samples as a frame has.
pub proof fn law_share_times()
    ensures
        KEYFRAME_INTERVAL == 2 * 1_000_000_000,
        FRAME_SAMPLES == 960,
{
}

} // verus!
