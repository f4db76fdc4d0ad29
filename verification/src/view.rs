//! Watching the screen of another machine.
use vstd::prelude::*;

use crate::receive::ViewStats;
use crate::time::{elapsed, span};

verus! {

/// How long the quality of a stream is measured over: half a second, as soon as the time
/// is that in seconds of single precision, which round up the last sixteen nanoseconds.
pub const QUALITY_INTERVAL: u64 = 499_999_984;

/// How often a lost connection is asked for again.
pub const RECONNECT_INTERVAL: u64 = 3_000_000_000;

/// How often it is asked for at most.
pub const RECONNECT_ATTEMPTS: u32 = 5;

/// The size of a picture that is shown.
#[derive(Clone, Copy, Debug, PartialEq, Eq, Structural)]
pub struct Picture {
    pub width: u32,
    pub height: u32,
}

/// Where the measuring of a stream stands: when it was measured last, and what had
/// come in by then.
#[derive(Clone, Copy, Debug, PartialEq, Eq, Structural)]
pub struct Quality {
    pub last: u64,
    pub last_decoded: u64,
    pub last_bytes: u64,
    pub last_lost: u64,
    pub last_received: u64,
}

/// What has come in over a stretch of time.
#[derive(Clone, Copy, Debug, PartialEq, Eq, Structural)]
pub struct Sample {
    pub elapsed: u64,
    pub frames: u64,
    pub bytes: u64,
    pub lost: u64,
    pub received: u64,
}

/// `a` without `b`, and nothing where `b` is more.
pub open spec fn less(a: u64, b: u64) -> u64 {
    if a >= b {
        (a - b) as u64
    } else {
        0
    }
}

impl Quality {
    pub fn new(now: u64) -> (quality: Self)
        ensures
            quality == (Quality {
                last: now,
                last_decoded: 0,
                last_bytes: 0,
                last_lost: 0,
                last_received: 0,
            }),
    {
        Self { last: now, last_decoded: 0, last_bytes: 0, last_lost: 0, last_received: 0 }
    }

    /// What came in since the last time, if that is long enough ago. Sound does not
    /// count as received.
    pub fn measure(&mut self, stats: &ViewStats, now: u64) -> (sample: Option<Sample>)
        ensures
            if span(now, old(self).last) >= QUALITY_INTERVAL {
                let received = less(stats.packets, stats.audio_packets);
                &&& sample == Some(
                    Sample {
                        elapsed: span(now, old(self).last),
                        frames: less(stats.decoded, old(self).last_decoded),
                        bytes: less(stats.bytes, old(self).last_bytes),
                        lost: less(stats.lost, old(self).last_lost),
                        received: less(received, old(self).last_received),
                    },
                )
                &&& *final(self) == (Quality {
                    last: now,
                    last_decoded: stats.decoded,
                    last_bytes: stats.bytes,
                    last_lost: stats.lost,
                    last_received: received,
                })
            } else {
                sample is None && *final(self) == *old(self)
            },
            sample matches Some(taken) ==> {
                &&& old(self).last <= now ==> old(self).last + taken.elapsed == now
                &&& old(self).last_decoded <= stats.decoded ==> old(self).last_decoded
                    + taken.frames == stats.decoded
                &&& old(self).last_bytes <= stats.bytes ==> old(self).last_bytes + taken.bytes
                    == stats.bytes
                &&& old(self).last_lost <= stats.lost ==> old(self).last_lost + taken.lost
                    == stats.lost
                &&& stats.audio_packets <= stats.packets ==> final(self).last_received
                    + stats.audio_packets == stats.packets
                &&& old(self).last_received <= final(self).last_received ==> old(
                    self,
                ).last_received + taken.received == final(self).last_received
            },
    {
        let passed: u64 = elapsed(now, self.last);
        if passed < QUALITY_INTERVAL {
            return None;
        }
        let received: u64 = stats.packets.saturating_sub(stats.audio_packets);
        let sample = Sample {
            elapsed: passed,
            frames: stats.decoded.saturating_sub(self.last_decoded),
            bytes: stats.bytes.saturating_sub(self.last_bytes),
            lost: stats.lost.saturating_sub(self.last_lost),
            received: received.saturating_sub(self.last_received),
        };
        self.last = now;
        self.last_decoded = stats.decoded;
        self.last_bytes = stats.bytes;
        self.last_lost = stats.lost;
        self.last_received = received;
        Some(sample)
    }
}

/// How often a lost connection was asked for, and when the last time.
#[derive(Clone, Copy, Debug, PartialEq, Eq, Structural)]
pub struct Reconnect {
    pub attempts: u32,
    pub last_request: u64,
}

/// A session in which the screen of another machine is watched.
pub struct ViewSession {
    pub answer_code: Option<String>,
    pub error: Option<String>,
    pub texture: Option<Picture>,
    pub audio_on: bool,
    pub audio_error: Option<String>,
    pub quality: Quality,
    pub was_connected: bool,
    pub reconnect: Option<Reconnect>,
    pub lan_peer: Option<String>,
    pub peer_id: Option<String>,
}

/// What a lost connection calls for.
#[derive(Clone, Copy, Debug, PartialEq, Eq, Structural)]
pub enum Recovery {
    /// Nothing now.
    Wait,
    /// Ask for the connection again.
    Ask,
    /// It was asked for often enough.
    GiveUp,
}

impl ViewSession {
    /// Whether the connection to a machine of the network was there and is lost.
    pub open spec fn is_lost(&self, connected: bool) -> bool {
        self.was_connected && !connected && self.lan_peer is Some
    }

    /// The attempts so far, which begin at `now` where there are none.
    pub open spec fn attempts_at(&self, now: u64) -> Reconnect {
        match self.reconnect {
            Some(state) => state,
            None => Reconnect { attempts: 0, last_request: now },
        }
    }

    /// What a lost connection calls for at `now`.
    pub open spec fn recovery_at(&self, now: u64) -> Recovery {
        let state = self.attempts_at(now);
        if state.attempts >= RECONNECT_ATTEMPTS {
            Recovery::GiveUp
        } else if span(now, state.last_request) >= RECONNECT_INTERVAL {
            Recovery::Ask
        } else {
            Recovery::Wait
        }
    }

    /// Takes note whether the connection stands.
    pub fn note_connection(&mut self, connected: bool)
        ensures
            *final(self) == if connected {
                ViewSession { was_connected: true, reconnect: None, ..*old(self) }
            } else {
                *old(self)
            },
    {
        if connected {
            self.was_connected = true;
            self.reconnect = None;
        }
    }

    /// Deals with a connection that is lost: true if it is to be asked for again.
    pub fn recover(&mut self, connected: bool, now: u64) -> (ask: bool)
        ensures
            if !old(self).is_lost(connected) {
                !ask && *final(self) == *old(self)
            } else {
                let state = old(self).attempts_at(now);
                match old(self).recovery_at(now) {
                    Recovery::GiveUp => {
                        &&& !ask
                        &&& final(self).error is Some
                        &&& old(self).error is Some ==> final(self).error == old(self).error
                        &&& old(self).error is None ==> final(self).error->0@
                            == "Connection lost — reconnect attempts exhausted"@
                        &&& *final(self) == (ViewSession {
                            reconnect: Some(state),
                            error: final(self).error,
                            ..*old(self)
                        })
                    },
                    Recovery::Ask => {
                        &&& ask
                        &&& *final(self) == (ViewSession {
                            reconnect: Some(
                                Reconnect {
                                    attempts: (state.attempts + 1) as u32,
                                    last_request: now,
                                },
                            ),
                            ..*old(self)
                        })
                    },
                    Recovery::Wait => !ask && *final(self) == (ViewSession {
                        reconnect: Some(state),
                        ..*old(self)
                    }),
                }
            },
    {
        if !self.was_connected || connected || self.lan_peer.is_none() {
            return false;
        }
        let state = match self.reconnect {
            Some(state) => state,
            None => Reconnect { attempts: 0, last_request: now },
        };
        if state.attempts >= RECONNECT_ATTEMPTS {
            self.reconnect = Some(state);
            if self.error.is_none() {
                self.error = Some("Connection lost — reconnect attempts exhausted".to_owned());
            }
            false
        } else if elapsed(now, state.last_request) >= RECONNECT_INTERVAL {
            self.reconnect = Some(
                Reconnect { attempts: state.attempts + 1, last_request: now },
            );
            true
        } else {
            self.reconnect = Some(state);
            false
        }
    }

    /// Takes a picture of this size: true if the last one had the same size.
    pub fn show(&mut self, picture: Picture) -> (same_size: bool)
        ensures
            same_size == (old(self).texture == Some(picture)),
            *final(self) == (ViewSession { texture: Some(picture), ..*old(self) }),
    {
        let same_size: bool = match self.texture {
            Some(shown) => shown.width == picture.width && shown.height == picture.height,
            None => false,
        };
        self.texture = Some(picture);
        same_size
    }
}

/// A connection is asked for again at most five times in a row.
pub proof fn law_attempts_are_bounded(view: ViewSession, now: u64)
    requires
        view.attempts_at(now).attempts <= 5,
    ensures
        view.recovery_at(now) == Recovery::Ask ==> view.attempts_at(now).attempts + 1 <= 5,
{
}

/// A connection that has just been lost is not asked for at once.
pub proof fn law_first_attempt_waits(view: ViewSession, now: u64)
    requires
        view.reconnect is None,
    ensures
        view.recovery_at(now) == Recovery::Wait,
{
}

/// A lost connection is asked for again three seconds after the last time, five times; the
/// time begins where it is found lost. After that it is given up.
pub proof fn law_five_attempts_three_seconds_apart(view: ViewSession, now: u64)
    ensures
        view.reconnect is None ==> view.recovery_at(now) == Recovery::Wait && view.attempts_at(now)
            == (Reconnect { attempts: 0, last_request: now }),
        view.reconnect matches Some(state) ==> {
            &&& view.attempts_at(now) == state
            &&& view.recovery_at(now) == Recovery::GiveUp <==> state.attempts >= 5
            &&& view.recovery_at(now) == Recovery::Ask <==> state.attempts < 5 && now
                >= state.last_request + 3_000_000_000
            &&& view.recovery_at(now) == Recovery::Wait <==> state.attempts < 5 && now
                < state.last_request + 3_000_000_000
        },
{
}

/// Only a connection that stood, stands no more, and goes through the network counts as
/// lost.
pub proof fn law_lost_is_what_stood(view: ViewSession)
    ensures
        !view.is_lost(true),
        !view.was_connected || view.lan_peer is None ==> !view.is_lost(false),
        view.was_connected && view.lan_peer is Some ==> view.is_lost(false),
{
}

/// What is left of `a` and what was taken off make up `a`. More than there is cannot be
/// taken off.
pub proof fn law_less_and_taken_make_up_all(a: u64, b: u64)
    ensures
        b <= a ==> less(a, b) + b == a,
        a <= b ==> less(a, b) == 0,
{
}

/// The quality is measured over half a second, as single precision has it.
pub proof fn law_quality_is_measured_over_half_a_second()
    ensures
        500_000_000 - QUALITY_INTERVAL == 16,
{
}

} // verus!
