//! Keeping the capture of a screen alive.
use vstd::prelude::*;

use crate::text::{joined_text, same};
use crate::time::{elapsed, span};

verus! {

/// How often frames are taken where nothing else was asked for, in microseconds.
pub const DEFAULT_CAPTURE_INTERVAL_MICROS: u64 = 33_000;

/// How long failures may go on before the capture counts as failed. Passing ones,
/// as when the composition of the desktop changes, mend themselves.
pub const MAX_FAILURE_WINDOW: u64 = 30_000_000_000;

/// A capture that was healthy for this long starts afresh at its next failure, so
/// that rare interruptions never add up.
pub const HEALTHY_PERIOD: u64 = 10_000_000_000;

/// The first pause between two attempts.
pub const RETRY_BACKOFF: u64 = 500_000_000;

/// The longest pause between two attempts.
pub const MAX_RETRY_BACKOFF: u64 = 2_000_000_000;

/// How long to rest while nobody wants frames.
pub const INACTIVE_SLEEP: u64 = 20_000_000;

/// How often a pause looks whether it is over.
pub const STOP_POLL: u64 = 20_000_000;

/// A screen that can be captured.
pub struct MonitorInfo {
    pub name: String,
    pub width: u32,
    pub height: u32,
    pub is_primary: bool,
}

impl Clone for MonitorInfo {
    fn clone(&self) -> (copy: Self)
        ensures
            copy == *self,
    {
        Self {
            name: self.name.clone(),
            width: self.width,
            height: self.height,
            is_primary: self.is_primary,
        }
    }
}

/// A captured picture, four bytes a pixel.
pub struct Frame {
    pub width: u32,
    pub height: u32,
    pub rgba: Vec<u8>,
}

/// The length of an interval in microseconds, at least one.
pub fn interval_micros(nanos: u64) -> (micros: u64)
    ensures
        micros == if nanos < 1_000 {
            1
        } else {
            nanos / 1_000
        },
        nanos >= 1_000 ==> micros * 1_000 <= nanos < (micros + 1) * 1_000,
        micros >= 1,
{
    if nanos < 1_000 {
        1
    } else {
        nanos / 1_000
    }
}

/// When the streak of failures began that a failure at `now` belongs to.
pub open spec fn streak_start(
    failed_since: Option<u64>,
    healthy_since: Option<u64>,
    now: u64,
) -> u64 {
    if healthy_since matches Some(start) && span(now, start) >= HEALTHY_PERIOD {
        now
    } else {
        match failed_since {
            Some(since) => since,
            None => now,
        }
    }
}

/// Registers a failure at `now`. True once the streak has lasted so long that it
/// counts as fatal.
pub fn failure_exhausted(
    failed_since: &mut Option<u64>,
    healthy_since: Option<u64>,
    now: u64,
) -> (fatal: bool)
    ensures
        *final(failed_since) == Some(streak_start(*old(failed_since), healthy_since, now)),
        fatal == (span(now, streak_start(*old(failed_since), healthy_since, now))
            >= MAX_FAILURE_WINDOW),
        *final(failed_since) matches Some(since) && (since == now || *old(failed_since) == Some(
            since,
        )) && fatal == (now >= since + 30_000_000_000),
{
    let healthy: bool = match healthy_since {
        Some(start) => elapsed(now, start) >= HEALTHY_PERIOD,
        None => false,
    };
    let since: u64 = match *failed_since {
        Some(since) if !healthy => since,
        _ => now,
    };
    *failed_since = Some(since);
    elapsed(now, since) >= MAX_FAILURE_WINDOW
}

/// The index of the screen with this name, the first of several. A screen may have
/// no name that can be read.
pub fn find_monitor(names: &Vec<Option<String>>, wanted: &str) -> (found: Result<usize, String>)
    ensures
        match found {
            Ok(index) => {
                &&& index < names@.len()
                &&& names@[index as int] matches Some(name) && name@ == wanted@
                &&& forall|j: int|
                    0 <= j < index ==> !(#[trigger] names@[j] matches Some(name) && name@
                        == wanted@)
            },
            Err(message) => {
                &&& message@ == "monitor '"@ + wanted@ + "' not found"@
                &&& forall|j: int|
                    0 <= j < names@.len() ==> !(#[trigger] names@[j] matches Some(name) && name@
                        == wanted@)
            },
        },
{
    let mut i: usize = 0;
    while i < names.len()
        invariant
            i <= names@.len(),
            forall|j: int|
                0 <= j < i ==> !(#[trigger] names@[j] matches Some(name) && name@ == wanted@),
        decreases names@.len() - i,
    {
        if let Some(name) = &names[i] {
            if same(name.as_str(), wanted) {
                return Ok(i);
            }
        }
        i += 1;
    }
    let mut message: String = joined_text("monitor '", wanted);
    message.append("' not found");
    Err(message)
}

/// What the capture does next.
pub enum PumpStep {
    /// Open a recorder.
    Open,
    /// Rest for this long, then open a recorder.
    Retry(u64),
    /// Report a fatal failure and leave.
    GiveUp(String),
    /// Leave.
    Finish,
}

/// Recovery from failures of the source: when the recorder dies or cannot be
/// opened, another one is opened after a pause that doubles each time.
pub struct Pump {
    pub failed_since: Option<u64>,
    pub connected_at: Option<u64>,
    pub backoff: u64,
}

/// The pause after a pause.
pub open spec fn doubled(backoff: u64) -> u64 {
    if backoff * 2 > MAX_RETRY_BACKOFF {
        MAX_RETRY_BACKOFF
    } else {
        (backoff * 2) as u64
    }
}

impl Pump {
    /// Whether a failure at `now` is fatal.
    pub open spec fn fatal(&self, now: u64) -> bool {
        span(now, streak_start(self.failed_since, self.connected_at, now)) >= MAX_FAILURE_WINDOW
    }

    pub fn new() -> (pump: Self)
        ensures
            pump == (Pump { failed_since: None, connected_at: None, backoff: RETRY_BACKOFF }),
    {
        Self { failed_since: None, connected_at: None, backoff: RETRY_BACKOFF }
    }

    /// Where a round begins.
    pub fn begin(stopped: bool) -> (step: PumpStep)
        ensures
            step == if stopped {
                PumpStep::Finish
            } else {
                PumpStep::Open
            },
    {
        if stopped {
            PumpStep::Finish
        } else {
            PumpStep::Open
        }
    }

    fn double_backoff(&mut self) -> (pause: u64)
        ensures
            pause == old(self).backoff,
            final(self).backoff == doubled(old(self).backoff),
            final(self).failed_since == old(self).failed_since,
            final(self).connected_at == old(self).connected_at,
    {
        let pause: u64 = self.backoff;
        self.backoff =
        if pause > MAX_RETRY_BACKOFF / 2 {
            MAX_RETRY_BACKOFF
        } else {
            pause * 2
        };
        pause
    }

    /// No recorder could be opened.
    pub fn open_failed(&mut self, reason: &str, now: u64) -> (step: PumpStep)
        ensures
            final(self).failed_since == Some(
                streak_start(old(self).failed_since, old(self).connected_at, now),
            ),
            final(self).connected_at == old(self).connected_at,
            if old(self).fatal(now) {
                step matches PumpStep::GiveUp(message) && message@ == "capture failed: "@ + reason@
                    && final(self).backoff == old(self).backoff
            } else {
                step == PumpStep::Retry(old(self).backoff) && final(self).backoff == doubled(
                    old(self).backoff,
                )
            },
    {
        if failure_exhausted(&mut self.failed_since, self.connected_at, now) {
            PumpStep::GiveUp(joined_text("capture failed: ", reason))
        } else {
            PumpStep::Retry(self.double_backoff())
        }
    }

    /// A recorder runs.
    pub fn opened(&mut self, now: u64)
        ensures
            *final(self) == (Pump {
                failed_since: old(self).failed_since,
                connected_at: Some(now),
                backoff: RETRY_BACKOFF,
            }),
    {
        self.connected_at = Some(now);
        self.backoff = RETRY_BACKOFF;
    }

    /// The recorder runs no more: it died, or was left.
    pub fn recorder_ended(&mut self, died: bool, stopped: bool, now: u64) -> (step: PumpStep)
        ensures
            if stopped || !died {
                step == PumpStep::Finish && *final(self) == *old(self)
            } else {
                &&& final(self).failed_since == Some(
                    streak_start(old(self).failed_since, old(self).connected_at, now),
                )
                &&& if old(self).fatal(now) {
                    &&& step matches PumpStep::GiveUp(message) && message@
                        == "capture stopped: the capture source did not recover"@
                    &&& final(self).connected_at == old(self).connected_at
                    &&& final(self).backoff == old(self).backoff
                } else {
                    &&& step == PumpStep::Retry(old(self).backoff)
                    &&& final(self).connected_at is None
                    &&& final(self).backoff == doubled(old(self).backoff)
                }
            },
    {
        if stopped || !died {
            return PumpStep::Finish;
        }
        if failure_exhausted(&mut self.failed_since, self.connected_at, now) {
            return PumpStep::GiveUp(
                "capture stopped: the capture source did not recover".to_owned(),
            );
        }
        self.connected_at = None;
        PumpStep::Retry(self.double_backoff())
    }
}

/// Pauses stay between the first and the longest one.
pub proof fn law_backoff_is_bounded(backoff: u64)
    requires
        RETRY_BACKOFF <= backoff <= MAX_RETRY_BACKOFF,
    ensures
        RETRY_BACKOFF <= doubled(backoff) <= MAX_RETRY_BACKOFF,
        backoff <= doubled(backoff),
{
}

/// A failure after a healthy stretch is never fatal, however long ago the streak
/// began.
pub proof fn law_health_forgives(pump: Pump, now: u64)
    requires
        pump.connected_at matches Some(start) && span(now, start) >= HEALTHY_PERIOD,
    ensures
        !pump.fatal(now),
{
}

/// The first failure of a streak is never fatal.
pub proof fn law_first_failure_is_forgiven(pump: Pump, now: u64)
    requires
        pump.failed_since is None,
    ensures
        !pump.fatal(now),
{
}

/// How long the next part of a pause lasts. None once it is over.
pub fn nap(now: u64, deadline: u64, stopped: bool) -> (part: Option<u64>)
    ensures
        part == if stopped || now >= deadline {
            None
        } else if deadline - now < STOP_POLL {
            Some((deadline - now) as u64)
        } else {
            Some(STOP_POLL)
        },
        part is None <==> stopped || now >= deadline,
        part matches Some(time) ==> 0 < time <= 20_000_000 && now + time <= deadline,
        part matches Some(time) ==> time == 20_000_000 || now + time == deadline,
{
    if stopped || now >= deadline {
        None
    } else if deadline - now < STOP_POLL {
        Some(deadline - now)
    } else {
        Some(STOP_POLL)
    }
}

/// What the pump of frames does next.
#[derive(Clone, Copy, Debug, PartialEq, Eq, Structural)]
pub enum PaceStep {
    /// Leave: the recorder died, or the session is over.
    Leave { died: bool },
    /// Rest a moment, then drop what came in meanwhile.
    Rest,
    /// Sleep for `sleep`, then wait for a frame for at most `target`.
    Take { sleep: u64, target: u64 },
}

/// What came of asking the recorder for a frame.
#[derive(Clone, Copy, Debug, PartialEq, Eq, Structural)]
pub enum Incoming {
    Frame,
    Nothing,
    Gone,
}

/// What came of handing a frame on.
#[derive(Clone, Copy, Debug, PartialEq, Eq, Structural)]
pub enum Outgoing {
    Sent,
    Full,
    Gone,
}

/// The pace at which frames are taken from a recorder.
pub struct Pacer {
    pub last: u64,
}

impl Pacer {
    /// A pacer that lets a first frame through at once: the last one counts as a
    /// second old.
    pub fn new(now: u64) -> (pacer: Self)
        requires
            now >= 1_000_000_000,
        ensures
            pacer.last == now - 1_000_000_000,
    {
        Self { last: now - 1_000_000_000 }
    }

    /// What to do now. `interval` is the time between two frames in microseconds.
    pub fn turn(&self, stopped: bool, active: bool, interval: u64, now: u64) -> (step: PaceStep)
        requires
            interval * 1_000 <= u64::MAX,
        ensures
            step == if stopped {
                PaceStep::Leave { died: false }
            } else if !active {
                PaceStep::Rest
            } else {
                let target = if interval < 1 {
                    1_000u64
                } else {
                    (interval * 1_000) as u64
                };
                let passed = span(now, self.last);
                PaceStep::Take {
                    sleep: if passed < target {
                        (target - passed) as u64
                    } else {
                        0
                    },
                    target,
                }
            },
            step matches PaceStep::Take { sleep, target } ==> {
                &&& !stopped && active
                &&& target == (if interval == 0 {
                    1_000
                } else {
                    1_000 * interval
                })
                &&& sleep <= target
                &&& now >= self.last ==> now + sleep >= self.last + target
                &&& now >= self.last && sleep > 0 ==> now + sleep == self.last + target
            },
    {
        if stopped {
            return PaceStep::Leave { died: false };
        }
        if !active {
            return PaceStep::Rest;
        }
        let target: u64 = if interval < 1 {
            1_000
        } else {
            interval * 1_000
        };
        let passed: u64 = elapsed(now, self.last);
        let sleep: u64 = if passed < target {
            target - passed
        } else {
            0
        };
        PaceStep::Take { sleep, target }
    }

    /// After a rest: what came in is dropped, and a recorder that died meanwhile is
    /// found out. Some step ends the pump.
    pub fn rested(&mut self, incoming: Incoming, now: u64) -> (end: Option<PaceStep>)
        ensures
            final(self).last == now,
            end == if incoming == Incoming::Gone {
                Some(PaceStep::Leave { died: true })
            } else {
                None
            },
    {
        self.last = now;
        match incoming {
            Incoming::Gone => Some(PaceStep::Leave { died: true }),
            _ => None,
        }
    }

    /// A frame came in at `now`.
    pub fn taken(&mut self, now: u64)
        ensures
            final(self).last == now,
    {
        self.last = now;
    }

    /// After waiting for a frame, and handing it on if there was one. A receiver that
    /// has not taken the last frame yet misses this one. Some step ends the pump.
    pub fn handed_on(incoming: Incoming, outgoing: Outgoing) -> (end: Option<PaceStep>)
        ensures
            end == match incoming {
                Incoming::Gone => Some(PaceStep::Leave { died: true }),
                Incoming::Nothing => None,
                Incoming::Frame => if outgoing == Outgoing::Gone {
                    Some(PaceStep::Leave { died: false })
                } else {
                    None
                },
            },
    {
        match incoming {
            Incoming::Gone => Some(PaceStep::Leave { died: true }),
            Incoming::Nothing => None,
            Incoming::Frame => match outgoing {
                Outgoing::Gone => Some(PaceStep::Leave { died: false }),
                _ => None,
            },
        }
    }
}

/// Notes a fatal error. The first one stays.
pub fn set_capture_error(slot: &mut Option<String>, message: String)
    ensures
        *final(slot) == if *old(slot) is None {
            Some(message)
        } else {
            *old(slot)
        },
{
    if slot.is_none() {
        *slot = Some(message);
    }
}

/// A failure is fatal thirty seconds after the streak of failures began that it belongs to.
/// A capture that has run for ten seconds by then begins a streak of its own.
pub proof fn law_thirty_seconds_of_failure_are_fatal(pump: Pump, now: u64)
    ensures
        ({
            let healthy = pump.connected_at matches Some(since) && now >= since + 10_000_000_000;
            &&& healthy || pump.failed_since is None ==> !pump.fatal(now) && streak_start(
                pump.failed_since,
                pump.connected_at,
                now,
            ) == now
            &&& !healthy ==> (pump.failed_since matches Some(since) ==> streak_start(
                pump.failed_since,
                pump.connected_at,
                now,
            ) == since && pump.fatal(now) == (now >= since + 30_000_000_000))
        }),
{
}

/// A pause is twice the one before, up to two seconds.
pub proof fn law_pauses_double(backoff: u64)
    ensures
        backoff <= 1_000_000_000 ==> doubled(backoff) == 2 * backoff,
        backoff >= 1_000_000_000 ==> doubled(backoff) == 2_000_000_000,
{
}

/// The pauses of a streak are half a second, a second, and two seconds from then on.
pub proof fn law_pauses_of_a_streak()
    ensures
        RETRY_BACKOFF == 500_000_000,
        doubled(RETRY_BACKOFF) == 1_000_000_000,
        doubled(doubled(RETRY_BACKOFF)) == 2_000_000_000,
        doubled(doubled(doubled(RETRY_BACKOFF))) == 2_000_000_000,
{
}

/// Frames are taken thirty times a second where nothing else was asked for, as near as
/// whole milliseconds allow from below. A rest, and a part of a pause, last a fiftieth of a
/// second.
pub proof fn law_capture_times()
    ensures
        30 * DEFAULT_CAPTURE_INTERVAL_MICROS <= 1_000_000,
        30 * (DEFAULT_CAPTURE_INTERVAL_MICROS + 1_000) > 1_000_000,
        DEFAULT_CAPTURE_INTERVAL_MICROS % 1_000 == 0,
        50 * INACTIVE_SLEEP == 1_000_000_000,
        50 * STOP_POLL == 1_000_000_000,
{
}

} // verus!
