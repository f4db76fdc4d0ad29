//! What the window shows, and what each click and each message changes.
use vstd::arithmetic::div_mod::lemma_fundamental_div_mod_converse;
use vstd::prelude::*;

use crate::capture::MonitorInfo;
use crate::config::AppConfig;
use crate::lan::{law_messages_arrive, EventView, LanEvent, LanPeer, LanView};
use crate::receive::ViewStats;
use crate::share::{EncodeMsg, ShareSession};
use crate::text::{
    comes_before, digits, law_parts_occur, law_text_order_is_strict, law_text_order_is_total,
    law_text_order_is_transitive, lowercase, occurs_in, push_number, same, text_lt, trim, trimmed,
};
use crate::time::{elapsed, span};
use crate::view::{Picture, Quality, Reconnect, Recovery, Sample, ViewSession};

verus! {

/// How soon to draw again while something moves.
pub const BUSY_REPAINT: u64 = 16_000_000;

/// How soon to draw again while nothing does.
pub const IDLE_REPAINT: u64 = 250_000_000;

/// What the window shows.
pub enum Screen {
    Home,
    Share,
    Peer(String),
    View,
}

/// The state behind the window.
pub struct ArgosApp {
    pub config: AppConfig,
    pub screen: Screen,
    pub show_settings: bool,
    pub name_input: String,
    pub code_input: String,
    pub monitors: Vec<MonitorInfo>,
    pub selected_monitor: usize,
    pub capturing: bool,
    pub preview: Option<Picture>,
    pub preview_active: bool,
    pub fps_frames: u64,
    pub fps_last: u64,
    pub preview_error: Option<String>,
    pub share: Option<ShareSession>,
    pub share_error: Option<String>,
    pub share_height: Option<u32>,
    pub frame_rate: u32,
    pub live: bool,
    pub view: Option<ViewSession>,
    pub view_error: Option<String>,
    pub lan: bool,
    pub lan_error: Option<String>,
    pub pending_view: Option<String>,
    pub radmin_found: bool,
    pub radmin_error: Option<String>,
}

/// Whether a slot holds this id.
pub open spec fn holds_id(slot: Option<String>, id: Seq<char>) -> bool {
    slot matches Some(held) && held@ == id
}

fn is_id(slot: &Option<String>, id: &str) -> (yes: bool)
    ensures
        yes == holds_id(*slot, id@),
{
    match slot {
        Some(held) => same(held.as_str(), id),
        None => false,
    }
}

/// How long a frame lasts, in nanoseconds.
pub open spec fn interval_of(frame_rate: u32) -> u64 {
    let rate = if frame_rate < 1 {
        1int
    } else {
        frame_rate as int
    };
    (1_000_000int / rate * 1_000) as u64
}

/// What a message from another machine calls for.
pub enum LanAction {
    /// Nothing.
    Nothing,
    /// Offer the screen to this machine.
    Attach(String),
    /// Watch the screen that this machine offers.
    Watch { offer: String, peer: String },
    /// Hand the answer to the connection.
    Answer(String),
}

/// What is to be done on a message.
#[verifier::ext_equal]
pub enum ActionView {
    Nothing,
    Attach(Seq<char>),
    Watch { offer: Seq<char>, peer: Seq<char> },
    Answer(Seq<char>),
}

impl View for LanAction {
    type V = ActionView;

    open spec fn view(&self) -> ActionView {
        match self {
            LanAction::Nothing => ActionView::Nothing,
            LanAction::Attach(id) => ActionView::Attach(id@),
            LanAction::Watch { offer, peer } => ActionView::Watch { offer: offer@, peer: peer@ },
            LanAction::Answer(sdp) => ActionView::Answer(sdp@),
        }
    }
}

/// Where setting up a share can fail.
#[derive(Clone, Copy, Debug, PartialEq, Eq, Structural)]
pub enum AttachStage {
    Capture,
    Sharer,
    Offer,
    Encoder,
    Worker,
}

/// How many frames came in how much time.
#[derive(Clone, Copy, Debug, PartialEq, Eq, Structural)]
pub struct Rate {
    pub frames: u64,
    pub elapsed: u64,
}

/// How the preview changes with a frame: whether the picture keeps its size, and how
/// many frames come in, if it is time to tell.
#[derive(Clone, Copy, Debug, PartialEq, Eq, Structural)]
pub struct PreviewUpdate {
    pub same_size: bool,
    pub rate: Option<Rate>,
}

impl ArgosApp {
    /// The state once a capture was started, if one was.
    pub open spec fn with_capture(self, started: bool, now: u64) -> ArgosApp {
        if started {
            ArgosApp { capturing: true, fps_frames: 0, fps_last: now, ..self }
        } else {
            self
        }
    }

    /// The state once the preview was turned on or off.
    pub open spec fn toggled(self, started: Result<bool, String>, now: u64) -> ArgosApp {
        if self.preview_active {
            ArgosApp { preview_error: None, preview_active: false, preview: None, ..self }
        } else {
            match started {
                Ok(fresh) => ArgosApp {
                    preview_error: None,
                    preview_active: true,
                    ..self
                }.with_capture(fresh, now),
                Err(error) => ArgosApp { preview_error: Some(error), ..self },
            }
        }
    }

    /// The state once the screen was put on offer.
    pub open spec fn gone_live(self, started: Result<bool, String>, now: u64) -> ArgosApp {
        match started {
            Ok(fresh) => ArgosApp { share_error: None, live: true, ..self }.with_capture(
                fresh,
                now,
            ),
            Err(error) => ArgosApp { share_error: Some(error), ..self },
        }
    }

    /// The state once streaming was stopped.
    pub open spec fn stopped(self) -> ArgosApp {
        ArgosApp { share: None, live: false, share_error: None, ..self }
    }

    /// Whether a screen is shared or offered.
    pub open spec fn streaming(&self) -> bool {
        self.live || self.share is Some
    }

    /// Whether the other end of a share is there.
    pub open spec fn sharing(&self, connected: bool) -> bool {
        self.share is Some && connected
    }

    /// The state at the start. `lan` tells whether the network could be joined.
    pub fn new(
        config: AppConfig,
        lan: Result<(), String>,
        radmin_found: bool,
        now: u64,
    ) -> (app: Self)
        ensures
            app.config == config,
            app.screen == Screen::Home,
            !app.show_settings,
            app.name_input == config.name,
            app.code_input@.len() == 0,
            app.monitors@.len() == 0,
            app.selected_monitor == 0,
            !app.capturing,
            app.preview is None,
            !app.preview_active,
            app.fps_frames == 0,
            app.fps_last == now,
            app.preview_error is None,
            app.share is None,
            app.share_error is None,
            app.share_height == Some(720u32),
            app.frame_rate == 30,
            !app.live,
            app.view is None,
            app.view_error is None,
            app.lan == (lan is Ok),
            app.lan_error == match lan {
                Ok(()) => None,
                Err(error) => Some(error),
            },
            app.pending_view is None,
            app.radmin_found == radmin_found,
            app.radmin_error is None,
    {
        let (joined, lan_error) = match lan {
            Ok(()) => (true, None),
            Err(error) => (false, Some(error)),
        };
        Self {
            name_input: config.name.clone(),
            code_input: String::new(),
            monitors: Vec::new(),
            selected_monitor: 0,
            capturing: false,
            preview: None,
            preview_active: false,
            fps_frames: 0,
            fps_last: now,
            preview_error: None,
            share: None,
            share_error: None,
            share_height: Some(720),
            frame_rate: 30,
            live: false,
            view: None,
            view_error: None,
            lan: joined,
            lan_error,
            pending_view: None,
            radmin_found,
            radmin_error: None,
            config,
            screen: Screen::Home,
            show_settings: false,
        }
    }

    pub fn profile_label(&self) -> (label: String)
        ensures
            label@ == if self.config.name@.len() == 0 {
                "Set your name"@
            } else {
                self.config.name@
            },
    {
        if self.config.name.as_str().unicode_len() == 0 {
            "Set your name".to_owned()
        } else {
            self.config.name.clone()
        }
    }

    /// Goes to the first screen.
    pub fn go_home(&mut self)
        ensures
            *final(self) == (ArgosApp { screen: Screen::Home, ..*old(self) }),
    {
        self.screen = Screen::Home;
    }

    /// Goes to the screen on which the own screen is shared.
    pub fn go_share(&mut self)
        ensures
            *final(self) == (ArgosApp { screen: Screen::Share, ..*old(self) }),
    {
        self.screen = Screen::Share;
    }

    /// A click on a machine in the list: leads to its screen, if it shares one.
    pub fn peer_picked(&mut self, peer: &LanPeer)
        ensures
            *final(self) == if peer.sharing {
                ArgosApp { screen: Screen::Peer(peer.id), ..*old(self) }
            } else {
                *old(self)
            },
    {
        if peer.sharing {
            self.screen = Screen::Peer(peer.id.clone());
        }
    }

    /// Opens the profile with the name as it is.
    pub fn open_settings(&mut self)
        ensures
            *final(self) == (ArgosApp {
                name_input: old(self).config.name,
                show_settings: true,
                ..*old(self)
            }),
    {
        self.name_input = self.config.name.clone();
        self.show_settings = true;
    }

    /// The profile was drawn: `saved` if the name is to be kept, which is then given
    /// back, and `open` as the window itself says.
    pub fn settings_window(&mut self, saved: bool, open: bool) -> (name: Option<String>)
        ensures
            final(self).show_settings == open,
            if saved {
                &&& name matches Some(kept) && kept@ == trimmed(old(self).name_input@)
                    && final(self).config.name == kept
                &&& *final(self) == (ArgosApp {
                    config: final(self).config,
                    show_settings: open,
                    ..*old(self)
                })
            } else {
                &&& name is None
                &&& *final(self) == (ArgosApp { show_settings: open, ..*old(self) })
            },
    {
        self.show_settings = open;
        if !saved {
            return None;
        }
        let name: String = trim(self.name_input.as_str());
        self.config = AppConfig { name: name.clone() };
        Some(name)
    }

    /// Takes the screens that there are. The chosen one stays within them.
    pub fn refresh_monitors(&mut self, monitors: Vec<MonitorInfo>)
        ensures
            *final(self) == (ArgosApp {
                monitors,
                selected_monitor: if monitors@.len() == 0 || old(self).selected_monitor
                    < monitors@.len() {
                    old(self).selected_monitor
                } else {
                    (monitors@.len() - 1) as usize
                },
                ..*old(self)
            }),
            monitors@.len() > 0 ==> final(self).selected_monitor < monitors@.len(),
    {
        let count: usize = monitors.len();
        self.monitors = monitors;
        if count > 0 && self.selected_monitor >= count {
            self.selected_monitor = count - 1;
        }
    }

    pub fn monitor_label(info: &MonitorInfo) -> (label: String)
        ensures
            label@ == info.name@ + " ("@ + digits(info.width as nat) + "x"@ + digits(
                info.height as nat,
            ) + ")"@ + if info.is_primary {
                " [primary]"@
            } else {
                ""@
            },
    {
        let mut label: String = info.name.clone();
        label.append(" (");
        push_number(&mut label, info.width as u64);
        label.append("x");
        push_number(&mut label, info.height as u64);
        label.append(")");
        label.append(
            if info.is_primary {
                " [primary]"
            } else {
                ""
            },
        );
        label
    }

    pub fn quality_label(height: Option<u32>) -> (label: &'static str)
        ensures
            label@ == match height {
                Some(lines) => if lines == 720 {
                    "720p"@
                } else if lines == 540 {
                    "540p"@
                } else if lines == 360 {
                    "360p"@
                } else {
                    "Native"@
                },
                None => "Native"@,
            },
    {
        match height {
            Some(lines) => if lines == 720 {
                "720p"
            } else if lines == 540 {
                "540p"
            } else if lines == 360 {
                "360p"
            } else {
                "Native"
            },
            None => "Native",
        }
    }

    /// How long a frame lasts.
    pub fn frame_interval(&self) -> (interval: u64)
        ensures
            interval == interval_of(self.frame_rate),
    {
        let rate: u64 = if self.frame_rate < 1 {
            1
        } else {
            self.frame_rate as u64
        };
        assert(1_000_000u64 / rate <= 1_000_000) by (nonlinear_arith)
            requires
                rate >= 1,
        ;
        1_000_000 / rate * 1_000
    }

    /// The screen that a capture would be of.
    pub fn capture_source(&self) -> (source: Option<MonitorInfo>)
        ensures
            source == if self.selected_monitor < self.monitors@.len() {
                Some(self.monitors@[self.selected_monitor as int])
            } else {
                None
            },
    {
        if self.selected_monitor < self.monitors.len() {
            Some(self.monitors[self.selected_monitor].clone())
        } else {
            None
        }
    }

    fn capture_started(&mut self, now: u64)
        ensures
            *final(self) == old(self).with_capture(true, now),
    {
        self.fps_last = now;
        self.fps_frames = 0;
        self.capturing = true;
    }

    /// Whether a capture has to be started before `toggle_preview`.
    pub fn preview_needs_capture(&self) -> (needs: bool)
        ensures
            needs == (!self.preview_active && !self.capturing),
    {
        !self.preview_active && !self.capturing
    }

    /// Turns the preview on or off. `started` tells whether a capture was started for
    /// it, or why that failed.
    pub fn toggle_preview(&mut self, started: Result<bool, String>, now: u64)
        ensures
            *final(self) == old(self).toggled(started, now),
    {
        self.preview_error = None;
        if self.preview_active {
            self.preview_active = false;
            self.preview = None;
            return;
        }
        match started {
            Ok(fresh) => {
                if fresh {
                    self.capture_started(now);
                }
                self.preview_active = true;
            },
            Err(error) => {
                self.preview_error = Some(error);
            },
        }
    }

    /// Begins to set up a share. True if one stood before, which is to be closed.
    pub fn attach_begin(&mut self) -> (close: bool)
        ensures
            close == (old(self).share is Some),
            *final(self) == (ArgosApp { share_error: None, share: None, ..*old(self) }),
    {
        self.share_error = None;
        self.share.take().is_some()
    }

    /// A capture was started for the share, or there was one.
    pub fn attach_captured(&mut self, started: bool, now: u64)
        ensures
            *final(self) == old(self).with_capture(started, now),
    {
        if started {
            self.capture_started(now);
        }
    }

    /// Setting up the share failed. True if the connection that was made for it is to
    /// be closed.
    pub fn attach_failed(&mut self, stage: AttachStage, error: String) -> (close: bool)
        ensures
            close == (stage == AttachStage::Encoder || stage == AttachStage::Worker),
            *final(self) == (ArgosApp { share_error: Some(error), ..*old(self) }),
    {
        self.share_error = Some(error);
        match stage {
            AttachStage::Encoder | AttachStage::Worker => true,
            _ => false,
        }
    }

    /// Where the offer goes: to the machine that it is for if the network is there,
    /// with nothing to show; else it is shown.
    pub fn route_offer(&self, peer: &Option<String>, offer: String) -> (route: (
        Option<(String, String)>,
        Option<String>,
    ))
        ensures
            match peer {
                Some(id) => {
                    &&& route.1 is None
                    &&& route.0 == if self.lan {
                        Some((*id, offer))
                    } else {
                        None
                    }
                },
                None => route.0 is None && route.1 == Some(offer),
            },
    {
        match peer {
            Some(id) => if self.lan {
                (Some((id.clone(), offer)), None)
            } else {
                (None, None)
            },
            None => (None, Some(offer)),
        }
    }

    /// The share stands. Sound is shared if it can be both captured and encoded. True
    /// if the network is to be told.
    pub fn attach_done(
        &mut self,
        peer: Option<String>,
        offer_code: Option<String>,
        audio_capture: Result<(), String>,
        audio_encoder: Result<(), String>,
        now: u64,
    ) -> (announce: bool)
        ensures
            announce == (peer is Some && old(self).lan),
            final(self).share matches Some(share) && {
                &&& share.offer_code == offer_code
                &&& share.answer_input@.len() == 0
                &&& share.error is None
                &&& share.last_encode == now
                &&& share.audio_on == (audio_capture is Ok && audio_encoder is Ok)
                &&& share.audio_error == match audio_capture {
                    Err(error) => Some(error),
                    Ok(()) => match audio_encoder {
                        Err(error) => Some(error),
                        Ok(()) => None,
                    },
                }
                &&& share.audio_timestamp == 0
                &&& share.audio_frames_sent == 0
                &&& share.lan_peer == peer
            },
            *final(self) == (ArgosApp { share: final(self).share, ..*old(self) }),
    {
        let (audio_on, audio_error) = match (audio_capture, audio_encoder) {
            (Ok(()), Ok(())) => (true, None),
            (Err(error), _) => (false, Some(error)),
            (Ok(()), Err(error)) => (false, Some(error)),
        };
        let announce: bool = peer.is_some() && self.lan;
        self.share = Some(
            ShareSession {
                offer_code,
                answer_input: String::new(),
                error: None,
                last_encode: now,
                audio_on,
                audio_error,
                audio_timestamp: 0,
                audio_frames_sent: 0,
                lan_peer: peer,
            },
        );
        announce
    }

    /// A click to go live, which is there to be made only while nothing is streamed: else
    /// nothing happens. `started` and the result are those of `go_live`.
    pub fn live_clicked(&mut self, started: Result<bool, String>, now: u64) -> (announce: bool)
        ensures
            if old(self).streaming() {
                !announce && *final(self) == *old(self)
            } else {
                &&& announce == (started is Ok && old(self).lan)
                &&& *final(self) == old(self).gone_live(started, now)
            },
    {
        if self.is_streaming() {
            false
        } else {
            self.go_live(started, now)
        }
    }

    /// Goes live. `started` tells whether a capture was started for it, or why that
    /// failed. True if the network is to be told.
    pub fn go_live(&mut self, started: Result<bool, String>, now: u64) -> (announce: bool)
        ensures
            announce == (started is Ok && old(self).lan),
            *final(self) == old(self).gone_live(started, now),
    {
        self.share_error = None;
        match started {
            Ok(fresh) => {
                if fresh {
                    self.capture_started(now);
                }
                self.live = true;
                self.lan
            },
            Err(error) => {
                self.share_error = Some(error);
                false
            },
        }
    }

    /// Stops streaming. True first if a share is to be closed, then if the network is
    /// to be told.
    pub fn stop_live(&mut self) -> (close_and_announce: (bool, bool))
        ensures
            close_and_announce == (old(self).share is Some, old(self).lan),
            *final(self) == old(self).stopped(),
    {
        let close: bool = self.share.take().is_some();
        self.live = false;
        self.share_error = None;
        (close, self.lan)
    }

    /// Whether frames are wanted. Where they are not, the preview is dropped.
    pub fn update_capture_active(&mut self, connected: bool) -> (active: bool)
        ensures
            active == (old(self).preview_active || old(self).sharing(connected)),
            *final(self) == if active {
                *old(self)
            } else {
                ArgosApp { preview: None, ..*old(self) }
            },
    {
        let active: bool = self.preview_active || (self.share.is_some() && connected);
        if !active {
            self.preview = None;
        }
        active
    }

    /// Begins to watch an offered screen. None where there is no offer; else true if
    /// another one was watched before, which is to be closed.
    pub fn start_view(&mut self, offer: &str) -> (close: Option<bool>)
        ensures
            match close {
                Some(stood) => {
                    &&& offer@.len() > 0
                    &&& stood == (old(self).view is Some)
                    &&& *final(self) == (ArgosApp { view_error: None, view: None, ..*old(self) })
                },
                None => {
                    &&& offer@.len() == 0
                    &&& final(self).view_error matches Some(message) && message@
                        == "paste a connection code from the sharer first"@
                    &&& *final(self) == (ArgosApp {
                        view_error: final(self).view_error,
                        ..*old(self)
                    })
                },
            },
    {
        if offer.unicode_len() == 0 {
            self.view_error = Some("paste a connection code from the sharer first".to_owned());
            return None;
        }
        self.view_error = None;
        Some(self.view.take().is_some())
    }

    /// The connection to watch by could not be made.
    pub fn view_failed(&mut self, error: String)
        ensures
            *final(self) == (ArgosApp { view_error: Some(error), ..*old(self) }),
    {
        self.view_error = Some(error);
    }

    /// The connection to watch by stands. The answer goes to the machine that made the
    /// offer if the network is there, and is shown if it came from nobody known.
    pub fn view_ready(
        &mut self,
        answer: String,
        peer: Option<String>,
        audio: Result<(), String>,
        now: u64,
    ) -> (send: Option<(String, String)>)
        ensures
            send == match peer {
                Some(id) => if old(self).lan {
                    Some((id, answer))
                } else {
                    None
                },
                None => None,
            },
            final(self).view == Some(
                ViewSession {
                    answer_code: if peer is None {
                        Some(answer)
                    } else {
                        None
                    },
                    error: None,
                    texture: None,
                    audio_on: audio is Ok,
                    audio_error: match audio {
                        Ok(()) => None,
                        Err(error) => Some(error),
                    },
                    quality: Quality {
                        last: now,
                        last_decoded: 0,
                        last_bytes: 0,
                        last_lost: 0,
                        last_received: 0,
                    },
                    was_connected: false,
                    reconnect: None,
                    lan_peer: peer,
                    peer_id: peer,
                },
            ),
            *final(self) == (ArgosApp { view: final(self).view, ..*old(self) }),
    {
        let (audio_on, audio_error) = match audio {
            Ok(()) => (true, None),
            Err(error) => (false, Some(error)),
        };
        let (send, answer_code) = match &peer {
            Some(id) => if self.lan {
                (Some((id.clone(), answer)), None)
            } else {
                (None, None)
            },
            None => (None, Some(answer)),
        };
        let peer_id = match &peer {
            Some(id) => Some(id.clone()),
            None => None,
        };
        self.view = Some(
            ViewSession {
                answer_code,
                error: None,
                texture: None,
                audio_on,
                audio_error,
                quality: Quality::new(now),
                was_connected: false,
                reconnect: None,
                lan_peer: peer,
                peer_id,
            },
        );
        send
    }

    /// Asks a machine for its screen. True if the network is there to ask by.
    pub fn request_view(&mut self, id: &str) -> (send: bool)
        ensures
            send == old(self).lan,
            final(self).pending_view matches Some(asked) && asked@ == id@,
            *final(self) == (ArgosApp {
                view_error: None,
                pending_view: final(self).pending_view,
                ..*old(self)
            }),
    {
        self.view_error = None;
        self.pending_view = Some(id.to_owned());
        self.lan
    }

    /// Stops watching. True if a connection is to be closed.
    pub fn stop_view(&mut self) -> (close: bool)
        ensures
            close == (old(self).view is Some),
            *final(self) == (ArgosApp {
                view: None,
                pending_view: None,
                view_error: None,
                screen: Screen::Home,
                ..*old(self)
            }),
    {
        let close: bool = self.view.take().is_some();
        self.pending_view = None;
        self.view_error = None;
        self.screen = Screen::Home;
        close
    }

    /// Whether this is the machine that is watched.
    pub open spec fn watches(&self, id: Seq<char>) -> bool {
        self.view matches Some(view) && holds_id(view.peer_id, id)
    }

    pub fn is_watching(&self, id: &str) -> (yes: bool)
        ensures
            yes == self.watches(id@),
    {
        match &self.view {
            Some(view) => is_id(&view.peer_id, id),
            None => false,
        }
    }

    /// Whether the watched screen can be seen.
    pub fn view_visible(&self) -> (visible: bool)
        ensures
            visible == match self.screen {
                Screen::Peer(id) => self.watches(id@),
                Screen::View => self.view is Some,
                _ => false,
            },
    {
        match &self.screen {
            Screen::Peer(id) => self.is_watching(id.as_str()),
            Screen::View => self.view.is_some(),
            _ => false,
        }
    }

    /// What a message from another machine calls for. A request counts only while live
    /// and not taken; an offer only if it was asked for; an answer only from the
    /// machine that the screen was offered to.
    pub open spec fn action_for(&self, event: EventView, connected: bool) -> ActionView {
        match event {
            EventView::Request { id, .. } => if self.live && !self.sharing(connected) {
                ActionView::Attach(id)
            } else {
                ActionView::Nothing
            },
            EventView::Offer { id, sdp } => if holds_id(self.pending_view, id) {
                ActionView::Watch { offer: sdp, peer: id }
            } else {
                ActionView::Nothing
            },
            EventView::Answer { id, sdp } => if self.share matches Some(share) && holds_id(
                share.lan_peer,
                id,
            ) {
                ActionView::Answer(sdp)
            } else {
                ActionView::Nothing
            },
        }
    }

    /// Tells what a message from another machine calls for. An offer that is taken was
    /// asked for no longer.
    pub fn lan_event(&mut self, event: LanEvent, connected: bool) -> (action: LanAction)
        ensures
            action@ == old(self).action_for(event@, connected),
            *final(self) == if action is Watch {
                ArgosApp { pending_view: None, ..*old(self) }
            } else {
                *old(self)
            },
    {
        match event {
            LanEvent::Request { id, name: _ } => {
                let busy: bool = self.share.is_some() && connected;
                if self.live && !busy {
                    LanAction::Attach(id)
                } else {
                    LanAction::Nothing
                }
            },
            LanEvent::Offer { id, sdp } => {
                if is_id(&self.pending_view, id.as_str()) {
                    self.pending_view = None;
                    LanAction::Watch { offer: sdp, peer: id }
                } else {
                    LanAction::Nothing
                }
            },
            LanEvent::Answer { id, sdp } => {
                let expected: bool = match &self.share {
                    Some(share) => is_id(&share.lan_peer, id.as_str()),
                    None => false,
                };
                if expected {
                    LanAction::Answer(sdp)
                } else {
                    LanAction::Nothing
                }
            },
        }
    }
}

/// What comes of a look at the capture.
#[derive(Clone, Copy, Debug, PartialEq, Eq, Structural)]
pub struct CaptureUpdate {
    /// How the preview changes, if there is one and a frame.
    pub preview: Option<PreviewUpdate>,
    /// Whether the frame is to be encoded.
    pub encode: bool,
}

impl ArgosApp {
    /// Whether the next frame is to be encoded for a share.
    pub open spec fn encode_due(&self, connected: bool, now: u64) -> bool {
        self.share matches Some(share) && share.due(connected, interval_of(self.frame_rate), now)
    }

    /// Whether a frame is wanted now.
    pub open spec fn frame_due(&self, connected: bool, now: u64) -> bool {
        self.preview_active || self.encode_due(connected, now)
    }

    pub fn wants_frame(&self, connected: bool, now: u64) -> (wants: bool)
        ensures
            wants == self.frame_due(connected, now),
    {
        if self.preview_active {
            return true;
        }
        match &self.share {
            Some(share) => share.is_due(connected, self.frame_interval(), now),
            None => false,
        }
    }

    /// The state once a failed capture was noted: where the preview is on, and where a
    /// screen is shared, unless something was noted there before.
    pub open spec fn with_capture_error(self, error: Option<String>) -> ArgosApp {
        match error {
            None => self,
            Some(message) => ArgosApp {
                preview_error: if self.preview_active && self.preview_error is None {
                    Some(message)
                } else {
                    self.preview_error
                },
                share: match self.share {
                    Some(share) => if share.error is None {
                        Some(ShareSession { error: Some(message), ..share })
                    } else {
                        self.share
                    },
                    None => None,
                },
                ..self
            },
        }
    }

    /// The state once a frame was put into the preview. The frames are counted afresh
    /// every second.
    pub open spec fn with_preview(self, picture: Picture, now: u64) -> ArgosApp {
        if !self.preview_active {
            self
        } else {
            let full = span(now, self.fps_last) >= 1_000_000_000;
            ArgosApp {
                preview: Some(picture),
                fps_frames: if full {
                    0
                } else {
                    (self.fps_frames + 1) as u64
                },
                fps_last: if full {
                    now
                } else {
                    self.fps_last
                },
                ..self
            }
        }
    }

    /// The state once a frame was handed to the encoder, if that is due.
    pub open spec fn with_encode(self, connected: bool, now: u64) -> ArgosApp {
        if self.encode_due(connected, now) {
            ArgosApp {
                share: Some(ShareSession { last_encode: now, ..self.share->0 }),
                ..self
            }
        } else {
            self
        }
    }

    /// Looks at the capture: `error` if it has failed for good, and the size of the
    /// frame if there is one. Nothing happens unless a frame is wanted.
    pub fn poll_capture(
        &mut self,
        connected: bool,
        error: Option<String>,
        frame: Option<Picture>,
        now: u64,
    ) -> (update: CaptureUpdate)
        requires
            old(self).fps_frames < u64::MAX,
        ensures
            if !old(self).frame_due(connected, now) {
                &&& update == (CaptureUpdate { preview: None, encode: false })
                &&& *final(self) == *old(self)
            } else {
                let failed = old(self).with_capture_error(error);
                match frame {
                    None => {
                        &&& update == (CaptureUpdate { preview: None, encode: false })
                        &&& *final(self) == failed
                    },
                    Some(picture) => {
                        &&& *final(self) == failed.with_preview(picture, now).with_encode(
                            connected,
                            now,
                        )
                        &&& update.encode == old(self).encode_due(connected, now)
                        &&& update.preview == if old(self).preview_active {
                            Some(
                                PreviewUpdate {
                                    same_size: old(self).preview == Some(picture),
                                    rate: if span(now, old(self).fps_last) >= 1_000_000_000 {
                                        Some(
                                            Rate {
                                                frames: (old(self).fps_frames + 1) as u64,
                                                elapsed: span(now, old(self).fps_last),
                                            },
                                        )
                                    } else {
                                        None
                                    },
                                },
                            )
                        } else {
                            None
                        }
                    },
                }
            },
    {
        if !self.wants_frame(connected, now) {
            return CaptureUpdate { preview: None, encode: false };
        }
        if let Some(message) = error {
            self.capture_failed(message);
        }
        let picture = match frame {
            Some(picture) => picture,
            None => {
                return CaptureUpdate { preview: None, encode: false };
            },
        };
        let preview = if self.preview_active {
            Some(self.preview_frame(picture, now))
        } else {
            None
        };
        let encode: bool = self.encode_now(connected, now);
        CaptureUpdate { preview, encode }
    }

    fn capture_failed(&mut self, message: String)
        ensures
            *final(self) == old(self).with_capture_error(Some(message)),
    {
        if self.preview_active && self.preview_error.is_none() {
            self.preview_error = Some(message.clone());
        }
        if let Some(mut share) = self.share.take() {
            if share.error.is_none() {
                share.error = Some(message);
            }
            self.share = Some(share);
        }
    }

    fn preview_frame(&mut self, picture: Picture, now: u64) -> (update: PreviewUpdate)
        requires
            old(self).preview_active,
            old(self).fps_frames < u64::MAX,
        ensures
            *final(self) == old(self).with_preview(picture, now),
            update == (PreviewUpdate {
                same_size: old(self).preview == Some(picture),
                rate: if span(now, old(self).fps_last) >= 1_000_000_000 {
                    Some(
                        Rate {
                            frames: (old(self).fps_frames + 1) as u64,
                            elapsed: span(now, old(self).fps_last),
                        },
                    )
                } else {
                    None
                },
            }),
    {
        self.fps_frames += 1;
        let passed: u64 = elapsed(now, self.fps_last);
        let rate = if passed >= 1_000_000_000 {
            let frames: u64 = self.fps_frames;
            self.fps_frames = 0;
            self.fps_last = now;
            Some(Rate { frames, elapsed: passed })
        } else {
            None
        };
        let same_size: bool = match self.preview {
            Some(shown) => shown.width == picture.width && shown.height == picture.height,
            None => false,
        };
        self.preview = Some(picture);
        PreviewUpdate { same_size, rate }
    }

    fn encode_now(&mut self, connected: bool, now: u64) -> (encode: bool)
        ensures
            encode == old(self).encode_due(connected, now),
            *final(self) == old(self).with_encode(connected, now),
    {
        let interval: u64 = self.frame_interval();
        let mut encode: bool = false;
        if let Some(mut share) = self.share.take() {
            if share.is_due(connected, interval, now) {
                share.last_encode = now;
                encode = true;
            }
            self.share = Some(share);
        }
        encode
    }

    /// Takes the error that the encoding worker has noted.
    pub fn worker_failed(&mut self, error: Option<String>)
        ensures
            *final(self) == if error is Some && old(self).share is Some {
                ArgosApp {
                    share: Some(ShareSession { error, ..old(self).share->0 }),
                    ..*old(self)
                }
            } else {
                *old(self)
            },
    {
        if let Some(message) = error {
            if let Some(mut share) = self.share.take() {
                share.error = Some(message);
                self.share = Some(share);
            }
        }
    }

    /// Looks at the connection by which a screen is watched, and at what has come in.
    pub fn poll_view(&mut self, connected: bool, stats: &ViewStats, now: u64) -> (sample: Option<
        Sample,
    >)
        ensures
            old(self).view is None ==> sample is None && *final(self) == *old(self),
            old(self).view matches Some(view) ==> {
                let due = span(now, view.quality.last) >= crate::view::QUALITY_INTERVAL;
                let received = crate::view::less(stats.packets, stats.audio_packets);
                let noted = if connected {
                    ViewSession { was_connected: true, reconnect: None, ..view }
                } else {
                    view
                };
                &&& *final(self) == (ArgosApp {
                    view: Some(
                        ViewSession {
                            quality: if due {
                                Quality {
                                    last: now,
                                    last_decoded: stats.decoded,
                                    last_bytes: stats.bytes,
                                    last_lost: stats.lost,
                                    last_received: received,
                                }
                            } else {
                                view.quality
                            },
                            ..noted
                        },
                    ),
                    ..*old(self)
                })
                &&& sample == if due {
                    Some(
                        Sample {
                            elapsed: span(now, view.quality.last),
                            frames: crate::view::less(stats.decoded, view.quality.last_decoded),
                            bytes: crate::view::less(stats.bytes, view.quality.last_bytes),
                            lost: crate::view::less(stats.lost, view.quality.last_lost),
                            received: crate::view::less(received, view.quality.last_received),
                        },
                    )
                } else {
                    None
                }
            },
    {
        if let Some(mut view) = self.view.take() {
            view.note_connection(connected);
            let mut quality = view.quality;
            let sample = quality.measure(stats, now);
            view.quality = quality;
            self.view = Some(view);
            sample
        } else {
            None
        }
    }

    /// Shows a picture of the watched screen: true if the last one had the same size.
    pub fn show_view(&mut self, picture: Picture) -> (same_size: bool)
        ensures
            same_size == (old(self).view matches Some(view) && view.texture == Some(picture)),
            *final(self) == match old(self).view {
                Some(view) => ArgosApp {
                    view: Some(ViewSession { texture: Some(picture), ..view }),
                    ..*old(self)
                },
                None => *old(self),
            },
    {
        if let Some(mut view) = self.view.take() {
            let same_size: bool = view.show(picture);
            self.view = Some(view);
            same_size
        } else {
            false
        }
    }

    /// Deals with a connection that is lost. The machine that is to be asked again
    /// comes back, with whether the network is there to ask by.
    pub fn poll_reconnect(&mut self, connected: bool, now: u64) -> (ask: Option<(String, bool)>)
        ensures
            match old(self).view {
                Some(view) => if view.is_lost(connected) && view.recovery_at(now) == Recovery::Ask {
                    let peer = view.lan_peer->0;
                    &&& ask == Some((peer, old(self).lan))
                    &&& *final(self) == (ArgosApp {
                        view: Some(
                            ViewSession {
                                reconnect: Some(
                                    Reconnect {
                                        attempts: (view.attempts_at(now).attempts + 1) as u32,
                                        last_request: now,
                                    },
                                ),
                                ..view
                            },
                        ),
                        pending_view: Some(peer),
                        ..*old(self)
                    })
                } else {
                    &&& ask is None
                    &&& final(self).view matches Some(after) && {
                        &&& after == (ViewSession {
                            reconnect: after.reconnect,
                            error: after.error,
                            ..view
                        })
                        &&& after.reconnect == if view.is_lost(connected) {
                            Some(view.attempts_at(now))
                        } else {
                            view.reconnect
                        }
                        &&& if view.is_lost(connected) && view.recovery_at(now) == Recovery::GiveUp
                            && view.error is None {
                            after.error matches Some(message) && message@
                                == "Connection lost — reconnect attempts exhausted"@
                        } else {
                            after.error == view.error
                        }
                    }
                    &&& *final(self) == (ArgosApp { view: final(self).view, ..*old(self) })
                },
                None => ask is None && *final(self) == *old(self),
            },
    {
        if let Some(mut view) = self.view.take() {
            let again: bool = view.recover(connected, now);
            let peer = match &view.lan_peer {
                Some(peer) => Some(peer.clone()),
                None => None,
            };
            self.view = Some(view);
            if !again {
                return None;
            }
            match peer {
                Some(id) => {
                    self.pending_view = Some(id.clone());
                    Some((id, self.lan))
                },
                None => None,
            }
        } else {
            None
        }
    }

    /// Takes what came of starting the VPN.
    pub fn radmin_launched(&mut self, outcome: Result<(), String>)
        ensures
            *final(self) == (ArgosApp {
                radmin_error: match outcome {
                    Ok(()) => None,
                    Err(error) => Some(error),
                },
                ..*old(self)
            }),
    {
        match outcome {
            Ok(()) => {
                self.radmin_error = None;
            },
            Err(error) => {
                self.radmin_error = Some(error);
            },
        }
    }

    /// What goes on, in a word.
    pub fn status_text(&self, connected: bool) -> (text: &'static str)
        ensures
            text@ == if self.sharing(connected) {
                "sharing"@
            } else if self.view is Some {
                "watching"@
            } else if self.live {
                "live"@
            } else if self.capturing {
                "previewing"@
            } else {
                "offline"@
            },
    {
        if self.share.is_some() && connected {
            "sharing"
        } else if self.view.is_some() {
            "watching"
        } else if self.live {
            "live"
        } else if self.capturing {
            "previewing"
        } else {
            "offline"
        }
    }

    /// How soon to draw again.
    pub fn repaint_after(busy: bool) -> (pause: u64)
        ensures
            pause == if busy {
                BUSY_REPAINT
            } else {
                IDLE_REPAINT
            },
    {
        if busy {
            BUSY_REPAINT
        } else {
            IDLE_REPAINT
        }
    }

    /// Whether the network is all that can change anything.
    pub fn only_listens(&self) -> (yes: bool)
        ensures
            yes == (self.lan && !self.capturing && self.view is None),
    {
        self.lan && !self.capturing && self.view.is_none()
    }
}

/// How a line is coloured.
#[derive(Clone, Copy, Debug, PartialEq, Eq, Structural)]
pub enum Tone {
    Plain,
    Weak,
    Grey,
    Good,
    Warning,
    Bad,
}

/// A line of text in the window.
pub struct Line {
    pub text: String,
    pub tone: Tone,
}

/// What lines say, and how.
pub open spec fn said(list: Seq<Line>) -> Seq<(Seq<char>, Tone)> {
    Seq::new(list.len(), |i: int| (list[i].text@, list[i].tone))
}

/// One line, or none.
pub open spec fn line_if(shown: bool, text: Seq<char>, tone: Tone) -> Seq<(Seq<char>, Tone)> {
    if shown {
        seq![(text, tone)]
    } else {
        seq![]
    }
}

/// The line of an error, if there is one.
pub open spec fn error_line(error: Option<String>) -> Seq<(Seq<char>, Tone)> {
    match error {
        Some(message) => seq![(message@, Tone::Bad)],
        None => seq![],
    }
}

fn say(list: &mut Vec<Line>, text: String, tone: Tone)
    ensures
        said(final(list)@) == said(old(list)@) + seq![(text@, tone)],
{
    list.push(Line { text, tone });
    assert(said(list@) == said(old(list)@) + seq![(text@, tone)]);
}

fn say_error(list: &mut Vec<Line>, error: &Option<String>)
    ensures
        said(final(list)@) == said(old(list)@) + error_line(*error),
{
    match error {
        Some(message) => say(list, message.clone(), Tone::Bad),
        None => {
            assert(said(list@) + error_line(*error) == said(list@));
        },
    }
}

impl ArgosApp {
    pub fn is_streaming(&self) -> (yes: bool)
        ensures
            yes == self.streaming(),
    {
        self.live || self.share.is_some()
    }

    pub fn share_heading(&self) -> (text: &'static str)
        ensures
            text@ == if self.live {
                "You're live"@
            } else {
                "Share your screen"@
            },
    {
        if self.live {
            "You're live"
        } else {
            "Share your screen"
        }
    }

    /// The screen that is shown as chosen.
    pub fn shown_monitor(&self) -> (index: usize)
        requires
            self.monitors@.len() > 0,
        ensures
            index == if self.selected_monitor < self.monitors@.len() {
                self.selected_monitor as int
            } else {
                self.monitors@.len() - 1
            },
    {
        if self.selected_monitor < self.monitors.len() {
            self.selected_monitor
        } else {
            self.monitors.len() - 1
        }
    }

    pub fn select_monitor(&mut self, index: usize)
        ensures
            *final(self) == (ArgosApp { selected_monitor: index, ..*old(self) }),
    {
        self.selected_monitor = index;
    }

    /// Chooses the height of the stream. A worker that encodes is told of a change.
    pub fn choose_height(&mut self, height: Option<u32>) -> (msg: Option<EncodeMsg>)
        ensures
            *final(self) == (ArgosApp { share_height: height, ..*old(self) }),
            msg == if height != old(self).share_height && old(self).share is Some {
                Some(EncodeMsg::Quality { target_height: height })
            } else {
                None
            },
    {
        let changed: bool = match (height, self.share_height) {
            (Some(a), Some(b)) => a != b,
            (None, None) => false,
            _ => true,
        };
        self.share_height = height;
        if changed && self.share.is_some() {
            Some(EncodeMsg::Quality { target_height: height })
        } else {
            None
        }
    }

    /// Chooses the frame rate. A capture is told the new time between frames. While
    /// streaming the rate stays: the times of the frames are laid out by it.
    pub fn choose_rate(&mut self, rate: u32) -> (interval: Option<u64>)
        ensures
            *final(self) == if old(self).streaming() {
                *old(self)
            } else {
                ArgosApp { frame_rate: rate, ..*old(self) }
            },
            interval == if !old(self).streaming() && rate != old(self).frame_rate && old(
                self,
            ).capturing {
                Some(interval_of(rate))
            } else {
                None
            },
    {
        if self.is_streaming() {
            return None;
        }
        let changed: bool = rate != self.frame_rate;
        self.frame_rate = rate;
        if changed && self.capturing {
            Some(self.frame_interval())
        } else {
            None
        }
    }

    pub fn rate_label(rate: u32) -> (label: String)
        ensures
            label@ == digits(rate as nat) + " fps"@,
    {
        let mut label: String = String::new();
        push_number(&mut label, rate as u64);
        label.append(" fps");
        assert(label@ == digits(rate as nat) + " fps"@);
        label
    }

    pub fn preview_button(&self) -> (label: &'static str)
        ensures
            label@ == if self.preview_active {
                "Stop preview"@
            } else {
                "Preview"@
            },
    {
        if self.preview_active {
            "Stop preview"
        } else {
            "Preview"
        }
    }

    /// The lines on the share: its state and errors, or that nobody has joined yet.
    pub fn share_lines(&self, status: &str) -> (lines: Vec<Line>)
        ensures
            said(lines@) == (match self.share {
                Some(share) => seq![
                    ("Status: "@ + status@, Tone::Plain),
                    (
                        if share.audio_on {
                            "Audio: system sound shared"@
                        } else {
                            "Audio: not available"@
                        },
                        Tone::Weak,
                    ),
                ] + error_line(share.error),
                None => line_if(self.live, "Waiting for someone to join…"@, Tone::Good),
            }) + error_line(self.share_error),
    {
        let mut lines: Vec<Line> = Vec::new();
        match &self.share {
            Some(share) => {
                let mut text: String = "Status: ".to_owned();
                text.append(status);
                say(&mut lines, text, Tone::Plain);
                let audio: &str = if share.audio_on {
                    "Audio: system sound shared"
                } else {
                    "Audio: not available"
                };
                say(&mut lines, audio.to_owned(), Tone::Weak);
                say_error(&mut lines, &share.error);
            },
            None => {
                if self.live {
                    say(&mut lines, "Waiting for someone to join…".to_owned(), Tone::Good);
                }
            },
        }
        say_error(&mut lines, &self.share_error);
        assert(said(lines@) == (match self.share {
            Some(share) => seq![
                ("Status: "@ + status@, Tone::Plain),
                (
                    if share.audio_on {
                        "Audio: system sound shared"@
                    } else {
                        "Audio: not available"@
                    },
                    Tone::Weak,
                ),
            ] + error_line(share.error),
            None => line_if(self.live, "Waiting for someone to join…"@, Tone::Good),
        }) + error_line(self.share_error));
        lines
    }

    /// What to do next on the share screen, while there is no preview.
    pub fn share_hint(&self) -> (hint: Option<&'static str>)
        ensures
            match hint {
                Some(text) => !self.preview_active && text@ == if self.live {
                    "Press Preview to see your screen here."@
                } else {
                    "Press Go Live to start sharing, or Preview to check your screen first."@
                },
                None => self.preview_active,
            },
    {
        if self.preview_active {
            None
        } else if self.live {
            Some("Press Preview to see your screen here.")
        } else {
            Some("Press Go Live to start sharing, or Preview to check your screen first.")
        }
    }

    /// What is said where no machine is listed.
    pub fn peers_notice(&self, count: usize) -> (notice: Option<&'static str>)
        ensures
            match notice {
                Some(text) => (!self.lan || count == 0) && text@ == if self.lan {
                    "Looking for people…"@
                } else {
                    "Peer discovery is unavailable"@
                },
                None => self.lan && count > 0,
            },
    {
        if !self.lan {
            Some("Peer discovery is unavailable")
        } else if count == 0 {
            Some("Looking for people…")
        } else {
            None
        }
    }

    /// Whether the screen of this machine is the one that is shown.
    pub fn is_selected(&self, id: &str) -> (selected: bool)
        ensures
            selected == (self.screen matches Screen::Peer(shown) && shown@ == id@),
    {
        match &self.screen {
            Screen::Peer(shown) => same(shown.as_str(), id),
            _ => false,
        }
    }

    /// The lines below the list of machines: what is asked for, and what went wrong.
    pub fn pending_lines(&self) -> (lines: Vec<Line>)
        ensures
            said(lines@) == line_if(self.pending_view is Some, "Connecting…"@, Tone::Warning)
                + error_line(self.view_error),
    {
        let mut lines: Vec<Line> = Vec::new();
        if self.pending_view.is_some() {
            say(&mut lines, "Connecting…".to_owned(), Tone::Warning);
        }
        say_error(&mut lines, &self.view_error);
        assert(said(lines@) == line_if(
            self.pending_view is Some,
            "Connecting…"@,
            Tone::Warning,
        ) + error_line(self.view_error));
        lines
    }

    /// Whether an offer can be made that does not go through the network.
    pub fn can_offer_by_hand(&self) -> (can: bool)
        ensures
            can == !self.streaming(),
    {
        !self.live && self.share.is_none()
    }

    /// The connection code that was typed in.
    pub fn typed_code(&self) -> (code: String)
        ensures
            code@ == trimmed(self.code_input@),
    {
        trim(self.code_input.as_str())
    }

    /// After an attempt to watch by a code that was typed in: shows the screen, if it
    /// worked.
    pub fn connected_by_code(&mut self)
        ensures
            *final(self) == if old(self).view is Some {
                ArgosApp { screen: Screen::View, ..*old(self) }
            } else {
                *old(self)
            },
    {
        if self.view.is_some() {
            self.screen = Screen::View;
        }
    }

    /// What a machine is called on its screen.
    pub fn peer_name(peers: &Vec<LanPeer>, id: &str) -> (name: String)
        ensures
            match crate::lan::find(peers@, id@) {
                Some(peer) => name@ == peer.name,
                None => name@ == "Stream"@,
            },
    {
        let mut i: usize = 0;
        assert(peers@.skip(0) == peers@);
        while i < peers.len()
            invariant
                i <= peers@.len(),
                crate::lan::find(peers@, id@) == crate::lan::find(peers@.skip(i as int), id@),
            decreases peers@.len() - i,
        {
            assert(peers@.skip(i as int).drop_first() == peers@.skip(i + 1));
            if same(peers[i].id.as_str(), id) {
                return peers[i].name.clone();
            }
            i += 1;
        }
        "Stream".to_owned()
    }

    /// Whether this is the machine whose screen is asked for.
    pub fn is_pending(&self, id: &str) -> (yes: bool)
        ensures
            yes == holds_id(self.pending_view, id@),
    {
        is_id(&self.pending_view, id)
    }

    /// The lines on the screen of a machine that is not watched.
    pub fn peer_lines(&self, id: &str) -> (lines: Vec<Line>)
        ensures
            said(lines@) == (if holds_id(self.pending_view, id@) {
                seq![("Connecting…"@, Tone::Warning)]
            } else {
                seq![("Not watching yet."@, Tone::Weak)]
            }) + error_line(self.view_error),
    {
        let mut lines: Vec<Line> = Vec::new();
        if self.is_pending(id) {
            say(&mut lines, "Connecting…".to_owned(), Tone::Warning);
        } else {
            say(&mut lines, "Not watching yet.".to_owned(), Tone::Weak);
        }
        say_error(&mut lines, &self.view_error);
        assert(said(lines@) == (if holds_id(self.pending_view, id@) {
            seq![("Connecting…"@, Tone::Warning)]
        } else {
            seq![("Not watching yet."@, Tone::Weak)]
        }) + error_line(self.view_error));
        lines
    }

    /// A click on the screen of a machine that is not watched: asks for it, unless
    /// that was done. True if the network is there to ask by.
    pub fn peer_clicked(&mut self, id: &str) -> (send: bool)
        ensures
            if holds_id(old(self).pending_view, id@) {
                !send && *final(self) == *old(self)
            } else {
                &&& send == old(self).lan
                &&& final(self).pending_view matches Some(asked) && asked@ == id@
                &&& *final(self) == (ArgosApp {
                    view_error: None,
                    pending_view: final(self).pending_view,
                    ..*old(self)
                })
            },
    {
        if self.is_pending(id) {
            false
        } else {
            self.request_view(id)
        }
    }
}

/// The counts on the picture, in words.
pub open spec fn video_words(stats: ViewStats) -> Seq<char> {
    "Video: "@ + digits(stats.packets as nat) + " packets, "@ + digits(stats.aus as nat)
        + " frames assembled, "@ + digits(stats.decoded as nat) + " decoded (first "@ + digits(
        stats.first_width as nat,
    ) + "x"@ + digits(stats.first_height as nat) + "), "@ + digits(stats.decode_none as nat)
        + " no-picture, "@ + digits(stats.decode_errors as nat) + " decode errors"@
}

/// The counts on the sound, in words.
pub open spec fn audio_words(stats: ViewStats, playing: bool) -> Seq<char> {
    "Audio ("@ + (if playing {
        "on"@
    } else {
        "off"@
    }) + "): "@ + digits(stats.audio_packets as nat) + " packets, "@ + digits(
        stats.audio_decoded as nat,
    ) + " decoded, "@ + digits(stats.audio_errors as nat) + " errors"@
}

/// The line of an error behind words that say which.
pub open spec fn prefixed_error(words: Seq<char>, error: Option<String>) -> Seq<
    (Seq<char>, Tone),
> {
    match error {
        Some(message) => seq![(words + message@, Tone::Bad)],
        None => seq![],
    }
}

fn say_prefixed(list: &mut Vec<Line>, words: &str, error: &Option<String>)
    ensures
        said(final(list)@) == said(old(list)@) + prefixed_error(words@, *error),
{
    match error {
        Some(message) => {
            let mut text: String = words.to_owned();
            text.append(message.as_str());
            say(list, text, Tone::Bad);
        },
        None => {
            assert(said(list@) + prefixed_error(words@, *error) == said(list@));
        },
    }
}

fn video_line(stats: &ViewStats) -> (text: String)
    ensures
        text@ == video_words(*stats),
{
    let mut text: String = "Video: ".to_owned();
    push_number(&mut text, stats.packets);
    text.append(" packets, ");
    push_number(&mut text, stats.aus);
    text.append(" frames assembled, ");
    push_number(&mut text, stats.decoded);
    text.append(" decoded (first ");
    push_number(&mut text, stats.first_width as u64);
    text.append("x");
    push_number(&mut text, stats.first_height as u64);
    text.append("), ");
    push_number(&mut text, stats.decode_none);
    text.append(" no-picture, ");
    push_number(&mut text, stats.decode_errors);
    text.append(" decode errors");
    text
}

fn audio_line(stats: &ViewStats, playing: bool) -> (text: String)
    ensures
        text@ == audio_words(*stats, playing),
{
    let mut text: String = "Audio (".to_owned();
    text.append(
        if playing {
            "on"
        } else {
            "off"
        },
    );
    text.append("): ");
    push_number(&mut text, stats.audio_packets);
    text.append(" packets, ");
    push_number(&mut text, stats.audio_decoded);
    text.append(" decoded, ");
    push_number(&mut text, stats.audio_errors);
    text.append(" errors");
    text
}

impl ViewSession {
    /// The lines that tell what has come in and what went wrong.
    pub fn diagnostics(&self, stats: &ViewStats) -> (lines: Vec<Line>)
        ensures
            said(lines@) == seq![(video_words(*stats), Tone::Plain)] + prefixed_error(
                "First decode error: "@,
                stats.first_error,
            ) + seq![(audio_words(*stats, self.audio_on), Tone::Plain)] + prefixed_error(
                "First audio error: "@,
                stats.audio_error,
            ) + prefixed_error("Audio unavailable: "@, self.audio_error),
    {
        let mut lines: Vec<Line> = Vec::new();
        say(&mut lines, video_line(stats), Tone::Plain);
        assert(said(lines@) == seq![(video_words(*stats), Tone::Plain)]);
        say_prefixed(&mut lines, "First decode error: ", &stats.first_error);
        say(&mut lines, audio_line(stats, self.audio_on), Tone::Plain);
        say_prefixed(&mut lines, "First audio error: ", &stats.audio_error);
        say_prefixed(&mut lines, "Audio unavailable: ", &self.audio_error);
        lines
    }

    /// What stands above the picture: its size, or that there is none yet.
    pub fn caption(&self, stats: &ViewStats) -> (line: Line)
        ensures
            (line.text@, line.tone) == match self.texture {
                Some(picture) => (
                    "Stream "@ + digits(picture.width as nat) + "x"@ + digits(
                        picture.height as nat,
                    ),
                    Tone::Plain,
                ),
                None => if stats.packets > 0 {
                    ("Receiving stream data but no decoded picture yet…"@, Tone::Warning)
                } else {
                    ("Waiting for stream data…"@, Tone::Grey)
                },
            },
    {
        match self.texture {
            Some(picture) => {
                let mut text: String = "Stream ".to_owned();
                push_number(&mut text, picture.width as u64);
                text.append("x");
                push_number(&mut text, picture.height as u64);
                Line { text, tone: Tone::Plain }
            },
            None => if stats.packets > 0 {
                Line {
                    text: "Receiving stream data but no decoded picture yet…".to_owned(),
                    tone: Tone::Warning,
                }
            } else {
                Line { text: "Waiting for stream data…".to_owned(), tone: Tone::Grey }
            },
        }
    }

    /// The lines on the connection: its state, and that it is asked for again.
    pub fn status_lines(&self, status: &str) -> (lines: Vec<Line>)
        ensures
            said(lines@) == seq![("Status: "@ + status@, Tone::Plain)] + line_if(
                self.reconnect is Some,
                "Connection lost — reconnecting…"@,
                Tone::Warning,
            ),
    {
        let mut lines: Vec<Line> = Vec::new();
        let mut text: String = "Status: ".to_owned();
        text.append(status);
        say(&mut lines, text, Tone::Plain);
        if self.reconnect.is_some() {
            say(&mut lines, "Connection lost — reconnecting…".to_owned(), Tone::Warning);
        }
        assert(said(lines@) == seq![("Status: "@ + status@, Tone::Plain)] + line_if(
            self.reconnect is Some,
            "Connection lost — reconnecting…"@,
            Tone::Warning,
        ));
        lines
    }
}

/// Whether `a` is listed before `b`: who shares comes first, then the order of the
/// names, upper and lower case alike.
pub open spec fn listed_before(a: LanPeer, b: LanPeer) -> bool {
    ||| a.sharing && !b.sharing
    ||| a.sharing == b.sharing && text_lt(lowercase(a.name@), lowercase(b.name@))
}

/// Whether machines stand in the order of the list.
pub open spec fn in_list_order(list: Seq<LanPeer>) -> bool {
    forall|i: int, j: int|
        0 <= i < j < list.len() ==> !listed_before(#[trigger] list[j], #[trigger] list[i])
}

proof fn lemma_listed_before(a: LanPeer, b: LanPeer, c: LanPeer)
    ensures
        listed_before(a, b) && listed_before(b, c) ==> listed_before(a, c),
        !(listed_before(a, b) && listed_before(b, a)),
{
    let (x, y, z) = (lowercase(a.name@), lowercase(b.name@), lowercase(c.name@));
    if text_lt(x, y) && text_lt(y, z) {
        law_text_order_is_transitive(x, y, z);
    }
    law_text_order_is_strict(x, y);
}

fn goes_before(a: &LanPeer, b: &LanPeer) -> (before: bool)
    ensures
        before == listed_before(*a, *b),
{
    if a.sharing != b.sharing {
        return a.sharing;
    }
    let first: String = a.name.as_str().to_lowercase();
    let second: String = b.name.as_str().to_lowercase();
    comes_before(first.as_str(), second.as_str())
}

/// Where a machine belongs in the list: behind those that it does not go before.
fn place(list: &Vec<LanPeer>, peer: &LanPeer) -> (at: usize)
    requires
        in_list_order(list@),
    ensures
        at <= list@.len(),
        in_list_order(list@.insert(at as int, *peer)),
        at < list@.len() ==> listed_before(*peer, list@[at as int]),
{
    let mut at: usize = 0;
    while at < list.len() && !goes_before(peer, &list[at])
        invariant
            at <= list@.len(),
            forall|i: int| 0 <= i < at ==> !listed_before(*peer, #[trigger] list@[i]),
        decreases list@.len() - at,
    {
        at += 1;
    }
    proof {
        let grown = list@.insert(at as int, *peer);
        assert forall|i: int, j: int| 0 <= i < j < grown.len() implies !listed_before(
            #[trigger] grown[j],
            #[trigger] grown[i],
        ) by {
            if i == at {
                let next = list@[at as int];
                let later = list@[j - 1];
                lemma_listed_before(later, *peer, next);
                lemma_listed_before(*peer, next, later);
                lemma_listed_before(next, later, *peer);
            } else if j == at {
                assert(grown[i] == list@[i]);
            } else {
                let a = if i < at {
                    i
                } else {
                    i - 1
                };
                let b = if j < at {
                    j
                } else {
                    j - 1
                };
                assert(grown[i] == list@[a] && grown[j] == list@[b]);
            }
        }
    }
    at
}

/// Whether neither of two machines is listed before the other.
pub open spec fn same_rank(a: LanPeer, b: LanPeer) -> bool {
    a.sharing == b.sharing && lowercase(a.name@) == lowercase(b.name@)
}

/// The machines of a list that have the rank of `peer`, in the order of the list.
pub open spec fn of_rank(list: Seq<LanPeer>, peer: LanPeer) -> Seq<LanPeer>
    decreases list.len(),
{
    if list.len() == 0 {
        seq![]
    } else {
        let before = of_rank(list.drop_last(), peer);
        if same_rank(list.last(), peer) {
            before.push(list.last())
        } else {
            before
        }
    }
}

proof fn lemma_of_rank_add(a: Seq<LanPeer>, b: Seq<LanPeer>, peer: LanPeer)
    ensures
        of_rank(a + b, peer) == of_rank(a, peer) + of_rank(b, peer),
    decreases b.len(),
{
    if b.len() == 0 {
        assert(a + b == a);
    } else {
        assert((a + b).drop_last() == a + b.drop_last());
        lemma_of_rank_add(a, b.drop_last(), peer);
    }
}

proof fn lemma_none_of_rank(list: Seq<LanPeer>, peer: LanPeer)
    requires
        forall|i: int| 0 <= i < list.len() ==> !same_rank(#[trigger] list[i], peer),
    ensures
        of_rank(list, peer) == Seq::<LanPeer>::empty(),
    decreases list.len(),
{
    if list.len() > 0 {
        assert(!same_rank(list[list.len() - 1], peer));
        assert forall|i: int| 0 <= i < list.drop_last().len() implies !same_rank(
            #[trigger] list.drop_last()[i],
            peer,
        ) by {
            assert(list.drop_last()[i] == list[i]);
        }
        lemma_none_of_rank(list.drop_last(), peer);
    }
}

proof fn lemma_one_of_rank(one: LanPeer, peer: LanPeer)
    ensures
        of_rank(seq![one], peer) == if same_rank(one, peer) {
            seq![one]
        } else {
            seq![]
        },
{
    assert(of_rank(seq![one].drop_last(), peer) == Seq::<LanPeer>::empty());
}

/// A machine that is put in its place comes last of its rank.
proof fn lemma_placed_last(list: Seq<LanPeer>, at: int, one: LanPeer, peer: LanPeer)
    requires
        0 <= at <= list.len(),
        in_list_order(list),
        at < list.len() ==> listed_before(one, list[at]),
    ensures
        of_rank(list.insert(at, one), peer) == of_rank(list, peer) + of_rank(seq![one], peer),
{
    let (front, back) = (list.take(at), list.skip(at));
    assert(list == front + back);
    assert(list.insert(at, one) == front + (seq![one] + back));
    lemma_of_rank_add(front, back, peer);
    lemma_of_rank_add(front, seq![one] + back, peer);
    lemma_of_rank_add(seq![one], back, peer);
    lemma_one_of_rank(one, peer);
    if same_rank(one, peer) {
        assert forall|i: int| 0 <= i < back.len() implies !same_rank(#[trigger] back[i], peer) by {
            let (next, later) = (list[at], list[at + i]);
            let (x, y, z) = (lowercase(one.name@), lowercase(next.name@), lowercase(later.name@));
            assert(back[i] == later);
            assert(i == 0 || !listed_before(later, next));
            if same_rank(later, one) {
                law_text_order_is_strict(x, y);
            }
        }
        lemma_none_of_rank(back, peer);
    }
    assert(of_rank(front, peer) + (of_rank(seq![one], peer) + of_rank(back, peer)) == of_rank(
        front,
        peer,
    ) + of_rank(back, peer) + of_rank(seq![one], peer));
}

/// The machines in the order in which they are listed. Those of the same rank keep
/// the order that they had.
pub fn sidebar_order(peers: Vec<LanPeer>) -> (list: Vec<LanPeer>)
    ensures
        in_list_order(list@),
        list@.to_multiset() == peers@.to_multiset(),
        forall|peer: LanPeer| #[trigger] of_rank(list@, peer) == of_rank(peers@, peer),
{
    let mut rest: Vec<LanPeer> = peers;
    let mut list: Vec<LanPeer> = Vec::new();
    proof {
        vstd::seq_lib::lemma_multiset_commutative(list@, rest@);
        assert(list@ + rest@ == rest@);
    }
    while rest.len() > 0
        invariant
            in_list_order(list@),
            list@.to_multiset().add(rest@.to_multiset()) == peers@.to_multiset(),
            forall|peer: LanPeer| #[trigger]
                of_rank(list@, peer) + of_rank(rest@, peer) == of_rank(peers@, peer),
        decreases rest@.len(),
    {
        let ghost before = list@;
        let ghost left = rest@;
        let peer = rest.remove(0);
        let at: usize = place(&list, &peer);
        list.insert(at, peer);
        proof {
            vstd::seq_lib::to_multiset_remove(left, 0);
            vstd::seq_lib::to_multiset_insert(before, at as int, peer);
            left.to_multiset_ensures();
            assert(left.contains(left[0]));
            assert(list@.to_multiset().add(rest@.to_multiset()) =~= before.to_multiset().add(
                left.to_multiset(),
            ));
            assert(left == seq![peer] + rest@);
            assert forall|other: LanPeer| #[trigger]
                of_rank(list@, other) + of_rank(rest@, other) == of_rank(peers@, other) by {
                lemma_placed_last(before, at as int, peer, other);
                lemma_of_rank_add(seq![peer], rest@, other);
                assert(of_rank(before, other) + of_rank(left, other) == of_rank(peers@, other));
            }
        }
    }
    proof {
        vstd::seq_lib::lemma_multiset_commutative(list@, rest@);
        assert(list@ + rest@ == list@);
        assert forall|peer: LanPeer| #[trigger] of_rank(list@, peer) == of_rank(peers@, peer) by {
            assert(of_rank(list@, peer) + of_rank(rest@, peer) == of_rank(peers@, peer));
        }
    }
    list
}

/// An address as four numbers with dots.
pub open spec fn dotted(ip: u32) -> Seq<char> {
    digits((ip / 0x100_0000) as nat) + "."@ + digits((ip / 0x1_0000 % 0x100) as nat) + "."@
        + digits((ip / 0x100 % 0x100) as nat) + "."@ + digits((ip % 0x100) as nat)
}

pub fn dotted_text(ip: u32) -> (text: String)
    ensures
        text@ == dotted(ip),
{
    let mut text: String = String::new();
    push_number(&mut text, (ip / 0x100_0000) as u64);
    assert(text@ == digits((ip / 0x100_0000) as nat));
    text.append(".");
    push_number(&mut text, (ip / 0x1_0000 % 0x100) as u64);
    text.append(".");
    push_number(&mut text, (ip / 0x100 % 0x100) as u64);
    text.append(".");
    push_number(&mut text, (ip % 0x100) as u64);
    text
}

impl ArgosApp {
    /// The lines on the network: the address of this machine on it, or how to join it.
    pub fn network_lines(&self, address: Option<u32>) -> (lines: Vec<Line>)
        ensures
            said(lines@) == (match address {
                Some(ip) => seq![("This PC on your network: "@ + dotted(ip), Tone::Weak)],
                None => seq![
                    (
                        "Radmin VPN not detected — friends can't find this PC yet."@,
                        Tone::Warning,
                    ),
                ] + line_if(
                    !self.radmin_found,
                    "Install Radmin VPN to share with friends online."@,
                    Tone::Weak,
                ) + error_line(self.radmin_error),
            }) + match self.lan_error {
                Some(error) => seq![("Network discovery off: "@ + error@, Tone::Weak)],
                None => seq![],
            },
    {
        let mut lines: Vec<Line> = Vec::new();
        match address {
            Some(ip) => {
                let mut text: String = "This PC on your network: ".to_owned();
                text.append(dotted_text(ip).as_str());
                say(&mut lines, text, Tone::Weak);
            },
            None => {
                say(
                    &mut lines,
                    "Radmin VPN not detected — friends can't find this PC yet.".to_owned(),
                    Tone::Warning,
                );
                if !self.radmin_found {
                    say(
                        &mut lines,
                        "Install Radmin VPN to share with friends online.".to_owned(),
                        Tone::Weak,
                    );
                }
                say_error(&mut lines, &self.radmin_error);
            },
        }
        let ghost before = said(lines@);
        assert(before == match address {
            Some(ip) => seq![("This PC on your network: "@ + dotted(ip), Tone::Weak)],
            None => seq![
                ("Radmin VPN not detected — friends can't find this PC yet."@, Tone::Warning),
            ] + line_if(
                !self.radmin_found,
                "Install Radmin VPN to share with friends online."@,
                Tone::Weak,
            ) + error_line(self.radmin_error),
        });
        if let Some(error) = &self.lan_error {
            let mut text: String = "Network discovery off: ".to_owned();
            text.append(error.as_str());
            say(&mut lines, text, Tone::Weak);
        }
        lines
    }

    /// Whether the button that starts the VPN is shown.
    pub fn can_launch_radmin(&self, address: Option<u32>) -> (can: bool)
        ensures
            can == (address is None && self.radmin_found),
    {
        address.is_none() && self.radmin_found
    }
}

/// How a screen comes to be watched: the request of a machine reaches one that is
/// live and free and calls for an offer; the offer reaches the machine that asked
/// and is taken; the answer reaches the machine that made the offer and is taken.
pub proof fn law_request_offer_answer(
    viewer: ArgosApp,
    viewer_lan: LanView,
    sharer: ArgosApp,
    sharer_lan: LanView,
    attached: ArgosApp,
    connected: bool,
    name: Seq<char>,
    offer: Seq<char>,
    answer: Seq<char>,
)
    requires
        viewer_lan.id != sharer_lan.id,
        holds_id(viewer.pending_view, sharer_lan.id),
        sharer.live,
        !sharer.sharing(connected),
        attached.share matches Some(share) && holds_id(share.lan_peer, viewer_lan.id),
    ensures
        sharer_lan.event_of(viewer_lan.message("request"@, sharer_lan.id, name, ""@)) matches Some(
            event,
        ) && sharer.action_for(event, connected) == ActionView::Attach(viewer_lan.id),
        viewer_lan.event_of(sharer_lan.message("offer"@, viewer_lan.id, ""@, offer)) matches Some(
            event,
        ) && viewer.action_for(event, connected) == (ActionView::Watch {
            offer,
            peer: sharer_lan.id,
        }),
        sharer_lan.event_of(viewer_lan.message("answer"@, sharer_lan.id, ""@, answer)) matches Some(
            event,
        ) && attached.action_for(event, connected) == ActionView::Answer(answer),
{
    law_messages_arrive(viewer_lan, sharer_lan, sharer_lan.id, name, answer);
    law_messages_arrive(sharer_lan, viewer_lan, viewer_lan.id, name, offer);
}

/// The preview that was turned on is off again after the next turn, with nothing
/// left of it.
pub proof fn law_preview_toggles(
    app: ArgosApp,
    first: Result<bool, String>,
    second: Result<bool, String>,
    now: u64,
    later: u64,
)
    requires
        !app.preview_active,
        first is Ok,
    ensures
        app.toggled(first, now).preview_active,
        ({
            let twice = app.toggled(first, now).toggled(second, later);
            &&& !twice.preview_active
            &&& twice.preview is None
            &&& twice.preview_error is None
            &&& twice.share == app.share
            &&& twice.live == app.live
        }),
{
}

/// Stopping undoes going live.
pub proof fn law_stop_undoes_live(app: ArgosApp, started: Result<bool, String>, now: u64)
    ensures
        ({
            let stopped = app.gone_live(started, now).stopped();
            &&& !stopped.streaming()
            &&& stopped.share_error is None
            &&& stopped.preview_active == app.preview_active
            &&& stopped.view == app.view
        }),
{
}

/// The time between two frames is as long as the rate allows, in whole microseconds.
pub proof fn law_rate_and_interval_fit(frame_rate: u32)
    requires
        frame_rate > 0,
    ensures
        interval_of(frame_rate) % 1_000 == 0,
        interval_of(frame_rate) * frame_rate <= 1_000_000_000 < (interval_of(frame_rate) + 1_000)
            * frame_rate,
        interval_of(0) == 1_000_000_000,
{
    let rate = frame_rate as int;
    let micros = 1_000_000int / rate;
    vstd::arithmetic::div_mod::lemma_fundamental_div_mod(1_000_000, rate);
    assert(0 <= micros <= 1_000_000 && micros * rate <= 1_000_000 < (micros + 1) * rate)
        by (nonlinear_arith)
        requires
            micros == 1_000_000int / rate,
            1_000_000 == rate * micros + 1_000_000int % rate,
            0 < rate,
    ;
    assert((micros * 1_000) * rate == 1_000 * (micros * rate)) by (nonlinear_arith);
    assert((micros * 1_000 + 1_000) * rate == 1_000 * ((micros + 1) * rate)) by (nonlinear_arith);
}

/// Going live works out just where there is a capture: then the screen is on offer and no
/// error is left. Where it fails, the reason is noted and nothing else changes. A capture
/// that was started counts its frames from then on.
pub proof fn law_going_live_needs_a_capture(
    app: ArgosApp,
    started: Result<bool, String>,
    now: u64,
)
    ensures
        ({
            let after = app.gone_live(started, now);
            match started {
                Ok(fresh) => {
                    &&& after.live && after.share_error is None
                    &&& after.capturing == (app.capturing || fresh)
                    &&& fresh ==> after.fps_frames == 0 && after.fps_last == now
                    &&& !fresh ==> after.fps_frames == app.fps_frames && after.fps_last
                        == app.fps_last
                    &&& after == (ArgosApp {
                        live: true,
                        share_error: None,
                        capturing: after.capturing,
                        fps_frames: after.fps_frames,
                        fps_last: after.fps_last,
                        ..app
                    })
                },
                Err(error) => after == (ArgosApp { share_error: Some(error), ..app }),
            }
        }),
{
}

/// Stopping ends the share and the offer, forgets the error, and touches nothing else.
pub proof fn law_stopping_ends_the_stream(app: ArgosApp)
    ensures
        !app.stopped().streaming(),
        app.stopped().share is None,
        !app.stopped().live,
        app.stopped() == (ArgosApp { share: None, live: false, share_error: None, ..app }),
{
}

/// A screen streams while it is on offer or shared, and is shared while the other end is
/// there.
pub proof fn law_streaming_is_offered_or_shared(app: ArgosApp, connected: bool)
    ensures
        app.live ==> app.streaming(),
        app.share is Some ==> app.streaming() && app.sharing(connected) == connected,
        !app.live && app.share is None ==> !app.streaming(),
        app.share is None ==> !app.sharing(connected),
{
}

/// The preview is on after a turn just where it was off and there is a capture. Where there
/// is none, the reason is noted.
pub proof fn law_preview_needs_a_capture(app: ArgosApp, started: Result<bool, String>, now: u64)
    ensures
        ({
            let after = app.toggled(started, now);
            &&& after.preview_active == (!app.preview_active && started is Ok)
            &&& app.preview_active ==> after.preview is None && after.preview_error is None
                && after.capturing == app.capturing
            &&& !app.preview_active ==> after.preview == app.preview
            &&& !app.preview_active ==> (started matches Err(error) ==> after == (ArgosApp {
                preview_error: Some(error),
                ..app
            }))
            &&& !app.preview_active ==> (started matches Ok(fresh) ==> after.preview_error is None
                && after.capturing == (app.capturing || fresh))
            &&& after.share == app.share && after.live == app.live && after.view == app.view
        }),
{
}

/// Nobody gets to show or to see a screen who was not asked: a request counts only while
/// the screen is on offer and nobody else watches it, an offer only from the machine that
/// was asked, an answer only from the machine that the screen was offered to.
pub proof fn law_strangers_are_passed_over(
    app: ArgosApp,
    connected: bool,
    id: Seq<char>,
    name: Seq<char>,
    sdp: Seq<char>,
)
    ensures
        app.action_for(EventView::Request { id, name }, connected) == if app.live && !(app.share
            is Some && connected) {
            ActionView::Attach(id)
        } else {
            ActionView::Nothing
        },
        app.pending_view is None ==> app.action_for(EventView::Offer { id, sdp }, connected)
            == ActionView::Nothing,
        app.pending_view matches Some(asked) ==> app.action_for(
            EventView::Offer { id, sdp },
            connected,
        ) == if asked@ == id {
            ActionView::Watch { offer: sdp, peer: id }
        } else {
            ActionView::Nothing
        },
        app.share is None ==> app.action_for(EventView::Answer { id, sdp }, connected)
            == ActionView::Nothing,
        app.share matches Some(share) ==> app.action_for(EventView::Answer { id, sdp }, connected)
            == if share.lan_peer matches Some(peer) && peer@ == id {
            ActionView::Answer(sdp)
        } else {
            ActionView::Nothing
        },
{
}

/// After a frame was handed to the encoder, the next one is due when the time between two
/// frames has passed, and not before. Without the other end none is.
pub proof fn law_encoding_keeps_the_pace(app: ArgosApp, connected: bool, now: u64, later: u64)
    requires
        app.frame_rate > 0,
    ensures
        !app.encode_due(false, now),
        app.share is None ==> !app.encode_due(connected, now),
        !app.encode_due(connected, now) ==> app.with_encode(connected, now) == app,
        app.encode_due(connected, now) ==> {
            let after = app.with_encode(connected, now);
            &&& (interval_of(app.frame_rate) > 0 && later < now + interval_of(app.frame_rate)
                ==> !after.encode_due(connected, later))
            &&& (later >= now + interval_of(app.frame_rate) ==> after.encode_due(connected, later))
            &&& after == (ArgosApp { share: after.share, ..app })
        },
        app.preview_active ==> app.frame_due(connected, now),
        !app.preview_active ==> app.frame_due(connected, now) == app.encode_due(connected, now),
{
}

/// Every frame of the preview is shown and counted once. After a second the count begins
/// anew. Without a preview nothing changes.
pub proof fn law_preview_counts_its_frames(app: ArgosApp, picture: Picture, now: u64)
    requires
        app.fps_frames < u64::MAX,
    ensures
        ({
            let after = app.with_preview(picture, now);
            &&& !app.preview_active ==> after == app
            &&& app.preview_active ==> after.preview == Some(picture)
            &&& app.preview_active && now < app.fps_last + 1_000_000_000 ==> after.fps_frames
                == app.fps_frames + 1 && after.fps_last == app.fps_last
            &&& app.preview_active && now >= app.fps_last + 1_000_000_000 ==> after.fps_frames == 0
                && after.fps_last == now
            &&& after == (ArgosApp {
                preview: after.preview,
                fps_frames: after.fps_frames,
                fps_last: after.fps_last,
                ..app
            })
        }),
{
}

/// A failed capture is noted wherever frames go, and what was noted there before stays.
pub proof fn law_capture_failure_is_noted_once(app: ArgosApp, message: String)
    ensures
        ({
            let after = app.with_capture_error(Some(message));
            &&& app.with_capture_error(None) == app
            &&& app.preview_error is Some ==> after.preview_error == app.preview_error
            &&& app.preview_error is None ==> after.preview_error == (if app.preview_active {
                Some(message)
            } else {
                None
            })
            &&& app.share is None ==> after.share is None
            &&& app.share matches Some(share) ==> after.share == Some(
                ShareSession {
                    error: if share.error is Some {
                        share.error
                    } else {
                        Some(message)
                    },
                    ..share
                },
            )
            &&& after == (ArgosApp {
                preview_error: after.preview_error,
                share: after.share,
                ..app
            })
        }),
{
}

/// In the list a machine that shares stands before all that do not, and of two that do, or
/// do not, the one whose name comes first in the alphabet, upper and lower case alike.
pub proof fn law_who_shares_is_listed_first(list: Seq<LanPeer>, i: int, j: int)
    requires
        in_list_order(list),
        0 <= i < j < list.len(),
    ensures
        list[j].sharing ==> list[i].sharing,
        list[i].sharing == list[j].sharing ==> text_lt(
            lowercase(list[i].name@),
            lowercase(list[j].name@),
        ) || lowercase(list[i].name@) == lowercase(list[j].name@),
{
    assert(!listed_before(list[j], list[i]));
    law_text_order_is_total(lowercase(list[i].name@), lowercase(list[j].name@));
}

/// The machines of a rank in two lists, one behind the other, are those of the first and
/// those of the second. A machine has a rank with all that share, or do not, as it does,
/// and have its name, upper and lower case alike.
pub proof fn law_ranks_keep_the_order(
    a: Seq<LanPeer>,
    b: Seq<LanPeer>,
    one: LanPeer,
    peer: LanPeer,
)
    ensures
        of_rank(a + b, peer) == of_rank(a, peer) + of_rank(b, peer),
        of_rank(seq![one], peer) == if one.sharing == peer.sharing && lowercase(one.name@)
            == lowercase(peer.name@) {
            seq![one]
        } else {
            seq![]
        },
{
    lemma_of_rank_add(a, b, peer);
    lemma_one_of_rank(one, peer);
}

/// An address is written as its four numbers, the highest first.
pub proof fn law_address_is_four_numbers(a: u8, b: u8, c: u8, d: u8)
    ensures
        dotted((a * 0x100_0000 + b * 0x1_0000 + c * 0x100 + d) as u32) == digits(a as nat) + "."@
            + digits(b as nat) + "."@ + digits(c as nat) + "."@ + digits(d as nat),
{
    let ip = a * 0x100_0000 + b * 0x1_0000 + c * 0x100 + d;
    let high = b + a * 0x100;
    lemma_fundamental_div_mod_converse(ip, 0x100, c + high * 0x100, d as int);
    lemma_fundamental_div_mod_converse(c + high * 0x100, 0x100, high, c as int);
    lemma_fundamental_div_mod_converse(ip, 0x1_0000, high, d + c * 0x100);
    lemma_fundamental_div_mod_converse(high, 0x100, a as int, b as int);
    lemma_fundamental_div_mod_converse(ip, 0x100_0000, a as int, d + c * 0x100 + b * 0x1_0000);
}

/// An error is shown in its own words, as something bad; without one there is no line.
pub proof fn law_errors_are_shown_as_they_are(error: Option<String>, words: Seq<char>)
    ensures
        error is None ==> error_line(error).len() == 0 && prefixed_error(words, error).len() == 0,
        error matches Some(message) ==> error_line(error) == seq![(message@, Tone::Bad)]
            && prefixed_error(words, error) == seq![(words + message@, Tone::Bad)],
{
}

/// A machine is watched while a session with it stands.
pub proof fn law_watching_is_having_a_session(app: ArgosApp, id: Seq<char>)
    ensures
        app.view is None ==> !app.watches(id),
        app.view matches Some(view) ==> (view.peer_id is None ==> !app.watches(id)),
        app.view matches Some(view) ==> (view.peer_id matches Some(peer) ==> app.watches(id) == (
        peer@ == id)),
{
}

/// Lines say what they hold, in their order. A line that is not shown is not there.
pub proof fn law_lines_say_what_they_hold(list: Seq<Line>, i: int, text: Seq<char>, tone: Tone)
    ensures
        said(list).len() == list.len(),
        0 <= i < list.len() ==> said(list)[i] == (list[i].text@, list[i].tone),
        line_if(true, text, tone) == seq![(text, tone)],
        line_if(false, text, tone).len() == 0,
{
}

/// Each of six parts occurs in all of them.
proof fn lemma_six_parts(
    v: Seq<char>,
    a: Seq<char>,
    b: Seq<char>,
    c: Seq<char>,
    d: Seq<char>,
    e: Seq<char>,
    text: Seq<char>,
)
    requires
        text == v + a + b + c + d + e,
    ensures
        occurs_in(a, text),
        occurs_in(b, text),
        occurs_in(c, text),
        occurs_in(d, text),
        occurs_in(e, text),
{
    assert(occurs_in(a, text)) by {
        assert(text =~= v + a + (b + c + d + e));
        law_parts_occur(a, text, v, b + c + d + e);
    }
    assert(occurs_in(b, text)) by {
        assert(text =~= v + a + b + (c + d + e));
        law_parts_occur(b, text, v + a, c + d + e);
    }
    assert(occurs_in(c, text)) by {
        assert(text =~= v + a + b + c + (d + e));
        law_parts_occur(c, text, v + a + b, d + e);
    }
    assert(occurs_in(d, text)) by {
        law_parts_occur(d, text, v + a + b + c, e);
    }
    assert(occurs_in(e, text)) by {
        assert(text =~= v + a + b + c + d + e + Seq::<char>::empty());
        law_parts_occur(e, text, v + a + b + c + d, Seq::empty());
    }
}

/// In the words on the picture each count stands in front of what it counts.
pub proof fn law_picture_counts_are_told(stats: ViewStats)
    ensures
        occurs_in(digits(stats.packets as nat) + " packets, "@, video_words(stats)),
        occurs_in(digits(stats.aus as nat) + " frames assembled, "@, video_words(stats)),
        occurs_in(digits(stats.decoded as nat) + " decoded (first "@, video_words(stats)),
        occurs_in(
            " decoded (first "@ + digits(stats.first_width as nat) + "x"@ + digits(
                stats.first_height as nat,
            ) + "), "@,
            video_words(stats),
        ),
        occurs_in(digits(stats.decode_none as nat) + " no-picture, "@, video_words(stats)),
        occurs_in(digits(stats.decode_errors as nat) + " decode errors"@, video_words(stats)),
{
    let text = video_words(stats);
    let v = "Video: "@;
    let a = digits(stats.packets as nat) + " packets, "@;
    let b = digits(stats.aus as nat) + " frames assembled, "@;
    let n = digits(stats.decoded as nat);
    let first = " decoded (first "@;
    let size = digits(stats.first_width as nat) + "x"@ + digits(stats.first_height as nat)
        + "), "@;
    let e = digits(stats.decode_none as nat) + " no-picture, "@;
    let f = digits(stats.decode_errors as nat) + " decode errors"@;
    lemma_six_parts(v, a, b, n + first, size, e + f, v + a + b + (n + first) + size + (e + f));
    lemma_six_parts(v + a, b, n, first + size, e, f, v + a + b + n + (first + size) + e + f);
    let (w, h) = (digits(stats.first_width as nat), digits(stats.first_height as nat));
    let head = v + a + b;
    lemma_three_parts(v, digits(stats.packets as nat), " packets, "@);
    lemma_three_parts(v + a, digits(stats.aus as nat), " frames assembled, "@);
    lemma_three_parts(head, n, first);
    lemma_four_more(head + n + first, w, "x"@, h, "), "@);
    lemma_four_more(first, w, "x"@, h, "), "@);
    lemma_three_parts(head + n, first, size);
    let tail = head + n + first + size;
    lemma_three_parts(tail, digits(stats.decode_none as nat), " no-picture, "@);
    lemma_three_parts(tail + e, digits(stats.decode_errors as nat), " decode errors"@);
    lemma_three_parts(tail, e, f);
}

proof fn lemma_three_parts(a: Seq<char>, b: Seq<char>, c: Seq<char>)
    ensures
        a + b + c == a + (b + c),
{
    assert(a + b + c =~= a + (b + c));
}

proof fn lemma_four_more(a: Seq<char>, b: Seq<char>, c: Seq<char>, d: Seq<char>, e: Seq<char>)
    ensures
        a + b + c + d + e == a + (b + c + d + e),
{
    assert(a + b + c + d + e =~= a + (b + c + d + e));
}

/// In the words on the sound each count stands in front of what it counts, and whether the
/// sound plays stands in front of all.
pub proof fn law_sound_counts_are_told(stats: ViewStats, playing: bool)
    ensures
        occurs_in(digits(stats.audio_packets as nat) + " packets, "@, audio_words(stats, playing)),
        occurs_in(digits(stats.audio_decoded as nat) + " decoded, "@, audio_words(stats, playing)),
        occurs_in(digits(stats.audio_errors as nat) + " errors"@, audio_words(stats, playing)),
        occurs_in(
            "Audio ("@ + (if playing {
                "on"@
            } else {
                "off"@
            }) + "): "@,
            audio_words(stats, playing),
        ),
{
    let text = audio_words(stats, playing);
    let v = "Audio ("@ + (if playing {
        "on"@
    } else {
        "off"@
    }) + "): "@;
    let a = digits(stats.audio_packets as nat) + " packets, "@;
    let b = digits(stats.audio_decoded as nat) + " decoded, "@;
    let c = digits(stats.audio_errors as nat) + " errors"@;
    assert(text =~= Seq::<char>::empty() + v + (a + b + c));
    law_parts_occur(v, text, Seq::empty(), a + b + c);
    assert(text =~= v + a + (b + c));
    law_parts_occur(a, text, v, b + c);
    assert(text =~= (v + a) + b + c);
    law_parts_occur(b, text, v + a, c);
    assert(text =~= (v + a + b) + c + Seq::<char>::empty());
    law_parts_occur(c, text, v + a + b, Seq::empty());
}

/// The window is drawn more than sixty times a second while something moves, and four times
/// while nothing does.
pub proof fn law_window_times()
    ensures
        60 * BUSY_REPAINT < 1_000_000_000 < 60 * (BUSY_REPAINT + 1_000_000),
        BUSY_REPAINT % 1_000_000 == 0,
        4 * IDLE_REPAINT == 1_000_000_000,
{
}

} // verus!
