use argos::capture::MonitorInfo;
use argos::config::AppConfig;
use argos::lan::{Datagram, Endpoint, Ip, Lan, LanEvent, LanPeer, Message};
use argos::receive::ViewStats;
use argos::share::EncodeMsg;
use argos::ui::{
    dotted_text, sidebar_order, ArgosApp, AttachStage, LanAction, Line, Screen, Tone,
};
use argos::view::Picture;

const MS: u64 = 1_000_000;
const SECOND: u64 = 1_000_000_000;

fn app() -> ArgosApp {
    ArgosApp::new(AppConfig { name: "Ann".to_string() }, Ok(()), false, SECOND)
}

fn monitor(name: &str, is_primary: bool) -> MonitorInfo {
    MonitorInfo { name: name.to_string(), width: 1920, height: 1080, is_primary }
}

fn peer(id: &str, name: &str, sharing: bool) -> LanPeer {
    LanPeer {
        id: id.to_string(),
        name: name.to_string(),
        addr: Endpoint { ip: Ip::V4(1), port: 2 },
        sharing,
        last_seen: 0,
    }
}

fn said(lines: &[Line]) -> Vec<(&str, Tone)> {
    lines.iter().map(|line| (line.text.as_str(), line.tone)).collect()
}

fn shared(app: &mut ArgosApp, peer: Option<&str>) {
    app.attach_begin();
    app.attach_done(peer.map(str::to_string), None, Ok(()), Ok(()), SECOND);
}

fn watching(app: &mut ArgosApp, peer: Option<&str>) {
    app.start_view("code");
    app.view_ready("answer".to_string(), peer.map(str::to_string), Ok(()), SECOND);
}

#[test]
fn app_starts_at_home() {
    let app = app();
    assert!(matches!(app.screen, Screen::Home));
    assert_eq!(app.name_input, "Ann");
    assert_eq!((app.share_height, app.frame_rate), (Some(720), 30));
    assert!(app.lan && app.lan_error.is_none());
    let off = ArgosApp::new(AppConfig::default(), Err("no port".to_string()), true, 0);
    assert!(!off.lan && off.radmin_found);
    assert_eq!(off.lan_error, Some("no port".to_string()));
    assert_eq!(off.profile_label(), "Set your name");
    assert_eq!(app.profile_label(), "Ann");
}

#[test]
fn settings_keep_the_trimmed_name() {
    let mut app = app();
    app.open_settings();
    assert!(app.show_settings);
    app.name_input = "  Bo ".to_string();
    assert_eq!(app.settings_window(false, true), None);
    assert_eq!(app.config.name, "Ann");
    assert_eq!(app.settings_window(true, true), Some("Bo".to_string()));
    assert_eq!(app.config.name, "Bo");
    assert!(app.show_settings);
    app.settings_window(false, false);
    assert!(!app.show_settings);
}

#[test]
fn chosen_screen_stays_in_range() {
    let mut app = app();
    app.select_monitor(5);
    app.refresh_monitors(vec![]);
    assert_eq!(app.selected_monitor, 5);
    assert!(app.capture_source().is_none());
    app.refresh_monitors(vec![monitor("A", true), monitor("B", false)]);
    assert_eq!((app.selected_monitor, app.shown_monitor()), (1, 1));
    assert_eq!(app.capture_source().unwrap().name, "B");
    assert_eq!(ArgosApp::monitor_label(&monitor("A", true)), "A (1920x1080) [primary]");
    assert_eq!(ArgosApp::monitor_label(&monitor("B", false)), "B (1920x1080)");
}

#[test]
fn labels_of_the_quality() {
    assert_eq!(ArgosApp::quality_label(Some(720)), "720p");
    assert_eq!(ArgosApp::quality_label(Some(540)), "540p");
    assert_eq!(ArgosApp::quality_label(Some(360)), "360p");
    assert_eq!(ArgosApp::quality_label(Some(1)), "Native");
    assert_eq!(ArgosApp::quality_label(None), "Native");
    assert_eq!(ArgosApp::rate_label(60), "60 fps");
}

#[test]
fn frames_last_as_long_as_the_rate_says() {
    let mut app = app();
    assert_eq!(app.frame_interval(), 33_333_000);
    app.frame_rate = 60;
    assert_eq!(app.frame_interval(), 16_666_000);
    app.frame_rate = 0;
    assert_eq!(app.frame_interval(), SECOND);
}

#[test]
fn preview_turns_on_and_off() {
    let mut app = app();
    assert!(app.preview_needs_capture());
    assert_eq!(app.preview_button(), "Preview");
    app.toggle_preview(Err("no screen".to_string()), 2 * SECOND);
    assert_eq!(app.preview_error, Some("no screen".to_string()));
    app.toggle_preview(Ok(true), 2 * SECOND);
    assert!(app.preview_active && app.capturing && app.preview_error.is_none());
    assert_eq!(app.fps_last, 2 * SECOND);
    assert_eq!(app.preview_button(), "Stop preview");
    app.preview = Some(Picture { width: 2, height: 2 });
    app.toggle_preview(Ok(false), 3 * SECOND);
    assert!(!app.preview_active && app.preview.is_none() && app.capturing);
    assert!(!app.preview_needs_capture());
}

#[test]
fn going_live_and_stopping() {
    let mut app = app();
    assert_eq!(app.share_heading(), "Share your screen");
    assert!(!app.go_live(Err("no screen".to_string()), 0));
    assert_eq!(app.share_error, Some("no screen".to_string()));
    assert!(!app.live);
    assert!(app.go_live(Ok(true), 0));
    assert!(app.live && app.is_streaming() && app.share_error.is_none());
    assert_eq!(app.share_heading(), "You're live");
    assert_eq!(app.stop_live(), (false, true));
    assert!(!app.is_streaming());
    shared(&mut app, None);
    assert_eq!(app.stop_live(), (true, true));
    assert!(app.share.is_none());
}

#[test]
fn share_is_set_up_step_by_step() {
    let mut app = app();
    assert!(!app.attach_begin());
    app.attach_captured(true, SECOND);
    assert!(app.capturing);
    assert_eq!(
        app.route_offer(&Some("p".to_string()), "offer".to_string()),
        (Some(("p".to_string(), "offer".to_string())), None)
    );
    assert_eq!(app.route_offer(&None, "offer".to_string()), (None, Some("offer".to_string())));
    let announce = app.attach_done(
        Some("p".to_string()),
        None,
        Err("no device".to_string()),
        Err("no codec".to_string()),
        5 * SECOND,
    );
    assert!(announce);
    let share = app.share.as_ref().unwrap();
    assert!(!share.audio_on);
    assert_eq!(share.audio_error, Some("no device".to_string()));
    assert_eq!(share.last_encode, 5 * SECOND);
    assert!(app.attach_begin());
    assert!(app.share.is_none());
    assert!(!app.attach_done(None, Some("c".to_string()), Ok(()), Err("no codec".to_string()), 0));
    let share = app.share.as_ref().unwrap();
    assert_eq!(share.audio_error, Some("no codec".to_string()));
    assert_eq!(share.offer_code, Some("c".to_string()));
}

#[test]
fn failed_share_closes_what_was_made() {
    let mut app = app();
    assert!(!app.attach_failed(AttachStage::Capture, "a".to_string()));
    assert!(!app.attach_failed(AttachStage::Sharer, "b".to_string()));
    assert!(!app.attach_failed(AttachStage::Offer, "c".to_string()));
    assert!(app.attach_failed(AttachStage::Encoder, "d".to_string()));
    assert!(app.attach_failed(AttachStage::Worker, "e".to_string()));
    assert_eq!(app.share_error, Some("e".to_string()));
}

#[test]
fn offer_without_network_goes_nowhere() {
    let app = ArgosApp::new(AppConfig::default(), Err("off".to_string()), false, 0);
    assert_eq!(app.route_offer(&Some("p".to_string()), "offer".to_string()), (None, None));
}

#[test]
fn watching_begins_and_ends() {
    let mut app = app();
    assert_eq!(app.start_view(""), None);
    assert_eq!(
        app.view_error,
        Some("paste a connection code from the sharer first".to_string())
    );
    assert_eq!(app.start_view("code"), Some(false));
    app.view_failed("refused".to_string());
    assert_eq!(app.view_error, Some("refused".to_string()));
    assert_eq!(app.start_view("code"), Some(false));
    let send = app.view_ready("ans".to_string(), Some("p".to_string()), Err("mute".to_string()), 9);
    assert_eq!(send, Some(("p".to_string(), "ans".to_string())));
    let view = app.view.as_ref().unwrap();
    assert_eq!(view.answer_code, None);
    assert_eq!((view.audio_on, view.audio_error.as_deref()), (false, Some("mute")));
    assert!(app.is_watching("p") && !app.is_watching("q"));
    assert_eq!(app.start_view("code"), Some(true));
    assert_eq!(app.view_ready("ans".to_string(), None, Ok(()), 9), None);
    assert_eq!(app.view.as_ref().unwrap().answer_code, Some("ans".to_string()));
    app.connected_by_code();
    assert!(matches!(app.screen, Screen::View));
    assert!(app.view_visible());
    assert!(app.stop_view());
    assert!(matches!(app.screen, Screen::Home));
    assert!(!app.view_visible());
    app.connected_by_code();
    assert!(matches!(app.screen, Screen::Home));
}

#[test]
fn watched_screen_is_seen_where_it_is_shown() {
    let mut app = app();
    watching(&mut app, Some("p"));
    app.peer_picked(&peer("q", "Quin", true));
    assert!(!app.view_visible());
    app.peer_picked(&peer("p", "Pat", true));
    assert!(app.view_visible());
    assert!(app.is_selected("p") && !app.is_selected("q"));
    app.go_share();
    assert!(!app.view_visible());
    app.go_home();
    assert!(!app.is_selected("p"));
}

#[test]
fn requests_count_while_live_and_free() {
    let mut app = app();
    let request = || LanEvent::Request { id: "p".to_string(), name: "Pat".to_string() };
    assert!(matches!(app.lan_event(request(), false), LanAction::Nothing));
    app.go_live(Ok(true), 0);
    assert!(matches!(app.lan_event(request(), false), LanAction::Attach(id) if id == "p"));
    shared(&mut app, Some("q"));
    assert!(matches!(app.lan_event(request(), false), LanAction::Attach(_)));
    assert!(matches!(app.lan_event(request(), true), LanAction::Nothing));
}

#[test]
fn offers_count_once_and_if_asked_for() {
    let mut app = app();
    let offer = |id: &str| LanEvent::Offer { id: id.to_string(), sdp: "s".to_string() };
    assert!(matches!(app.lan_event(offer("p"), false), LanAction::Nothing));
    assert!(app.request_view("p"));
    assert!(app.is_pending("p"));
    assert!(matches!(app.lan_event(offer("q"), false), LanAction::Nothing));
    assert!(matches!(
        app.lan_event(offer("p"), false),
        LanAction::Watch { offer, peer } if offer == "s" && peer == "p"
    ));
    assert!(matches!(app.lan_event(offer("p"), false), LanAction::Nothing));
}

#[test]
fn answers_count_from_the_right_machine() {
    let mut app = app();
    let answer = |id: &str| LanEvent::Answer { id: id.to_string(), sdp: "s".to_string() };
    assert!(matches!(app.lan_event(answer("p"), false), LanAction::Nothing));
    shared(&mut app, Some("p"));
    assert!(matches!(app.lan_event(answer("q"), false), LanAction::Nothing));
    assert!(matches!(app.lan_event(answer("p"), false), LanAction::Answer(sdp) if sdp == "s"));
}

#[test]
fn capture_is_active_while_frames_are_wanted() {
    let mut app = app();
    app.preview = Some(Picture { width: 2, height: 2 });
    assert!(!app.update_capture_active(true));
    assert!(app.preview.is_none());
    shared(&mut app, None);
    assert!(!app.update_capture_active(false));
    assert!(app.update_capture_active(true));
    app.stop_live();
    app.toggle_preview(Ok(true), 0);
    assert!(app.update_capture_active(false));
}

#[test]
fn frames_go_to_preview_and_encoder() {
    let mut app = app();
    let picture = Picture { width: 64, height: 48 };
    let update = app.poll_capture(false, Some("dead".to_string()), Some(picture), 2 * SECOND);
    assert!(update.preview.is_none() && !update.encode);
    assert_eq!(app.preview_error, None);
    app.toggle_preview(Ok(true), 2 * SECOND);
    let update = app.poll_capture(false, None, Some(picture), 2 * SECOND + 500 * MS);
    let preview = update.preview.unwrap();
    assert!(!preview.same_size && preview.rate.is_none());
    let update = app.poll_capture(false, None, Some(picture), 3 * SECOND);
    let preview = update.preview.unwrap();
    assert!(preview.same_size);
    let rate = preview.rate.unwrap();
    assert_eq!((rate.frames, rate.elapsed), (2, SECOND));
    assert_eq!(app.fps_frames, 0);
    shared(&mut app, None);
    let update = app.poll_capture(true, Some("dead".to_string()), Some(picture), 4 * SECOND);
    assert!(update.encode);
    assert_eq!(app.preview_error, Some("dead".to_string()));
    assert_eq!(app.share.as_ref().unwrap().error, Some("dead".to_string()));
    assert_eq!(app.share.as_ref().unwrap().last_encode, 4 * SECOND);
    assert!(!app.poll_capture(true, None, Some(picture), 4 * SECOND + MS).encode);
    app.worker_failed(Some("encoder".to_string()));
    assert_eq!(app.share.as_ref().unwrap().error, Some("encoder".to_string()));
    app.worker_failed(None);
    assert_eq!(app.share.as_ref().unwrap().error, Some("encoder".to_string()));
}

#[test]
fn missing_frame_still_tells_the_error() {
    let mut app = app();
    shared(&mut app, None);
    assert!(app.wants_frame(true, 2 * SECOND));
    assert!(!app.wants_frame(false, 2 * SECOND));
    let update = app.poll_capture(true, Some("dead".to_string()), None, 2 * SECOND);
    assert!(!update.encode);
    assert_eq!(app.share.as_ref().unwrap().error, Some("dead".to_string()));
    assert_eq!(app.share.as_ref().unwrap().last_encode, SECOND);
}

#[test]
fn stream_is_measured_and_shown() {
    let mut app = app();
    let mut stats = ViewStats::default();
    assert_eq!(app.poll_view(true, &stats, 0), None);
    watching(&mut app, Some("p"));
    stats.decoded = 30;
    let sample = app.poll_view(true, &stats, 2 * SECOND).unwrap();
    assert_eq!((sample.frames, sample.elapsed), (30, SECOND));
    assert!(app.view.as_ref().unwrap().was_connected);
    let picture = Picture { width: 64, height: 48 };
    assert!(!app.show_view(picture));
    assert!(app.show_view(picture));
}

#[test]
fn lost_stream_is_asked_for_again() {
    let mut app = app();
    assert_eq!(app.poll_reconnect(false, 0), None);
    watching(&mut app, Some("p"));
    assert_eq!(app.poll_reconnect(false, 10 * SECOND), None);
    app.poll_view(true, &ViewStats::default(), 10 * SECOND);
    assert_eq!(app.poll_reconnect(false, 11 * SECOND), None);
    assert_eq!(app.poll_reconnect(false, 14 * SECOND), Some(("p".to_string(), true)));
    assert_eq!(app.pending_view, Some("p".to_string()));
}

#[test]
fn status_in_a_word() {
    let mut app = app();
    assert_eq!(app.status_text(false), "offline");
    assert!(app.only_listens());
    app.toggle_preview(Ok(true), 0);
    assert_eq!(app.status_text(false), "previewing");
    app.go_live(Ok(false), 0);
    assert_eq!(app.status_text(false), "live");
    watching(&mut app, None);
    assert_eq!(app.status_text(false), "watching");
    shared(&mut app, None);
    assert_eq!(app.status_text(true), "sharing");
    assert!(!app.only_listens());
    assert_eq!(ArgosApp::repaint_after(true), 16 * MS);
    assert_eq!(ArgosApp::repaint_after(false), 250 * MS);
}

#[test]
fn changed_choices_are_told() {
    let mut app = app();
    assert_eq!(app.choose_rate(60), None);
    assert_eq!(app.frame_rate, 60);
    app.capturing = true;
    assert_eq!(app.choose_rate(60), None);
    assert_eq!(app.choose_rate(30), Some(33_333_000));
    assert!(app.choose_height(Some(540)).is_none());
    shared(&mut app, None);
    assert!(app.choose_height(Some(540)).is_none());
    assert!(matches!(
        app.choose_height(None),
        Some(EncodeMsg::Quality { target_height: None })
    ));
}

#[test]
fn streaming_keeps_the_rate_and_has_no_click_to_go_live() {
    let mut app = app();
    assert!(app.live_clicked(Ok(true), SECOND));
    assert_eq!(app.choose_rate(60), None);
    assert_eq!(app.frame_rate, 30);
    assert!(!app.live_clicked(Err("no screen".to_string()), 2 * SECOND));
    assert!(app.live && app.share_error.is_none());
    assert_eq!(app.fps_last, SECOND);
    app.stop_live();
    shared(&mut app, Some("p"));
    assert!(!app.live_clicked(Ok(true), 2 * SECOND));
    assert!(!app.live);
    assert_eq!(app.choose_rate(60), None);
    assert_eq!(app.frame_rate, 30);
    app.stop_live();
    assert_eq!(app.choose_rate(60), Some(16_666_000));
    assert_eq!(app.frame_rate, 60);
}

#[test]
fn going_live_acts_while_streaming_too() {
    let mut app = app();
    shared(&mut app, Some("p"));
    app.share_error = Some("old".to_string());
    assert!(app.go_live(Ok(false), 2 * SECOND));
    assert!(app.live && app.share_error.is_none());
    assert!(!app.go_live(Err("no screen".to_string()), 3 * SECOND));
    assert!(app.live);
    assert_eq!(app.share_error, Some("no screen".to_string()));
}

#[test]
fn only_who_shares_can_be_picked() {
    let mut app = app();
    app.peer_picked(&peer("p", "Pat", false));
    assert!(matches!(app.screen, Screen::Home));
    app.peer_picked(&peer("q", "Quin", true));
    assert!(app.is_selected("q"));
    app.peer_picked(&peer("p", "Pat", false));
    assert!(app.is_selected("q"));
}

#[test]
fn share_screen_tells_what_goes_on() {
    let mut app = app();
    assert!(said(&app.share_lines("x")).is_empty());
    assert_eq!(
        app.share_hint(),
        Some("Press Go Live to start sharing, or Preview to check your screen first.")
    );
    app.go_live(Ok(true), 0);
    assert_eq!(said(&app.share_lines("x")), vec![("Waiting for someone to join…", Tone::Good)]);
    assert_eq!(app.share_hint(), Some("Press Preview to see your screen here."));
    shared(&mut app, None);
    app.share.as_mut().unwrap().error = Some("e1".to_string());
    app.share_error = Some("e2".to_string());
    assert_eq!(
        said(&app.share_lines("Connected")),
        vec![
            ("Status: Connected", Tone::Plain),
            ("Audio: system sound shared", Tone::Weak),
            ("e1", Tone::Bad),
            ("e2", Tone::Bad)
        ]
    );
    app.preview_active = true;
    assert_eq!(app.share_hint(), None);
    assert!(!app.can_offer_by_hand());
}

#[test]
fn who_shares_is_listed_first() {
    let list = vec![
        peer("1", "zoe", false),
        peer("2", "Yan", true),
        peer("3", "adam", false),
        peer("4", "Bea", true),
    ];
    let names: Vec<String> = sidebar_order(list).into_iter().map(|peer| peer.name).collect();
    assert_eq!(names, vec!["Bea", "Yan", "adam", "zoe"]);
    assert!(sidebar_order(vec![]).is_empty());
}

#[test]
fn machines_of_one_rank_keep_their_order() {
    let list = vec![peer("1", "Kim", false), peer("2", "ann", true), peer("3", "KIM", false)];
    let ids: Vec<String> = sidebar_order(list).into_iter().map(|peer| peer.id).collect();
    assert_eq!(ids, vec!["2", "1", "3"]);
}

fn arrives(to: &mut Lan, message: Message) -> LanEvent {
    to.signalled(Datagram::Received { message: Some(message), from: Ip::V4(9) });
    to.try_event().unwrap()
}

#[test]
fn request_offer_and_answer_find_their_way() {
    let (mut viewer, mut sharer) = (app(), app());
    let mut viewer_lan = Lan::start("Ann".to_string(), 1, 1000, None);
    let mut sharer_lan = Lan::start("Bea".to_string(), 2, 2000, None);
    let hello = viewer_lan.beacon(None, SECOND);
    sharer_lan.discovered(Datagram::Received { message: hello, from: Ip::V4(7) }, SECOND);
    let hello = sharer_lan.beacon(None, SECOND);
    viewer_lan.discovered(Datagram::Received { message: hello, from: Ip::V4(8) }, SECOND);
    sharer.go_live(Ok(true), SECOND);

    let sharer_id = sharer_lan.id().to_string();
    assert!(viewer.request_view(&sharer_id));
    let (to, request) = viewer_lan.send_request(&sharer_id, "Ann").unwrap();
    assert_eq!(to, Endpoint { ip: Ip::V4(8), port: 2000 });
    let event = arrives(&mut sharer_lan, request);
    let LanAction::Attach(viewer_id) = sharer.lan_event(event, false) else {
        panic!("the request was not taken");
    };
    assert_eq!(viewer_id, viewer_lan.id());

    shared(&mut sharer, Some(&viewer_id));
    let (to, offer) = sharer_lan.send_offer(&viewer_id, "offer".to_string()).unwrap();
    assert_eq!(to, Endpoint { ip: Ip::V4(7), port: 1000 });
    let event = arrives(&mut viewer_lan, offer);
    let LanAction::Watch { offer, peer } = viewer.lan_event(event, false) else {
        panic!("the offer was not taken");
    };
    assert_eq!((offer.as_str(), &peer), ("offer", &sharer_id));

    let (_, answer) = viewer_lan.send_answer(&peer, "answer".to_string()).unwrap();
    let event = arrives(&mut sharer_lan, answer);
    let LanAction::Answer(answer) = sharer.lan_event(event, false) else {
        panic!("the answer was not taken");
    };
    assert_eq!(answer, "answer");
}

#[test]
fn side_bar_tells_what_is_missing() {
    let mut app = app();
    assert_eq!(app.peers_notice(0), Some("Looking for people…"));
    assert_eq!(app.peers_notice(1), None);
    assert!(app.pending_lines().is_empty());
    app.request_view("p");
    app.view_error = Some("bad".to_string());
    assert_eq!(
        said(&app.pending_lines()),
        vec![("Connecting…", Tone::Warning), ("bad", Tone::Bad)]
    );
    app.code_input = " abc \n".to_string();
    assert_eq!(app.typed_code(), "abc");
    app.lan = false;
    assert_eq!(app.peers_notice(1), Some("Peer discovery is unavailable"));
}

#[test]
fn machine_can_be_asked_once() {
    let mut app = app();
    let peers = vec![peer("p", "Pat", true)];
    assert_eq!(ArgosApp::peer_name(&peers, "p"), "Pat");
    assert_eq!(ArgosApp::peer_name(&peers, "q"), "Stream");
    assert_eq!(said(&app.peer_lines("p")), vec![("Not watching yet.", Tone::Weak)]);
    assert!(app.peer_clicked("p"));
    assert!(!app.peer_clicked("p"));
    assert_eq!(said(&app.peer_lines("p")), vec![("Connecting…", Tone::Warning)]);
}

#[test]
fn diagnostics_are_counted_out() {
    let mut app = app();
    watching(&mut app, None);
    let mut stats = ViewStats::default();
    let view = app.view.as_mut().unwrap();
    assert_eq!(said(&[view.caption(&stats)]), vec![("Waiting for stream data…", Tone::Grey)]);
    stats.packets = 12;
    assert_eq!(
        said(&[view.caption(&stats)]),
        vec![("Receiving stream data but no decoded picture yet…", Tone::Warning)]
    );
    view.texture = Some(Picture { width: 64, height: 48 });
    assert_eq!(said(&[view.caption(&stats)]), vec![("Stream 64x48", Tone::Plain)]);
    stats.aus = 3;
    stats.decoded = 2;
    stats.first_width = 64;
    stats.first_height = 48;
    stats.decode_errors = 1;
    stats.first_error = Some("e".to_string());
    stats.audio_packets = 5;
    stats.audio_error = Some("a".to_string());
    view.audio_error = Some("u".to_string());
    assert_eq!(
        said(&view.diagnostics(&stats)),
        vec![
            (
                "Video: 12 packets, 3 frames assembled, 2 decoded (first 64x48), 0 no-picture, 1 decode errors",
                Tone::Plain
            ),
            ("First decode error: e", Tone::Bad),
            ("Audio (on): 5 packets, 0 decoded, 0 errors", Tone::Plain),
            ("First audio error: a", Tone::Bad),
            ("Audio unavailable: u", Tone::Bad)
        ]
    );
    assert_eq!(said(&view.status_lines("Connected")), vec![("Status: Connected", Tone::Plain)]);
}

#[test]
fn network_is_described() {
    let mut app = app();
    assert_eq!(dotted_text(0x1a01_02ff), "26.1.2.255");
    assert_eq!(
        said(&app.network_lines(Some(0x1a01_02ff))),
        vec![("This PC on your network: 26.1.2.255", Tone::Weak)]
    );
    app.radmin_launched(Err("no".to_string()));
    app.lan_error = Some("port".to_string());
    assert_eq!(
        said(&app.network_lines(None)),
        vec![
            ("Radmin VPN not detected — friends can't find this PC yet.", Tone::Warning),
            ("Install Radmin VPN to share with friends online.", Tone::Weak),
            ("no", Tone::Bad),
            ("Network discovery off: port", Tone::Weak)
        ]
    );
    app.radmin_found = true;
    app.radmin_launched(Ok(()));
    assert!(app.can_launch_radmin(None) && !app.can_launch_radmin(Some(1)));
    assert_eq!(app.network_lines(None).len(), 2);
}
