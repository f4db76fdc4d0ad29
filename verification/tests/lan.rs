use argos::lan::{
    broadcast_targets, find_vpn_address, random_id, Datagram, Endpoint, Interface, Ip, Lan,
    LanEvent, ListenStep, Message, BROADCAST,
};

const SECOND: u64 = 1_000_000_000;

fn lan(name: &str, bits: u64, port: u16) -> Lan {
    Lan::start(name.to_string(), bits, port, None)
}

fn received(message: Message, ip: u32) -> Datagram {
    Datagram::Received { message: Some(message), from: Ip::V4(ip) }
}

fn hello(id: &str, name: &str, sharing: bool) -> Message {
    Message {
        kind: "hello".to_string(),
        id: id.to_string(),
        name: name.to_string(),
        to: String::new(),
        port: 5000,
        sharing,
        sdp: String::new(),
    }
}

fn names(lan: &Lan, now: u64) -> Vec<String> {
    lan.peers(now).into_iter().map(|peer| peer.name).collect()
}

#[test]
fn ids_have_sixteen_digits() {
    assert_eq!(random_id(0), "0000000000000000");
    assert_eq!(random_id(0xdead_beef), "00000000deadbeef");
    assert_eq!(random_id(u64::MAX), "ffffffffffffffff");
}

#[test]
fn vpn_is_found_by_name_before_address() {
    let interface = |name: &str, ip: Option<u32>| Interface {
        name: name.to_string(),
        ip,
        broadcast: None,
    };
    let by_number = interface("Ethernet", Some(0x1a01_0203));
    let by_name = interface("Famatech RADMIN VPN", Some(0x0a00_0001));
    let no_address = interface("radmin", None);
    let other = interface("lo", Some(0x7f00_0001));
    assert_eq!(find_vpn_address(&vec![other, by_number, no_address, by_name]), Some(0x0a00_0001));
    let by_number = interface("Ethernet", Some(0x1a01_0203));
    let other = interface("lo", Some(0x7f00_0001));
    assert_eq!(find_vpn_address(&vec![other, by_number]), Some(0x1a01_0203));
    assert_eq!(find_vpn_address(&vec![interface("lo", Some(0x7f00_0001))]), None);
    assert_eq!(find_vpn_address(&vec![]), None);
}

#[test]
fn each_network_is_greeted_once() {
    let interface = |broadcast: Option<u32>| Interface {
        name: String::new(),
        ip: Some(1),
        broadcast,
    };
    let list = vec![
        interface(Some(10)),
        interface(None),
        interface(Some(BROADCAST)),
        interface(Some(20)),
        interface(Some(10)),
    ];
    assert_eq!(broadcast_targets(&list), vec![BROADCAST, 10, 20]);
    assert_eq!(broadcast_targets(&vec![]), vec![BROADCAST]);
}

#[test]
fn greetings_make_machines_known() {
    let mut alice = lan("Alice", 1, 4001);
    let mut bob = lan("Bob", 2, 4002);
    alice.set_sharing(true);
    let message = alice.beacon(Some(77), 10 * SECOND).unwrap();
    assert_eq!(message.kind, "hello");
    assert_eq!(alice.local_address(), Some(77));
    assert_eq!(bob.discovered(received(message, 9), 11 * SECOND), ListenStep::Listen);
    let peers = bob.peers(11 * SECOND);
    assert_eq!(peers.len(), 1);
    assert_eq!(peers[0].id, alice.id());
    assert_eq!(peers[0].name, "Alice");
    assert!(peers[0].sharing);
    assert_eq!(peers[0].addr, Endpoint { ip: Ip::V4(9), port: 4001 });
    assert_eq!(peers[0].last_seen, 11 * SECOND);
}

#[test]
fn own_greeting_is_passed_over() {
    let mut alice = lan("Alice", 1, 4001);
    let message = alice.beacon(None, 10 * SECOND).unwrap();
    alice.discovered(received(message, 9), 10 * SECOND);
    assert!(alice.peers(10 * SECOND).is_empty());
}

#[test]
fn greetings_come_every_two_seconds() {
    let mut alice = lan("Alice", 1, 4001);
    assert!(alice.is_beacon_due(0));
    assert!(alice.beacon(None, 0).is_some());
    assert!(!alice.is_beacon_due(SECOND));
    assert!(alice.beacon(None, 2 * SECOND - 1).is_none());
    assert!(alice.beacon(None, 2 * SECOND).is_some());
    assert!(alice.beacon(None, 3 * SECOND).is_none());
}

#[test]
fn silent_machines_are_forgotten() {
    let mut bob = lan("Bob", 2, 4002);
    bob.discovered(received(hello("a", "Alice", false), 9), 10 * SECOND);
    assert_eq!(names(&bob, 18 * SECOND - 1), vec!["Alice"]);
    assert!(names(&bob, 18 * SECOND).is_empty());
    assert!(bob.send_request("a", "Bob").is_some());
    bob.beacon(None, 18 * SECOND);
    assert!(bob.send_request("a", "Bob").is_none());
}

#[test]
fn machines_are_listed_by_name() {
    let mut bob = lan("Bob", 2, 4002);
    for (id, name) in [("1", "zoe"), ("2", "Adam"), ("3", "   "), ("4", "bea")] {
        bob.discovered(received(hello(id, name, false), 9), SECOND);
    }
    assert_eq!(names(&bob, SECOND), vec!["Adam", "bea", "Unnamed", "zoe"]);
    bob.discovered(received(hello("1", "Anna", true), 9), 2 * SECOND);
    assert_eq!(names(&bob, 2 * SECOND), vec!["Adam", "Anna", "bea", "Unnamed"]);
}

#[test]
fn other_messages_are_no_greeting() {
    let mut bob = lan("Bob", 2, 4002);
    let mut message = hello("a", "Alice", false);
    message.kind = "offer".to_string();
    bob.discovered(received(message, 9), SECOND);
    assert!(bob.peers(SECOND).is_empty());
    let garbage = Datagram::Received { message: None, from: Ip::V4(9) };
    assert_eq!(bob.discovered(garbage, SECOND), ListenStep::Listen);
    assert_eq!(bob.discovered(Datagram::Nothing, SECOND), ListenStep::Sleep(50_000_000));
    assert_eq!(bob.discovered(Datagram::Broken, SECOND), ListenStep::Leave);
    assert_eq!(bob.signalled(Datagram::Nothing), ListenStep::Sleep(20_000_000));
    assert_eq!(bob.signalled(Datagram::Broken), ListenStep::Leave);
}

#[test]
fn messages_arrive_as_sent() {
    let mut alice = lan("Alice", 1, 4001);
    let mut bob = lan("Bob", 2, 4002);
    let bob_id = bob.id().to_string();
    let hello = bob.beacon(None, SECOND).unwrap();
    alice.discovered(received(hello, 8), SECOND);
    let (to, request) = alice.send_request(&bob_id, "Alice").unwrap();
    assert_eq!(to, Endpoint { ip: Ip::V4(8), port: 4002 });
    assert_eq!(request.port, 4001);
    bob.signalled(received(request, 7));
    let (_, offer) = alice.send_offer(&bob_id, "sdp1".to_string()).unwrap();
    bob.signalled(received(offer, 7));
    let (_, answer) = alice.send_answer(&bob_id, "sdp2".to_string()).unwrap();
    bob.signalled(received(answer, 7));
    let alice_id = alice.id().to_string();
    assert!(matches!(
        bob.try_event(),
        Some(LanEvent::Request { id, name }) if id == alice_id && name == "Alice"
    ));
    assert!(matches!(
        bob.try_event(),
        Some(LanEvent::Offer { id, sdp }) if id == alice_id && sdp == "sdp1"
    ));
    assert!(matches!(
        bob.try_event(),
        Some(LanEvent::Answer { id, sdp }) if id == alice_id && sdp == "sdp2"
    ));
    assert!(bob.try_event().is_none());
}

#[test]
fn messages_for_others_are_dropped() {
    let mut bob = lan("Bob", 2, 4002);
    let own = bob.id().to_string();
    let message = |id: &str, to: &str, kind: &str| Message {
        kind: kind.to_string(),
        id: id.to_string(),
        name: String::new(),
        to: to.to_string(),
        port: 1,
        sharing: false,
        sdp: String::new(),
    };
    bob.signalled(received(message("a", "x", "offer"), 7));
    bob.signalled(received(message(&own, &own, "offer"), 7));
    bob.signalled(received(message("a", &own, "hello"), 7));
    assert!(bob.try_event().is_none());
    bob.signalled(received(message("a", &own, "answer"), 7));
    assert!(bob.try_event().is_some());
}

#[test]
fn names_can_change() {
    let mut alice = lan("Alice", 1, 4001);
    alice.set_name("Al".to_string());
    assert_eq!(alice.beacon(None, 0).unwrap().name, "Al");
}

#[test]
fn unknown_machines_get_nothing() {
    let alice = lan("Alice", 1, 4001);
    assert!(alice.send_offer("nobody", String::new()).is_none());
    assert!(alice.send_answer("nobody", String::new()).is_none());
}
