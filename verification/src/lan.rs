//! Finding the other machines on the network and exchanging messages with them.
use std::collections::VecDeque;

use vstd::prelude::*;

use crate::text::{
    comes_before, contains, is_white, law_blank_texts_are_white, law_parts_occur,
    law_text_order_is_strict, law_text_order_is_total, law_text_order_is_transitive, lowercase,
    occurs_in, same, text_lt, trim, trimmed,
};
use crate::time::{elapsed, span};

verus! {

pub const DISCOVERY_PORT: u16 = 45892;

/// How often a machine says that it is there.
pub const BEACON_INTERVAL: u64 = 2_000_000_000;

/// How long a machine counts as there after it was heard.
pub const PEER_TIMEOUT: u64 = 8_000_000_000;

/// How long the discovery rests where nothing has come in.
pub const DISCOVERY_SLEEP: u64 = 50_000_000;

/// How long the signalling rests where nothing has come in.
pub const SIGNAL_SLEEP: u64 = 20_000_000;

/// The address that reaches every machine, 255.255.255.255.
pub const BROADCAST: u32 = 0xffff_ffff;

/// An address, as the number that its bytes make.
#[derive(Clone, Copy, Debug, PartialEq, Eq, Structural)]
pub enum Ip {
    V4(u32),
    V6(u128),
}

/// An address and a port.
#[derive(Clone, Copy, Debug, PartialEq, Eq, Structural)]
pub struct Endpoint {
    pub ip: Ip,
    pub port: u16,
}

/// A machine that was heard.
pub struct LanPeer {
    pub id: String,
    pub name: String,
    pub addr: Endpoint,
    pub sharing: bool,
    pub last_seen: u64,
}

/// What is known of a machine.
#[verifier::ext_equal]
pub struct PeerView {
    pub id: Seq<char>,
    pub name: Seq<char>,
    pub addr: Endpoint,
    pub sharing: bool,
    pub last_seen: u64,
}

impl View for LanPeer {
    type V = PeerView;

    open spec fn view(&self) -> PeerView {
        PeerView {
            id: self.id@,
            name: self.name@,
            addr: self.addr,
            sharing: self.sharing,
            last_seen: self.last_seen,
        }
    }
}

impl Clone for LanPeer {
    fn clone(&self) -> (copy: Self)
        ensures
            copy@ == self@,
    {
        Self {
            id: self.id.clone(),
            name: self.name.clone(),
            addr: self.addr,
            sharing: self.sharing,
            last_seen: self.last_seen,
        }
    }
}

impl PeerView {
    /// Whether the machine was heard lately.
    pub open spec fn is_fresh(self, now: u64) -> bool {
        span(now, self.last_seen) < PEER_TIMEOUT
    }
}

/// What another machine has sent.
pub enum LanEvent {
    Request { id: String, name: String },
    Offer { id: String, sdp: String },
    Answer { id: String, sdp: String },
}

/// What a message from another machine says.
#[verifier::ext_equal]
pub enum EventView {
    Request { id: Seq<char>, name: Seq<char> },
    Offer { id: Seq<char>, sdp: Seq<char> },
    Answer { id: Seq<char>, sdp: Seq<char> },
}

impl View for LanEvent {
    type V = EventView;

    open spec fn view(&self) -> EventView {
        match self {
            LanEvent::Request { id, name } => EventView::Request { id: id@, name: name@ },
            LanEvent::Offer { id, sdp } => EventView::Offer { id: id@, sdp: sdp@ },
            LanEvent::Answer { id, sdp } => EventView::Answer { id: id@, sdp: sdp@ },
        }
    }
}

/// A message between two machines.
pub struct Message {
    pub kind: String,
    pub id: String,
    pub name: String,
    pub to: String,
    pub port: u16,
    pub sharing: bool,
    pub sdp: String,
}

/// What a message says.
#[verifier::ext_equal]
pub struct MessageView {
    pub kind: Seq<char>,
    pub id: Seq<char>,
    pub name: Seq<char>,
    pub to: Seq<char>,
    pub port: u16,
    pub sharing: bool,
    pub sdp: Seq<char>,
}

impl View for Message {
    type V = MessageView;

    open spec fn view(&self) -> MessageView {
        MessageView {
            kind: self.kind@,
            id: self.id@,
            name: self.name@,
            to: self.to@,
            port: self.port,
            sharing: self.sharing,
            sdp: self.sdp@,
        }
    }
}

/// What came of listening on a socket. A datagram that holds no message comes
/// without one.
pub enum Datagram {
    Received { message: Option<Message>, from: Ip },
    Nothing,
    Broken,
}

/// What a loop that listens does next.
#[derive(Clone, Copy, Debug, PartialEq, Eq, Structural)]
pub enum ListenStep {
    Listen,
    Sleep(u64),
    Leave,
}

/// What a loop that listens does next: rest where nothing came in, leave where the
/// socket is broken.
pub open spec fn step_after(datagram: Datagram, rest: u64) -> ListenStep {
    match datagram {
        Datagram::Received { .. } => ListenStep::Listen,
        Datagram::Nothing => ListenStep::Sleep(rest),
        Datagram::Broken => ListenStep::Leave,
    }
}

/// The peer with this id, if the list has one.
pub open spec fn find(list: Seq<LanPeer>, id: Seq<char>) -> Option<PeerView>
    decreases list.len(),
{
    if list.len() == 0 {
        None
    } else if list.first().id@ == id {
        Some(list.first()@)
    } else {
        find(list.drop_first(), id)
    }
}

/// The peers of a list by their ids.
pub open spec fn table_of(list: Seq<LanPeer>) -> Map<Seq<char>, PeerView> {
    Map::new(|id: Seq<char>| find(list, id) is Some, |id: Seq<char>| find(list, id)->0)
}

/// Whether no two peers of a list share an id.
pub open spec fn unique(list: Seq<LanPeer>) -> bool {
    forall|i: int, j: int|
        0 <= i < j < list.len() ==> (#[trigger] list[i]).id@ != (#[trigger] list[j]).id@
}

proof fn lemma_find(list: Seq<LanPeer>, id: Seq<char>)
    ensures
        match find(list, id) {
            Some(peer) => exists|i: int|
                0 <= i < list.len() && (#[trigger] list[i])@ == peer && list[i].id@ == id,
            None => forall|i: int| 0 <= i < list.len() ==> (#[trigger] list[i]).id@ != id,
        },
    decreases list.len(),
{
    if list.len() > 0 {
        let rest = list.drop_first();
        if list.first().id@ == id {
            assert(list[0]@ == list.first()@);
        } else {
            lemma_find(rest, id);
            match find(rest, id) {
                Some(peer) => {
                    let i = choose|i: int|
                        0 <= i < rest.len() && (#[trigger] rest[i])@ == peer && rest[i].id@ == id;
                    assert(list[i + 1]@ == peer);
                },
                None => {
                    assert forall|i: int| 0 <= i < list.len() implies (#[trigger] list[i]).id@
                        != id by {
                        if i > 0 {
                            assert(rest[i - 1] == list[i]);
                        }
                    }
                },
            }
        }
    }
}

/// In a list of distinct peers, each is found under its own id.
proof fn lemma_find_at(list: Seq<LanPeer>, i: int)
    requires
        unique(list),
        0 <= i < list.len(),
    ensures
        find(list, list[i].id@) == Some(list[i]@),
{
    lemma_find(list, list[i].id@);
    match find(list, list[i].id@) {
        Some(peer) => {
            let j = choose|j: int|
                0 <= j < list.len() && (#[trigger] list[j])@ == peer && list[j].id@ == list[i].id@;
            assert(i == j);
        },
        None => {},
    }
}

/// What a machine knows and says.
#[verifier::ext_equal]
pub struct LanView {
    pub id: Seq<char>,
    pub name: Seq<char>,
    pub sharing: bool,
    pub local: Option<u32>,
    pub signal_port: u16,
    pub peers: Map<Seq<char>, PeerView>,
    pub events: Seq<EventView>,
    pub last_beacon: Option<u64>,
}

/// What machines are called that do not tell a name.
pub open spec fn shown_name(name: Seq<char>) -> Seq<char> {
    if trimmed(name).len() == 0 {
        "Unnamed"@
    } else {
        name
    }
}

impl LanView {
    /// What a machine says of itself to all others.
    pub open spec fn hello(self) -> MessageView {
        MessageView {
            kind: "hello"@,
            id: self.id,
            name: self.name,
            to: ""@,
            port: self.signal_port,
            sharing: self.sharing,
            sdp: ""@,
        }
    }

    /// A message to one other machine.
    pub open spec fn message(
        self,
        kind: Seq<char>,
        to: Seq<char>,
        name: Seq<char>,
        sdp: Seq<char>,
    ) -> MessageView {
        MessageView {
            kind,
            id: self.id,
            name,
            to,
            port: self.signal_port,
            sharing: false,
            sdp,
        }
    }

    /// What is known after a message was heard by all: a greeting of another machine
    /// is taken down, all else is passed over.
    pub open spec fn after_hello(self, message: MessageView, from: Ip, now: u64) -> LanView {
        if message.id == self.id || message.kind != "hello"@ {
            self
        } else {
            LanView {
                peers: self.peers.insert(
                    message.id,
                    PeerView {
                        id: message.id,
                        name: shown_name(message.name),
                        addr: Endpoint { ip: from, port: message.port },
                        sharing: message.sharing,
                        last_seen: now,
                    },
                ),
                ..self
            }
        }
    }

    /// What a message to this machine alone brings: nothing where it comes from the
    /// machine itself, is meant for another one, or is of no known kind.
    pub open spec fn event_of(self, message: MessageView) -> Option<EventView> {
        if message.id == self.id || message.to != self.id {
            None
        } else if message.kind == "request"@ {
            Some(EventView::Request { id: message.id, name: message.name })
        } else if message.kind == "offer"@ {
            Some(EventView::Offer { id: message.id, sdp: message.sdp })
        } else if message.kind == "answer"@ {
            Some(EventView::Answer { id: message.id, sdp: message.sdp })
        } else {
            None
        }
    }

    /// The peers that were heard lately.
    pub open spec fn fresh(self, now: u64) -> Map<Seq<char>, PeerView> {
        Map::new(
            |id: Seq<char>| self.peers.contains_key(id) && self.peers[id].is_fresh(now),
            |id: Seq<char>| self.peers[id],
        )
    }

    /// Whether it is time to say hello again.
    pub open spec fn beacon_due(self, now: u64) -> bool {
        match self.last_beacon {
            Some(last) => span(now, last) >= BEACON_INTERVAL,
            None => true,
        }
    }
}

/// The part of a machine in the network: what it says of itself, which machines it
/// has heard, and what these have sent.
pub struct Lan {
    id: String,
    name: String,
    sharing: bool,
    local: Option<u32>,
    signal_port: u16,
    peers: Vec<LanPeer>,
    events: VecDeque<LanEvent>,
    last_beacon: Option<u64>,
}

impl View for Lan {
    type V = LanView;

    closed spec fn view(&self) -> LanView {
        LanView {
            id: self.id@,
            name: self.name@,
            sharing: self.sharing,
            local: self.local,
            signal_port: self.signal_port,
            peers: table_of(self.peers@),
            events: self.events@.map_values(|event: LanEvent| event@),
            last_beacon: self.last_beacon,
        }
    }
}

/// The hexadecimal digit that stands for `n`, which is below sixteen.
pub open spec fn hex_digit(n: nat) -> char {
    if n < 10 {
        (48 + n) as char
    } else {
        (87 + n) as char
    }
}

/// The last `count` hexadecimal digits of a number.
pub open spec fn hex_digits(n: nat, count: nat) -> Seq<char>
    decreases count,
{
    if count == 0 {
        seq![]
    } else {
        hex_digits(n / 16, (count - 1) as nat).push(hex_digit(n % 16))
    }
}

fn push_hex(text: &mut String, n: u64, count: usize)
    ensures
        final(text)@ == old(text)@ + hex_digits(n as nat, count as nat),
    decreases count,
{
    if count > 0 {
        push_hex(text, n / 16, count - 1);
        let low: u8 = (n % 16) as u8;
        let c: char = if low < 10 {
            (48 + low) as char
        } else {
            (87 + low) as char
        };
        text.push(c);
    }
    assert(text@ == old(text)@ + hex_digits(n as nat, count as nat));
}

/// The id that sixty-four bits make: sixteen hexadecimal digits.
pub fn random_id(bits: u64) -> (id: String)
    ensures
        id@ == hex_digits(bits as nat, 16),
{
    let mut id: String = String::new();
    push_hex(&mut id, bits, 16);
    assert(id@ == hex_digits(bits as nat, 16));
    id
}

/// A network interface: its name, and its address and broadcast address where it
/// has them in the fourth version of the protocol.
pub struct Interface {
    pub name: String,
    pub ip: Option<u32>,
    pub broadcast: Option<u32>,
}

/// Whether an interface belongs to the VPN by its name.
pub open spec fn named_radmin(interface: Interface) -> bool {
    interface.ip is Some && occurs_in("radmin"@, lowercase(interface.name@))
}

/// Whether an interface belongs to the VPN by its address, 26.x.x.x.
pub open spec fn numbered_radmin(interface: Interface) -> bool {
    interface.ip matches Some(ip) && ip / 0x100_0000 == 26
}

/// Whether `address` is that of the first interface of which `which` holds.
pub open spec fn is_first(
    interfaces: Seq<Interface>,
    which: spec_fn(Interface) -> bool,
    address: u32,
) -> bool {
    exists|i: int|
        0 <= i < interfaces.len() && which(#[trigger] interfaces[i]) && interfaces[i].ip == Some(
            address,
        ) && forall|j: int| 0 <= j < i ==> !which(#[trigger] interfaces[j])
}

/// Whether `which` holds of no interface.
pub open spec fn none_is(interfaces: Seq<Interface>, which: spec_fn(Interface) -> bool) -> bool {
    forall|i: int| 0 <= i < interfaces.len() ==> !which(#[trigger] interfaces[i])
}

/// The address of the VPN: of the first interface that has its name, else of the
/// first that has such an address.
pub fn find_vpn_address(interfaces: &Vec<Interface>) -> (address: Option<u32>)
    ensures
        match address {
            Some(ip) => {
                ||| is_first(interfaces@, |interface: Interface| named_radmin(interface), ip)
                ||| none_is(interfaces@, |interface: Interface| named_radmin(interface))
                    && is_first(interfaces@, |interface: Interface| numbered_radmin(interface), ip)
            },
            None => {
                &&& none_is(interfaces@, |interface: Interface| named_radmin(interface))
                &&& none_is(interfaces@, |interface: Interface| numbered_radmin(interface))
            },
        },
{
    let mut i: usize = 0;
    while i < interfaces.len()
        invariant
            i <= interfaces@.len(),
            forall|j: int| 0 <= j < i ==> !named_radmin(#[trigger] interfaces@[j]),
        decreases interfaces@.len() - i,
    {
        if let Some(ip) = interfaces[i].ip {
            let name: String = interfaces[i].name.as_str().to_lowercase();
            if contains(name.as_str(), "radmin") {
                assert(named_radmin(interfaces@[i as int]));
                return Some(ip);
            }
        }
        i += 1;
    }
    let mut k: usize = 0;
    while k < interfaces.len()
        invariant
            k <= interfaces@.len(),
            none_is(interfaces@, |interface: Interface| named_radmin(interface)),
            forall|j: int| 0 <= j < k ==> !numbered_radmin(#[trigger] interfaces@[j]),
        decreases interfaces@.len() - k,
    {
        if let Some(ip) = interfaces[k].ip {
            if ip / 0x100_0000 == 26 {
                assert(numbered_radmin(interfaces@[k as int]));
                return Some(ip);
            }
        }
        k += 1;
    }
    None
}

/// The broadcast addresses of interfaces behind `known`, without those that are
/// there already.
pub open spec fn with_broadcasts(known: Seq<u32>, interfaces: Seq<Interface>) -> Seq<u32>
    decreases interfaces.len(),
{
    if interfaces.len() == 0 {
        known
    } else {
        let grown = match interfaces.first().broadcast {
            Some(address) => if known.contains(address) {
                known
            } else {
                known.push(address)
            },
            None => known,
        };
        with_broadcasts(grown, interfaces.drop_first())
    }
}

/// The addresses that a greeting goes to: all machines at once, and each network of
/// its own. All have the same port.
pub fn broadcast_targets(interfaces: &Vec<Interface>) -> (targets: Vec<u32>)
    ensures
        targets@ == with_broadcasts(seq![BROADCAST], interfaces@),
        targets@.no_duplicates(),
{
    let mut targets: Vec<u32> = Vec::new();
    targets.push(BROADCAST);
    let mut i: usize = 0;
    assert(targets@ == seq![BROADCAST]);
    assert(interfaces@.skip(0) == interfaces@);
    while i < interfaces.len()
        invariant
            i <= interfaces@.len(),
            targets@.no_duplicates(),
            with_broadcasts(targets@, interfaces@.skip(i as int)) == with_broadcasts(
                seq![BROADCAST],
                interfaces@,
            ),
        decreases interfaces@.len() - i,
    {
        assert(interfaces@.skip(i as int).drop_first() == interfaces@.skip(i + 1));
        if let Some(address) = interfaces[i].broadcast {
            if !holds(&targets, address) {
                targets.push(address);
            }
        }
        i += 1;
    }
    targets
}

fn holds(list: &Vec<u32>, address: u32) -> (found: bool)
    ensures
        found == list@.contains(address),
{
    let mut i: usize = 0;
    while i < list.len()
        invariant
            i <= list@.len(),
            forall|j: int| 0 <= j < i ==> list@[j] != address,
        decreases list@.len() - i,
    {
        if list[i] == address {
            return true;
        }
        i += 1;
    }
    false
}

/// Whether a list has a peer of which this is known.
spec fn has(list: Seq<LanPeer>, peer: PeerView) -> bool {
    exists|i: int| 0 <= i < list.len() && (#[trigger] list[i])@ == peer
}

/// In a list of distinct peers, what is found under an id is what the list has
/// with that id.
proof fn lemma_found(list: Seq<LanPeer>, id: Seq<char>, peer: PeerView)
    requires
        unique(list),
    ensures
        find(list, id) == Some(peer) <==> has(list, peer) && peer.id == id,
        find(list, id) is None ==> !(has(list, peer) && peer.id == id),
{
    lemma_find(list, id);
    if has(list, peer) && peer.id == id {
        let i = choose|i: int| 0 <= i < list.len() && (#[trigger] list[i])@ == peer;
        lemma_find_at(list, i);
    }
    if find(list, id) == Some(peer) {
        let i = choose|i: int|
            0 <= i < list.len() && (#[trigger] list[i])@ == peer && list[i].id@ == id;
        assert(list[i]@ == peer);
    }
}

proof fn lemma_has_insert(list: Seq<LanPeer>, at: int, peer: LanPeer, other: PeerView)
    requires
        0 <= at <= list.len(),
    ensures
        has(list.insert(at, peer), other) <==> has(list, other) || other == peer@,
{
    let grown = list.insert(at, peer);
    if has(list, other) {
        let i = choose|i: int| 0 <= i < list.len() && (#[trigger] list[i])@ == other;
        if i < at {
            assert(grown[i]@ == other);
        } else {
            assert(grown[i + 1]@ == other);
        }
    }
    if other == peer@ {
        assert(grown[at]@ == other);
    }
    if has(grown, other) && other != peer@ {
        let i = choose|i: int| 0 <= i < grown.len() && (#[trigger] grown[i])@ == other;
        if i < at {
            assert(list[i]@ == other);
        } else {
            assert(list[i - 1]@ == other);
        }
    }
}

proof fn lemma_has_take(list: Seq<LanPeer>, n: int, other: PeerView)
    requires
        0 <= n < list.len(),
    ensures
        has(list.take(n + 1), other) <==> has(list.take(n), other) || other == list[n]@,
{
    assert(list.take(n + 1) == list.take(n).insert(n, list[n]));
    lemma_has_insert(list.take(n), n, list[n], other);
}

/// Whether the peers stand in the order of their names, upper and lower case alike.
pub open spec fn by_name(list: Seq<LanPeer>) -> bool {
    forall|i: int, j: int|
        0 <= i < j < list.len() ==> !text_lt(
            lowercase((#[trigger] list[j]).name@),
            lowercase((#[trigger] list[i]).name@),
        )
}

impl Lan {
    /// Whether each machine is known once, and the machine itself not at all.
    pub closed spec fn wf(&self) -> bool {
        unique(self.peers@) && find(self.peers@, self.id@) is None
    }

    /// A machine that has heard nobody yet. `bits` make its id.
    pub fn start(name: String, bits: u64, signal_port: u16, local: Option<u32>) -> (lan: Self)
        ensures
            lan.wf(),
            lan@ == (LanView {
                id: hex_digits(bits as nat, 16),
                name: name@,
                sharing: false,
                local,
                signal_port,
                peers: Map::empty(),
                events: seq![],
                last_beacon: None,
            }),
    {
        let lan = Self {
            id: random_id(bits),
            name,
            sharing: false,
            local,
            signal_port,
            peers: Vec::new(),
            events: VecDeque::new(),
            last_beacon: None,
        };
        assert(lan@.peers =~= Map::<Seq<char>, PeerView>::empty());
        assert(lan@.events =~= Seq::<EventView>::empty());
        lan
    }

    pub fn id(&self) -> (id: &str)
        ensures
            id@ == self@.id,
    {
        self.id.as_str()
    }

    pub fn local_address(&self) -> (address: Option<u32>)
        ensures
            address == self@.local,
    {
        self.local
    }

    pub fn set_name(&mut self, name: String)
        requires
            old(self).wf(),
        ensures
            final(self).wf(),
            final(self)@ == (LanView { name: name@, ..old(self)@ }),
    {
        self.name = name;
    }

    pub fn set_sharing(&mut self, sharing: bool)
        requires
            old(self).wf(),
        ensures
            final(self).wf(),
            final(self)@ == (LanView { sharing, ..old(self)@ }),
    {
        self.sharing = sharing;
    }

    /// The machines that were heard lately, in the order of their names. The machine
    /// itself is never among them.
    pub fn peers(&self, now: u64) -> (list: Vec<LanPeer>)
        requires
            self.wf(),
        ensures
            unique(list@),
            table_of(list@) == self@.fresh(now),
            by_name(list@),
            forall|i: int| 0 <= i < list@.len() ==> (#[trigger] list@[i]).id@ != self@.id,
    {
        let mut list: Vec<LanPeer> = Vec::new();
        let mut n: usize = 0;
        while n < self.peers.len()
            invariant
                n <= self.peers@.len(),
                unique(self.peers@),
                unique(list@),
                by_name(list@),
                forall|peer: PeerView|
                    #![trigger has(list@, peer)]
                    has(list@, peer) <==> has(self.peers@.take(n as int), peer) && peer.is_fresh(
                        now,
                    ),
            decreases self.peers@.len() - n,
        {
            let peer = &self.peers[n];
            let ghost before = list@;
            if elapsed(now, peer.last_seen) < PEER_TIMEOUT {
                let at: usize = Self::place(&list, peer);
                proof {
                    assert forall|i: int| 0 <= i < list@.len() implies (#[trigger] list@[i]).id@
                        != peer.id@ by {
                        assert(has(list@, list@[i]@));
                        let k = choose|k: int|
                            0 <= k < self.peers@.take(n as int).len() && (
                            #[trigger] self.peers@.take(n as int)[k])@ == list@[i]@;
                        assert(self.peers@[k]@ == list@[i]@);
                        assert(self.peers@[k].id@ != self.peers@[n as int].id@);
                    }
                }
                let copy = peer.clone();
                list.insert(at, copy);
                proof {
                    assert forall|other: PeerView| #[trigger] has(list@, other) <==> has(
                        self.peers@.take(n + 1),
                        other,
                    ) && other.is_fresh(now) by {
                        lemma_has_insert(before, at as int, copy, other);
                        lemma_has_take(self.peers@, n as int, other);
                    }
                }
            } else {
                proof {
                    assert forall|other: PeerView| #[trigger] has(list@, other) <==> has(
                        self.peers@.take(n + 1),
                        other,
                    ) && other.is_fresh(now) by {
                        lemma_has_take(self.peers@, n as int, other);
                    }
                }
            }
            n += 1;
        }
        proof {
            assert(self.peers@.take(self.peers@.len() as int) == self.peers@);
            Self::lemma_fresh_table(list@, self.peers@, now);
            assert(!table_of(self.peers@).contains_key(self.id@));
            assert(!table_of(list@).contains_key(self.id@));
            lemma_find(list@, self.id@);
        }
        list
    }

    proof fn lemma_fresh_table(list: Seq<LanPeer>, peers: Seq<LanPeer>, now: u64)
        requires
            unique(list),
            unique(peers),
            forall|peer: PeerView|
                #![trigger has(list, peer)]
                has(list, peer) <==> has(peers, peer) && peer.is_fresh(now),
        ensures
            table_of(list) == Map::new(
                |id: Seq<char>|
                    table_of(peers).contains_key(id) && table_of(peers)[id].is_fresh(now),
                |id: Seq<char>| table_of(peers)[id],
            ),
    {
        let want = Map::new(
            |id: Seq<char>| table_of(peers).contains_key(id) && table_of(peers)[id].is_fresh(now),
            |id: Seq<char>| table_of(peers)[id],
        );
        assert forall|id: Seq<char>| #[trigger] table_of(list).contains_key(id)
            == want.contains_key(id) by {
            lemma_found(list, id, find(list, id)->0);
            lemma_found(list, id, find(peers, id)->0);
            lemma_found(peers, id, find(peers, id)->0);
            lemma_found(peers, id, find(list, id)->0);
        }
        assert forall|id: Seq<char>| #[trigger] table_of(list).contains_key(id) implies table_of(
            list,
        )[id] == want[id] by {
            lemma_found(list, id, find(list, id)->0);
            lemma_found(peers, id, find(list, id)->0);
        }
        assert(table_of(list) =~= want);
    }

    /// Where a peer belongs in a list by name: behind those of the same name.
    fn place(list: &Vec<LanPeer>, peer: &LanPeer) -> (at: usize)
        requires
            by_name(list@),
        ensures
            at <= list@.len(),
            by_name(list@.insert(at as int, *peer)),
            forall|other: LanPeer|
                other.name@ == peer.name@ ==> by_name(#[trigger] list@.insert(at as int, other)),
    {
        let name: String = peer.name.as_str().to_lowercase();
        let mut at: usize = 0;
        let mut done: bool = false;
        while !done && at < list.len()
            invariant
                at <= list@.len(),
                name@ == lowercase(peer.name@),
                forall|i: int|
                    0 <= i < at ==> !text_lt(name@, lowercase((#[trigger] list@[i]).name@)),
                done ==> at < list@.len() && text_lt(name@, lowercase(list@[at as int].name@)),
            decreases list@.len() - at, if done { 0int } else { 1int },
        {
            let other: String = list[at].name.as_str().to_lowercase();
            if comes_before(name.as_str(), other.as_str()) {
                done = true;
            } else {
                at += 1;
            }
        }
        proof {
            assert forall|other: LanPeer| other.name@ == peer.name@ implies by_name(
                #[trigger] list@.insert(at as int, other),
            ) by {
                let grown = list@.insert(at as int, other);
                assert forall|i: int, j: int| 0 <= i < j < grown.len() implies !text_lt(
                    lowercase((#[trigger] grown[j]).name@),
                    lowercase((#[trigger] grown[i]).name@),
                ) by {
                    if i == at {
                        let high = lowercase(list@[j - 1].name@);
                        let next = lowercase(list@[at as int].name@);
                        if text_lt(high, name@) {
                            law_text_order_is_transitive(high, name@, next);
                            if j - 1 > at {
                                assert(!text_lt(high, next));
                            } else {
                                law_text_order_is_strict(name@, next);
                            }
                        }
                    } else if j == at {
                        assert(grown[i] == list@[i]);
                    } else {
                        let a = if i < at {
                            i
                        } else {
                            i - 1
                        };
                        let b = if j < at {
                            j
                        } else {
                            j - 1
                        };
                        assert(grown[i] == list@[a] && grown[j] == list@[b]);
                    }
                }
            }
            assert(by_name(list@.insert(at as int, *peer)));
        }
        at
    }

    /// The oldest event that was not taken yet.
    pub fn try_event(&mut self) -> (event: Option<LanEvent>)
        requires
            old(self).wf(),
        ensures
            final(self).wf(),
            match event {
                Some(taken) => {
                    &&& old(self)@.events.len() > 0
                    &&& taken@ == old(self)@.events.first()
                    &&& final(self)@ == (LanView {
                        events: old(self)@.events.drop_first(),
                        ..old(self)@
                    })
                },
                None => old(self)@.events.len() == 0 && final(self)@ == old(self)@,
            },
    {
        let event = self.events.pop_front();
        assert(event is Some ==> self@.events =~= old(self)@.events.drop_first());
        event
    }

    fn index_of(&self, id: &str) -> (index: Option<usize>)
        ensures
            match index {
                Some(i) => i < self.peers@.len() && self.peers@[i as int].id@ == id@,
                None => forall|i: int|
                    0 <= i < self.peers@.len() ==> (#[trigger] self.peers@[i]).id@ != id@,
            },
    {
        let mut i: usize = 0;
        while i < self.peers.len()
            invariant
                i <= self.peers@.len(),
                forall|j: int| 0 <= j < i ==> (#[trigger] self.peers@[j]).id@ != id@,
            decreases self.peers@.len() - i,
        {
            if same(self.peers[i].id.as_str(), id) {
                return Some(i);
            }
            i += 1;
        }
        None
    }

    /// Where a message to this machine goes, with the message. Nowhere if the machine
    /// is not known.
    fn send_to_peer(&self, id: &str, message: Message) -> (sent: Option<(Endpoint, Message)>)
        requires
            self.wf(),
        ensures
            sent == if self@.peers.contains_key(id@) {
                Some((self@.peers[id@].addr, message))
            } else {
                None
            },
    {
        match self.index_of(id) {
            Some(i) => {
                proof {
                    lemma_find_at(self.peers@, i as int);
                }
                Some((self.peers[i].addr, message))
            },
            None => {
                proof {
                    lemma_find(self.peers@, id@);
                }
                None
            },
        }
    }

    fn message(&self, kind: &str, to: &str) -> (message: Message)
        ensures
            message@ == self@.message(kind@, to@, ""@, ""@),
    {
        proof {
            reveal_strlit("");
        }
        let message = Message {
            kind: kind.to_owned(),
            id: self.id.clone(),
            name: String::new(),
            to: to.to_owned(),
            port: self.signal_port,
            sharing: false,
            sdp: String::new(),
        };
        assert(message.name@ =~= ""@ && message.sdp@ =~= ""@);
        message
    }

    /// Asks a machine to share its screen.
    pub fn send_request(&self, id: &str, name: &str) -> (sent: Option<(Endpoint, Message)>)
        requires
            self.wf(),
        ensures
            match sent {
                Some((to, message)) => self@.peers.contains_key(id@) && to == self@.peers[id@].addr
                    && message@ == self@.message("request"@, id@, name@, ""@),
                None => !self@.peers.contains_key(id@),
            },
    {
        let mut message = self.message("request", id);
        message.name = name.to_owned();
        self.send_to_peer(id, message)
    }

    /// Offers the screen to a machine.
    pub fn send_offer(&self, id: &str, sdp: String) -> (sent: Option<(Endpoint, Message)>)
        requires
            self.wf(),
        ensures
            match sent {
                Some((to, message)) => self@.peers.contains_key(id@) && to == self@.peers[id@].addr
                    && message@ == self@.message("offer"@, id@, ""@, sdp@),
                None => !self@.peers.contains_key(id@),
            },
    {
        let mut message = self.message("offer", id);
        message.sdp = sdp;
        self.send_to_peer(id, message)
    }

    /// Answers the offer of a machine.
    pub fn send_answer(&self, id: &str, sdp: String) -> (sent: Option<(Endpoint, Message)>)
        requires
            self.wf(),
        ensures
            match sent {
                Some((to, message)) => self@.peers.contains_key(id@) && to == self@.peers[id@].addr
                    && message@ == self@.message("answer"@, id@, ""@, sdp@),
                None => !self@.peers.contains_key(id@),
            },
    {
        let mut message = self.message("answer", id);
        message.sdp = sdp;
        self.send_to_peer(id, message)
    }
}

proof fn lemma_replaced(list: Seq<LanPeer>, at: int, peer: LanPeer)
    requires
        unique(list),
        0 <= at < list.len(),
        list[at].id@ == peer.id@,
    ensures
        unique(list.update(at, peer)),
        table_of(list.update(at, peer)) == table_of(list).insert(peer.id@, peer@),
{
    let now = list.update(at, peer);
    assert forall|i: int, j: int| 0 <= i < j < now.len() implies (#[trigger] now[i]).id@ != (
    #[trigger] now[j]).id@ by {
        assert(now[i].id@ == list[i].id@ && now[j].id@ == list[j].id@);
    }
    let want = table_of(list).insert(peer.id@, peer@);
    assert forall|id: Seq<char>| find(now, id) == #[trigger] want.get(id) by {
        if id == peer.id@ {
            assert(now[at] == peer);
            lemma_find_at(now, at);
        } else {
            lemma_find(list, id);
            lemma_find(now, id);
            if find(list, id) is Some {
                let i = choose|i: int|
                    0 <= i < list.len() && (#[trigger] list[i])@ == find(list, id)->0
                        && list[i].id@ == id;
                assert(now[i] == list[i]);
                lemma_find_at(now, i);
            } else if find(now, id) is Some {
                let i = choose|i: int|
                    0 <= i < now.len() && (#[trigger] now[i])@ == find(now, id)->0 && now[i].id@
                        == id;
                assert(now[i] == list[i]);
            }
        }
    }
    assert forall|id: Seq<char>| #[trigger] table_of(now).contains_key(id) == want.contains_key(
        id,
    ) by {
        assert(find(now, id) == want.get(id));
    }
    assert forall|id: Seq<char>| #[trigger] table_of(now).contains_key(id) implies table_of(
        now,
    )[id] == want[id] by {
        assert(find(now, id) == want.get(id));
    }
    assert(table_of(now) =~= want);
}

proof fn lemma_added(list: Seq<LanPeer>, peer: LanPeer)
    requires
        unique(list),
        forall|i: int| 0 <= i < list.len() ==> (#[trigger] list[i]).id@ != peer.id@,
    ensures
        unique(list.push(peer)),
        table_of(list.push(peer)) == table_of(list).insert(peer.id@, peer@),
{
    let now = list.push(peer);
    assert forall|i: int, j: int| 0 <= i < j < now.len() implies (#[trigger] now[i]).id@ != (
    #[trigger] now[j]).id@ by {
        assert(now[i] == list[i]);
        if j < list.len() {
            assert(now[j] == list[j]);
        }
    }
    let want = table_of(list).insert(peer.id@, peer@);
    assert forall|id: Seq<char>| find(now, id) == #[trigger] want.get(id) by {
        if id == peer.id@ {
            assert(now[list.len() as int] == peer);
            lemma_find_at(now, list.len() as int);
        } else {
            lemma_find(list, id);
            lemma_find(now, id);
            if find(list, id) is Some {
                let i = choose|i: int|
                    0 <= i < list.len() && (#[trigger] list[i])@ == find(list, id)->0
                        && list[i].id@ == id;
                assert(now[i] == list[i]);
                lemma_find_at(now, i);
            } else if find(now, id) is Some {
                let i = choose|i: int|
                    0 <= i < now.len() && (#[trigger] now[i])@ == find(now, id)->0 && now[i].id@
                        == id;
                assert(now[i] == list[i]);
            }
        }
    }
    assert forall|id: Seq<char>| #[trigger] table_of(now).contains_key(id) == want.contains_key(
        id,
    ) by {
        assert(find(now, id) == want.get(id));
    }
    assert forall|id: Seq<char>| #[trigger] table_of(now).contains_key(id) implies table_of(
        now,
    )[id] == want[id] by {
        assert(find(now, id) == want.get(id));
    }
    assert(table_of(now) =~= want);
}

impl Lan {
    /// Whether it is time to say hello again.
    pub fn is_beacon_due(&self, now: u64) -> (due: bool)
        ensures
            due == self@.beacon_due(now),
    {
        match self.last_beacon {
            Some(last) => elapsed(now, last) >= BEACON_INTERVAL,
            None => true,
        }
    }

    /// Says hello if it is time: takes down the address that was found, forgets the
    /// machines that were not heard lately, and gives the message for all.
    pub fn beacon(&mut self, detected: Option<u32>, now: u64) -> (hello: Option<Message>)
        requires
            old(self).wf(),
        ensures
            final(self).wf(),
            if old(self)@.beacon_due(now) {
                &&& hello matches Some(message) && message@ == old(self)@.hello()
                &&& final(self)@ == (LanView {
                    local: detected,
                    peers: old(self)@.fresh(now),
                    last_beacon: Some(now),
                    ..old(self)@
                })
            } else {
                hello is None && final(self)@ == old(self)@
            },
    {
        if !self.is_beacon_due(now) {
            return None;
        }
        self.local = detected;
        proof {
            reveal_strlit("");
        }
        let message = Message {
            kind: "hello".to_owned(),
            id: self.id.clone(),
            name: self.name.clone(),
            to: String::new(),
            port: self.signal_port,
            sharing: self.sharing,
            sdp: String::new(),
        };
        assert(message.to@ =~= ""@ && message.sdp@ =~= ""@);
        self.expire(now);
        self.last_beacon = Some(now);
        Some(message)
    }

    /// Forgets the machines that were not heard lately.
    fn expire(&mut self, now: u64)
        requires
            old(self).wf(),
        ensures
            final(self).wf(),
            final(self)@ == (LanView { peers: old(self)@.fresh(now), ..old(self)@ }),
    {
        let mut kept: Vec<LanPeer> = Vec::new();
        let mut n: usize = 0;
        while n < self.peers.len()
            invariant
                *self == *old(self),
                n <= self.peers@.len(),
                unique(self.peers@),
                unique(kept@),
                forall|peer: PeerView|
                    #![trigger has(kept@, peer)]
                    has(kept@, peer) <==> has(self.peers@.take(n as int), peer) && peer.is_fresh(
                        now,
                    ),
            decreases self.peers@.len() - n,
        {
            let peer = &self.peers[n];
            let ghost before = kept@;
            if elapsed(now, peer.last_seen) < PEER_TIMEOUT {
                let copy = peer.clone();
                proof {
                    assert forall|i: int| 0 <= i < kept@.len() implies (#[trigger] kept@[i]).id@
                        != copy.id@ by {
                        assert(has(kept@, kept@[i]@));
                        let k = choose|k: int|
                            0 <= k < self.peers@.take(n as int).len() && (
                            #[trigger] self.peers@.take(n as int)[k])@ == kept@[i]@;
                        assert(self.peers@[k]@ == kept@[i]@);
                        assert(self.peers@[k].id@ != self.peers@[n as int].id@);
                    }
                    lemma_added(kept@, copy);
                }
                kept.push(copy);
                proof {
                    assert(kept@ == before.insert(before.len() as int, copy));
                    assert forall|other: PeerView| #[trigger] has(kept@, other) <==> has(
                        self.peers@.take(n + 1),
                        other,
                    ) && other.is_fresh(now) by {
                        lemma_has_insert(before, before.len() as int, copy, other);
                        lemma_has_take(self.peers@, n as int, other);
                    }
                }
            } else {
                proof {
                    assert forall|other: PeerView| #[trigger] has(kept@, other) <==> has(
                        self.peers@.take(n + 1),
                        other,
                    ) && other.is_fresh(now) by {
                        lemma_has_take(self.peers@, n as int, other);
                    }
                }
            }
            n += 1;
        }
        proof {
            assert(self.peers@.take(self.peers@.len() as int) == self.peers@);
            Self::lemma_fresh_table(kept@, self.peers@, now);
            assert(!table_of(self.peers@).contains_key(self.id@));
            assert(!table_of(kept@).contains_key(self.id@));
        }
        self.peers = kept;
    }

    /// Takes down a greeting.
    fn hear(&mut self, message: Message, from: Ip, now: u64)
        requires
            old(self).wf(),
        ensures
            final(self).wf(),
            final(self)@ == old(self)@.after_hello(message@, from, now),
    {
        if same(message.id.as_str(), self.id.as_str()) || !same(message.kind.as_str(), "hello") {
            return;
        }
        let blank: bool = trim(message.name.as_str()).as_str().unicode_len() == 0;
        let name: String = if blank {
            "Unnamed".to_owned()
        } else {
            message.name
        };
        let peer = LanPeer {
            id: message.id,
            name,
            addr: Endpoint { ip: from, port: message.port },
            sharing: message.sharing,
            last_seen: now,
        };
        let ghost id = peer.id@;
        let ghost known = peer@;
        match self.index_of(peer.id.as_str()) {
            Some(i) => {
                proof {
                    lemma_replaced(self.peers@, i as int, peer);
                }
                self.peers.set(i, peer);
            },
            None => {
                proof {
                    lemma_added(self.peers@, peer);
                }
                self.peers.push(peer);
            },
        }
        assert(self@.peers == old(self)@.peers.insert(id, known));
        assert(!self@.peers.contains_key(self.id@));
    }

    /// What comes in where all machines are heard.
    pub fn discovered(&mut self, datagram: Datagram, now: u64) -> (step: ListenStep)
        requires
            old(self).wf(),
        ensures
            final(self).wf(),
            step == step_after(datagram, DISCOVERY_SLEEP),
            match datagram {
                Datagram::Received { message: Some(message), from } => final(self)@ == old(
                    self,
                )@.after_hello(message@, from, now),
                _ => final(self)@ == old(self)@,
            },
    {
        match datagram {
            Datagram::Received { message, from } => {
                if let Some(message) = message {
                    self.hear(message, from, now);
                }
                ListenStep::Listen
            },
            Datagram::Nothing => ListenStep::Sleep(DISCOVERY_SLEEP),
            Datagram::Broken => ListenStep::Leave,
        }
    }

    /// Takes down what was sent to this machine alone.
    fn take_in(&mut self, message: Message)
        requires
            old(self).wf(),
        ensures
            final(self).wf(),
            match old(self)@.event_of(message@) {
                Some(event) => final(self)@ == (LanView {
                    events: old(self)@.events.push(event),
                    ..old(self)@
                }),
                None => final(self)@ == old(self)@,
            },
    {
        if same(message.id.as_str(), self.id.as_str()) || !same(
            message.to.as_str(),
            self.id.as_str(),
        ) {
            return;
        }
        let event = if same(message.kind.as_str(), "request") {
            LanEvent::Request { id: message.id, name: message.name }
        } else if same(message.kind.as_str(), "offer") {
            LanEvent::Offer { id: message.id, sdp: message.sdp }
        } else if same(message.kind.as_str(), "answer") {
            LanEvent::Answer { id: message.id, sdp: message.sdp }
        } else {
            return;
        };
        let ghost known = event@;
        self.events.push_back(event);
        assert(self@.events =~= old(self)@.events.push(known));
    }

    /// What comes in where machines talk to this one alone.
    pub fn signalled(&mut self, datagram: Datagram) -> (step: ListenStep)
        requires
            old(self).wf(),
        ensures
            final(self).wf(),
            step == step_after(datagram, SIGNAL_SLEEP),
            match datagram {
                Datagram::Received { message: Some(message), .. } => match old(self)@.event_of(
                    message@,
                ) {
                    Some(event) => final(self)@ == (LanView {
                        events: old(self)@.events.push(event),
                        ..old(self)@
                    }),
                    None => final(self)@ == old(self)@,
                },
                _ => final(self)@ == old(self)@,
            },
    {
        match datagram {
            Datagram::Received { message, from: _ } => {
                if let Some(message) = message {
                    self.take_in(message);
                }
                ListenStep::Listen
            },
            Datagram::Nothing => ListenStep::Sleep(SIGNAL_SLEEP),
            Datagram::Broken => ListenStep::Leave,
        }
    }
}

/// A greeting makes a machine known to another one: under its id, at the address
/// that it came from and the port that it tells, with what it says of sharing.
pub proof fn law_hello_is_heard(speaker: LanView, listener: LanView, from: Ip, now: u64)
    requires
        speaker.id != listener.id,
    ensures
        ({
            let after = listener.after_hello(speaker.hello(), from, now);
            &&& after.fresh(now).contains_key(speaker.id)
            &&& after.fresh(now)[speaker.id] == (PeerView {
                id: speaker.id,
                name: shown_name(speaker.name),
                addr: Endpoint { ip: from, port: speaker.signal_port },
                sharing: speaker.sharing,
                last_seen: now,
            })
        }),
{
}

/// A greeting tells nothing of any other machine.
pub proof fn law_hello_touches_one_peer(
    listener: LanView,
    message: MessageView,
    from: Ip,
    now: u64,
    other: Seq<char>,
)
    requires
        other != message.id,
    ensures
        ({
            let after = listener.after_hello(message, from, now);
            &&& after.peers.contains_key(other) == listener.peers.contains_key(other)
            &&& after.peers.contains_key(other) ==> after.peers[other] == listener.peers[other]
        }),
{
}

/// A machine does not hear itself: its own greeting changes nothing.
pub proof fn law_own_hello_is_passed_over(lan: LanView, from: Ip, now: u64)
    ensures
        lan.after_hello(lan.hello(), from, now) == lan,
{
}

/// What one machine sends to another arrives there as it was sent, with the id of
/// the sender, and nowhere else.
pub proof fn law_messages_arrive(
    sender: LanView,
    receiver: LanView,
    to: Seq<char>,
    name: Seq<char>,
    sdp: Seq<char>,
)
    requires
        sender.id != receiver.id,
    ensures
        receiver.event_of(sender.message("request"@, to, name, ""@)) == if to == receiver.id {
            Some(EventView::Request { id: sender.id, name })
        } else {
            None
        },
        receiver.event_of(sender.message("offer"@, to, ""@, sdp)) == if to == receiver.id {
            Some(EventView::Offer { id: sender.id, sdp })
        } else {
            None
        },
        receiver.event_of(sender.message("answer"@, to, ""@, sdp)) == if to == receiver.id {
            Some(EventView::Answer { id: sender.id, sdp })
        } else {
            None
        },
{
    reveal_strlit("request");
    reveal_strlit("offer");
    reveal_strlit("answer");
    assert("offer"@[0] != "request"@[0]);
    assert("answer"@[0] != "request"@[0]);
    assert("answer"@[0] != "offer"@[0]);
}

/// A machine that is not heard for eight seconds is not listed any more.
pub proof fn law_silence_expires(lan: LanView, id: Seq<char>, now: u64)
    requires
        lan.peers.contains_key(id),
        span(now, lan.peers[id].last_seen) >= 8_000_000_000,
    ensures
        !lan.fresh(now).contains_key(id),
{
}

/// What a greeting tells of another machine is taken down as it was told, with the address
/// that it came from and the time. A name in which anything can be seen is kept letter for
/// letter. Nothing else changes.
pub proof fn law_greeting_is_taken_down(lan: LanView, message: MessageView, from: Ip, now: u64)
    requires
        message.id != lan.id,
        message.kind == "hello"@,
    ensures
        ({
            let after = lan.after_hello(message, from, now);
            let peer = after.peers[message.id];
            &&& after.peers.contains_key(message.id)
            &&& (exists|i: int| 0 <= i < message.name.len() && !is_white(#[trigger] message.name[i]))
                ==> peer.name == message.name
            &&& (forall|i: int|
                0 <= i < message.name.len() ==> is_white(#[trigger] message.name[i])) ==> peer.name
                == "Unnamed"@
            &&& peer.id == message.id
            &&& peer.addr.ip == from
            &&& peer.addr.port == message.port
            &&& peer.sharing == message.sharing
            &&& peer.last_seen == now
            &&& after == (LanView { peers: after.peers, ..lan })
            &&& after.peers.remove(message.id) == lan.peers.remove(message.id)
        }),
{
    law_blank_texts_are_white(message.name);
    let after = lan.after_hello(message, from, now);
    assert(after.peers.remove(message.id) =~= lan.peers.remove(message.id));
}

/// What is no greeting of another machine changes nothing.
pub proof fn law_all_else_is_passed_over(lan: LanView, message: MessageView, from: Ip, now: u64)
    requires
        message.id == lan.id || message.kind != "hello"@,
    ensures
        lan.after_hello(message, from, now) == lan,
{
}

/// A machine is listed, as it is known, for eight seconds after it was heard last.
pub proof fn law_heard_lately_is_listed(lan: LanView, id: Seq<char>, now: u64)
    ensures
        lan.fresh(now).contains_key(id) == (lan.peers.contains_key(id) && now
            < lan.peers[id].last_seen + 8_000_000_000),
        lan.fresh(now).contains_key(id) ==> lan.fresh(now)[id] == lan.peers[id],
{
}

/// A machine says hello at once, and every two seconds from then on.
pub proof fn law_hello_every_two_seconds(lan: LanView, now: u64)
    ensures
        lan.last_beacon is None ==> lan.beacon_due(now),
        lan.last_beacon matches Some(last) ==> lan.beacon_due(now) == (now >= last + 2_000_000_000),
{
}

/// Two machines of a list by name stand in the order of the alphabet, or have the same
/// name, upper and lower case alike.
pub proof fn law_list_follows_the_names(list: Seq<LanPeer>, i: int, j: int)
    requires
        by_name(list),
        0 <= i < j < list.len(),
    ensures
        text_lt(lowercase(list[i].name@), lowercase(list[j].name@)) || lowercase(list[i].name@)
            == lowercase(list[j].name@),
{
    law_text_order_is_total(lowercase(list[i].name@), lowercase(list[j].name@));
}

/// A list in which no id comes twice is known by its ids: each of its machines under its
/// own, and nothing under any other.
pub proof fn law_table_holds_the_list(list: Seq<LanPeer>, id: Seq<char>)
    requires
        forall|i: int, j: int|
            0 <= i < j < list.len() ==> (#[trigger] list[i]).id@ != (#[trigger] list[j]).id@,
    ensures
        unique(list),
        forall|i: int|
            0 <= i < list.len() ==> table_of(list).contains_key((#[trigger] list[i]).id@) && table_of(
                list,
            )[list[i].id@] == list[i]@,
        table_of(list).contains_key(id) ==> exists|i: int|
            0 <= i < list.len() && (#[trigger] list[i]).id@ == id,
{
    assert forall|i: int| 0 <= i < list.len() implies table_of(list).contains_key(
        (#[trigger] list[i]).id@,
    ) && table_of(list)[list[i].id@] == list[i]@ by {
        lemma_find_at(list, i);
    }
    lemma_find(list, id);
}

/// A greeting goes to the addresses that were known, and to those of all networks, once
/// each and nowhere else.
pub proof fn law_greeting_reaches_all_networks(known: Seq<u32>, interfaces: Seq<Interface>)
    requires
        known.no_duplicates(),
    ensures
        ({
            let targets = with_broadcasts(known, interfaces);
            &&& targets.no_duplicates()
            &&& targets.len() >= known.len()
            &&& targets.take(known.len() as int) == known
            &&& forall|i: int|
                0 <= i < interfaces.len() ==> ((#[trigger] interfaces[i]).broadcast matches Some(
                    address,
                ) ==> targets.contains(address))
            &&& forall|k: int|
                known.len() <= k < targets.len() ==> exists|i: int|
                    0 <= i < interfaces.len() && (#[trigger] interfaces[i]).broadcast == Some(
                        #[trigger] targets[k],
                    )
        }),
    decreases interfaces.len(),
{
    let targets = with_broadcasts(known, interfaces);
    if interfaces.len() == 0 {
        assert(targets.take(known.len() as int) =~= known);
    } else {
        let rest = interfaces.drop_first();
        let grown = match interfaces.first().broadcast {
            Some(address) => if known.contains(address) {
                known
            } else {
                known.push(address)
            },
            None => known,
        };
        assert(grown.no_duplicates());
        law_greeting_reaches_all_networks(grown, rest);
        assert(targets == with_broadcasts(grown, rest));
        assert(targets.take(grown.len() as int) == grown);
        assert(targets.take(known.len() as int) =~= known) by {
            assert forall|k: int| 0 <= k < known.len() implies targets[k] == known[k] by {
                assert(targets.take(grown.len() as int)[k] == grown[k]);
            }
        }
        assert forall|i: int| 0 <= i < interfaces.len() implies (
        (#[trigger] interfaces[i]).broadcast matches Some(address) ==> targets.contains(address)) by {
            if let Some(address) = interfaces[i].broadcast {
                if i == 0 {
                    assert(grown.contains(address)) by {
                        if !known.contains(address) {
                            assert(grown[known.len() as int] == address);
                        }
                    }
                    let k = grown.index_of(address);
                    assert(targets.take(grown.len() as int)[k] == address);
                    assert(targets[k] == address);
                } else {
                    assert(rest[i - 1] == interfaces[i]);
                }
            }
        }
        assert forall|k: int| known.len() <= k < targets.len() implies exists|i: int|
            0 <= i < interfaces.len() && (#[trigger] interfaces[i]).broadcast == Some(
                #[trigger] targets[k],
            ) by {
            if k < grown.len() {
                assert(targets.take(grown.len() as int)[k] == grown[k]);
                assert(interfaces[0].broadcast == Some(targets[k]));
            } else {
                let i = choose|i: int|
                    0 <= i < rest.len() && (#[trigger] rest[i]).broadcast == Some(targets[k]);
                assert(interfaces[i + 1] == rest[i]);
            }
        }
    }
}

/// The first address that a greeting goes to is the one of all machines at once.
pub proof fn law_greeting_reaches_everyone(interfaces: Seq<Interface>)
    ensures
        with_broadcasts(seq![BROADCAST], interfaces).len() > 0,
        with_broadcasts(seq![BROADCAST], interfaces)[0] == u32::MAX,
{
    law_greeting_reaches_all_networks(seq![BROADCAST], interfaces);
    let targets = with_broadcasts(seq![BROADCAST], interfaces);
    assert(targets.take(1)[0] == seq![BROADCAST][0]);
}

/// The number that a text of hexadecimal digits stands for.
pub open spec fn hex_number(text: Seq<char>) -> int
    decreases text.len(),
{
    if text.len() == 0 {
        0
    } else {
        let c = text.last() as int;
        16 * hex_number(text.drop_last()) + if c <= '9' as int {
            c - '0' as int
        } else {
            c - 'a' as int + 10
        }
    }
}

/// An id is as many digits as it is to have, from 0 to 9 and from a to f, and they stand
/// for the number that it was made of. So no two numbers make the same id.
pub proof fn law_id_tells_its_bits(n: nat, count: nat)
    ensures
        hex_digits(n, count).len() == count,
        forall|i: int|
            0 <= i < count ==> {
                let c = (#[trigger] hex_digits(n, count)[i]) as int;
                '0' as int <= c <= '9' as int || 'a' as int <= c <= 'f' as int
            },
        count == 16 && n <= u64::MAX ==> hex_number(hex_digits(n, count)) == n,
{
    lemma_hex(n, count);
    if count == 16 && n <= u64::MAX {
        assert(vstd::arithmetic::power::pow(16, 16) == 0x1_0000_0000_0000_0000) by {
            reveal_with_fuel(vstd::arithmetic::power::pow, 17);
        }
        vstd::arithmetic::div_mod::lemma_small_mod(n, 0x1_0000_0000_0000_0000);
    }
}

proof fn lemma_hex(n: nat, count: nat)
    ensures
        hex_digits(n, count).len() == count,
        forall|i: int|
            0 <= i < count ==> {
                let c = (#[trigger] hex_digits(n, count)[i]) as int;
                '0' as int <= c <= '9' as int || 'a' as int <= c <= 'f' as int
            },
        vstd::arithmetic::power::pow(16, count) > 0,
        hex_number(hex_digits(n, count)) == n as int % vstd::arithmetic::power::pow(16, count),
    decreases count,
{
    vstd::arithmetic::power::lemma_pow_positive(16, count);
    if count == 0 {
        vstd::arithmetic::power::lemma_pow0(16);
    } else {
        let rest = (count - 1) as nat;
        lemma_hex(n / 16, rest);
        let text = hex_digits(n, count);
        let high = hex_digits(n / 16, rest);
        assert(text.drop_last() == high);
        assert forall|i: int| 0 <= i < count implies {
            let c = (#[trigger] text[i]) as int;
            '0' as int <= c <= '9' as int || 'a' as int <= c <= 'f' as int
        } by {
            if i < rest {
                assert(text[i] == high[i]);
            }
        }
        let p = vstd::arithmetic::power::pow(16, rest);
        reveal(vstd::arithmetic::power::pow);
        assert(vstd::arithmetic::power::pow(16, count) == 16 * p);
        vstd::arithmetic::div_mod::lemma_mod_breakdown(n as int, 16, p);
        assert(hex_number(text) == 16 * hex_number(high) + n % 16);
    }
}

/// An address belongs to the VPN by its number where its first of four numbers is 26.
pub proof fn law_vpn_addresses_begin_with_26(interface: Interface, b: u8, c: u8, d: u8)
    ensures
        numbered_radmin(interface) == (interface.ip matches Some(ip) && 26 * 0x100_0000 <= ip
            < 27 * 0x100_0000),
        interface.ip == Some((26 * 0x100_0000 + b * 0x1_0000 + c * 0x100 + d) as u32)
            ==> numbered_radmin(interface),
{
}

/// An interface belongs to the VPN by its name where the name has `radmin` in it, in
/// whatever case. It must have an address.
pub proof fn law_vpn_names_have_radmin(interface: Interface, front: Seq<char>, back: Seq<char>)
    ensures
        interface.ip is Some && lowercase(interface.name@) == front + "radmin"@ + back
            ==> named_radmin(interface),
        named_radmin(interface) ==> interface.ip is Some && exists|a: Seq<char>, b: Seq<char>|
            lowercase(interface.name@) == #[trigger] (a + "radmin"@ + b),
{
    law_parts_occur("radmin"@, lowercase(interface.name@), front, back);
}

/// Of the interfaces of a kind the first one counts, wherever the others stand.
pub proof fn law_first_of_a_kind(
    interfaces: Seq<Interface>,
    which: spec_fn(Interface) -> bool,
    i: int,
    address: u32,
)
    requires
        0 <= i < interfaces.len(),
        which(interfaces[i]),
        interfaces[i].ip is Some,
        forall|j: int| 0 <= j < i ==> !which(#[trigger] interfaces[j]),
    ensures
        is_first(interfaces, which, address) == (interfaces[i].ip == Some(address)),
        !none_is(interfaces, which),
{
    if is_first(interfaces, which, address) {
        let k = choose|k: int|
            0 <= k < interfaces.len() && which(#[trigger] interfaces[k]) && interfaces[k].ip
                == Some(address) && forall|j: int| 0 <= j < k ==> !which(#[trigger] interfaces[j]);
        assert(k == i);
    }
}

/// A message that is meant for another machine, comes from the machine itself, or is of a
/// kind that is not known brings nothing.
pub proof fn law_strange_messages_bring_nothing(lan: LanView, message: MessageView)
    ensures
        message.to != lan.id || message.id == lan.id ==> lan.event_of(message) is None,
        message.kind != "request"@ && message.kind != "offer"@ && message.kind != "answer"@
            ==> lan.event_of(message) is None,
{
}

/// A loop that listens rests just where nothing came in, and leaves just where the socket
/// is broken.
pub proof fn law_listening_goes_on(datagram: Datagram, rest: u64)
    ensures
        step_after(datagram, rest) == ListenStep::Listen <==> datagram is Received,
        step_after(datagram, rest) == ListenStep::Sleep(rest) <==> datagram is Nothing,
        step_after(datagram, rest) == ListenStep::Leave <==> datagram is Broken,
{
}

/// A machine tells its id, its name, its port and whether it shares; what it sends to
/// another one has its id and its port.
pub proof fn law_messages_say_who_speaks(
    lan: LanView,
    kind: Seq<char>,
    to: Seq<char>,
    name: Seq<char>,
    sdp: Seq<char>,
)
    ensures
        lan.hello().kind == "hello"@,
        lan.hello().id == lan.id && lan.hello().name == lan.name,
        lan.hello().port == lan.signal_port && lan.hello().sharing == lan.sharing,
        lan.hello().to.len() == 0 && lan.hello().sdp.len() == 0,
        lan.message(kind, to, name, sdp) == (MessageView {
            sharing: lan.message(kind, to, name, sdp).sharing,
            kind,
            id: lan.id,
            name,
            to,
            port: lan.signal_port,
            sdp,
        }),
        !lan.message(kind, to, name, sdp).sharing,
{
    reveal_strlit("");
}

/// A loop that listens rests a twentieth of a second where all machines are heard, and a
/// fiftieth where they talk to this one alone. A machine can miss three greetings before it
/// counts as gone.
pub proof fn law_network_times()
    ensures
        20 * DISCOVERY_SLEEP == 1_000_000_000,
        50 * SIGNAL_SLEEP == 1_000_000_000,
        PEER_TIMEOUT == 4 * BEACON_INTERVAL,
        BEACON_INTERVAL == 2 * 1_000_000_000,
        DISCOVERY_PORT == 45892,
{
}

} // verus!
