//! The two ends of a shared screen: who sends the packets, and who shows them.
use vstd::prelude::*;

use crate::h264::{
    frame_loads, handed_out, has_keyframe, held_after, law_frame_comes_back,
    law_marker_ends_the_frame, law_packets_are_numbered, law_units_lie_between_codes,
    law_what_fits_goes_whole, marked, payloads, sendable, sequence_after, slices, unit_type,
    units_from, AnnexBIter, Packet, Packetizer, Pending, FU_A,
};
use crate::signal::{code_of, decode, encode, meaning, SessionDescription};
use crate::text::joined_text;
use crate::time::{elapsed, span};

verus! {

pub const VIDEO_PT: u8 = 96;

pub const AUDIO_PT: u8 = 111;

pub const VIDEO_SSRC: u32 = 0x5a5a_77e1;

pub const AUDIO_SSRC: u32 = 0x5a5a_77e2;

pub const MTU: usize = 1200;

/// How long to wait for the addresses of this machine.
pub const GATHER_TIMEOUT: u64 = 10_000_000_000;

/// How often to look whether they are there.
pub const GATHER_POLL: u64 = 25_000_000;

/// How a codec is described to the other end.
pub struct Codec {
    pub clock_rate: u32,
    pub channels: u16,
    pub sdp_fmtp_line: &'static str,
}

pub fn h264_codec() -> (codec: Codec)
    ensures
        codec.clock_rate == 90_000,
        codec.channels == 0,
        codec.sdp_fmtp_line@
            == "level-asymmetry-allowed=1;packetization-mode=1;profile-level-id=42e01f"@,
{
    Codec {
        clock_rate: 90_000,
        channels: 0,
        sdp_fmtp_line: "level-asymmetry-allowed=1;packetization-mode=1;profile-level-id=42e01f",
    }
}

pub fn opus_codec() -> (codec: Codec)
    ensures
        codec.clock_rate == 48_000,
        codec.channels == 2,
        codec.sdp_fmtp_line@ == "minptime=10;useinbandfec=1"@,
{
    Codec { clock_rate: 48_000, channels: 2, sdp_fmtp_line: "minptime=10;useinbandfec=1" }
}

/// What the connection has reported so far.
#[derive(Clone, Copy, Debug, PartialEq, Eq, Structural)]
pub struct HandlerState {
    pub gathering_complete: bool,
    pub connected: bool,
}

/// The state of a connection in words.
pub open spec fn status_words(state: HandlerState) -> Seq<char> {
    if state.connected {
        "Connected"@
    } else if state.gathering_complete {
        "Waiting for peer"@
    } else {
        "Gathering"@
    }
}

impl Default for HandlerState {
    fn default() -> (state: Self)
        ensures
            state == (HandlerState { gathering_complete: false, connected: false }),
    {
        Self { gathering_complete: false, connected: false }
    }
}

impl HandlerState {
    /// The search for addresses has reached another state. That it is complete is
    /// never taken back.
    pub fn on_ice_gathering_state_change(&mut self, complete: bool)
        ensures
            final(self).gathering_complete == (old(self).gathering_complete || complete),
            final(self).connected == old(self).connected,
    {
        if complete {
            self.gathering_complete = true;
        }
    }

    /// The connection has reached another state. That it was connected is never taken
    /// back.
    pub fn on_connection_state_change(&mut self, connected: bool)
        ensures
            final(self).connected == (old(self).connected || connected),
            final(self).gathering_complete == old(self).gathering_complete,
    {
        if connected {
            self.connected = true;
        }
    }

    pub fn status(&self) -> (words: &'static str)
        ensures
            words@ == status_words(*self),
    {
        if self.connected {
            "Connected"
        } else if self.gathering_complete {
            "Waiting for peer"
        } else {
            "Gathering"
        }
    }
}

/// What the wait for addresses does next.
pub enum WaitStep {
    Done(Result<(), String>),
    Sleep(u64),
}

/// Whether to go on waiting for the addresses of this machine.
pub fn wait_for_gathering(state: HandlerState, started: u64, now: u64) -> (step: WaitStep)
    ensures
        match step {
            WaitStep::Done(Ok(())) => state.gathering_complete,
            WaitStep::Done(Err(message)) => !state.gathering_complete && span(now, started)
                >= GATHER_TIMEOUT && message@ == "timed out waiting for ICE gathering"@,
            WaitStep::Sleep(pause) => !state.gathering_complete && span(now, started)
                < GATHER_TIMEOUT && pause == GATHER_POLL,
        },
{
    if state.gathering_complete {
        WaitStep::Done(Ok(()))
    } else if elapsed(now, started) >= GATHER_TIMEOUT {
        WaitStep::Done(Err("timed out waiting for ICE gathering".to_owned()))
    } else {
        WaitStep::Sleep(GATHER_POLL)
    }
}

/// The code of the description that the connection has of this end.
pub fn local_code(description: Option<SessionDescription>) -> (packed: Result<String, String>)
    ensures
        match description {
            Some(local) => packed matches Ok(text) && text@ == code_of(local.sdp_type, local.sdp@) && (
            meaning(text@) matches Ok(back) && back == (local.sdp_type, local.sdp@)),
            None => packed matches Err(message) && message@ == "no local description"@,
        },
{
    match description {
        Some(local) => Ok(encode(&local)),
        None => Err("no local description".to_owned()),
    }
}

/// The description in a code from the other end. An error begins with `complaint`.
fn remote_description(packed: &str, complaint: &str) -> (description: Result<
    SessionDescription,
    String,
>)
    ensures
        match meaning(packed@) {
            Ok((sdp_type, sdp)) => description matches Ok(made) && made.sdp_type == sdp_type
                && made.sdp@ == sdp,
            Err(error) => description matches Err(message) && message@ == complaint@ + error,
        },
{
    match decode(packed) {
        Ok(description) => Ok(description),
        Err(error) => Err(joined_text(complaint, error.as_str())),
    }
}

/// Whether these are packets of `loads`, in order, numbered from where `packetizer`
/// stands, each with its marker.
pub open spec fn carries_loads(
    packetizer: Packetizer,
    packets: Seq<Packet>,
    loads: Seq<(Seq<u8>, bool)>,
    timestamp: u32,
) -> bool {
    &&& packets.len() == loads.len()
    &&& forall|i: int|
        0 <= i < packets.len() ==> {
            &&& crate::h264::contents((#[trigger] packets[i]).payload) == loads[i].0
            &&& packets[i].header == packetizer.header_at(i, timestamp, loads[i].1)
        }
}

proof fn lemma_sequence_after(first: u16, m: int, n: int)
    requires
        0 <= m,
        0 <= n,
    ensures
        sequence_after(sequence_after(first, m), n) == sequence_after(first, m + n),
{
}

/// The packets of one load list behind those of another.
proof fn lemma_carries_more(
    packetizer: Packetizer,
    sent: Seq<Packet>,
    before: Seq<(Seq<u8>, bool)>,
    more: Seq<Packet>,
    unit: Seq<Seq<u8>>,
    timestamp: u32,
    marker: bool,
)
    requires
        carries_loads(packetizer, sent, before, timestamp),
        packetizer.advanced(sent.len() as int).carries(more, unit, timestamp, marker),
    ensures
        carries_loads(packetizer, sent + more, before + marked(unit, marker), timestamp),
        packetizer.advanced(sent.len() as int).advanced(more.len() as int)
            == packetizer.advanced((sent + more).len() as int),
{
    let all = sent + more;
    let loads = before + marked(unit, marker);
    lemma_sequence_after(packetizer.sequence_number, sent.len() as int, more.len() as int);
    assert forall|i: int| 0 <= i < all.len() implies {
        &&& crate::h264::contents((#[trigger] all[i]).payload) == loads[i].0
        &&& all[i].header == packetizer.header_at(i, timestamp, loads[i].1)
    } by {
        if i < sent.len() {
            assert(all[i] == sent[i]);
        } else {
            let k = i - sent.len();
            assert(all[i] == more[k]);
            lemma_sequence_after(packetizer.sequence_number, sent.len() as int, k);
        }
    }
}

/// The loads of a frame, the units before `n` and those from `n` on.
proof fn lemma_frame_loads_split(units: Seq<Seq<u8>>, mtu: int, n: int)
    requires
        0 <= n < units.len(),
    ensures
        frame_loads(units.skip(n), mtu) == marked(payloads(units[n], mtu), n + 1 == units.len())
            + frame_loads(units.skip(n + 1), mtu),
{
    assert(units.skip(n).first() == units[n]);
    assert(units.skip(n).drop_first() == units.skip(n + 1));
}

/// The end that shares its screen: it cuts what the encoders give into packets.
pub struct Sharer {
    packetizer: Packetizer,
    audio_packetizer: Packetizer,
    state: HandlerState,
}

impl Sharer {
    pub closed spec fn video(&self) -> Packetizer {
        self.packetizer
    }

    pub closed spec fn audio(&self) -> Packetizer {
        self.audio_packetizer
    }

    pub closed spec fn state(&self) -> HandlerState {
        self.state
    }

    /// Whether both streams have the size of packets that they were made with.
    pub open spec fn wf(&self) -> bool {
        self.video().mtu == MTU && self.audio().mtu == MTU
    }

    pub fn new() -> (sharer: Self)
        ensures
            sharer.wf(),
            sharer.video() == (Packetizer {
                sequence_number: 0,
                ssrc: VIDEO_SSRC,
                payload_type: VIDEO_PT,
                mtu: MTU,
            }),
            sharer.audio() == (Packetizer {
                sequence_number: 0,
                ssrc: AUDIO_SSRC,
                payload_type: AUDIO_PT,
                mtu: MTU,
            }),
            sharer.state() == (HandlerState { gathering_complete: false, connected: false }),
    {
        Self {
            packetizer: Packetizer::new(VIDEO_SSRC, VIDEO_PT, MTU),
            audio_packetizer: Packetizer::new(AUDIO_SSRC, AUDIO_PT, MTU),
            state: HandlerState::default(),
        }
    }

    /// Takes over what the connection has reported.
    pub fn set_state(&mut self, state: HandlerState)
        ensures
            final(self).state() == state,
            final(self).video() == old(self).video(),
            final(self).audio() == old(self).audio(),
    {
        self.state = state;
    }

    /// The code of the offer, once the connection has a description of this end.
    pub fn create_offer(description: Option<SessionDescription>) -> (packed: Result<String, String>)
        ensures
            match description {
                Some(local) => packed matches Ok(text) && text@ == code_of(local.sdp_type, local.sdp@)
                    && (meaning(text@) matches Ok(back) && back == (local.sdp_type, local.sdp@)),
                None => packed matches Err(message) && message@ == "no local description"@,
            },
    {
        local_code(description)
    }

    /// The answer in a code, for the connection.
    pub fn set_answer(packed: &str) -> (description: Result<SessionDescription, String>)
        ensures
            match meaning(packed@) {
                Ok((sdp_type, sdp)) => description matches Ok(made) && made.sdp_type == sdp_type
                    && made.sdp@ == sdp,
                Err(error) => description matches Err(message) && message@
                    == "invalid answer code: "@ + error,
            },
    {
        remote_description(packed, "invalid answer code: ")
    }

    /// The packets of an encoded frame. The last one has the marker.
    pub fn send_frame(&mut self, bitstream: &[u8], timestamp: u32) -> (packets: Vec<Packet>)
        requires
            old(self).wf(),
        ensures
            final(self).wf(),
            carries_loads(
                old(self).video(),
                packets@,
                frame_loads(units_from(bitstream@, 0), MTU as int),
                timestamp,
            ),
            final(self).video() == old(self).video().advanced(packets@.len() as int),
            final(self).audio() == old(self).audio(),
            final(self).state() == old(self).state(),
    {
        let nalus: Vec<&[u8]> = AnnexBIter::new(bitstream).collect();
        let ghost units = units_from(bitstream@, 0);
        let ghost mtu = MTU as int;
        let mut packets: Vec<Packet> = Vec::new();
        let mut index: usize = 0;
        let ghost mut sent: Seq<(Seq<u8>, bool)> = seq![];
        proof {
            assert(units.skip(0) == units);
            assert(sent + frame_loads(units, mtu) == frame_loads(units, mtu));
            assert(self.packetizer == old(self).packetizer.advanced(0));
        }
        while index < nalus.len()
            invariant
                index <= nalus@.len(),
                slices(nalus@) == units,
                mtu == MTU,
                old(self).packetizer.mtu == MTU,
                carries_loads(old(self).packetizer, packets@, sent, timestamp),
                sent + frame_loads(units.skip(index as int), mtu) == frame_loads(units, mtu),
                self.packetizer == old(self).packetizer.advanced(packets@.len() as int),
                self.audio_packetizer == old(self).audio_packetizer,
                self.state == old(self).state,
            decreases nalus@.len() - index,
        {
            let nalu: &[u8] = nalus[index];
            let marker: bool = index + 1 == nalus.len();
            let ghost before = packets@;
            assert(nalu@ == units[index as int]);
            let mut more: Vec<Packet> = self.packetizer.packetize(nalu, timestamp, marker);
            proof {
                let loads = payloads(nalu@, mtu);
                lemma_carries_more(
                    old(self).packetizer,
                    before,
                    sent,
                    more@,
                    loads,
                    timestamp,
                    marker,
                );
                lemma_frame_loads_split(units, mtu, index as int);
                let rest = frame_loads(units.skip(index + 1), mtu);
                assert(sent + (marked(loads, marker) + rest) == sent + marked(loads, marker)
                    + rest);
                sent = sent + marked(loads, marker);
            }
            packets.append(&mut more);
            index += 1;
        }
        proof {
            assert(units.skip(units.len() as int) == Seq::<Seq<u8>>::empty());
            assert(sent == frame_loads(units, mtu));
        }
        packets
    }

    /// The packets of an encoded stretch of sound.
    pub fn send_audio(&mut self, opus: &[u8], timestamp: u32) -> (packets: Vec<Packet>)
        requires
            old(self).wf(),
        ensures
            final(self).wf(),
            old(self).audio().carries(packets@, payloads(opus@, MTU as int), timestamp, true),
            final(self).audio() == old(self).audio().advanced(packets@.len() as int),
            final(self).video() == old(self).video(),
            final(self).state() == old(self).state(),
    {
        self.audio_packetizer.packetize(opus, timestamp, true)
    }

    pub fn status(&self) -> (words: &'static str)
        ensures
            words@ == status_words(self.state()),
    {
        self.state.status()
    }

    pub fn is_connected(&self) -> (connected: bool)
        ensures
            connected == self.state().connected,
    {
        self.state.connected
    }
}

/// The end that shows the screen of the other.
pub struct Viewer {
    state: HandlerState,
}

impl Viewer {
    pub closed spec fn state(&self) -> HandlerState {
        self.state
    }

    pub fn new() -> (viewer: Self)
        ensures
            viewer.state() == (HandlerState { gathering_complete: false, connected: false }),
    {
        Self { state: HandlerState::default() }
    }

    /// Takes over what the connection has reported.
    pub fn set_state(&mut self, state: HandlerState)
        ensures
            final(self).state() == state,
    {
        self.state = state;
    }

    /// The offer in a code, for the connection. The code of the answer to it is that
    /// of the description which the connection then has of this end.
    pub fn answer_offer(packed: &str) -> (description: Result<SessionDescription, String>)
        ensures
            match meaning(packed@) {
                Ok((sdp_type, sdp)) => description matches Ok(made) && made.sdp_type == sdp_type
                    && made.sdp@ == sdp,
                Err(error) => description matches Err(message) && message@
                    == "invalid offer code: "@ + error,
            },
    {
        remote_description(packed, "invalid offer code: ")
    }

    pub fn status(&self) -> (words: &'static str)
        ensures
            words@ == status_words(self.state()),
    {
        self.state.status()
    }

    pub fn is_connected(&self) -> (connected: bool)
        ensures
            connected == self.state().connected,
    {
        self.state.connected
    }
}

/// The units of a stream are not empty.
proof fn lemma_units_not_empty(data: Seq<u8>, pos: int, i: int)
    requires
        0 <= pos,
        0 <= i < units_from(data, pos).len(),
    ensures
        units_from(data, pos)[i].len() > 0,
    decreases i,
{
    law_units_lie_between_codes(data, pos);
    if let Some((begin, end)) = crate::h264::next_unit(data, pos) {
        if i > 0 {
            lemma_units_not_empty(data, end, i - 1);
        }
    }
}

/// What the packets of an encoded frame hand out at the other end are the units of
/// the frame, if it holds a keyframe or one came before it. Left out are frames
/// without units, and units that call themselves fragments.
pub proof fn law_frame_reaches_the_viewer(bitstream: Seq<u8>, synced: bool)
    requires
        units_from(bitstream, 0).len() > 0,
        synced || has_keyframe(units_from(bitstream, 0)),
        forall|i: int|
            0 <= i < units_from(bitstream, 0).len() ==> unit_type(
                #[trigger] units_from(bitstream, 0)[i],
            ) != FU_A,
    ensures
        handed_out(
            Pending { partial: None, units: seq![], synced },
            frame_loads(units_from(bitstream, 0), MTU as int),
        ) == seq![units_from(bitstream, 0)],
        held_after(
            Pending { partial: None, units: seq![], synced },
            frame_loads(units_from(bitstream, 0), MTU as int),
        ) == (Pending { partial: None, units: seq![], synced: true }),
{
    let units = units_from(bitstream, 0);
    assert forall|i: int| 0 <= i < units.len() implies sendable(#[trigger] units[i], MTU as int)
        && units[i].len() > 0 && unit_type(units[i]) != FU_A by {
        lemma_units_not_empty(bitstream, 0, i);
    }
    law_frame_comes_back(units, MTU as int, synced);
}

/// A stretch of sound of at most 1200 bytes goes out in one packet, which holds the sound as
/// it is, with its time, the marker and the next number.
pub proof fn law_sound_goes_out_in_one_packet(
    packetizer: Packetizer,
    packets: Seq<Packet>,
    opus: Seq<u8>,
    timestamp: u32,
)
    requires
        packetizer.carries(packets, payloads(opus, MTU as int), timestamp, true),
        opus.len() <= 1200,
    ensures
        packets.len() == 1,
        crate::h264::contents(packets[0].payload) == opus,
        packets[0].header.timestamp == timestamp,
        packets[0].header.marker,
        packets[0].header.sequence_number == packetizer.sequence_number,
        packets[0].header.ssrc == packetizer.ssrc,
        packets[0].header.payload_type == packetizer.payload_type,
{
    law_what_fits_goes_whole(opus, MTU as int);
    law_packets_are_numbered(packetizer, packets, seq![opus], timestamp, true);
    assert(packets[0].header == packetizer.header_at(0, timestamp, true));
}

/// The packets of a frame have its time and are numbered one after the other. None holds
/// more than 1200 bytes, and the last one alone has the marker.
pub proof fn law_frame_goes_out_in_small_packets(
    packetizer: Packetizer,
    packets: Seq<Packet>,
    bitstream: Seq<u8>,
    timestamp: u32,
)
    requires
        carries_loads(
            packetizer,
            packets,
            frame_loads(units_from(bitstream, 0), MTU as int),
            timestamp,
        ),
    ensures
        forall|i: int|
            0 <= i < packets.len() ==> {
                let header = (#[trigger] packets[i]).header;
                &&& crate::h264::contents(packets[i].payload).len() <= 1200
                &&& header.marker == (i + 1 == packets.len())
                &&& header.timestamp == timestamp
                &&& header.ssrc == packetizer.ssrc
                &&& header.payload_type == packetizer.payload_type
                &&& (header.sequence_number - packetizer.sequence_number - i) % 0x1_0000 == 0
            },
        packets.len() >= units_from(bitstream, 0).len(),
{
    let units = units_from(bitstream, 0);
    let loads = frame_loads(units, MTU as int);
    law_marker_ends_the_frame(units, MTU as int);
    assert forall|i: int| 0 <= i < packets.len() implies {
        let header = (#[trigger] packets[i]).header;
        &&& crate::h264::contents(packets[i].payload).len() <= 1200
        &&& header.marker == (i + 1 == packets.len())
        &&& header.timestamp == timestamp
        &&& header.ssrc == packetizer.ssrc
        &&& header.payload_type == packetizer.payload_type
        &&& (header.sequence_number - packetizer.sequence_number - i) % 0x1_0000 == 0
    } by {
        assert(crate::h264::contents(packets[i].payload) == loads[i].0);
        assert(packets[i].header == packetizer.header_at(i, timestamp, loads[i].1));
        assert(loads[i].0.len() <= MTU);
    }
}

/// Picture and sound can be told apart by their types, which are among those that are free
/// to choose, and by their streams.
pub proof fn law_picture_and_sound_are_told_apart()
    ensures
        VIDEO_PT != AUDIO_PT,
        96 <= VIDEO_PT <= 127,
        96 <= AUDIO_PT <= 127,
        VIDEO_SSRC != AUDIO_SSRC,
{
}

/// The words on a connection tell whether it stands, and before that whether the search for
/// addresses is over.
pub proof fn law_words_tell_the_state(state: HandlerState)
    ensures
        status_words(state) == "Connected"@ <==> state.connected,
        status_words(state) == "Waiting for peer"@ <==> !state.connected
            && state.gathering_complete,
        status_words(state) == "Gathering"@ <==> !state.connected && !state.gathering_complete,
{
    reveal_strlit("Connected");
    reveal_strlit("Waiting for peer");
    reveal_strlit("Gathering");
    assert("Connected"@.len() == 9 && "Gathering"@.len() == 9 && "Waiting for peer"@.len() == 16);
    assert("Connected"@[0] == 'C' && "Gathering"@[0] == 'G');
}

/// What packets bring to the other end: their payloads and markers.
pub open spec fn loads_of(packets: Seq<Packet>) -> Seq<(Seq<u8>, bool)> {
    Seq::new(
        packets.len(),
        |i: int| (crate::h264::contents(packets[i].payload), packets[i].header.marker),
    )
}

/// The packets of a frame, as they are sent, hand out the units of the frame at the other
/// end, all of them, in order and once, if it holds a keyframe or one came before it.
pub proof fn law_sent_frame_is_put_together(
    packetizer: Packetizer,
    packets: Seq<Packet>,
    bitstream: Seq<u8>,
    timestamp: u32,
    synced: bool,
)
    requires
        carries_loads(
            packetizer,
            packets,
            frame_loads(units_from(bitstream, 0), MTU as int),
            timestamp,
        ),
        units_from(bitstream, 0).len() > 0,
        synced || has_keyframe(units_from(bitstream, 0)),
        forall|i: int|
            0 <= i < units_from(bitstream, 0).len() ==> unit_type(
                #[trigger] units_from(bitstream, 0)[i],
            ) != FU_A,
    ensures
        handed_out(Pending { partial: None, units: seq![], synced }, loads_of(packets)) == seq![
            units_from(bitstream, 0),
        ],
{
    let loads = frame_loads(units_from(bitstream, 0), MTU as int);
    assert forall|i: int| 0 <= i < packets.len() implies loads_of(packets)[i] == loads[i] by {
        assert(crate::h264::contents(packets[i].payload) == loads[i].0);
        assert(packets[i].header == packetizer.header_at(i, timestamp, loads[i].1));
    }
    assert(loads_of(packets) =~= loads);
    law_frame_reaches_the_viewer(bitstream, synced);
}

/// The addresses of the machine are waited for for ten seconds, and looked for forty times a
/// second. A packet holds up to 1200 bytes.
pub proof fn law_session_times()
    ensures
        GATHER_TIMEOUT == 10 * 1_000_000_000,
        40 * GATHER_POLL == 1_000_000_000,
        MTU == 1200,
        VIDEO_PT == 96,
        AUDIO_PT == 111,
        VIDEO_SSRC == 0x5a5a_77e1,
        AUDIO_SSRC == VIDEO_SSRC + 1,
{
}

} // verus!
