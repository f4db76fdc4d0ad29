//! From the packets of a shared screen to its pictures.
use vstd::prelude::*;

use crate::decode::{shows, DecodedFrame, H264Decoder};
use crate::h264::{
    access_unit_to_annexb, annexb, as_slice, contents, sequence_after, Depacketizer, Header, Packet,
    Packetizer, Pending,
};
use crate::session::{carries_loads, AUDIO_PT};

verus! {

/// What has come in from the other end, and what became of it.
pub struct ViewStats {
    pub packets: u64,
    pub bytes: u64,
    pub aus: u64,
    pub decoded: u64,
    pub decode_errors: u64,
    pub decode_none: u64,
    pub first_width: u32,
    pub first_height: u32,
    pub first_error: Option<String>,
    pub audio_packets: u64,
    pub audio_decoded: u64,
    pub audio_errors: u64,
    pub audio_error: Option<String>,
    pub base_seq: Option<u16>,
    pub highest_seq: Option<u16>,
    pub lost: u64,
}

/// How far `seq` is ahead of `highest`, counting round.
pub open spec fn ahead(seq: u16, highest: u16) -> int {
    (seq - highest) % 0x1_0000
}

/// Whether a packet is newer than all before it: ahead by less than half the way
/// round.
pub open spec fn is_newer(seq: u16, highest: u16) -> bool {
    0 < ahead(seq, highest) < 0x8000
}

impl ViewStats {
    /// The counts before anything has come in.
    pub open spec fn empty() -> ViewStats {
        ViewStats {
            packets: 0,
            bytes: 0,
            aus: 0,
            decoded: 0,
            decode_errors: 0,
            decode_none: 0,
            first_width: 0,
            first_height: 0,
            first_error: None,
            audio_packets: 0,
            audio_decoded: 0,
            audio_errors: 0,
            audio_error: None,
            base_seq: None,
            highest_seq: None,
            lost: 0,
        }
    }

    /// The counts once a packet has come in. Packets that were passed over count as
    /// lost; a packet that comes late changes nothing in that.
    pub open spec fn counted(self, header: Header, len: int) -> ViewStats {
        if header.payload_type == AUDIO_PT {
            ViewStats {
                packets: (self.packets + 1) as u64,
                audio_packets: (self.audio_packets + 1) as u64,
                ..self
            }
        } else {
            let seq = header.sequence_number;
            let received = ViewStats {
                packets: (self.packets + 1) as u64,
                bytes: (self.bytes + len) as u64,
                ..self
            };
            match self.highest_seq {
                None => ViewStats { base_seq: Some(seq), highest_seq: Some(seq), ..received },
                Some(highest) => if is_newer(seq, highest) {
                    ViewStats {
                        lost: (self.lost + ahead(seq, highest) - 1) as u64,
                        highest_seq: Some(seq),
                        ..received
                    }
                } else {
                    received
                },
            }
        }
    }

    /// Whether the counts have room for one packet more of `len` bytes, and for all
    /// that can become of it.
    pub open spec fn has_room(self, len: int) -> bool {
        &&& self.packets < u64::MAX
        &&& self.bytes + len <= u64::MAX
        &&& self.aus < u64::MAX
        &&& self.decoded < u64::MAX
        &&& self.decode_errors < u64::MAX
        &&& self.decode_none < u64::MAX
        &&& self.audio_packets < u64::MAX
        &&& self.audio_decoded < u64::MAX
        &&& self.audio_errors < u64::MAX
        &&& self.lost + 0x8000 <= u64::MAX
    }

    /// The counts once a stretch of sound was decoded or not.
    pub open spec fn with_sound(self, outcome: Result<(), String>) -> ViewStats {
        match outcome {
            Ok(()) => ViewStats { audio_decoded: (self.audio_decoded + 1) as u64, ..self },
            Err(error) => ViewStats {
                audio_error: if self.audio_error is None {
                    Some(error)
                } else {
                    self.audio_error
                },
                audio_errors: (self.audio_errors + 1) as u64,
                ..self
            },
        }
    }

    /// The counts once the decoder has answered.
    pub open spec fn with_outcome(self, outcome: Result<Option<DecodedFrame>, String>) -> ViewStats {
        match outcome {
            Ok(Some(frame)) => {
                let first = self.first_width == 0;
                ViewStats {
                    first_width: if first {
                        frame.width
                    } else {
                        self.first_width
                    },
                    first_height: if first {
                        frame.height
                    } else {
                        self.first_height
                    },
                    decoded: (self.decoded + 1) as u64,
                    ..self
                }
            },
            Ok(None) => ViewStats { decode_none: (self.decode_none + 1) as u64, ..self },
            Err(error) => ViewStats {
                first_error: if self.first_error is None {
                    Some(error)
                } else {
                    self.first_error
                },
                decode_errors: (self.decode_errors + 1) as u64,
                ..self
            },
        }
    }
}

impl Default for ViewStats {
    fn default() -> (stats: Self)
        ensures
            stats == ViewStats::empty(),
    {
        Self {
            packets: 0,
            bytes: 0,
            aus: 0,
            decoded: 0,
            decode_errors: 0,
            decode_none: 0,
            first_width: 0,
            first_height: 0,
            first_error: None,
            audio_packets: 0,
            audio_decoded: 0,
            audio_errors: 0,
            audio_error: None,
            base_seq: None,
            highest_seq: None,
            lost: 0,
        }
    }
}

impl ViewStats {
    pub fn can_count(&self, len: usize) -> (can: bool)
        ensures
            can == self.has_room(len as int),
    {
        self.packets < u64::MAX && self.bytes <= u64::MAX - len as u64 && self.aus < u64::MAX
            && self.decoded < u64::MAX && self.decode_errors < u64::MAX && self.decode_none
            < u64::MAX && self.audio_packets < u64::MAX && self.audio_decoded < u64::MAX
            && self.audio_errors < u64::MAX && self.lost <= u64::MAX - 0x8000
    }

    /// Counts a packet of `len` bytes.
    pub fn count(&mut self, header: &Header, len: usize)
        requires
            old(self).has_room(len as int),
        ensures
            *final(self) == old(self).counted(*header, len as int),
    {
        self.packets += 1;
        if header.payload_type == AUDIO_PT {
            self.audio_packets += 1;
            return;
        }
        self.bytes += len as u64;
        let seq: u16 = header.sequence_number;
        match self.highest_seq {
            None => {
                self.base_seq = Some(seq);
                self.highest_seq = Some(seq);
            },
            Some(highest) => {
                let distance: u16 = seq.wrapping_sub(highest);
                assert(distance == ahead(seq, highest));
                if seq != highest && distance < 0x8000 {
                    self.lost += distance as u64 - 1;
                    self.highest_seq = Some(seq);
                }
            },
        }
    }

    /// Counts a stretch of sound, decoded or not.
    pub fn sound_decoded(&mut self, outcome: Result<(), String>)
        requires
            old(self).audio_decoded < u64::MAX,
            old(self).audio_errors < u64::MAX,
        ensures
            *final(self) == old(self).with_sound(outcome),
    {
        match outcome {
            Ok(()) => {
                self.audio_decoded += 1;
            },
            Err(error) => {
                if self.audio_error.is_none() {
                    self.audio_error = Some(error);
                }
                self.audio_errors += 1;
            },
        }
    }
}

/// A packet that follows the one before it costs nothing.
pub proof fn law_no_gap_no_loss(stats: ViewStats, header: Header, len: int)
    requires
        header.payload_type != AUDIO_PT,
        stats.highest_seq matches Some(highest) && ahead(header.sequence_number, highest) == 1,
    ensures
        stats.counted(header, len).lost == stats.lost,
        stats.counted(header, len).highest_seq == Some(header.sequence_number),
{
}

/// A packet that is ahead brings exactly the packets in between as lost. With the
/// packet itself they make up the way that the highest number has moved.
pub proof fn law_gaps_are_counted(stats: ViewStats, header: Header, len: int)
    requires
        stats.has_room(len),
        header.payload_type != AUDIO_PT,
        stats.highest_seq matches Some(highest) && is_newer(header.sequence_number, highest),
    ensures
        stats.counted(header, len).lost + 1 == stats.lost + ahead(
            header.sequence_number,
            stats.highest_seq->0,
        ),
{
}

/// The counts after packets, each with its length.
pub open spec fn counted_all(stats: ViewStats, packets: Seq<(Header, int)>) -> ViewStats
    decreases packets.len(),
{
    if packets.len() == 0 {
        stats
    } else {
        counted_all(stats, packets.drop_last()).counted(packets.last().0, packets.last().1)
    }
}

/// The number of the packet before the one at `i`, and `highest` before the first.
pub open spec fn number_before(highest: u16, packets: Seq<(Header, int)>, i: int) -> u16 {
    if i == 0 {
        highest
    } else {
        packets[i - 1].0.sequence_number
    }
}

/// How far the numbers of packets move on from `highest`.
pub open spec fn way(highest: u16, packets: Seq<(Header, int)>) -> int
    decreases packets.len(),
{
    if packets.len() == 0 {
        0
    } else {
        way(highest, packets.drop_last()) + ahead(
            packets.last().0.sequence_number,
            number_before(highest, packets, packets.len() - 1),
        )
    }
}

/// Over packets of the picture of which each is newer than the one before, those
/// that came and those that count as lost make up all that were sent.
pub proof fn law_loss_adds_up(stats: ViewStats, highest: u16, packets: Seq<(Header, int)>)
    requires
        stats.highest_seq == Some(highest),
        stats.lost + 0x8000 * packets.len() <= u64::MAX,
        forall|i: int|
            0 <= i < packets.len() ==> {
                &&& (#[trigger] packets[i]).0.payload_type != AUDIO_PT
                &&& is_newer(packets[i].0.sequence_number, number_before(highest, packets, i))
            },
    ensures
        counted_all(stats, packets).lost + packets.len() == stats.lost + way(highest, packets),
        stats.lost <= counted_all(stats, packets).lost <= stats.lost + 0x8000 * packets.len(),
        counted_all(stats, packets).highest_seq == Some(
            number_before(highest, packets, packets.len() as int),
        ),
    decreases packets.len(),
{
    if packets.len() > 0 {
        let before = packets.drop_last();
        assert forall|i: int| 0 <= i < before.len() implies {
            &&& (#[trigger] before[i]).0.payload_type != AUDIO_PT
            &&& is_newer(before[i].0.sequence_number, number_before(highest, before, i))
        } by {
            assert(before[i] == packets[i]);
            assert(number_before(highest, before, i) == number_before(highest, packets, i));
        }
        law_loss_adds_up(stats, highest, before);
        assert(packets.last() == packets[packets.len() - 1]);
        assert(number_before(highest, before, before.len() as int) == number_before(
            highest,
            packets,
            packets.len() - 1,
        ));
    }
}

/// Packets as they are counted: each with its length.
pub open spec fn arrivals(packets: Seq<Packet>) -> Seq<(Header, int)> {
    Seq::new(
        packets.len(),
        |i: int| (packets[i].header, contents(packets[i].payload).len() as int),
    )
}

/// Where the packets of the picture all arrive, in the order in which they are sent,
/// none counts as lost.
pub proof fn law_what_arrives_is_not_lost(
    stats: ViewStats,
    packetizer: Packetizer,
    packets: Seq<Packet>,
    loads: Seq<(Seq<u8>, bool)>,
    timestamp: u32,
)
    requires
        carries_loads(packetizer, packets, loads, timestamp),
        packetizer.payload_type != AUDIO_PT,
        stats.highest_seq matches Some(highest) ==> packetizer.sequence_number == sequence_after(
            highest,
            1,
        ),
    ensures
        counted_all(stats, arrivals(packets)).lost == stats.lost,
        counted_all(stats, arrivals(packets)).highest_seq == if packets.len() == 0 {
            stats.highest_seq
        } else {
            Some(sequence_after(packetizer.sequence_number, packets.len() - 1))
        },
    decreases packets.len(),
{
    if packets.len() > 0 {
        let before = packets.drop_last();
        assert forall|i: int| 0 <= i < before.len() implies {
            &&& contents((#[trigger] before[i]).payload) == loads.drop_last()[i].0
            &&& before[i].header == packetizer.header_at(i, timestamp, loads.drop_last()[i].1)
        } by {
            assert(before[i] == packets[i]);
        }
        law_what_arrives_is_not_lost(stats, packetizer, before, loads.drop_last(), timestamp);
        assert(arrivals(packets).drop_last() == arrivals(before));
        assert(arrivals(packets).last().0 == packets[packets.len() - 1].header);
    }
}

/// A packet that comes late, or twice, changes neither the loss nor the highest
/// number.
pub proof fn law_late_packets_change_no_loss(stats: ViewStats, header: Header, len: int)
    requires
        header.payload_type != AUDIO_PT,
        stats.highest_seq matches Some(highest) && !is_newer(header.sequence_number, highest),
    ensures
        stats.counted(header, len).lost == stats.lost,
        stats.counted(header, len).highest_seq == stats.highest_seq,
{
}

/// Sound counts neither as video bytes nor for the loss.
pub proof fn law_sound_is_counted_apart(stats: ViewStats, header: Header, len: int)
    requires
        header.payload_type == AUDIO_PT,
    ensures
        stats.counted(header, len).bytes == stats.bytes,
        stats.counted(header, len).lost == stats.lost,
        stats.counted(header, len).highest_seq == stats.highest_seq,
{
}

/// What a packet was for.
pub enum Received {
    /// Sound, to be decoded and played.
    Sound,
    /// A part of the picture, dealt with.
    Picture,
}

/// The way of packets to pictures.
pub struct Receiver {
    depacketizer: Depacketizer,
    decoder: Option<H264Decoder>,
    stats: ViewStats,
    latest: Option<DecodedFrame>,
}

impl Receiver {
    pub closed spec fn held(&self) -> Pending {
        self.depacketizer@
    }

    pub closed spec fn has_decoder(&self) -> bool {
        self.decoder is Some
    }

    /// The access units that the decoder was given so far.
    pub closed spec fn given(&self) -> Seq<Seq<u8>> {
        match self.decoder {
            Some(decoder) => decoder.given(),
            None => seq![],
        }
    }

    /// What the decoder has made of them.
    pub closed spec fn made(&self) -> Seq<Result<Option<(Seq<u8>, usize, usize)>, i64>> {
        match self.decoder {
            Some(decoder) => decoder.made(),
            None => seq![],
        }
    }

    /// What has come in so far.
    pub closed spec fn counts(&self) -> ViewStats {
        self.stats
    }

    /// The picture that nobody has taken yet.
    pub closed spec fn picture(&self) -> Option<DecodedFrame> {
        self.latest
    }

    pub fn stats(&self) -> (stats: &ViewStats)
        ensures
            *stats == self.counts(),
    {
        &self.stats
    }

    /// Takes the newest picture, if there is one since the last time.
    pub fn take_latest(&mut self) -> (frame: Option<DecodedFrame>)
        ensures
            frame == old(self).picture(),
            final(self).picture() is None,
            final(self).counts() == old(self).counts(),
            final(self).held() == old(self).held(),
            final(self).has_decoder() == old(self).has_decoder(),
            final(self).given() == old(self).given(),
            final(self).made() == old(self).made(),
    {
        self.latest.take()
    }

    /// Counts a stretch of sound, decoded or not.
    pub fn sound_decoded(&mut self, outcome: Result<(), String>)
        requires
            old(self).counts().audio_decoded < u64::MAX,
            old(self).counts().audio_errors < u64::MAX,
        ensures
            final(self).counts() == old(self).counts().with_sound(outcome),
            final(self).picture() == old(self).picture(),
            final(self).held() == old(self).held(),
            final(self).has_decoder() == old(self).has_decoder(),
            final(self).given() == old(self).given(),
            final(self).made() == old(self).made(),
    {
        self.stats.sound_decoded(outcome);
    }

    /// A receiver with a decoder, if the machine has one.
    pub fn new() -> (receiver: Self)
        ensures
            receiver.held() == (Pending { partial: None, units: seq![], synced: false }),
            receiver.counts() == ViewStats::empty(),
            receiver.picture() is None,
            receiver.given().len() == 0,
            receiver.made().len() == 0,
    {
        Self::with_decoder(H264Decoder::new())
    }

    /// A receiver that nothing has come in to yet. It decodes with this decoder, and
    /// not at all where there was none to be had.
    pub fn with_decoder(decoder: Result<H264Decoder, String>) -> (receiver: Self)
        ensures
            receiver.held() == (Pending { partial: None, units: seq![], synced: false }),
            receiver.counts() == ViewStats::empty(),
            receiver.picture() is None,
            receiver.has_decoder() == (decoder is Ok),
            receiver.given() == match decoder {
                Ok(opened) => opened.given(),
                Err(_) => seq![],
            },
            receiver.made() == match decoder {
                Ok(opened) => opened.made(),
                Err(_) => seq![],
            },
    {
        let decoder = match decoder {
            Ok(decoder) => Some(decoder),
            Err(_) => None,
        };
        Self {
            depacketizer: Depacketizer::new(),
            decoder,
            stats: ViewStats::default(),
            latest: None,
        }
    }

    /// Counts a packet of the picture and puts it to the others. The byte stream of
    /// the frame comes with its last packet.
    pub fn assemble(&mut self, packet: &Packet) -> (access_unit: Option<Vec<u8>>)
        requires
            old(self).counts().has_room(contents(packet.payload).len() as int),
            packet.header.payload_type != AUDIO_PT,
        ensures
            ({
                let load = (contents(packet.payload), packet.header.marker);
                let counted = old(self).counts().counted(packet.header, load.0.len() as int);
                &&& final(self).held() == old(self).held().after(load)
                &&& final(self).has_decoder() == old(self).has_decoder()
                &&& final(self).given() == old(self).given()
                &&& final(self).made() == old(self).made()
                &&& final(self).picture() == old(self).picture()
                &&& match old(self).held().output(load) {
                    Some(units) => {
                        &&& access_unit matches Some(stream) && stream@ == annexb(units)
                        &&& final(self).counts() == (ViewStats {
                            aus: (counted.aus + 1) as u64,
                            ..counted
                        })
                    },
                    None => access_unit is None && final(self).counts() == counted,
                }
            }),
    {
        let len: usize = as_slice(&packet.payload).len();
        self.stats.count(&packet.header, len);
        match self.depacketizer.push(packet) {
            Some(nalus) => {
                self.stats.aus += 1;
                Some(access_unit_to_annexb(&nalus))
            },
            None => None,
        }
    }

    /// Takes what the decoder made of a frame. After an error everything is dropped
    /// until the next keyframe.
    pub fn decoded(&mut self, outcome: Result<Option<DecodedFrame>, String>)
        requires
            old(self).counts().decoded < u64::MAX,
            old(self).counts().decode_none < u64::MAX,
            old(self).counts().decode_errors < u64::MAX,
        ensures
            final(self).counts() == old(self).counts().with_outcome(outcome),
            final(self).has_decoder() == old(self).has_decoder(),
            final(self).given() == old(self).given(),
            final(self).made() == old(self).made(),
            match outcome {
                Ok(Some(frame)) => final(self).picture() == Some(frame) && final(self).held() == old(
                    self,
                ).held(),
                Ok(None) => final(self).picture() == old(self).picture() && final(self).held() == old(
                    self,
                ).held(),
                Err(_) => final(self).picture() == old(self).picture() && final(self).held() == (
                Pending { partial: None, units: seq![], synced: false }),
            },
    {
        match outcome {
            Ok(Some(frame)) => {
                if self.stats.first_width == 0 {
                    self.stats.first_width = frame.width;
                    self.stats.first_height = frame.height;
                }
                self.stats.decoded += 1;
                self.latest = Some(frame);
            },
            Ok(None) => {
                self.stats.decode_none += 1;
            },
            Err(error) => {
                self.depacketizer.reset();
                if self.stats.first_error.is_none() {
                    self.stats.first_error = Some(error);
                }
                self.stats.decode_errors += 1;
            },
        }
    }

    /// Takes a packet. Sound is counted and left to the caller. A packet of the
    /// picture is put to the others, and a frame that it completes is decoded; what
    /// the decoder makes of it is dealt with as by `decoded`.
    pub fn receive(&mut self, packet: &Packet) -> (received: Received)
        requires
            old(self).counts().has_room(contents(packet.payload).len() as int),
        ensures
            ({
                let load = (contents(packet.payload), packet.header.marker);
                let counted = old(self).counts().counted(packet.header, load.0.len() as int);
                &&& final(self).has_decoder() == old(self).has_decoder()
                &&& (received is Sound) == (packet.header.payload_type == AUDIO_PT)
                &&& final(self).given() == match old(self).held().output(load) {
                    Some(units) if received is Picture && old(self).has_decoder() => old(
                        self,
                    ).given().push(annexb(units)),
                    _ => old(self).given(),
                }
                &&& if received is Sound {
                    &&& final(self).made() == old(self).made()
                    &&& final(self).counts() == counted
                    &&& final(self).held() == old(self).held()
                    &&& final(self).picture() == old(self).picture()
                } else {
                    match old(self).held().output(load) {
                        None => {
                            &&& final(self).made() == old(self).made()
                            &&& final(self).counts() == counted
                            &&& final(self).held() == old(self).held().after(load)
                            &&& final(self).picture() == old(self).picture()
                        },
                        Some(units) => {
                            let full = ViewStats { aus: (counted.aus + 1) as u64, ..counted };
                            if !old(self).has_decoder() {
                                &&& final(self).made() == old(self).made()
                                &&& final(self).counts() == full
                                &&& final(self).held() == old(self).held().after(load)
                                &&& final(self).picture() == old(self).picture()
                            } else {
                                &&& final(self).made().len() > 0
                                &&& final(self).made().drop_last() == old(self).made()
                                &&& exists|outcome: Result<Option<DecodedFrame>, String>|
                                    final(self).counts() == #[trigger] full.with_outcome(outcome)
                                        && shows(outcome, final(self).made().last())
                                        && match outcome {
                                        Ok(Some(frame)) => final(self).picture() == Some(frame)
                                            && final(self).held() == old(self).held().after(load),
                                        Ok(None) => final(self).picture() == old(self).picture()
                                            && final(self).held() == old(self).held().after(load),
                                        Err(_) => final(self).picture() == old(self).picture()
                                            && final(self).held() == (Pending {
                                            partial: None,
                                            units: seq![],
                                            synced: false,
                                        }),
                                    }
                            }
                        },
                    }
                }
            }),
    {
        if packet.header.payload_type == AUDIO_PT {
            let len: usize = as_slice(&packet.payload).len();
            self.stats.count(&packet.header, len);
            return Received::Sound;
        }
        if let Some(access_unit) = self.assemble(packet) {
            if let Some(decoder) = &mut self.decoder {
                let outcome = decoder.decode(access_unit.as_slice());
                self.decoded(outcome);
            }
        }
        Received::Picture
    }
}

/// A packet of the picture counts with its bytes. The first one sets the number to go on
/// from. One that is `step` numbers on, less than half the way round, costs the ones in
/// between; one that is not costs nothing.
pub proof fn law_numbers_tell_the_loss(stats: ViewStats, header: Header, len: int, step: int)
    requires
        header.payload_type != 111,
        0 <= step < 0x1_0000,
        0 <= len,
        stats.packets < u64::MAX,
        stats.bytes + len <= u64::MAX,
        stats.lost + 0x8000 <= u64::MAX,
        stats.highest_seq matches Some(highest) ==> (highest + step) % 0x1_0000
            == header.sequence_number,
    ensures
        ({
            let after = stats.counted(header, len);
            &&& after.packets == stats.packets + 1
            &&& after.bytes == stats.bytes + len
            &&& after.audio_packets == stats.audio_packets
            &&& stats.highest_seq is None ==> after.lost == stats.lost && after.base_seq == Some(
                header.sequence_number,
            ) && after.highest_seq == Some(header.sequence_number)
            &&& stats.highest_seq is Some ==> after.base_seq == stats.base_seq
            &&& stats.highest_seq is Some && 0 < step < 0x8000 ==> after.lost == stats.lost + step
                - 1 && after.highest_seq == Some(header.sequence_number)
            &&& stats.highest_seq is Some && !(0 < step < 0x8000) ==> after.lost == stats.lost
                && after.highest_seq == stats.highest_seq
            &&& after == (ViewStats {
                packets: after.packets,
                bytes: after.bytes,
                lost: after.lost,
                base_seq: after.base_seq,
                highest_seq: after.highest_seq,
                ..stats
            })
        }),
{
}

/// A packet of sound counts as a packet and as sound, and changes nothing else.
pub proof fn law_sound_is_counted(stats: ViewStats, header: Header, len: int)
    requires
        header.payload_type == 111,
        stats.packets < u64::MAX,
        stats.audio_packets < u64::MAX,
    ensures
        ({
            let after = stats.counted(header, len);
            &&& after.packets == stats.packets + 1
            &&& after.audio_packets == stats.audio_packets + 1
            &&& after == (ViewStats {
                packets: after.packets,
                audio_packets: after.audio_packets,
                ..stats
            })
        }),
{
}

/// Every answer of the decoder counts once: as a picture, as none, or as an error. The size
/// of the first picture and the first error are kept for good.
pub proof fn law_every_answer_counts_once(
    stats: ViewStats,
    outcome: Result<Option<DecodedFrame>, String>,
)
    requires
        stats.decoded < u64::MAX,
        stats.decode_none < u64::MAX,
        stats.decode_errors < u64::MAX,
    ensures
        ({
            let after = stats.with_outcome(outcome);
            &&& after.decoded + after.decode_none + after.decode_errors == stats.decoded
                + stats.decode_none + stats.decode_errors + 1
            &&& after.decoded - stats.decoded == (if outcome matches Ok(Some(_)) {
                1int
            } else {
                0
            })
            &&& after.decode_errors - stats.decode_errors == (if outcome is Err {
                1int
            } else {
                0
            })
            &&& after.decode_none >= stats.decode_none
            &&& stats.first_width != 0 ==> after.first_width == stats.first_width
                && after.first_height == stats.first_height
            &&& stats.first_width == 0 ==> (outcome matches Ok(Some(frame)) ==> after.first_width
                == frame.width && after.first_height == frame.height)
            &&& stats.first_error is Some ==> after.first_error == stats.first_error
            &&& stats.first_error is None ==> (outcome matches Err(error) ==> after.first_error
                == Some(error))
            &&& outcome is Ok ==> after.first_error == stats.first_error
            &&& after == (ViewStats {
                decoded: after.decoded,
                decode_none: after.decode_none,
                decode_errors: after.decode_errors,
                first_width: after.first_width,
                first_height: after.first_height,
                first_error: after.first_error,
                ..stats
            })
        }),
{
}

/// Every stretch of sound counts once: as decoded or as an error. The first error is kept.
pub proof fn law_every_stretch_counts_once(stats: ViewStats, outcome: Result<(), String>)
    requires
        stats.audio_decoded < u64::MAX,
        stats.audio_errors < u64::MAX,
    ensures
        ({
            let after = stats.with_sound(outcome);
            &&& after.audio_decoded + after.audio_errors == stats.audio_decoded + stats.audio_errors
                + 1
            &&& (after.audio_decoded > stats.audio_decoded) == (outcome is Ok)
            &&& (after.audio_errors > stats.audio_errors) == (outcome is Err)
            &&& stats.audio_error is Some ==> after.audio_error == stats.audio_error
            &&& stats.audio_error is None ==> (outcome matches Err(error) ==> after.audio_error
                == Some(error))
            &&& outcome is Ok ==> after.audio_error == stats.audio_error
            &&& after == (ViewStats {
                audio_decoded: after.audio_decoded,
                audio_errors: after.audio_errors,
                audio_error: after.audio_error,
                ..stats
            })
        }),
{
}

/// Counts that are not close to the end of their range have room for a packet more.
pub proof fn law_counts_have_room(stats: ViewStats, len: int)
    requires
        0 <= len <= u32::MAX,
        stats.packets <= i64::MAX && stats.bytes <= i64::MAX && stats.aus <= i64::MAX,
        stats.decoded <= i64::MAX && stats.decode_errors <= i64::MAX,
        stats.decode_none <= i64::MAX && stats.audio_packets <= i64::MAX,
        stats.audio_decoded <= i64::MAX && stats.audio_errors <= i64::MAX,
        stats.lost <= i64::MAX,
    ensures
        stats.has_room(len),
{
}

/// Before anything has come in, nothing is counted and nothing noted.
pub proof fn law_nothing_is_counted_at_first()
    ensures
        ({
            let stats = ViewStats::empty();
            &&& stats.packets == 0 && stats.bytes == 0 && stats.aus == 0 && stats.lost == 0
            &&& stats.decoded == 0 && stats.decode_none == 0 && stats.decode_errors == 0
            &&& stats.audio_packets == 0 && stats.audio_decoded == 0 && stats.audio_errors == 0
            &&& stats.first_width == 0 && stats.first_height == 0
            &&& stats.first_error is None && stats.audio_error is None
            &&& stats.base_seq is None && stats.highest_seq is None
        }),
{
}

} // verus!
