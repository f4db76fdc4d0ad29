//! H.264 units: found in a byte stream, cut into RTP packets, put together again.
use bytes::Bytes;
use vstd::prelude::*;

verus! {

/// The type of a unit that carries a fragment of another.
pub const FU_A: u8 = 28;

/// The type of a unit that holds a slice of a keyframe.
pub const IDR: u8 = 5;

/// The type of a unit: the low five bits of its first byte.
pub open spec fn unit_type(nalu: Seq<u8>) -> u8 {
    if nalu.len() == 0 {
        0
    } else {
        nalu[0] & 0x1f
    }
}

pub fn nalu_type(nalu: &[u8]) -> (kind: u8)
    ensures
        kind == unit_type(nalu@),
{
    if nalu.len() == 0 {
        0
    } else {
        nalu[0] & 0x1f
    }
}

/// Whether the bytes 0, 0, 1 stand at `i`.
pub open spec fn code_at(data: Seq<u8>, i: int) -> bool {
    i + 3 <= data.len() && data[i] == 0 && data[i + 1] == 0 && data[i + 2] == 1
}

/// Where the first start code from `from` on stands. Without one, the first place
/// that has fewer than three bytes left.
pub open spec fn scan(data: Seq<u8>, from: int) -> int
    decreases data.len() - from,
{
    if from + 3 > data.len() || code_at(data, from) {
        from
    } else {
        scan(data, from + 1)
    }
}

/// How many bytes of a start code to skip: one more where a zero follows it.
pub open spec fn code_len(data: Seq<u8>, code: int) -> int {
    if code + 4 <= data.len() && data[code + 3] == 0 {
        4
    } else {
        3
    }
}

/// Where the next unit from `pos` on begins and ends. A unit lies between two
/// start codes; the last one ends two bytes before the data does. Empty units
/// are passed over.
pub open spec fn next_unit(data: Seq<u8>, pos: int) -> Option<(int, int)>
    decreases data.len() - pos,
    when pos >= 0
    via next_unit_decreases
{
    let code = scan(data, pos);
    let body = code + code_len(data, code);
    let end = scan(data, body);
    if code + 3 > data.len() {
        None
    } else if body == end {
        next_unit(data, end)
    } else {
        Some((body, end))
    }
}

#[via_fn]
proof fn next_unit_decreases(data: Seq<u8>, pos: int) {
    lemma_scan(data, pos);
    if scan(data, pos) + 3 <= data.len() {
        lemma_scan(data, scan(data, pos) + code_len(data, scan(data, pos)));
    }
}

proof fn lemma_scan(data: Seq<u8>, from: int)
    requires
        0 <= from,
    ensures
        from <= scan(data, from),
        from <= data.len() ==> scan(data, from) <= data.len(),
        scan(data, from) + 3 <= data.len() ==> code_at(data, scan(data, from)),
        forall|i: int| from <= i < scan(data, from) ==> !code_at(data, i),
    decreases data.len() - from,
{
    if !(from + 3 > data.len() || code_at(data, from)) {
        lemma_scan(data, from + 1);
    }
}

/// The units from `pos` on.
pub open spec fn units_from(data: Seq<u8>, pos: int) -> Seq<Seq<u8>>
    decreases data.len() - pos,
    when 0 <= pos
    via units_from_decreases
{
    match next_unit(data, pos) {
        None => seq![],
        Some((begin, end)) => seq![data.subrange(begin, end)] + units_from(data, end),
    }
}

#[via_fn]
proof fn units_from_decreases(data: Seq<u8>, pos: int) {
    law_units_lie_between_codes(data, pos);
}

/// A unit is not empty, begins right behind a start code, lies inside the data
/// behind `pos`, and no start code begins inside it.
pub proof fn law_units_lie_between_codes(data: Seq<u8>, pos: int)
    requires
        0 <= pos,
    ensures
        next_unit(data, pos) matches Some((begin, end)) ==> {
            &&& pos < begin < end <= data.len()
            &&& code_at(data, begin - 3) || (code_at(data, begin - 4) && data[begin - 1] == 0)
            &&& forall|i: int| begin <= i < end ==> !code_at(data, i)
        },
    decreases data.len() - pos,
{
    let code = scan(data, pos);
    lemma_scan(data, pos);
    if code + 3 <= data.len() {
        let body = code + code_len(data, code);
        lemma_scan(data, body);
        if body == scan(data, body) {
            law_units_lie_between_codes(data, body);
        }
    }
}

/// The bytes of each slice of a list.
pub open spec fn slices(list: Seq<&[u8]>) -> Seq<Seq<u8>> {
    Seq::new(list.len(), |i: int| list[i]@)
}

/// A walk over the units of a byte stream.
pub struct AnnexBIter<'a> {
    data: &'a [u8],
    pos: usize,
}

impl<'a> AnnexBIter<'a> {
    pub closed spec fn data(&self) -> Seq<u8> {
        self.data@
    }

    pub closed spec fn pos(&self) -> int {
        self.pos as int
    }

    /// Whether the walk stands inside the data or at its end.
    pub open spec fn inside(&self) -> bool {
        0 <= self.pos() <= self.data().len()
    }

    pub fn new(data: &'a [u8]) -> (iter: Self)
        ensures
            iter.data() == data@,
            iter.pos() == 0,
            iter.inside(),
    {
        Self { data, pos: 0 }
    }

    /// The place of the first start code from `from` on.
    fn find_code(&self, from: usize) -> (place: usize)
        requires
            from <= self.data@.len(),
        ensures
            place == scan(self.data@, from as int),
            from <= place <= self.data@.len(),
    {
        let mut place: usize = from;
        while self.data.len() - place >= 3
            invariant_except_break
                from <= place <= self.data@.len(),
                scan(self.data@, from as int) == scan(self.data@, place as int),
            ensures
                from <= place <= self.data@.len(),
                place == scan(self.data@, from as int),
            decreases self.data@.len() - place,
        {
            if self.data[place] == 0 && self.data[place + 1] == 0 && self.data[place + 2] == 1 {
                break;
            }
            place += 1;
        }
        place
    }

    /// The next unit, if there is one. After the last one the walk stands at the
    /// end of the data.
    pub fn next(&mut self) -> (unit: Option<&'a [u8]>)
        requires
            old(self).inside(),
        ensures
            final(self).inside(),
            final(self).data() == old(self).data(),
            match next_unit(old(self).data(), old(self).pos()) {
                Some((begin, end)) => unit matches Some(found) && found@ == old(
                    self,
                ).data().subrange(begin, end) && final(self).pos() == end,
                None => unit is None && final(self).pos() == old(self).data().len(),
            },
        decreases old(self).data().len() - old(self).pos(),
    {
        if self.pos >= self.data.len() {
            return None;
        }
        let start: usize = self.find_code(self.pos);
        if self.data.len() - start < 3 {
            self.pos = self.data.len();
            return None;
        }
        let code_len: usize = if self.data.len() - start >= 4 && self.data[start + 3] == 0 {
            4
        } else {
            3
        };
        let body_start: usize = start + code_len;
        let end: usize = self.find_code(body_start);
        self.pos = end;
        if body_start == end {
            self.next()
        } else {
            Some(vstd::slice::slice_subrange(self.data, body_start, end))
        }
    }

    /// The units that are left.
    pub fn collect(self) -> (units: Vec<&'a [u8]>)
        requires
            self.inside(),
        ensures
            slices(units@) == units_from(self.data(), self.pos()),
    {
        let mut iter = self;
        let mut units: Vec<&'a [u8]> = Vec::new();
        loop
            invariant
                iter.inside(),
                iter.data() == self.data(),
                slices(units@) + units_from(iter.data(), iter.pos()) == units_from(
                    self.data(),
                    self.pos(),
                ),
            decreases iter.data().len() - iter.pos(),
        {
            let ghost before = iter.pos();
            let ghost had = slices(units@);
            proof {
                law_units_lie_between_codes(iter.data(), iter.pos());
            }
            match iter.next() {
                Some(unit) => {
                    units.push(unit);
                    assert(slices(units@) == had + seq![unit@]);
                    assert(units_from(self.data(), before) == seq![unit@] + units_from(
                        self.data(),
                        iter.pos(),
                    ));
                },
                None => {
                    assert(units_from(self.data(), before) == Seq::<Seq<u8>>::empty());
                    assert(slices(units@) == units_from(self.data(), self.pos()));
                    return units;
                },
            }
        }
    }
}

/// A reference-counted buffer of the `bytes` crate.
#[verifier::external_type_specification]
#[verifier::external_body]
pub struct ExBytes(bytes::Bytes);

/// The bytes that a buffer holds.
pub uninterp spec fn contents(buffer: Bytes) -> Seq<u8>;

/// `bytes::Bytes::copy_from_slice`: a buffer that holds a copy of the slice.
pub assume_specification[ Bytes::copy_from_slice ](data: &[u8]) -> (buffer: Bytes)
    ensures
        contents(buffer) == data@,
;

/// `bytes::Bytes::from` on a vector: a buffer that holds what the vector held.
#[verifier::external_body]
pub(crate) fn into_bytes(data: Vec<u8>) -> (buffer: Bytes)
    ensures
        contents(buffer) == data@,
{
    Bytes::from(data)
}

/// `bytes::Bytes::as_ref`: the slice that a buffer holds.
#[verifier::external_body]
pub(crate) fn as_slice(buffer: &Bytes) -> (data: &[u8])
    ensures
        data@ == contents(*buffer),
{
    buffer.as_ref()
}

/// The header of an RTP packet with no contributing sources and no extensions.
#[derive(Clone, Copy, Debug, PartialEq, Eq, Structural)]
pub struct Header {
    pub version: u8,
    pub padding: bool,
    pub extension: bool,
    pub marker: bool,
    pub payload_type: u8,
    pub sequence_number: u16,
    pub timestamp: u32,
    pub ssrc: u32,
}

/// An RTP packet.
pub struct Packet {
    pub header: Header,
    pub payload: Bytes,
}

/// The sequence number `count` packets after `first`.
pub open spec fn sequence_after(first: u16, count: int) -> u16 {
    ((first + count) % 0x1_0000) as u16
}

/// One fragment of a unit whose first byte is `header`.
pub open spec fn fragment(header: u8, start: bool, end: bool, body: Seq<u8>) -> Seq<u8> {
    seq![
        (header & 0xe0) | FU_A,
        (if start {
            0x80u8
        } else {
            0
        }) | (if end {
            0x40u8
        } else {
            0
        }) | (header & 0x1f),
    ] + body
}

/// `body`, cut into fragments that hold `size` bytes of it, the last one what is
/// left.
pub open spec fn fragments(header: u8, start: bool, body: Seq<u8>, size: int) -> Seq<Seq<u8>>
    decreases body.len(),
{
    if body.len() <= size || size <= 0 {
        seq![fragment(header, start, true, body)]
    } else {
        seq![fragment(header, start, false, body.take(size))] + fragments(
            header,
            false,
            body.skip(size),
            size,
        )
    }
}

/// The payloads that carry a unit: the unit itself where it fits into `mtu` bytes,
/// else fragments of what follows its first byte, with that byte spread over the
/// first two of each fragment.
pub open spec fn payloads(nalu: Seq<u8>, mtu: int) -> Seq<Seq<u8>> {
    if nalu.len() <= mtu {
        seq![nalu]
    } else {
        fragments(nalu[0], true, nalu.skip(1), mtu - 2)
    }
}

/// Whether a unit can be sent in packets of at most `mtu` bytes: in one packet,
/// or in fragments of at least one byte.
pub open spec fn sendable(nalu: Seq<u8>, mtu: int) -> bool {
    nalu.len() <= mtu || mtu > 2
}

/// Cuts units into RTP packets and numbers them.
pub struct Packetizer {
    pub sequence_number: u16,
    pub ssrc: u32,
    pub payload_type: u8,
    pub mtu: usize,
}

impl Packetizer {
    /// The header of the packet that is sent `index` packets from now.
    pub open spec fn header_at(&self, index: int, timestamp: u32, marker: bool) -> Header {
        Header {
            version: 2,
            padding: false,
            extension: false,
            marker,
            payload_type: self.payload_type,
            sequence_number: sequence_after(self.sequence_number, index),
            timestamp,
            ssrc: self.ssrc,
        }
    }

    /// The packetizer once it has numbered `count` packets more.
    pub open spec fn advanced(&self, count: int) -> Packetizer {
        Packetizer {
            sequence_number: sequence_after(self.sequence_number, count),
            ssrc: self.ssrc,
            payload_type: self.payload_type,
            mtu: self.mtu,
        }
    }

    /// Whether these are the packets of `loads`, in order, numbered from now on,
    /// the marker on the last one if at all.
    pub open spec fn carries(
        &self,
        packets: Seq<Packet>,
        loads: Seq<Seq<u8>>,
        timestamp: u32,
        marker: bool,
    ) -> bool {
        &&& packets.len() == loads.len()
        &&& forall|i: int|
            0 <= i < packets.len() ==> {
                &&& contents((#[trigger] packets[i]).payload) == loads[i]
                &&& packets[i].header == self.header_at(
                    i,
                    timestamp,
                    marker && i + 1 == packets.len(),
                )
            }
    }

    pub fn new(ssrc: u32, payload_type: u8, mtu: usize) -> (packetizer: Self)
        ensures
            packetizer == (Packetizer { sequence_number: 0, ssrc, payload_type, mtu }),
    {
        Self { sequence_number: 0, ssrc, payload_type, mtu }
    }

    /// The packets of a unit.
    pub fn packetize(&mut self, nalu: &[u8], timestamp: u32, marker: bool) -> (packets: Vec<Packet>)
        requires
            sendable(nalu@, old(self).mtu as int),
        ensures
            old(self).carries(
                packets@,
                payloads(nalu@, old(self).mtu as int),
                timestamp,
                marker,
            ),
            *final(self) == old(self).advanced(packets@.len() as int),
    {
        if nalu.len() <= self.mtu {
            let header = self.header(timestamp, marker);
            let mut packets: Vec<Packet> = Vec::new();
            packets.push(Packet { header, payload: Bytes::copy_from_slice(nalu) });
            return packets;
        }
        let ghost mtu = self.mtu as int;
        let ghost body = nalu@.skip(1);
        let nalu_header: u8 = nalu[0];
        let fu_indicator: u8 = (nalu_header & 0xe0) | FU_A;
        let size: usize = self.mtu - 2;
        let mut packets: Vec<Packet> = Vec::new();
        let mut at: usize = 1;
        let mut ended: bool = false;
        let ghost mut sent: Seq<Seq<u8>> = seq![];
        proof {
            assert(nalu@.skip(1) == nalu@.skip(at as int));
            assert(sent + payloads(nalu@, mtu) == payloads(nalu@, mtu));
        }
        while !ended
            invariant
                size == mtu - 2,
                size > 0,
                1 <= at <= nalu@.len(),
                nalu_header == nalu@[0],
                fu_indicator == (nalu_header & 0xe0) | FU_A,
                nalu@.len() > mtu,
                ended ==> sent == payloads(nalu@, mtu),
                !ended ==> at < nalu@.len() && sent + fragments(
                    nalu_header,
                    sent.len() == 0,
                    nalu@.skip(at as int),
                    size as int,
                ) == payloads(nalu@, mtu),
                sent.len() == packets@.len(),
                *self == old(self).advanced(sent.len() as int),
                forall|i: int|
                    0 <= i < packets@.len() ==> {
                        &&& contents((#[trigger] packets@[i]).payload) == sent[i]
                        &&& packets@[i].header == old(self).header_at(
                            i,
                            timestamp,
                            marker && ended && i + 1 == packets@.len(),
                        )
                    },
            decreases nalu@.len() - at,
        {
            let start: bool = packets.len() == 0;
            let rest: usize = nalu.len() - at;
            let end: bool = rest <= size;
            let take: usize = if end {
                rest
            } else {
                size
            };
            let fu_header: u8 = (if start {
                0x80
            } else {
                0
            }) | (if end {
                0x40
            } else {
                0
            }) | (nalu_header & 0x1f);
            let mut payload: Vec<u8> = Vec::with_capacity(2);
            payload.push(fu_indicator);
            payload.push(fu_header);
            payload.extend_from_slice(vstd::slice::slice_subrange(nalu, at, at + take));
            let ghost left = nalu@.skip(at as int);
            let ghost load = payload@;
            let header = self.header(timestamp, marker && end);
            packets.push(Packet { header, payload: into_bytes(payload) });
            proof {
                assert(nalu@.subrange(at as int, at + take) == left.take(take as int));
                assert(left.take(left.len() as int) == left);
                assert(load == fragment(nalu_header, start, end, left.take(take as int)));
                assert(left.skip(take as int) == nalu@.skip(at + take));
                let now = sent.push(load);
                assert(now == sent + seq![load]);
                if !end {
                    let tail = fragments(nalu_header, false, nalu@.skip(at + take), size as int);
                    assert(now + tail == sent + (seq![load] + tail));
                }
                sent = now;
            }
            at += take;
            ended = end;
        }
        packets
    }

    fn header(&mut self, timestamp: u32, marker: bool) -> (header: Header)
        ensures
            header == old(self).header_at(0, timestamp, marker),
            *final(self) == old(self).advanced(1),
    {
        let header = Header {
            version: 2,
            padding: false,
            extension: false,
            marker,
            payload_type: self.payload_type,
            sequence_number: self.sequence_number,
            timestamp,
            ssrc: self.ssrc,
        };
        self.sequence_number = self.sequence_number.wrapping_add(1);
        header
    }
}

/// No packet of a unit carries more than `mtu` bytes.
pub proof fn law_payloads_fit(nalu: Seq<u8>, mtu: int)
    requires
        sendable(nalu, mtu),
    ensures
        forall|i: int|
            0 <= i < payloads(nalu, mtu).len() ==> (#[trigger] payloads(nalu, mtu)[i]).len()
                <= mtu,
{
    if nalu.len() > mtu {
        lemma_fragments_fit(nalu[0], true, nalu.skip(1), mtu - 2);
    }
}

proof fn lemma_fragments_fit(header: u8, start: bool, body: Seq<u8>, size: int)
    requires
        size > 0,
    ensures
        forall|i: int|
            0 <= i < fragments(header, start, body, size).len() ==> (#[trigger] fragments(
                header,
                start,
                body,
                size,
            )[i]).len() <= size + 2,
    decreases body.len(),
{
    if body.len() > size {
        lemma_fragments_fit(header, false, body.skip(size), size);
        let tail = fragments(header, false, body.skip(size), size);
        assert forall|i: int| 0 <= i < fragments(header, start, body, size).len() implies (
        #[trigger] fragments(header, start, body, size)[i]).len() <= size + 2 by {
            if i > 0 {
                assert(fragments(header, start, body, size)[i] == tail[i - 1]);
            }
        }
    }
}

/// How far the RTP timestamp, which counts 90,000 a second, moves from frame to
/// frame.
pub fn timestamp_interval(frame_rate: u32) -> (interval: u32)
    requires
        frame_rate > 0,
    ensures
        interval == 90_000u32 / frame_rate,
        interval * frame_rate <= 90_000 < (interval + 1) * frame_rate,
{
    proof {
        vstd::arithmetic::div_mod::lemma_fundamental_div_mod(90_000, frame_rate as int);
        let q = 90_000int / frame_rate as int;
        assert(q * frame_rate <= 90_000 < (q + 1) * frame_rate) by (nonlinear_arith)
            requires
                90_000 == frame_rate * q + 90_000int % (frame_rate as int),
                0 < frame_rate,
        ;
    }
    90_000 / frame_rate
}

/// What a depacketizer holds between two packets: the unit that fragments are put
/// together to, the whole units of the frame so far, and whether a keyframe has
/// been seen.
#[verifier::ext_equal]
pub struct Pending {
    pub partial: Option<Seq<u8>>,
    pub units: Seq<Seq<u8>>,
    pub synced: bool,
}

impl Pending {
    /// What is held once a payload has come in: a unit of its own, or a fragment,
    /// which counts only behind the one that starts its unit.
    pub open spec fn with_payload(self, payload: Seq<u8>) -> Pending {
        if payload.len() == 0 {
            self
        } else if payload[0] & 0x1f != FU_A {
            Pending { partial: None, units: self.units.push(payload), synced: self.synced }
        } else if payload.len() < 2 {
            self
        } else {
            let grown = if payload[1] & 0x80 != 0 {
                Some(seq![(payload[0] & 0xe0) | (payload[1] & 0x1f)] + payload.skip(2))
            } else {
                match self.partial {
                    Some(head) => Some(head + payload.skip(2)),
                    None => None,
                }
            };
            match grown {
                Some(unit) if payload[1] & 0x40 != 0 => Pending {
                    partial: None,
                    units: self.units.push(unit),
                    synced: self.synced,
                },
                _ => Pending { partial: grown, units: self.units, synced: self.synced },
            }
        }
    }

    /// Whether the units may be shown: a keyframe was seen, or is among them.
    pub open spec fn in_sync(self) -> bool {
        self.synced || has_keyframe(self.units)
    }

    /// What is held once the frame is over.
    pub open spec fn emptied(self) -> Pending {
        Pending { partial: None, units: seq![], synced: self.in_sync() }
    }

    /// The frame that is handed out when it is over: none without units, and none
    /// before the first keyframe.
    pub open spec fn frame(self) -> Option<Seq<Seq<u8>>> {
        if self.units.len() > 0 && self.in_sync() {
            Some(self.units)
        } else {
            None
        }
    }

    /// What is held after a packet.
    pub open spec fn after(self, load: (Seq<u8>, bool)) -> Pending {
        let held = self.with_payload(load.0);
        if load.1 {
            held.emptied()
        } else {
            held
        }
    }

    /// What a packet hands out.
    pub open spec fn output(self, load: (Seq<u8>, bool)) -> Option<Seq<Seq<u8>>> {
        if load.1 {
            self.with_payload(load.0).frame()
        } else {
            None
        }
    }
}

/// Whether a slice of a keyframe is among the units.
pub open spec fn has_keyframe(units: Seq<Seq<u8>>) -> bool {
    exists|i: int| 0 <= i < units.len() && unit_type(#[trigger] units[i]) == IDR
}

/// The bytes of each vector of a list.
pub open spec fn bodies(list: Seq<Vec<u8>>) -> Seq<Seq<u8>> {
    Seq::new(list.len(), |i: int| list[i]@)
}

/// Puts units together from the payloads of RTP packets, frame by frame. After a
/// reset it hands out nothing before the next keyframe.
pub struct Depacketizer {
    partial: Option<Vec<u8>>,
    units: Vec<Vec<u8>>,
    synced: bool,
}

impl View for Depacketizer {
    type V = Pending;

    closed spec fn view(&self) -> Pending {
        Pending {
            partial: match self.partial {
                Some(head) => Some(head@),
                None => None,
            },
            units: bodies(self.units@),
            synced: self.synced,
        }
    }
}

impl Depacketizer {
    pub fn new() -> (depacketizer: Self)
        ensures
            depacketizer@ == (Pending { partial: None, units: seq![], synced: false }),
    {
        let depacketizer = Self { partial: None, units: Vec::new(), synced: false };
        assert(depacketizer@.units == Seq::<Seq<u8>>::empty());
        depacketizer
    }

    /// Forgets everything, the keyframe too.
    pub fn reset(&mut self)
        ensures
            final(self)@ == (Pending { partial: None, units: seq![], synced: false }),
    {
        self.partial = None;
        self.units.clear();
        self.synced = false;
        assert(self@.units == Seq::<Seq<u8>>::empty());
    }

    /// Takes a packet in. Hands out the units of a frame with its last packet.
    pub fn push(&mut self, packet: &Packet) -> (units: Option<Vec<Vec<u8>>>)
        ensures
            final(self)@ == old(self)@.after((contents(packet.payload), packet.header.marker)),
            match old(self)@.output((contents(packet.payload), packet.header.marker)) {
                Some(frame) => units matches Some(list) && bodies(list@) == frame,
                None => units is None,
            },
    {
        self.push_payload(as_slice(&packet.payload));
        if packet.header.marker {
            self.finish()
        } else {
            None
        }
    }

    fn push_unit(&mut self, unit: Vec<u8>)
        ensures
            final(self)@ == (Pending {
                partial: None,
                units: old(self)@.units.push(unit@),
                synced: old(self)@.synced,
            }),
    {
        self.partial = None;
        self.units.push(unit);
        assert(self@.units == old(self)@.units.push(unit@));
    }

    fn push_payload(&mut self, payload: &[u8])
        ensures
            final(self)@ == old(self)@.with_payload(payload@),
    {
        if payload.len() == 0 {
            return;
        }
        if payload[0] & 0x1f != FU_A {
            let mut unit: Vec<u8> = Vec::new();
            unit.extend_from_slice(payload);
            assert(unit@ == payload@);
            self.push_unit(unit);
            return;
        }
        if payload.len() < 2 {
            return;
        }
        let body = vstd::slice::slice_subrange(payload, 2, payload.len());
        assert(body@ == payload@.skip(2));
        let partial = self.partial.take();
        let mut unit: Vec<u8> = Vec::new();
        if payload[1] & 0x80 != 0 {
            unit.push((payload[0] & 0xe0) | (payload[1] & 0x1f));
        } else {
            match partial {
                Some(head) => {
                    unit = head;
                },
                None => {
                    return;
                },
            }
        }
        let ghost head = unit@;
        unit.extend_from_slice(body);
        assert(unit@ == head + body@);
        if payload[1] & 0x40 != 0 {
            self.push_unit(unit);
        } else {
            self.partial = Some(unit);
        }
    }

    fn finish(&mut self) -> (units: Option<Vec<Vec<u8>>>)
        ensures
            final(self)@ == old(self)@.emptied(),
            match old(self)@.frame() {
                Some(frame) => units matches Some(list) && bodies(list@) == frame,
                None => units is None,
            },
    {
        let mut synced: bool = self.synced;
        let mut i: usize = 0;
        while i < self.units.len()
            invariant
                i <= self.units@.len(),
                *self == *old(self),
                synced <==> self.synced || exists|j: int|
                    0 <= j < i && unit_type(#[trigger] self@.units[j]) == IDR,
            decreases self.units@.len() - i,
        {
            assert(self@.units[i as int] == self.units@[i as int]@);
            if nalu_type(self.units[i].as_slice()) == IDR {
                synced = true;
            }
            i += 1;
        }
        let mut units: Vec<Vec<u8>> = Vec::new();
        units.append(&mut self.units);
        self.partial = None;
        self.synced = synced;
        assert(self@.units == Seq::<Seq<u8>>::empty());
        assert(bodies(units@) == old(self)@.units);
        if units.len() > 0 && synced {
            Some(units)
        } else {
            None
        }
    }
}

/// The byte stream of a frame: each unit behind a start code of four bytes.
pub open spec fn annexb(units: Seq<Seq<u8>>) -> Seq<u8>
    decreases units.len(),
{
    if units.len() == 0 {
        seq![]
    } else {
        annexb(units.drop_last()) + seq![0u8, 0, 0, 1] + units.last()
    }
}

pub fn access_unit_to_annexb(nalus: &Vec<Vec<u8>>) -> (stream: Vec<u8>)
    ensures
        stream@ == annexb(bodies(nalus@)),
{
    let mut stream: Vec<u8> = Vec::new();
    let mut i: usize = 0;
    while i < nalus.len()
        invariant
            i <= nalus@.len(),
            stream@ == annexb(bodies(nalus@).take(i as int)),
        decreases nalus@.len() - i,
    {
        let ghost units = bodies(nalus@);
        let ghost before = stream@;
        stream.push(0);
        stream.push(0);
        stream.push(0);
        stream.push(1);
        stream.extend_from_slice(nalus[i].as_slice());
        proof {
            assert(units.take(i + 1).drop_last() == units.take(i as int));
            assert(stream@ == before + seq![0u8, 0, 0, 1] + units[i as int]);
        }
        i += 1;
    }
    assert(bodies(nalus@).take(nalus@.len() as int) == bodies(nalus@));
    stream
}

/// Whether a unit can stand in a stream: it is not empty, does not begin with a zero,
/// and no start code is inside it.
pub open spec fn plain(unit: Seq<u8>) -> bool {
    &&& unit.len() > 0
    &&& unit[0] != 0
    &&& forall|i: int| 0 <= i < unit.len() ==> !code_at(unit, i)
}

/// What a walk over the stream of units finds: each of them with the first byte of
/// the start code behind it, the last one without its last two bytes, and not at all
/// if it has no more.
pub open spec fn found_units(units: Seq<Seq<u8>>) -> Seq<Seq<u8>>
    decreases units.len(),
{
    if units.len() == 0 {
        seq![]
    } else if units.len() > 1 {
        seq![units.first().push(0)] + found_units(units.drop_first())
    } else if units.first().len() > 2 {
        seq![units.first().take(units.first().len() - 2)]
    } else {
        seq![]
    }
}

/// A walk over the stream of a frame finds the units of the frame, in order.
pub proof fn law_stream_holds_its_units(units: Seq<Seq<u8>>)
    requires
        forall|i: int| 0 <= i < units.len() ==> plain(#[trigger] units[i]),
    ensures
        units_from(annexb(units), 0) == found_units(units),
{
    if units.len() > 0 {
        assert(annexb(units).skip(0) == annexb(units));
        lemma_rest_holds_its_units(annexb(units), 0, units, 0);
    }
}

proof fn lemma_stream_begins(units: Seq<Seq<u8>>)
    requires
        units.len() > 0,
    ensures
        annexb(units) == seq![0u8, 0, 0, 1] + units.first() + annexb(units.drop_first()),
    decreases units.len(),
{
    let code = seq![0u8, 0, 0, 1];
    if units.len() == 1 {
        assert(annexb(units.drop_last()) == Seq::<u8>::empty());
        assert(annexb(units.drop_first()) == Seq::<u8>::empty());
        assert(annexb(units) == code + units.first() + annexb(units.drop_first()));
    } else {
        lemma_stream_begins(units.drop_last());
        assert(units.drop_last().drop_first() == units.drop_first().drop_last());
        let middle = annexb(units.drop_first().drop_last());
        assert(annexb(units) == code + units.first() + (middle + code + units.last()));
    }
}

/// A scan stops at a code that none comes before, and without one where fewer than
/// three bytes are left.
proof fn lemma_scan_stops(data: Seq<u8>, from: int, place: int)
    requires
        0 <= from <= place,
        forall|i: int| from <= i < place ==> !code_at(data, i) && i + 3 <= data.len(),
        code_at(data, place) || place + 3 > data.len(),
    ensures
        scan(data, from) == place,
    decreases place - from,
{
    if from < place {
        assert(!code_at(data, from));
        lemma_scan_stops(data, from + 1, place);
    }
}

/// From `pos` on the stream of `units` follows, without its first `passed` bytes.
proof fn lemma_rest_holds_its_units(data: Seq<u8>, pos: int, units: Seq<Seq<u8>>, passed: int)
    requires
        0 <= pos <= data.len(),
        0 <= passed <= 1,
        units.len() > 0,
        forall|i: int| 0 <= i < units.len() ==> plain(#[trigger] units[i]),
        data.skip(pos) == annexb(units).skip(passed),
    ensures
        units_from(data, pos) == found_units(units),
    decreases units.len(),
{
    let unit = units.first();
    let tail = units.drop_first();
    let stream = annexb(units);
    let code = pos - passed + 1;
    let body = code + 3;
    lemma_stream_begins(units);
    assert(plain(units[0]));
    assert(stream.len() == 4 + unit.len() + annexb(tail).len());
    assert(data.skip(pos).len() == stream.skip(passed).len());
    assert forall|j: int| passed <= j < stream.len() implies #[trigger] data[j + pos - passed]
        == stream[j] by {
        assert(data.skip(pos)[j - passed] == stream.skip(passed)[j - passed]);
    }
    assert(data[1 + pos - passed] == stream[1]);
    assert(data[2 + pos - passed] == stream[2]);
    assert(data[3 + pos - passed] == stream[3]);
    assert(data[4 + pos - passed] == stream[4]);
    lemma_scan_stops(data, pos, code);
    assert forall|j: int| 0 <= j < unit.len() implies #[trigger] data[body + j] == unit[j] by {
        assert(data[(4 + j) + pos - passed] == stream[4 + j]);
    }
    assert forall|i: int| body <= i && i + 3 <= body + unit.len() implies !code_at(data, i) by {
        assert(!code_at(unit, i - body));
        assert(data[body + (i - body)] == unit[i - body]);
        assert(data[body + (i - body + 1)] == unit[i - body + 1]);
        assert(data[body + (i - body + 2)] == unit[i - body + 2]);
    }
    if tail.len() == 0 {
        assert(annexb(tail).len() == 0);
        assert(data.len() == body + unit.len());
        if unit.len() > 2 {
            let end = data.len() - 2;
            lemma_scan_stops(data, body, end);
            let found = data.subrange(body, end);
            assert forall|j: int| 0 <= j < found.len() implies found[j] == unit.take(
                unit.len() - 2,
            )[j] by {
                assert(data[body + j] == unit[j]);
            }
            assert(found == unit.take(unit.len() - 2));
            assert(next_unit(data, end) is None);
            assert(units_from(data, end) == Seq::<Seq<u8>>::empty());
        } else {
            lemma_scan_stops(data, body, body);
            assert(next_unit(data, body) is None);
            assert(next_unit(data, pos) is None);
        }
    } else {
        let end = body + unit.len() + 1;
        lemma_stream_begins(tail);
        assert forall|j: int| 0 <= j < annexb(tail).len() implies #[trigger] data[body + unit.len()
            + j] == annexb(tail)[j] by {
            assert(data[(4 + unit.len() + j) + pos - passed] == stream[4 + unit.len() + j]);
        }
        assert(data[body + unit.len() + 0] == 0);
        assert(data[body + unit.len() + 1] == 0);
        assert(data[body + unit.len() + 2] == 0);
        assert(data[body + unit.len() + 3] == 1);
        lemma_scan_stops(data, body, end);
        let found = data.subrange(body, end);
        assert forall|j: int| 0 <= j < found.len() implies found[j] == unit.push(0)[j] by {
            if j < unit.len() {
                assert(data[body + j] == unit[j]);
            }
        }
        assert(found == unit.push(0));
        assert(data.skip(end) == annexb(tail).skip(1)) by {
            assert forall|k: int| 0 <= k < data.skip(end).len() implies data.skip(end)[k]
                == annexb(tail).skip(1)[k] by {
                assert(data[body + unit.len() + (k + 1)] == annexb(tail)[k + 1]);
            }
        }
        assert forall|i: int| 0 <= i < tail.len() implies plain(#[trigger] tail[i]) by {
            assert(tail[i] == units[i + 1]);
        }
        lemma_rest_holds_its_units(data, end, tail, 1);
    }
}

/// The payloads of a unit with their markers: on the last one, if at all.
pub open spec fn marked(loads: Seq<Seq<u8>>, marker: bool) -> Seq<(Seq<u8>, bool)> {
    Seq::new(loads.len(), |i: int| (loads[i], marker && i + 1 == loads.len()))
}

/// The payloads of a frame with their markers: on the last one of the last unit.
pub open spec fn frame_loads(units: Seq<Seq<u8>>, mtu: int) -> Seq<(Seq<u8>, bool)>
    decreases units.len(),
{
    if units.len() == 0 {
        seq![]
    } else {
        marked(payloads(units.first(), mtu), units.len() == 1) + frame_loads(
            units.drop_first(),
            mtu,
        )
    }
}

/// What is held after packets.
pub open spec fn held_after(held: Pending, loads: Seq<(Seq<u8>, bool)>) -> Pending
    decreases loads.len(),
{
    if loads.len() == 0 {
        held
    } else {
        held_after(held.after(loads.first()), loads.drop_first())
    }
}

/// The frames that packets hand out.
pub open spec fn handed_out(held: Pending, loads: Seq<(Seq<u8>, bool)>) -> Seq<Seq<Seq<u8>>>
    decreases loads.len(),
{
    if loads.len() == 0 {
        seq![]
    } else {
        let rest = handed_out(held.after(loads.first()), loads.drop_first());
        match held.output(loads.first()) {
            Some(frame) => seq![frame] + rest,
            None => rest,
        }
    }
}

proof fn lemma_packets_in_turn(
    held: Pending,
    first: Seq<(Seq<u8>, bool)>,
    rest: Seq<(Seq<u8>, bool)>,
)
    ensures
        held_after(held, first + rest) == held_after(held_after(held, first), rest),
        handed_out(held, first + rest) == handed_out(held, first) + handed_out(
            held_after(held, first),
            rest,
        ),
    decreases first.len(),
{
    if first.len() == 0 {
        assert(first + rest == rest);
    } else {
        assert((first + rest).drop_first() == first.drop_first() + rest);
        lemma_packets_in_turn(held.after(first.first()), first.drop_first(), rest);
    }
}

/// The first two bytes of a fragment tell the first byte of its unit, and where
/// in the unit it stands.
proof fn lemma_fragment_bits(header: u8, start: u8, end: u8)
    by (bit_vector)
    requires
        start == 0 || start == 0x80,
        end == 0 || end == 0x40,
    ensures
        ((header & 0xe0) | 28) & 0x1f == 28,
        (start | end | (header & 0x1f)) & 0x80 == start,
        (start | end | (header & 0x1f)) & 0x40 == end,
        (((header & 0xe0) | 28) & 0xe0) | ((start | end | (header & 0x1f)) & 0x1f) == header,
{
}

/// What is held with one unit more.
pub open spec fn with_unit(held: Pending, unit: Seq<u8>) -> Pending {
    Pending { partial: None, units: held.units.push(unit), synced: held.synced }
}

/// Whether packets leave what is held with `unit` added, and the frame handed out
/// if `marker` says that it is over.
spec fn adds_unit(
    held: Pending,
    loads: Seq<(Seq<u8>, bool)>,
    unit: Seq<u8>,
    marker: bool,
) -> bool {
    let full = with_unit(held, unit);
    if marker {
        &&& held_after(held, loads) == full.emptied()
        &&& handed_out(held, loads) == match full.frame() {
            Some(frame) => seq![frame],
            None => seq![],
        }
    } else {
        &&& held_after(held, loads) == full
        &&& handed_out(held, loads) == Seq::<Seq<Seq<u8>>>::empty()
    }
}

proof fn lemma_one_load(held: Pending, load: (Seq<u8>, bool))
    ensures
        held_after(held, seq![load]) == held.after(load),
        handed_out(held, seq![load]) == match held.output(load) {
            Some(frame) => seq![frame],
            None => seq![],
        },
{
    reveal_with_fuel(held_after, 2);
    reveal_with_fuel(handed_out, 2);
    assert(seq![load].drop_first() == Seq::<(Seq<u8>, bool)>::empty());
    assert(handed_out(held.after(load), seq![]) == Seq::<Seq<Seq<u8>>>::empty());
}

proof fn lemma_fragments_come_back(
    held: Pending,
    header: u8,
    start: bool,
    body: Seq<u8>,
    size: int,
    marker: bool,
)
    requires
        size > 0,
        start || held.partial is Some,
    ensures
        adds_unit(
            held,
            marked(fragments(header, start, body, size), marker),
            (if start {
                seq![header]
            } else {
                held.partial->0
            }) + body,
            marker,
        ),
    decreases body.len(),
{
    let loads = marked(fragments(header, start, body, size), marker);
    let head = if start {
        seq![header]
    } else {
        held.partial->0
    };
    let end = body.len() <= size;
    let here = if end {
        body
    } else {
        body.take(size)
    };
    let piece = fragment(header, start, end, here);
    let load = (piece, marker && end);
    lemma_fragment_bits(
        header,
        if start {
            0x80
        } else {
            0
        },
        if end {
            0x40
        } else {
            0
        },
    );
    assert(piece.skip(2) == here);
    lemma_one_load(held, load);
    if end {
        assert(loads == seq![load]);
        assert(held.with_payload(piece) == with_unit(held, head + body));
    } else {
        let next = Pending { partial: Some(head + here), units: held.units, synced: held.synced };
        assert(held.with_payload(piece) == next);
        let rest = marked(fragments(header, false, body.skip(size), size), marker);
        assert(loads == seq![load] + rest);
        lemma_packets_in_turn(held, seq![load], rest);
        lemma_fragments_come_back(next, header, false, body.skip(size), size, marker);
        assert(head + here + body.skip(size) == head + body);
        assert(with_unit(next, head + body) == with_unit(held, head + body));
        assert(handed_out(held, seq![load]) == Seq::<Seq<Seq<u8>>>::empty());
    }
}

/// A unit comes out of its packets as it went in, whatever is held before. Left
/// out are units that are empty or call themselves fragments: no packet can tell
/// these from what they are not.
pub proof fn law_unit_comes_back(held: Pending, nalu: Seq<u8>, mtu: int)
    requires
        sendable(nalu, mtu),
        nalu.len() > 0,
        unit_type(nalu) != FU_A,
    ensures
        held_after(held, marked(payloads(nalu, mtu), false)) == with_unit(held, nalu),
{
    lemma_unit_comes_back(held, nalu, mtu, false);
}

proof fn lemma_unit_comes_back(held: Pending, nalu: Seq<u8>, mtu: int, marker: bool)
    requires
        sendable(nalu, mtu),
        nalu.len() > 0,
        unit_type(nalu) != FU_A,
    ensures
        adds_unit(held, marked(payloads(nalu, mtu), marker), nalu, marker),
{
    if nalu.len() <= mtu {
        lemma_one_load(held, (nalu, marker));
        assert(marked(payloads(nalu, mtu), marker) == seq![(nalu, marker)]);
    } else {
        lemma_fragments_come_back(held, nalu[0], true, nalu.skip(1), mtu - 2, marker);
        assert(seq![nalu[0]] + nalu.skip(1) == nalu);
    }
}

/// The packets of a frame hand out its units, all of them and once, if the frame
/// has a keyframe in it or one was seen before. Then nothing is held any more.
pub proof fn law_frame_comes_back(units: Seq<Seq<u8>>, mtu: int, synced: bool)
    requires
        units.len() > 0,
        synced || has_keyframe(units),
        forall|i: int|
            0 <= i < units.len() ==> sendable(#[trigger] units[i], mtu) && units[i].len() > 0
                && unit_type(units[i]) != FU_A,
    ensures
        handed_out(
            Pending { partial: None, units: seq![], synced },
            frame_loads(units, mtu),
        ) == seq![units],
        held_after(
            Pending { partial: None, units: seq![], synced },
            frame_loads(units, mtu),
        ) == (Pending { partial: None, units: seq![], synced: true }),
{
    let held = Pending { partial: None, units: seq![], synced };
    lemma_frame_comes_back(held, units, mtu);
    assert(held.units + units == units);
}

proof fn lemma_frame_comes_back(held: Pending, units: Seq<Seq<u8>>, mtu: int)
    requires
        units.len() > 0,
        held.synced || has_keyframe(held.units + units),
        forall|i: int|
            0 <= i < units.len() ==> sendable(#[trigger] units[i], mtu) && units[i].len() > 0
                && unit_type(units[i]) != FU_A,
    ensures
        handed_out(held, frame_loads(units, mtu)) == seq![held.units + units],
        held_after(held, frame_loads(units, mtu)) == (Pending {
            partial: None,
            units: seq![],
            synced: true,
        }),
    decreases units.len(),
{
    let last = units.len() == 1;
    let first = marked(payloads(units.first(), mtu), last);
    let rest = frame_loads(units.drop_first(), mtu);
    let next = with_unit(held, units.first());
    assert(units[0] == units.first());
    lemma_unit_comes_back(held, units.first(), mtu, last);
    lemma_packets_in_turn(held, first, rest);
    if last {
        assert(rest == Seq::<(Seq<u8>, bool)>::empty());
        assert(next.units == held.units + units);
        assert(handed_out(next.emptied(), rest) == Seq::<Seq<Seq<u8>>>::empty());
    } else {
        assert(next.units + units.drop_first() == held.units + units);
        assert forall|i: int| 0 <= i < units.drop_first().len() implies sendable(
            #[trigger] units.drop_first()[i],
            mtu,
        ) && units.drop_first()[i].len() > 0 && unit_type(units.drop_first()[i]) != FU_A by {
            assert(units.drop_first()[i] == units[i + 1]);
        }
        lemma_frame_comes_back(next, units.drop_first(), mtu);
    }
}

/// Nothing is handed out before the first keyframe.
pub proof fn law_silent_until_keyframe(held: Pending, load: (Seq<u8>, bool))
    requires
        !held.synced,
    ensures
        held.output(load) matches Some(frame) ==> has_keyframe(frame) && held.after(load).synced,
{
}

/// Data that fits goes out as exactly one payload, which is the data itself, whatever its
/// first byte is.
pub proof fn law_what_fits_goes_whole(data: Seq<u8>, mtu: int)
    requires
        data.len() <= mtu,
    ensures
        payloads(data, mtu) == seq![data],
{
}

/// What the fragments of a list carry, put together.
pub open spec fn carried(loads: Seq<Seq<u8>>) -> Seq<u8>
    decreases loads.len(),
{
    if loads.len() == 0 {
        seq![]
    } else {
        loads.first().skip(2) + carried(loads.drop_first())
    }
}

/// Data that does not fit goes out in fragments. Behind two bytes each they carry all that
/// follows the first byte of the data, in order; all but the last are full. The two bytes
/// tell that it is a fragment, the first byte of the data, and which fragment comes first
/// and which last.
pub proof fn law_fragments_carry_the_data(data: Seq<u8>, mtu: int)
    requires
        2 < mtu < data.len(),
    ensures
        ({
            let loads = payloads(data, mtu);
            &&& loads.len() >= 2
            &&& carried(loads) == data.skip(1)
            &&& forall|i: int|
                0 <= i < loads.len() ==> {
                    let load = #[trigger] loads[i];
                    &&& 2 < load.len() <= mtu
                    &&& i + 1 < loads.len() ==> load.len() == mtu
                    &&& load[0] & 0x1f == 28
                    &&& load[0] & 0xe0 == data[0] & 0xe0
                    &&& load[1] & 0x1f == data[0] & 0x1f
                    &&& load[1] & 0x80 == (if i == 0 {
                        0x80u8
                    } else {
                        0
                    })
                    &&& load[1] & 0x40 == (if i + 1 == loads.len() {
                        0x40u8
                    } else {
                        0
                    })
                    &&& load[1] & 0x20 == 0
                }
        }),
{
    lemma_fragments_carry(data[0], true, data.skip(1), mtu - 2);
    let loads = payloads(data, mtu);
    if loads.len() == 1 {
        assert(loads[0].len() <= mtu);
        assert(carried(loads.drop_first()) == Seq::<u8>::empty());
        assert(carried(loads) == loads[0].skip(2));
    }
}

proof fn lemma_header_bits(header: u8, start: u8, end: u8)
    by (bit_vector)
    requires
        start == 0 || start == 0x80,
        end == 0 || end == 0x40,
    ensures
        ((header & 0xe0) | 28) & 0x1f == 28,
        ((header & 0xe0) | 28) & 0xe0 == header & 0xe0,
        (start | end | (header & 0x1f)) & 0x1f == header & 0x1f,
        (start | end | (header & 0x1f)) & 0x80 == start,
        (start | end | (header & 0x1f)) & 0x40 == end,
        (start | end | (header & 0x1f)) & 0x20 == 0,
{
}

proof fn lemma_fragments_carry(header: u8, start: bool, body: Seq<u8>, size: int)
    requires
        0 < size,
        0 < body.len(),
    ensures
        ({
            let loads = fragments(header, start, body, size);
            &&& loads.len() >= 1
            &&& carried(loads) == body
            &&& forall|i: int|
                0 <= i < loads.len() ==> {
                    let load = #[trigger] loads[i];
                    &&& 2 < load.len() <= size + 2
                    &&& i + 1 < loads.len() ==> load.len() == size + 2
                    &&& load[0] & 0x1f == 28
                    &&& load[0] & 0xe0 == header & 0xe0
                    &&& load[1] & 0x1f == header & 0x1f
                    &&& load[1] & 0x80 == (if start && i == 0 {
                        0x80u8
                    } else {
                        0
                    })
                    &&& load[1] & 0x40 == (if i + 1 == loads.len() {
                        0x40u8
                    } else {
                        0
                    })
                    &&& load[1] & 0x20 == 0
                }
        }),
    decreases body.len(),
{
    let loads = fragments(header, start, body, size);
    let end = body.len() <= size;
    let here = if end {
        body
    } else {
        body.take(size)
    };
    let first = fragment(header, start, end, here);
    lemma_header_bits(
        header,
        if start {
            0x80
        } else {
            0
        },
        if end {
            0x40
        } else {
            0
        },
    );
    assert(first.skip(2) == here);
    assert(loads[0] == first);
    if end {
        assert(loads.drop_first() == Seq::<Seq<u8>>::empty());
        assert(carried(loads.drop_first()) == Seq::<u8>::empty());
        assert(carried(loads) == body);
    } else {
        let rest = fragments(header, false, body.skip(size), size);
        lemma_fragments_carry(header, false, body.skip(size), size);
        assert(loads.drop_first() == rest);
        assert(carried(loads) == body.take(size) + body.skip(size));
        assert(body.take(size) + body.skip(size) == body);
        assert forall|i: int| 1 <= i < loads.len() implies #[trigger] loads[i] == rest[i - 1] by {}
    }
}

/// Packets are numbered one after the other from where the packetizer stands, around from
/// the largest number to 0, and the next ones go on from there. They have the stream, the
/// time and the type in common; the last one has the marker, if it is set.
pub proof fn law_packets_are_numbered(
    packetizer: Packetizer,
    packets: Seq<Packet>,
    loads: Seq<Seq<u8>>,
    timestamp: u32,
    marker: bool,
)
    requires
        packetizer.carries(packets, loads, timestamp, marker),
    ensures
        packets.len() == loads.len(),
        forall|i: int|
            0 <= i < packets.len() ==> {
                let header = (#[trigger] packets[i]).header;
                &&& contents(packets[i].payload) == loads[i]
                &&& header.version == 2 && !header.padding && !header.extension
                &&& header.timestamp == timestamp
                &&& header.ssrc == packetizer.ssrc
                &&& header.payload_type == packetizer.payload_type
                &&& header.marker == (marker && i == packets.len() - 1)
                &&& (header.sequence_number - packetizer.sequence_number - i) % 0x1_0000 == 0
            },
        ({
            let next = packetizer.advanced(packets.len() as int);
            &&& (next.sequence_number - packetizer.sequence_number - packets.len()) % 0x1_0000 == 0
            &&& next == (Packetizer { sequence_number: next.sequence_number, ..packetizer })
        }),
{
    assert forall|i: int| 0 <= i < packets.len() implies {
        let header = (#[trigger] packets[i]).header;
        &&& contents(packets[i].payload) == loads[i]
        &&& header.version == 2 && !header.padding && !header.extension
        &&& header.timestamp == timestamp
        &&& header.ssrc == packetizer.ssrc
        &&& header.payload_type == packetizer.payload_type
        &&& header.marker == (marker && i == packets.len() - 1)
        &&& (header.sequence_number - packetizer.sequence_number - i) % 0x1_0000 == 0
    } by {
        assert(packets[i].header == packetizer.header_at(
            i,
            timestamp,
            marker && i + 1 == packets.len(),
        ));
    }
}

/// Of the payloads of a frame the last one alone has the marker, and none is longer than
/// `mtu`.
pub proof fn law_marker_ends_the_frame(units: Seq<Seq<u8>>, mtu: int)
    requires
        forall|i: int| 0 <= i < units.len() ==> (#[trigger] units[i]).len() <= mtu || mtu > 2,
    ensures
        ({
            let loads = frame_loads(units, mtu);
            &&& loads.len() >= units.len()
            &&& units.len() == 0 ==> loads.len() == 0
            &&& forall|i: int|
                0 <= i < loads.len() ==> (#[trigger] loads[i]).1 == (i + 1 == loads.len())
                    && loads[i].0.len() <= mtu
        }),
    decreases units.len(),
{
    if units.len() > 0 {
        let rest = units.drop_first();
        assert forall|i: int| 0 <= i < rest.len() implies (#[trigger] rest[i]).len() <= mtu || mtu
            > 2 by {
            assert(rest[i] == units[i + 1]);
        }
        law_marker_ends_the_frame(rest, mtu);
        let here = payloads(units.first(), mtu);
        assert(units[0] == units.first());
        law_payloads_fit(units.first(), mtu);
        let first = marked(here, units.len() == 1);
        let after = frame_loads(rest, mtu);
        let loads = frame_loads(units, mtu);
        assert(here.len() >= 1);
        assert(loads == first + after);
        assert(rest.len() > 0 ==> after.len() > 0);
        assert forall|i: int| 0 <= i < loads.len() implies (#[trigger] loads[i]).1 == (i + 1
            == loads.len()) && loads[i].0.len() <= mtu by {
            if i < first.len() {
                assert(loads[i] == first[i]);
                assert(here[i].len() <= mtu);
            } else {
                assert(loads[i] == after[i - first.len()]);
            }
        }
    }
}

/// The type of a unit is what its first byte leaves over thirty-two.
pub proof fn law_type_is_in_the_first_byte(nalu: Seq<u8>)
    ensures
        nalu.len() > 0 ==> unit_type(nalu) == nalu[0] % 32,
        nalu.len() == 0 ==> unit_type(nalu) == 0,
{
    if nalu.len() > 0 {
        let b = nalu[0];
        assert(b & 0x1f == b % 32) by (bit_vector);
    }
}

/// A unit is found where it stands: behind the first start code, up to the next one, or up
/// to the last two bytes where there is none. The code may have a zero behind it, which
/// does not belong to the unit.
pub proof fn law_unit_is_found(data: Seq<u8>, pos: int, code: int, begin: int, end: int)
    requires
        0 <= pos <= code,
        code + 3 <= begin < end <= data.len(),
        data[code] == 0 && data[code + 1] == 0 && data[code + 2] == 1,
        begin == code + 3 && data[begin] != 0 || begin == code + 4 && data[code + 3] == 0,
        forall|i: int|
            #![trigger data[i]]
            pos <= i < code ==> !(data[i] == 0 && data[i + 1] == 0 && data[i + 2] == 1),
        forall|i: int|
            #![trigger data[i]]
            begin <= i < end ==> i + 3 <= data.len() && !(data[i] == 0 && data[i + 1] == 0 && data[i
                + 2] == 1),
        end + 2 == data.len() || end + 3 <= data.len() && data[end] == 0 && data[end + 1] == 0
            && data[end + 2] == 1,
    ensures
        next_unit(data, pos) == Some((begin, end)),
{
    assert forall|i: int| pos <= i < code implies !code_at(data, i) && i + 3 <= data.len() by {
        assert(data[i] == data[i]);
    }
    assert forall|i: int| begin <= i < end implies !code_at(data, i) && i + 3 <= data.len() by {
        assert(data[i] == data[i]);
    }
    lemma_scan_stops(data, pos, code);
    lemma_scan_stops(data, begin, end);
}

/// Without a start code there is no unit.
pub proof fn law_no_code_no_unit(data: Seq<u8>, pos: int)
    requires
        0 <= pos,
        forall|i: int|
            #![trigger data[i]]
            pos <= i && i + 3 <= data.len() ==> !(data[i] == 0 && data[i + 1] == 0 && data[i + 2]
                == 1),
    ensures
        next_unit(data, pos) is None,
        units_from(data, pos) == Seq::<Seq<u8>>::empty(),
{
    lemma_scan(data, pos);
    let at = scan(data, pos);
    if at + 3 <= data.len() {
        assert(data[at] == 0);
    }
}

/// The units of a stream, one after the other: the first one that is found, and those of
/// what comes behind it.
pub proof fn law_units_come_in_order(data: Seq<u8>, pos: int, begin: int, end: int)
    requires
        0 <= pos,
        next_unit(data, pos) == Some((begin, end)),
    ensures
        units_from(data, pos).first() == data.subrange(begin, end),
        units_from(data, pos).drop_first() == units_from(data, end),
{
    law_units_lie_between_codes(data, pos);
    assert(units_from(data, pos) == seq![data.subrange(begin, end)] + units_from(data, end));
    assert(units_from(data, pos).drop_first() =~= units_from(data, end));
}

/// The stream of units is each of them behind the bytes 0, 0, 0, 1: the streams of two
/// lists, one behind the other, are the stream of both.
pub proof fn law_streams_add_up(a: Seq<Seq<u8>>, b: Seq<Seq<u8>>, unit: Seq<u8>)
    ensures
        annexb(a + b) == annexb(a) + annexb(b),
        annexb(seq![unit]) == seq![0u8, 0, 0, 1] + unit,
        annexb(seq![]) == Seq::<u8>::empty(),
    decreases b.len(),
{
    assert(seq![unit].drop_last() == Seq::<Seq<u8>>::empty());
    assert(annexb(seq![unit].drop_last()) == Seq::<u8>::empty());
    assert(annexb(seq![unit]) =~= seq![0u8, 0, 0, 1] + unit);
    if b.len() == 0 {
        assert(a + b == a);
        assert(annexb(a) + annexb(b) == annexb(a));
    } else {
        law_streams_add_up(a, b.drop_last(), unit);
        assert((a + b).drop_last() == a + b.drop_last());
        assert(annexb(a + b) =~= annexb(a) + annexb(b));
    }
}

/// A payload that is no fragment is a unit of its own: it is taken as it came, behind those
/// before it, and what was put together so far is dropped.
pub proof fn law_whole_units_are_taken(held: Pending, payload: Seq<u8>)
    requires
        payload.len() > 0,
        payload[0] % 32 != 28,
    ensures
        held.with_payload(payload).units == held.units.push(payload),
        held.with_payload(payload).partial is None,
        held.with_payload(payload).synced == held.synced,
{
    let b = payload[0];
    assert(b & 0x1f == b % 32) by (bit_vector);
}

/// A fragment whose unit did not begin is dropped: where the first one was lost, no unit
/// comes of the others.
pub proof fn law_orphans_are_dropped(held: Pending, payload: Seq<u8>)
    requires
        held.partial is None,
        payload.len() >= 2,
        payload[0] % 32 == 28,
        payload[1] < 128,
    ensures
        held.with_payload(payload) == held,
{
    let (a, b) = (payload[0], payload[1]);
    assert(a & 0x1f == a % 32) by (bit_vector);
    assert(b < 128 ==> b & 0x80 == 0) by (bit_vector);
}

/// A frame that is over is handed out whole, in order, where a keyframe was seen or a unit
/// of type 5 is among its units; else nothing is. Either way nothing of it is kept.
pub proof fn law_frames_wait_for_a_keyframe(held: Pending, payload: Seq<u8>)
    ensures
        ({
            let units = held.with_payload(payload).units;
            let key = exists|i: int|
                0 <= i < units.len() && (#[trigger] units[i]).len() > 0 && units[i][0] % 32 == 5;
            let after = held.after((payload, true));
            &&& held.output((payload, false)) is None
            &&& held.after((payload, false)) == held.with_payload(payload)
            &&& held.output((payload, true)) == if units.len() > 0 && (held.synced || key) {
                Some(units)
            } else {
                None
            }
            &&& after.units.len() == 0
            &&& after.partial is None
            &&& after.synced == (held.synced || key)
        }),
{
    let units = held.with_payload(payload).units;
    assert forall|i: int| 0 <= i < units.len() implies (unit_type(#[trigger] units[i]) == IDR) == (
    units[i].len() > 0 && units[i][0] % 32 == 5) by {
        law_type_is_in_the_first_byte(units[i]);
    }
    if has_keyframe(units) {
        let i = choose|i: int| 0 <= i < units.len() && unit_type(#[trigger] units[i]) == IDR;
        assert(units[i].len() > 0 && units[i][0] % 32 == 5);
    }
    if exists|i: int|
        0 <= i < units.len() && (#[trigger] units[i]).len() > 0 && units[i][0] % 32 == 5 {
        let i = choose|i: int|
            0 <= i < units.len() && (#[trigger] units[i]).len() > 0 && units[i][0] % 32 == 5;
        assert(unit_type(units[i]) == IDR);
    }
}

/// The units of a list are those of its slices or vectors, in their order.
pub proof fn law_units_stay_in_order(list: Seq<&[u8]>, owned: Seq<Vec<u8>>, i: int)
    ensures
        slices(list).len() == list.len(),
        0 <= i < list.len() ==> slices(list)[i] == list[i]@,
        bodies(owned).len() == owned.len(),
        0 <= i < owned.len() ==> bodies(owned)[i] == owned[i]@,
{
}

/// All data can be sent in packets that hold more than two bytes.
pub proof fn law_all_data_can_be_sent(data: Seq<u8>, mtu: int)
    ensures
        mtu > 2 || data.len() <= mtu ==> sendable(data, mtu),
{
}

} // verus!
