//! Transport packets: a 40-byte little-endian header (`USBT`, version 1)
//! followed by a payload, and the typed meaning of each packet kind.

use vstd::prelude::*;

use crate::checksum::{crc32, crc32_of};
use crate::protocol::{Fragment, FragmentView, ProtocolError};
use crate::wire::{
    copy_range, get16, get32, get64, le16, le32, le64, lemma_get16, lemma_get32, lemma_get64,
    put16, put32, put64, put_bytes, put_zeros, read16, read32, read64, zeros,
};

verus! {

/// ASCII `USBT`.
pub const PACKET_MAGIC: [u8; 4] = [85u8, 83u8, 66u8, 84u8];

/// The transport version this library speaks.
pub const PACKET_VERSION: u16 = 1;

/// Bytes in an encoded packet header.
pub const PACKET_HEADER_LEN: usize = 40;

/// The usual largest packet payload, 64 KiB.
pub const DEFAULT_MAX_PACKET_PAYLOAD: usize = 65536;

/// The packet magic as bytes.
pub open spec fn packet_magic_seq() -> Seq<u8> {
    seq![85u8, 83u8, 66u8, 84u8]
}

/// What a transport packet carries.
#[derive(Debug, Clone, Copy, PartialEq, Eq)]
pub enum PacketKind {
    FrameFragment,
    Ack,
    Heartbeat,
    KeyframeRequest,
    Control,
    /// Connection-setup handshake (WiFi pairing / capability negotiation).
    /// Receivers that do not understand it ignore it, like other non-fragment
    /// kinds.
    Handshake,
}

impl PacketKind {
    /// The wire byte of the value.
    pub open spec fn spec_byte(self) -> u8 {
        match self {
            PacketKind::FrameFragment => 1,
            PacketKind::Ack => 2,
            PacketKind::Heartbeat => 3,
            PacketKind::KeyframeRequest => 4,
            PacketKind::Control => 5,
            PacketKind::Handshake => 6,
        }
    }

    /// The wire byte of the value.
    pub fn byte(self) -> (r: u8)
        ensures
            r == self.spec_byte(),
    {
        match self {
            PacketKind::FrameFragment => 1,
            PacketKind::Ack => 2,
            PacketKind::Heartbeat => 3,
            PacketKind::KeyframeRequest => 4,
            PacketKind::Control => 5,
            PacketKind::Handshake => 6,
        }
    }

    /// The value a wire byte names, or the error for an unknown byte.
    pub open spec fn spec_from_byte(value: u8) -> Result<PacketKind, TransportError> {
        if value == 1 {
            Ok(PacketKind::FrameFragment)
        } else if value == 2 {
            Ok(PacketKind::Ack)
        } else if value == 3 {
            Ok(PacketKind::Heartbeat)
        } else if value == 4 {
            Ok(PacketKind::KeyframeRequest)
        } else if value == 5 {
            Ok(PacketKind::Control)
        } else if value == 6 {
            Ok(PacketKind::Handshake)
        } else {
            Err(TransportError::UnknownPacketKind(value))
        }
    }

    /// The value a wire byte names, or the error for an unknown byte.
    pub fn from_byte(value: u8) -> (r: Result<PacketKind, TransportError>)
        ensures
            r == Self::spec_from_byte(value),
    {
        if value == 1 {
            Ok(PacketKind::FrameFragment)
        } else if value == 2 {
            Ok(PacketKind::Ack)
        } else if value == 3 {
            Ok(PacketKind::Heartbeat)
        } else if value == 4 {
            Ok(PacketKind::KeyframeRequest)
        } else if value == 5 {
            Ok(PacketKind::Control)
        } else if value == 6 {
            Ok(PacketKind::Handshake)
        } else {
            Err(TransportError::UnknownPacketKind(value))
        }
    }

    /// Whether the packet carries a frame fragment.
    pub fn is_frame_fragment(self) -> (r: bool)
        ensures
            r == (self == PacketKind::FrameFragment),
    {
        match self {
            PacketKind::FrameFragment => true,
            _ => false,
        }
    }
}

/// The fixed-size header in front of every packet payload.
#[derive(Debug, Clone, Copy, PartialEq, Eq)]
pub struct PacketHeader {
    pub kind: PacketKind,
    pub packet_sequence: u64,
    pub frame_sequence: u64,
    pub fragment_index: u16,
    pub fragment_total: u16,
    pub payload_len: u32,
    pub payload_crc32: u32,
}

/// One transport packet: header and payload.
#[derive(Debug, Clone, PartialEq, Eq)]
pub struct TransportPacket {
    pub header: PacketHeader,
    pub payload: Vec<u8>,
}

/// The mathematical value of a packet.
pub ghost struct PacketView {
    pub header: PacketHeader,
    pub payload: Seq<u8>,
}

impl View for TransportPacket {
    type V = PacketView;

    open spec fn view(&self) -> PacketView {
        PacketView { header: self.header, payload: self.payload@ }
    }
}

/// An acknowledgement: everything through a sequence, except the ones listed missing.
#[derive(Debug, Clone, PartialEq, Eq)]
pub struct Ack {
    pub through_packet_sequence: u64,
    pub missing_packet_sequences: Vec<u64>,
}

/// The mathematical value of an acknowledgement.
pub ghost struct AckView {
    pub through: u64,
    pub missing: Seq<u64>,
}

impl View for Ack {
    type V = AckView;

    open spec fn view(&self) -> AckView {
        AckView { through: self.through_packet_sequence, missing: self.missing_packet_sequences@ }
    }
}

/// The typed meaning of a received packet.
#[derive(Debug, Clone, PartialEq, Eq)]
pub enum ReceivedPacket {
    FrameFragment(Fragment),
    Ack(Ack),
    Heartbeat { packet_sequence: u64 },
    KeyframeRequest { frame_sequence: u64 },
    Control(Vec<u8>),
    Handshake(Vec<u8>),
}

/// The mathematical value of a received packet.
pub ghost enum ReceivedView {
    FrameFragment(FragmentView),
    Ack(AckView),
    Heartbeat { packet_sequence: u64 },
    KeyframeRequest { frame_sequence: u64 },
    Control(Seq<u8>),
    Handshake(Seq<u8>),
}

impl View for ReceivedPacket {
    type V = ReceivedView;

    open spec fn view(&self) -> ReceivedView {
        match self {
            ReceivedPacket::FrameFragment(f) => ReceivedView::FrameFragment(f@),
            ReceivedPacket::Ack(a) => ReceivedView::Ack(a@),
            ReceivedPacket::Heartbeat { packet_sequence } => ReceivedView::Heartbeat {
                packet_sequence: *packet_sequence,
            },
            ReceivedPacket::KeyframeRequest { frame_sequence } => ReceivedView::KeyframeRequest {
                frame_sequence: *frame_sequence,
            },
            ReceivedPacket::Control(p) => ReceivedView::Control(p@),
            ReceivedPacket::Handshake(p) => ReceivedView::Handshake(p@),
        }
    }
}

/// Why a packet could not be built, decoded or interpreted.
#[derive(Debug, Clone, Copy, PartialEq, Eq)]
pub enum TransportError {
    ShortHeader,
    InvalidMagic,
    UnsupportedVersion(u16),
    UnknownPacketKind(u8),
    PayloadTooLarge { len: usize, max: usize },
    ShortPayload,
    CrcMismatch { expected: u32, actual: u32 },
    InvalidAckPayload,
    Protocol(ProtocolError),
}

/// A packet is well formed when its header describes its payload.
pub open spec fn packet_wf(p: PacketView) -> bool {
    &&& p.payload.len() <= u32::MAX
    &&& p.header.payload_len == p.payload.len()
    &&& p.header.payload_crc32 == crc32_of(p.payload)
}

/// A packet of the given fields and payload, as [`TransportPacket::new`] builds it.
pub open spec fn spec_packet(
    kind: PacketKind,
    packet_sequence: u64,
    frame_sequence: u64,
    fragment_index: u16,
    fragment_total: u16,
    payload: Seq<u8>,
) -> PacketView {
    PacketView {
        header: PacketHeader {
            kind,
            packet_sequence,
            frame_sequence,
            fragment_index,
            fragment_total,
            payload_len: payload.len() as u32,
            payload_crc32: crc32_of(payload),
        },
        payload,
    }
}

/// The 40 header bytes of `h`.
pub open spec fn packet_header_bytes(h: PacketHeader) -> Seq<u8> {
    packet_magic_seq() + le16(PACKET_VERSION) + le16(PACKET_HEADER_LEN as u16) + seq![
        h.kind.spec_byte(),
    ] + zeros(3) + le64(h.packet_sequence) + le64(h.frame_sequence) + le16(h.fragment_index)
        + le16(h.fragment_total) + le32(h.payload_len) + le32(h.payload_crc32)
}

/// The wire encoding of a packet: header followed by payload.
pub open spec fn spec_encode_packet(p: PacketView) -> Seq<u8> {
    packet_header_bytes(p.header) + p.payload
}

/// What decoding `b` with payload limit `max` gives.
pub open spec fn spec_decode_packet(b: Seq<u8>, max: nat) -> Result<PacketView, TransportError> {
    if b.len() < PACKET_HEADER_LEN {
        Err(TransportError::ShortHeader)
    } else if b.subrange(0, 4) != packet_magic_seq() {
        Err(TransportError::InvalidMagic)
    } else if get16(b, 4) != PACKET_VERSION {
        Err(TransportError::UnsupportedVersion(get16(b, 4)))
    } else if get16(b, 6) != PACKET_HEADER_LEN as u16 {
        Err(TransportError::ShortHeader)
    } else {
        match PacketKind::spec_from_byte(b[8]) {
            Err(e) => Err(e),
            Ok(kind) => {
                let plen = get32(b, 32);
                if plen > max {
                    Err(TransportError::PayloadTooLarge { len: plen as usize, max: max as usize })
                } else if b.len() < PACKET_HEADER_LEN + plen {
                    Err(TransportError::ShortPayload)
                } else {
                    let payload = b.subrange(PACKET_HEADER_LEN as int, PACKET_HEADER_LEN + plen);
                    let crc = get32(b, 36);
                    if crc32_of(payload) != crc {
                        Err(TransportError::CrcMismatch { expected: crc, actual: crc32_of(payload) })
                    } else {
                        Ok(
                            PacketView {
                                header: PacketHeader {
                                    kind,
                                    packet_sequence: get64(b, 12),
                                    frame_sequence: get64(b, 20),
                                    fragment_index: get16(b, 28),
                                    fragment_total: get16(b, 30),
                                    payload_len: plen,
                                    payload_crc32: crc,
                                },
                                payload,
                            },
                        )
                    }
                }
            },
        }
    }
}

/// The mathematical value of a decoding result.
pub open spec fn packet_result_view(r: Result<TransportPacket, TransportError>) -> Result<
    PacketView,
    TransportError,
> {
    match r {
        Ok(p) => Ok(p@),
        Err(e) => Err(e),
    }
}

/// The little-endian bytes of each sequence number in turn.
pub open spec fn le64s(s: Seq<u64>) -> Seq<u8>
    decreases s.len(),
{
    if s.len() == 0 {
        Seq::empty()
    } else {
        le64s(s.drop_last()) + le64(s.last())
    }
}

/// The payload of an acknowledgement: the through sequence, then each
/// missing sequence, all little-endian `u64`.
pub open spec fn spec_ack_payload(a: AckView) -> Seq<u8> {
    le64(a.through) + le64s(a.missing)
}

/// What reading an acknowledgement payload gives.
pub open spec fn spec_parse_ack(p: Seq<u8>) -> Result<AckView, TransportError> {
    if p.len() < 8 || p.len() % 8 != 0 {
        Err(TransportError::InvalidAckPayload)
    } else {
        Ok(
            AckView {
                through: get64(p, 0),
                missing: Seq::new(((p.len() - 8) / 8) as nat, |i: int| get64(p, 8 + 8 * i)),
            },
        )
    }
}

/// What [`TransportPacket::into_received`] gives for a packet.
pub open spec fn spec_received(p: PacketView) -> Result<ReceivedView, TransportError> {
    match p.header.kind {
        PacketKind::FrameFragment => Ok(
            ReceivedView::FrameFragment(
                FragmentView {
                    frame_sequence: p.header.frame_sequence,
                    index: p.header.fragment_index,
                    total: p.header.fragment_total,
                    bytes: p.payload,
                },
            ),
        ),
        PacketKind::Ack => match spec_parse_ack(p.payload) {
            Ok(a) => Ok(ReceivedView::Ack(a)),
            Err(e) => Err(e),
        },
        PacketKind::Heartbeat => Ok(
            ReceivedView::Heartbeat { packet_sequence: p.header.packet_sequence },
        ),
        PacketKind::KeyframeRequest => Ok(
            ReceivedView::KeyframeRequest { frame_sequence: p.header.frame_sequence },
        ),
        PacketKind::Control => Ok(ReceivedView::Control(p.payload)),
        PacketKind::Handshake => Ok(ReceivedView::Handshake(p.payload)),
    }
}

/// The mathematical value of an interpretation result.
pub open spec fn received_result_view(r: Result<ReceivedPacket, TransportError>) -> Result<
    ReceivedView,
    TransportError,
> {
    match r {
        Ok(p) => Ok(p@),
        Err(e) => Err(e),
    }
}

proof fn lemma_packet_kind_round_trip(k: PacketKind)
    ensures
        PacketKind::spec_from_byte(k.spec_byte()) == Ok::<PacketKind, TransportError>(k),
{
}

/// Decoding the encoding of a well-formed packet whose payload is within the
/// limit gives the packet back.
#[verifier::spinoff_prover]
pub proof fn lemma_packet_round_trip(p: PacketView, max: nat)
    requires
        packet_wf(p),
        p.payload.len() <= max,
    ensures
        spec_decode_packet(spec_encode_packet(p), max) == Ok::<PacketView, TransportError>(p),
{
    let h = p.header;
    let e = spec_encode_packet(p);
    assert(packet_header_bytes(h).len() == 40);
    assert(e.subrange(0, 4) =~= packet_magic_seq());
    assert(e.subrange(4, 6) =~= le16(PACKET_VERSION));
    assert(e.subrange(6, 8) =~= le16(PACKET_HEADER_LEN as u16));
    assert(e[8] == h.kind.spec_byte());
    assert(e.subrange(12, 20) =~= le64(h.packet_sequence));
    assert(e.subrange(20, 28) =~= le64(h.frame_sequence));
    assert(e.subrange(28, 30) =~= le16(h.fragment_index));
    assert(e.subrange(30, 32) =~= le16(h.fragment_total));
    assert(e.subrange(32, 36) =~= le32(h.payload_len));
    assert(e.subrange(36, 40) =~= le32(h.payload_crc32));
    lemma_get16(e, 4, PACKET_VERSION);
    lemma_get16(e, 6, PACKET_HEADER_LEN as u16);
    lemma_get64(e, 12, h.packet_sequence);
    lemma_get64(e, 20, h.frame_sequence);
    lemma_get16(e, 28, h.fragment_index);
    lemma_get16(e, 30, h.fragment_total);
    lemma_get32(e, 32, h.payload_len);
    lemma_get32(e, 36, h.payload_crc32);
    lemma_packet_kind_round_trip(h.kind);
    assert(e.subrange(40, 40 + p.payload.len() as int) =~= p.payload);
}

proof fn lemma_le64s(s: Seq<u64>, i: int)
    requires
        0 <= i < s.len(),
    ensures
        le64s(s).len() == 8 * s.len(),
        le64s(s).subrange(8 * i, 8 * i + 8) == le64(s[i]),
    decreases s.len(),
{
    lemma_le64s_len(s);
    if i < s.len() - 1 {
        lemma_le64s(s.drop_last(), i);
        lemma_le64s_len(s.drop_last());
        assert(le64s(s).subrange(8 * i, 8 * i + 8) =~= le64s(s.drop_last()).subrange(
            8 * i,
            8 * i + 8,
        ));
    } else {
        lemma_le64s_len(s.drop_last());
        assert(le64s(s).subrange(8 * i, 8 * i + 8) =~= le64(s[i]));
    }
}

proof fn lemma_le64s_len(s: Seq<u64>)
    ensures
        le64s(s).len() == 8 * s.len(),
    decreases s.len(),
{
    if s.len() > 0 {
        lemma_le64s_len(s.drop_last());
    }
}

/// Reading an acknowledgement payload built from `a` gives `a` back.
pub proof fn lemma_ack_round_trip(a: AckView)
    ensures
        spec_parse_ack(spec_ack_payload(a)) == Ok::<AckView, TransportError>(a),
{
    let p = spec_ack_payload(a);
    lemma_le64s_len(a.missing);
    assert(p.len() == 8 + 8 * a.missing.len());
    assert(p.len() % 8 == 0);
    assert((p.len() - 8) / 8 == a.missing.len());
    assert(p.subrange(0, 8) =~= le64(a.through));
    lemma_get64(p, 0, a.through);
    let parsed = spec_parse_ack(p);
    assert forall|i: int| 0 <= i < a.missing.len() implies get64(p, 8 + 8 * i) == a.missing[i] by {
        lemma_le64s(a.missing, i);
        assert(p.subrange(8 + 8 * i, 8 + 8 * i + 8) =~= le64s(a.missing).subrange(
            8 * i,
            8 * i + 8,
        ));
        lemma_get64(p, 8 + 8 * i, a.missing[i]);
    }
    assert(parsed.unwrap().missing =~= a.missing);
}

impl TransportPacket {
    /// Builds a packet, computing the payload length and CRC.
    pub fn new(
        kind: PacketKind,
        packet_sequence: u64,
        frame_sequence: u64,
        fragment_index: u16,
        fragment_total: u16,
        payload: Vec<u8>,
    ) -> (r: TransportPacket)
        ensures
            r@ == spec_packet(
                kind,
                packet_sequence,
                frame_sequence,
                fragment_index,
                fragment_total,
                payload@,
            ),
    {
        let payload_crc32 = crc32(payload.as_slice());
        let payload_len = payload.len() as u32;
        TransportPacket {
            header: PacketHeader {
                kind,
                packet_sequence,
                frame_sequence,
                fragment_index,
                fragment_total,
                payload_len,
                payload_crc32,
            },
            payload,
        }
    }

    /// An empty heartbeat packet.
    pub fn heartbeat(packet_sequence: u64) -> (r: TransportPacket)
        ensures
            r@ == spec_packet(PacketKind::Heartbeat, packet_sequence, 0, 0, 0, Seq::empty()),
    {
        let r = Self::new(PacketKind::Heartbeat, packet_sequence, 0, 0, 0, Vec::new());
        assert(r.payload@ =~= Seq::<u8>::empty());
        r
    }

    /// A handshake packet carrying an opaque payload.
    pub fn handshake(packet_sequence: u64, payload: Vec<u8>) -> (r: TransportPacket)
        ensures
            r@ == spec_packet(PacketKind::Handshake, packet_sequence, 0, 0, 0, payload@),
    {
        Self::new(PacketKind::Handshake, packet_sequence, 0, 0, 0, payload)
    }

    /// An empty request for a keyframe after `frame_sequence`.
    pub fn keyframe_request(packet_sequence: u64, frame_sequence: u64) -> (r: TransportPacket)
        ensures
            r@ == spec_packet(
                PacketKind::KeyframeRequest,
                packet_sequence,
                frame_sequence,
                0,
                0,
                Seq::empty(),
            ),
    {
        let r = Self::new(PacketKind::KeyframeRequest, packet_sequence, frame_sequence, 0, 0, Vec::new());
        assert(r.payload@ =~= Seq::<u8>::empty());
        r
    }

    /// An acknowledgement packet.
    pub fn ack(packet_sequence: u64, ack: Ack) -> (r: TransportPacket)
        ensures
            r@ == spec_packet(PacketKind::Ack, packet_sequence, 0, 0, 0, spec_ack_payload(ack@)),
    {
        let mut payload: Vec<u8> = Vec::new();
        put64(&mut payload, ack.through_packet_sequence);
        let mut i: usize = 0;
        while i < ack.missing_packet_sequences.len()
            invariant
                i <= ack.missing_packet_sequences@.len(),
                payload@ == le64(ack.through_packet_sequence) + le64s(
                    ack.missing_packet_sequences@.subrange(0, i as int),
                ),
            decreases ack.missing_packet_sequences@.len() - i,
        {
            put64(&mut payload, ack.missing_packet_sequences[i]);
            proof {
                let s = ack.missing_packet_sequences@.subrange(0, i + 1);
                assert(s.drop_last() =~= ack.missing_packet_sequences@.subrange(0, i as int));
            }
            i = i + 1;
        }
        assert(ack.missing_packet_sequences@.subrange(0, i as int) =~= ack.missing_packet_sequences@);
        Self::new(PacketKind::Ack, packet_sequence, 0, 0, 0, payload)
    }

    /// The wire bytes: 40-byte header then payload.
    pub fn encode(&self) -> (r: Vec<u8>)
        ensures
            r@ == spec_encode_packet(self@),
    {
        let mut out: Vec<u8> = Vec::new();
        out.push(PACKET_MAGIC[0]);
        out.push(PACKET_MAGIC[1]);
        out.push(PACKET_MAGIC[2]);
        out.push(PACKET_MAGIC[3]);
        assert(out@ =~= packet_magic_seq());
        put16(&mut out, PACKET_VERSION);
        put16(&mut out, PACKET_HEADER_LEN as u16);
        out.push(self.header.kind.byte());
        put_zeros(&mut out, 3);
        put64(&mut out, self.header.packet_sequence);
        put64(&mut out, self.header.frame_sequence);
        put16(&mut out, self.header.fragment_index);
        put16(&mut out, self.header.fragment_total);
        put32(&mut out, self.header.payload_len);
        put32(&mut out, self.header.payload_crc32);
        assert(out@ =~= packet_header_bytes(self.header));
        put_bytes(&mut out, self.payload.as_slice());
        out
    }

    /// Parses a packet from the front of `bytes`, refusing payloads longer
    /// than `max_payload_len`.
    pub fn decode(bytes: &[u8], max_payload_len: usize) -> (r: Result<TransportPacket, TransportError>)
        ensures
            packet_result_view(r) == spec_decode_packet(bytes@, max_payload_len as nat),
    {
        if bytes.len() < PACKET_HEADER_LEN {
            return Err(TransportError::ShortHeader);
        }
        if bytes[0] != PACKET_MAGIC[0] || bytes[1] != PACKET_MAGIC[1] || bytes[2] != PACKET_MAGIC[2]
            || bytes[3] != PACKET_MAGIC[3] {
            assert(bytes@.subrange(0, 4) != packet_magic_seq()) by {
                if bytes@.subrange(0, 4) == packet_magic_seq() {
                    assert(bytes@[0] == bytes@.subrange(0, 4)[0]);
                    assert(bytes@[1] == bytes@.subrange(0, 4)[1]);
                    assert(bytes@[2] == bytes@.subrange(0, 4)[2]);
                    assert(bytes@[3] == bytes@.subrange(0, 4)[3]);
                }
            }
            return Err(TransportError::InvalidMagic);
        }
        assert(bytes@.subrange(0, 4) =~= packet_magic_seq());
        let version = read16(bytes, 4);
        if version != PACKET_VERSION {
            return Err(TransportError::UnsupportedVersion(version));
        }
        let header_len = read16(bytes, 6);
        if header_len != PACKET_HEADER_LEN as u16 {
            return Err(TransportError::ShortHeader);
        }
        let kind = match PacketKind::from_byte(bytes[8]) {
            Ok(k) => k,
            Err(e) => {
                return Err(e);
            },
        };
        let packet_sequence = read64(bytes, 12);
        let frame_sequence = read64(bytes, 20);
        let fragment_index = read16(bytes, 28);
        let fragment_total = read16(bytes, 30);
        let payload_len = read32(bytes, 32);
        let payload_crc32 = read32(bytes, 36);
        let payload_len_usize = payload_len as usize;
        if payload_len_usize > max_payload_len {
            return Err(
                TransportError::PayloadTooLarge { len: payload_len_usize, max: max_payload_len },
            );
        }
        if bytes.len() - PACKET_HEADER_LEN < payload_len_usize {
            return Err(TransportError::ShortPayload);
        }
        let payload = copy_range(bytes, PACKET_HEADER_LEN, PACKET_HEADER_LEN + payload_len_usize);
        let actual = crc32(payload.as_slice());
        if actual != payload_crc32 {
            return Err(TransportError::CrcMismatch { expected: payload_crc32, actual });
        }
        Ok(
            TransportPacket {
                header: PacketHeader {
                    kind,
                    packet_sequence,
                    frame_sequence,
                    fragment_index,
                    fragment_total,
                    payload_len,
                    payload_crc32,
                },
                payload,
            },
        )
    }

    /// The typed meaning of the packet. An acknowledgement payload must be a
    /// non-empty multiple of eight bytes.
    pub fn into_received(self) -> (r: Result<ReceivedPacket, TransportError>)
        ensures
            received_result_view(r) == spec_received(self@),
    {
        match self.header.kind {
            PacketKind::FrameFragment => Ok(
                ReceivedPacket::FrameFragment(
                    Fragment {
                        frame_sequence: self.header.frame_sequence,
                        index: self.header.fragment_index,
                        total: self.header.fragment_total,
                        bytes: self.payload,
                    },
                ),
            ),
            PacketKind::Ack => {
                let n = self.payload.len();
                if n < 8 || n % 8 != 0 {
                    return Err(TransportError::InvalidAckPayload);
                }
                let through = read64(self.payload.as_slice(), 0);
                let mut missing: Vec<u64> = Vec::new();
                let count = (n - 8) / 8;
                let mut i: usize = 0;
                while i < count
                    invariant
                        i <= count,
                        count == (n - 8) / 8,
                        n == self.payload@.len(),
                        n >= 8,
                        n % 8 == 0,
                        missing@.len() == i,
                        forall|k: int| 0 <= k < i ==> #[trigger] missing@[k] == get64(self.payload@, 8 + 8 * k),
                    decreases count - i,
                {
                    let off = 8 + 8 * i;
                    missing.push(read64(self.payload.as_slice(), off));
                    i = i + 1;
                }
                let ghost expected = spec_parse_ack(self.payload@);
                assert(missing@ =~= expected.unwrap().missing);
                Ok(
                    ReceivedPacket::Ack(
                        Ack { through_packet_sequence: through, missing_packet_sequences: missing },
                    ),
                )
            },
            PacketKind::Heartbeat => Ok(
                ReceivedPacket::Heartbeat { packet_sequence: self.header.packet_sequence },
            ),
            PacketKind::KeyframeRequest => Ok(
                ReceivedPacket::KeyframeRequest { frame_sequence: self.header.frame_sequence },
            ),
            PacketKind::Control => Ok(ReceivedPacket::Control(self.payload)),
            PacketKind::Handshake => Ok(ReceivedPacket::Handshake(self.payload)),
        }
    }

    /// A copy of the packet.
    pub fn duplicate(&self) -> (r: TransportPacket)
        ensures
            r@ == self@,
    {
        let payload = copy_range(self.payload.as_slice(), 0, self.payload.len());
        assert(payload@ =~= self.payload@);
        TransportPacket { header: self.header, payload }
    }
}

} // verus!
