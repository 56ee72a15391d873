//! Binary frame protocol shared by the Windows host and the Android client.
//!
//! A frame is a fixed 50-byte little-endian header (`USBD`, version 1)
//! followed by the compressed payload. Frames are split into fragments for
//! transport and reassembled on the other side.

use vstd::prelude::*;

use crate::checksum::{crc32, crc32_of};
use crate::wire::{
    copy_range, get16, get32, get64, le16, le32, le64, put16, put32, put64, put_bytes, put_zeros,
    read16, read32, read64, zeros, lemma_get16, lemma_get32, lemma_get64,
};

verus! {

/// ASCII `USBD`.
pub const MAGIC: [u8; 4] = [85u8, 83u8, 66u8, 68u8];

/// The protocol version this library speaks.
pub const VERSION: u16 = 1;

/// Bytes in an encoded frame header.
pub const HEADER_LEN: usize = 50;

/// The largest frame payload, 128 MiB.
pub const MAX_PAYLOAD_LEN: usize = 134217728;

/// The magic as a sequence.
pub open spec fn magic_seq() -> Seq<u8> {
    seq![85u8, 83u8, 66u8, 68u8]
}

/// The codec of a frame payload.
#[derive(Debug, Clone, Copy, PartialEq, Eq)]
pub enum Codec {
    H264,
    H265,
    Av1,
}

impl Codec {
    /// The wire byte of the codec.
    pub open spec fn spec_byte(self) -> u8 {
        match self {
            Codec::H264 => 1,
            Codec::H265 => 2,
            Codec::Av1 => 3,
        }
    }

    /// What [`Codec::from_byte`] gives for a wire byte.
    pub open spec fn spec_from_byte(value: u8) -> Result<Codec, ProtocolError> {
        if value == 1 {
            Ok(Codec::H264)
        } else if value == 2 {
            Ok(Codec::H265)
        } else if value == 3 {
            Ok(Codec::Av1)
        } else {
            Err(ProtocolError::UnknownCodec(value))
        }
    }

    /// The wire byte of the value.
    pub fn byte(self) -> (r: u8)
        ensures
            r == self.spec_byte(),
    {
        match self {
            Codec::H264 => 1,
            Codec::H265 => 2,
            Codec::Av1 => 3,
        }
    }

    /// The value a wire byte names, or the error for an unknown byte.
    pub fn from_byte(value: u8) -> (r: Result<Codec, ProtocolError>)
        ensures
            r == Self::spec_from_byte(value),
    {
        if value == 1 {
            Ok(Codec::H264)
        } else if value == 2 {
            Ok(Codec::H265)
        } else if value == 3 {
            Ok(Codec::Av1)
        } else {
            Err(ProtocolError::UnknownCodec(value))
        }
    }
}

/// Every codec's byte reads back as the same codec.
pub proof fn lemma_codec_byte_round_trip(c: Codec)
    ensures
        Codec::spec_from_byte(c.spec_byte()) == Ok::<Codec, ProtocolError>(c),
{
}

/// Frame flag bits: bit 0 keyframe, bit 1 config, bit 2 end of stream.
#[derive(Debug, Clone, Copy, PartialEq, Eq)]
pub struct FrameFlags(pub u8);

impl FrameFlags {
    /// No flag set.
    pub fn none() -> (r: FrameFlags)
        ensures
            r.spec_bits() == 0,
    {
        FrameFlags(0)
    }

    /// Bit 0: the frame is a keyframe.
    pub fn keyframe() -> (r: FrameFlags)
        ensures
            r.spec_bits() == 1,
    {
        FrameFlags(1)
    }

    /// Bit 1: the frame carries codec configuration.
    pub fn config() -> (r: FrameFlags)
        ensures
            r.spec_bits() == 2,
    {
        FrameFlags(2)
    }

    /// Bit 2: the frame ends the stream.
    pub fn end_of_stream() -> (r: FrameFlags)
        ensures
            r.spec_bits() == 4,
    {
        FrameFlags(4)
    }

    /// The raw flag byte.
    pub open spec fn spec_bits(self) -> u8 {
        self.0
    }

    /// The raw flag byte.
    pub fn bits(self) -> (r: u8)
        ensures
            r == self.spec_bits(),
    {
        self.0
    }

    /// Flags from their raw byte.
    pub fn from_bits(value: u8) -> (r: FrameFlags)
        ensures
            r.spec_bits() == value,
    {
        FrameFlags(value)
    }

    /// True when every bit of `flag` is set in `self`.
    pub fn contains(self, flag: FrameFlags) -> (r: bool)
        ensures
            r == (self.0 & flag.0 == flag.0),
    {
        (self.0 & flag.0) == flag.0
    }

    /// The flags of `self` and of `flag` together.
    pub fn union(self, flag: FrameFlags) -> (r: FrameFlags)
        ensures
            r.0 == self.0 | flag.0,
    {
        FrameFlags(self.0 | flag.0)
    }
}

/// The fixed-size header in front of every frame payload.
#[derive(Debug, Clone, Copy, PartialEq, Eq)]
pub struct FrameHeader {
    pub sequence: u64,
    pub timestamp_ns: u64,
    pub codec: Codec,
    pub flags: FrameFlags,
    pub width: u16,
    pub height: u16,
    pub refresh_millihz: u32,
    pub payload_len: u32,
    pub payload_crc32: u32,
}

/// One coded picture with its header.
#[derive(Debug, Clone, PartialEq, Eq)]
pub struct EncodedFrame {
    pub header: FrameHeader,
    pub payload: Vec<u8>,
}

/// The mathematical value of a frame: its header and payload bytes.
pub ghost struct FrameView {
    pub header: FrameHeader,
    pub payload: Seq<u8>,
}

impl View for EncodedFrame {
    type V = FrameView;

    open spec fn view(&self) -> FrameView {
        FrameView { header: self.header, payload: self.payload@ }
    }
}

/// One piece of a frame cut to fit transport packets.
#[derive(Debug, Clone, PartialEq, Eq)]
pub struct Fragment {
    pub frame_sequence: u64,
    pub index: u16,
    pub total: u16,
    pub bytes: Vec<u8>,
}

/// The mathematical value of a fragment.
pub ghost struct FragmentView {
    pub frame_sequence: u64,
    pub index: u16,
    pub total: u16,
    pub bytes: Seq<u8>,
}

impl View for Fragment {
    type V = FragmentView;

    open spec fn view(&self) -> FragmentView {
        FragmentView {
            frame_sequence: self.frame_sequence,
            index: self.index,
            total: self.total,
            bytes: self.bytes@,
        }
    }
}

/// Why a frame could not be built, decoded, cut or reassembled.
#[derive(Debug, Clone, Copy, PartialEq, Eq)]
pub enum ProtocolError {
    ShortHeader,
    InvalidMagic,
    UnsupportedVersion(u16),
    UnknownCodec(u8),
    PayloadTooLarge(usize),
    ShortPayload,
    CrcMismatch { expected: u32, actual: u32 },
    ZeroFragmentSize,
    TooManyFragments { needed: usize },
    MissingFragment(u16),
    FragmentSequenceMismatch { fragment: u16, expected: u64, actual: u64 },
}

/// A frame is well formed when its header describes its payload: the
/// declared length and CRC are those of the payload, and the payload is
/// within the protocol maximum. [`EncodedFrame::new`] and
/// [`EncodedFrame::decode`] only produce well-formed frames.
pub open spec fn frame_wf(f: FrameView) -> bool {
    &&& f.payload.len() <= MAX_PAYLOAD_LEN
    &&& f.header.payload_len == f.payload.len()
    &&& f.header.payload_crc32 == crc32_of(f.payload)
}

/// The 50 header bytes of `h`.
pub open spec fn header_bytes(h: FrameHeader) -> Seq<u8> {
    magic_seq() + le16(VERSION) + le16(HEADER_LEN as u16) + le64(h.sequence) + le64(
        h.timestamp_ns,
    ) + seq![h.codec.spec_byte()] + seq![h.flags.spec_bits()] + le16(h.width) + le16(h.height)
        + le32(h.refresh_millihz) + le32(h.payload_len) + le32(h.payload_crc32) + zeros(8)
}

/// The wire encoding of a frame: header followed by payload.
pub open spec fn spec_encode_frame(f: FrameView) -> Seq<u8> {
    header_bytes(f.header) + f.payload
}

/// What decoding the bytes `b` gives: the checks in wire order, then the
/// header fields and the payload.
pub open spec fn spec_decode_frame(b: Seq<u8>) -> Result<FrameView, ProtocolError> {
    if b.len() < HEADER_LEN {
        Err(ProtocolError::ShortHeader)
    } else if b.subrange(0, 4) != magic_seq() {
        Err(ProtocolError::InvalidMagic)
    } else if get16(b, 4) != VERSION {
        Err(ProtocolError::UnsupportedVersion(get16(b, 4)))
    } else if get16(b, 6) != HEADER_LEN as u16 {
        Err(ProtocolError::ShortHeader)
    } else {
        match Codec::spec_from_byte(b[24]) {
            Err(e) => Err(e),
            Ok(codec) => {
                let plen = get32(b, 34);
                if plen > MAX_PAYLOAD_LEN {
                    Err(ProtocolError::PayloadTooLarge(plen as usize))
                } else if b.len() < HEADER_LEN + plen {
                    Err(ProtocolError::ShortPayload)
                } else {
                    let payload = b.subrange(HEADER_LEN as int, HEADER_LEN + plen);
                    let crc = get32(b, 38);
                    if crc32_of(payload) != crc {
                        Err(ProtocolError::CrcMismatch { expected: crc, actual: crc32_of(payload) })
                    } else {
                        Ok(
                            FrameView {
                                header: FrameHeader {
                                    sequence: get64(b, 8),
                                    timestamp_ns: get64(b, 16),
                                    codec: codec,
                                    flags: FrameFlags(b[25]),
                                    width: get16(b, 26),
                                    height: get16(b, 28),
                                    refresh_millihz: get32(b, 30),
                                    payload_len: plen,
                                    payload_crc32: crc,
                                },
                                payload: payload,
                            },
                        )
                    }
                }
            },
        }
    }
}

/// The view of a decode result.
pub open spec fn frame_result_view(r: Result<EncodedFrame, ProtocolError>) -> Result<
    FrameView,
    ProtocolError,
> {
    match r {
        Ok(f) => Ok(f@),
        Err(e) => Err(e),
    }
}

/// Number of fragments of at most `max` bytes that `len` bytes need.
pub open spec fn fragment_count(len: nat, max: nat) -> nat {
    if max == 0 {
        0
    } else {
        len / max + if len % max == 0 {
            0nat
        } else {
            1nat
        }
    }
}

/// End of fragment `i` (exclusive) when `len` bytes are cut into pieces of `max`.
pub open spec fn fragment_end(i: int, max: int, len: int) -> int {
    if i * max + max < len {
        i * max + max
    } else {
        len
    }
}

/// The fragments of `encoded` for frame `sequence`, `max` bytes each.
pub open spec fn spec_fragments(encoded: Seq<u8>, max: nat, sequence: u64) -> Seq<FragmentView> {
    let total = fragment_count(encoded.len(), max);
    Seq::new(
        total,
        |i: int|
            FragmentView {
                frame_sequence: sequence,
                index: i as u16,
                total: total as u16,
                bytes: encoded.subrange(i * max, fragment_end(i, max as int, encoded.len() as int)),
            },
    )
}

/// What [`EncodedFrame::fragment`] gives.
pub open spec fn spec_fragment(f: FrameView, max: nat) -> Result<Seq<FragmentView>, ProtocolError> {
    let encoded = spec_encode_frame(f);
    if max == 0 {
        Err(ProtocolError::ZeroFragmentSize)
    } else if fragment_count(encoded.len(), max) > 65535 {
        Err(ProtocolError::TooManyFragments { needed: fragment_count(encoded.len(), max) as usize })
    } else {
        Ok(spec_fragments(encoded, max, f.header.sequence))
    }
}

/// Index of the first fragment at or after `i` that belongs to another frame,
/// or -1.
pub open spec fn first_foreign(frags: Seq<FragmentView>, sequence: u64, i: int) -> int
    decreases frags.len() - i,
{
    if i < 0 || i >= frags.len() {
        -1
    } else if frags[i].frame_sequence != sequence {
        i
    } else {
        first_foreign(frags, sequence, i + 1)
    }
}

/// Position of the last fragment among the first `n` with index `j`.
pub open spec fn slot_of(frags: Seq<FragmentView>, j: int, n: int) -> Option<int>
    decreases n,
{
    if n <= 0 {
        None
    } else if frags[n - 1].index == j {
        Some(n - 1)
    } else {
        slot_of(frags, j, n - 1)
    }
}

/// The first index in `j..total` that no fragment carries, or -1.
pub open spec fn first_missing(frags: Seq<FragmentView>, total: int, j: int) -> int
    decreases total - j,
{
    if j < 0 || j >= total {
        -1
    } else if slot_of(frags, j, frags.len() as int) is None {
        j
    } else {
        first_missing(frags, total, j + 1)
    }
}

/// The bytes of fragments `0..n` in index order.
pub open spec fn joined(frags: Seq<FragmentView>, n: int) -> Seq<u8>
    decreases n,
{
    if n <= 0 {
        Seq::empty()
    } else {
        joined(frags, n - 1) + frags[slot_of(frags, n - 1, frags.len() as int).unwrap()].bytes
    }
}

/// What [`EncodedFrame::reassemble`] gives: the first foreign fragment is an
/// error; then the first missing index; then the ordered bytes are decoded.
/// The fragment count is taken from the first fragment; a later fragment with
/// the same index replaces an earlier one.
pub open spec fn spec_reassemble(sequence: u64, frags: Seq<FragmentView>) -> Result<
    FrameView,
    ProtocolError,
> {
    let total: int = if frags.len() == 0 {
        0
    } else {
        frags[0].total as int
    };
    let foreign = first_foreign(frags, sequence, 0);
    if foreign >= 0 {
        Err(
            ProtocolError::FragmentSequenceMismatch {
                fragment: frags[foreign].index,
                expected: sequence,
                actual: frags[foreign].frame_sequence,
            },
        )
    } else {
        let missing = first_missing(frags, total, 0);
        if missing >= 0 {
            Err(ProtocolError::MissingFragment(missing as u16))
        } else {
            spec_decode_frame(joined(frags, total))
        }
    }
}


/// Decoding the encoding of a well-formed frame gives the frame back.
#[verifier::spinoff_prover]
#[verifier::rlimit(40)]
pub proof fn lemma_frame_round_trip(f: FrameView)
    requires
        frame_wf(f),
    ensures
        spec_decode_frame(spec_encode_frame(f)) == Ok::<FrameView, ProtocolError>(f),
{
    let h = f.header;
    let e = spec_encode_frame(f);
    let hb = header_bytes(h);
    assert(hb.len() == 50);
    assert(e.len() == 50 + f.payload.len());
    assert(e.subrange(0, 4) =~= magic_seq());
    assert(e.subrange(4, 6) =~= le16(VERSION));
    assert(e.subrange(6, 8) =~= le16(HEADER_LEN as u16));
    assert(e.subrange(8, 16) =~= le64(h.sequence));
    assert(e.subrange(16, 24) =~= le64(h.timestamp_ns));
    assert(e[24] == h.codec.spec_byte());
    assert(e[25] == h.flags.spec_bits());
    assert(e.subrange(26, 28) =~= le16(h.width));
    assert(e.subrange(28, 30) =~= le16(h.height));
    assert(e.subrange(30, 34) =~= le32(h.refresh_millihz));
    assert(e.subrange(34, 38) =~= le32(h.payload_len));
    assert(e.subrange(38, 42) =~= le32(h.payload_crc32));
    lemma_get16(e, 4, VERSION);
    lemma_get16(e, 6, HEADER_LEN as u16);
    lemma_get64(e, 8, h.sequence);
    lemma_get64(e, 16, h.timestamp_ns);
    lemma_get16(e, 26, h.width);
    lemma_get16(e, 28, h.height);
    lemma_get32(e, 30, h.refresh_millihz);
    lemma_get32(e, 34, h.payload_len);
    lemma_get32(e, 38, h.payload_crc32);
    lemma_codec_byte_round_trip(h.codec);
    assert(e.subrange(50, 50 + f.payload.len() as int) =~= f.payload);
    assert(FrameFlags(e[25]) == h.flags);
}

/// Arithmetic of cutting `len` bytes into pieces of `max`.
pub proof fn lemma_fragment_arith(len: nat, max: nat, i: int)
    requires
        max > 0,
        0 <= i,
    ensures
        i < fragment_count(len, max) ==> i * max < len,
        fragment_count(len, max) * max >= len,
        (i + 1) * max == i * max + max,
        len > 0 ==> fragment_count(len, max) >= 1,
{
    vstd::arithmetic::div_mod::lemma_fundamental_div_mod(len as int, max as int);
    let q = len as int / max as int;
    let r = len as int % max as int;
    assert(0 <= r < max);
    assert(len == max * q + r);
    let c = fragment_count(len, max) as int;
    assert(c == q + if r == 0 { 0int } else { 1int });
    assert(i < c ==> i * max < len) by (nonlinear_arith)
        requires
            len == max * q + r,
            0 <= r < max,
            c == q + if r == 0 { 0int } else { 1int },
            0 <= i,
            max > 0,
    ;
    assert(c * max >= len) by (nonlinear_arith)
        requires
            len == max * q + r,
            0 <= r < max,
            c == q + if r == 0 { 0int } else { 1int },
    ;
    assert((i + 1) * max == i * max + max) by (nonlinear_arith);
    assert(len > 0 ==> c >= 1) by (nonlinear_arith)
        requires
            len == max * q + r,
            0 <= r < max,
            c == q + if r == 0 { 0int } else { 1int },
            q >= 0,
    ;
}

proof fn lemma_first_foreign_none(frags: Seq<FragmentView>, sequence: u64, k: int)
    requires
        0 <= k,
        forall|t: int| k <= t < frags.len() ==> frags[t].frame_sequence == sequence,
    ensures
        first_foreign(frags, sequence, k) == -1,
    decreases frags.len() - k,
{
    if k < frags.len() {
        lemma_first_foreign_none(frags, sequence, k + 1);
    }
}

proof fn lemma_first_foreign_at(frags: Seq<FragmentView>, sequence: u64, k: int, i: int)
    requires
        0 <= k <= i < frags.len(),
        forall|t: int| k <= t < i ==> frags[t].frame_sequence == sequence,
        frags[i].frame_sequence != sequence,
    ensures
        first_foreign(frags, sequence, k) == i,
    decreases i - k,
{
    if k < i {
        lemma_first_foreign_at(frags, sequence, k + 1, i);
    }
}

proof fn lemma_first_missing_none(frags: Seq<FragmentView>, total: int, k: int)
    requires
        0 <= k,
        forall|t: int| k <= t < total ==> slot_of(frags, t, frags.len() as int) is Some,
    ensures
        first_missing(frags, total, k) == -1,
    decreases total - k,
{
    if k < total {
        lemma_first_missing_none(frags, total, k + 1);
    }
}

proof fn lemma_first_missing_at(frags: Seq<FragmentView>, total: int, k: int, j: int)
    requires
        0 <= k <= j < total,
        forall|t: int| k <= t < j ==> slot_of(frags, t, frags.len() as int) is Some,
        slot_of(frags, j, frags.len() as int) is None,
    ensures
        first_missing(frags, total, k) == j,
    decreases j - k,
{
    if k < j {
        lemma_first_missing_at(frags, total, k + 1, j);
    }
}

proof fn lemma_slot_of_fragments(frags: Seq<FragmentView>, j: int, n: int)
    requires
        0 <= j < n <= frags.len(),
        frags.len() <= 65535,
        forall|t: int| 0 <= t < frags.len() ==> frags[t].index == t,
    ensures
        slot_of(frags, j, n) == Some(j),
    decreases n,
{
    if j < n - 1 {
        lemma_slot_of_fragments(frags, j, n - 1);
    }
}

/// Cutting a well-formed frame into fragments and reassembling them gives the
/// frame back.
pub proof fn lemma_fragment_reassemble_round_trip(f: FrameView, max: nat)
    requires
        frame_wf(f),
        max > 0,
        fragment_count(spec_encode_frame(f).len(), max) <= 65535,
    ensures
        spec_fragment(f, max) matches Ok(frags) && spec_reassemble(f.header.sequence, frags)
            == Ok::<FrameView, ProtocolError>(f),
{
    let e = spec_encode_frame(f);
    let len = e.len();
    let total = fragment_count(len, max);
    let frags = spec_fragments(e, max, f.header.sequence);
    let s = f.header.sequence;
    lemma_fragment_arith(len, max, 0);
    assert(total >= 1);
    assert(frags[0].total == total as u16);
    assert(forall|t: int| 0 <= t < frags.len() ==> frags[t].index == t);
    lemma_first_foreign_none(frags, s, 0);
    assert forall|t: int| 0 <= t < total implies slot_of(frags, t, frags.len() as int) is Some by {
        lemma_slot_of_fragments(frags, t, frags.len() as int);
    }
    lemma_first_missing_none(frags, total as int, 0);
    let ghost pe = |k: int|
        if k * max < len {
            k * max
        } else {
            len as int
        };
    assert forall|k: int| 0 <= k <= total implies #[trigger] joined(frags, k) =~= e.subrange(
        0,
        pe(k),
    ) by {
        lemma_joined_prefix(e, max, s, k);
    }
    lemma_fragment_arith(len, max, total as int);
    assert(pe(total as int) == len);
    assert(e.subrange(0, len as int) =~= e);
    lemma_frame_round_trip(f);
}

proof fn lemma_joined_prefix(e: Seq<u8>, max: nat, s: u64, k: int)
    requires
        max > 0,
        0 <= k <= fragment_count(e.len(), max),
        fragment_count(e.len(), max) <= 65535,
    ensures
        joined(spec_fragments(e, max, s), k) =~= e.subrange(
            0,
            if k * max < e.len() {
                k * max
            } else {
                e.len() as int
            },
        ),
    decreases k,
{
    let frags = spec_fragments(e, max, s);
    let len = e.len();
    if k > 0 {
        lemma_joined_prefix(e, max, s, k - 1);
        lemma_fragment_arith(len, max, k - 1);
        assert(forall|t: int| 0 <= t < frags.len() ==> frags[t].index == t);
        lemma_slot_of_fragments(frags, k - 1, frags.len() as int);
        assert((k - 1) * max < len);
        assert(k * max == (k - 1) * max + max) by (nonlinear_arith);
        let a = (k - 1) * max;
        let b = fragment_end(k - 1, max as int, len as int);
        assert(frags[k - 1].bytes == e.subrange(a, b));
        assert(joined(frags, k) == joined(frags, k - 1) + frags[k - 1].bytes);
        assert(e.subrange(0, a) + e.subrange(a, b) =~= e.subrange(0, b));
    } else {
        assert(0 * max == 0) by (nonlinear_arith);
    }
}

/// The mathematical values of some fragments.
pub open spec fn fragments_view(frags: Seq<Fragment>) -> Seq<FragmentView> {
    frags.map_values(|f: Fragment| f@)
}

impl EncodedFrame {
    /// Builds a frame, computing the payload length and CRC. Fails only when
    /// the payload exceeds [`MAX_PAYLOAD_LEN`].
    pub fn new(
        sequence: u64,
        timestamp_ns: u64,
        codec: Codec,
        flags: FrameFlags,
        width: u16,
        height: u16,
        refresh_millihz: u32,
        payload: Vec<u8>,
    ) -> (r: Result<EncodedFrame, ProtocolError>)
        ensures
            payload@.len() > MAX_PAYLOAD_LEN ==> r == Err::<EncodedFrame, ProtocolError>(
                ProtocolError::PayloadTooLarge(payload@.len() as usize),
            ),
            payload@.len() <= MAX_PAYLOAD_LEN ==> (r matches Ok(f) && f@ == (FrameView {
                header: FrameHeader {
                    sequence,
                    timestamp_ns,
                    codec,
                    flags,
                    width,
                    height,
                    refresh_millihz,
                    payload_len: payload@.len() as u32,
                    payload_crc32: crc32_of(payload@),
                },
                payload: payload@,
            })),
            r matches Ok(f) ==> frame_wf(f@),
    {
        if payload.len() > MAX_PAYLOAD_LEN {
            return Err(ProtocolError::PayloadTooLarge(payload.len()));
        }
        let payload_crc32 = crc32(payload.as_slice());
        let payload_len = payload.len() as u32;
        Ok(
            EncodedFrame {
                header: FrameHeader {
                    sequence,
                    timestamp_ns,
                    codec,
                    flags,
                    width,
                    height,
                    refresh_millihz,
                    payload_len,
                    payload_crc32,
                },
                payload,
            },
        )
    }

    /// The wire bytes: 50-byte header then payload.
    pub fn encode(&self) -> (r: Vec<u8>)
        ensures
            r@ == spec_encode_frame(self@),
    {
        let mut out: Vec<u8> = Vec::new();
        out.push(MAGIC[0]);
        out.push(MAGIC[1]);
        out.push(MAGIC[2]);
        out.push(MAGIC[3]);
        assert(out@ =~= magic_seq());
        put16(&mut out, VERSION);
        put16(&mut out, HEADER_LEN as u16);
        put64(&mut out, self.header.sequence);
        put64(&mut out, self.header.timestamp_ns);
        out.push(self.header.codec.byte());
        out.push(self.header.flags.bits());
        put16(&mut out, self.header.width);
        put16(&mut out, self.header.height);
        put32(&mut out, self.header.refresh_millihz);
        put32(&mut out, self.header.payload_len);
        put32(&mut out, self.header.payload_crc32);
        put_zeros(&mut out, 8);
        assert(out@ =~= header_bytes(self.header));
        put_bytes(&mut out, self.payload.as_slice());
        out
    }

    /// Parses a frame from the front of `bytes`, checking magic, version,
    /// header length, codec, payload bounds and CRC in that order.
    pub fn decode(bytes: &[u8]) -> (r: Result<EncodedFrame, ProtocolError>)
        ensures
            frame_result_view(r) == spec_decode_frame(bytes@),
    {
        if bytes.len() < HEADER_LEN {
            return Err(ProtocolError::ShortHeader);
        }
        if bytes[0] != MAGIC[0] || bytes[1] != MAGIC[1] || bytes[2] != MAGIC[2] || bytes[3]
            != MAGIC[3] {
            assert(bytes@.subrange(0, 4) != magic_seq()) by {
                if bytes@.subrange(0, 4) == magic_seq() {
                    assert(bytes@[0] == bytes@.subrange(0, 4)[0]);
                    assert(bytes@[1] == bytes@.subrange(0, 4)[1]);
                    assert(bytes@[2] == bytes@.subrange(0, 4)[2]);
                    assert(bytes@[3] == bytes@.subrange(0, 4)[3]);
                }
            }
            return Err(ProtocolError::InvalidMagic);
        }
        assert(bytes@.subrange(0, 4) =~= magic_seq());
        let version = read16(bytes, 4);
        if version != VERSION {
            return Err(ProtocolError::UnsupportedVersion(version));
        }
        let header_len = read16(bytes, 6);
        if header_len != HEADER_LEN as u16 {
            return Err(ProtocolError::ShortHeader);
        }
        let codec = match Codec::from_byte(bytes[24]) {
            Ok(c) => c,
            Err(e) => {
                return Err(e);
            },
        };
        let payload_len = read32(bytes, 34);
        let payload_crc32 = read32(bytes, 38);
        let payload_len_usize = payload_len as usize;
        if payload_len_usize > MAX_PAYLOAD_LEN {
            return Err(ProtocolError::PayloadTooLarge(payload_len_usize));
        }
        let payload_end = HEADER_LEN + payload_len_usize;
        if bytes.len() < payload_end {
            return Err(ProtocolError::ShortPayload);
        }
        let payload = copy_range(bytes, HEADER_LEN, payload_end);
        let actual = crc32(payload.as_slice());
        if actual != payload_crc32 {
            return Err(ProtocolError::CrcMismatch { expected: payload_crc32, actual });
        }
        let sequence = read64(bytes, 8);
        let timestamp_ns = read64(bytes, 16);
        let flags = FrameFlags::from_bits(bytes[25]);
        let width = read16(bytes, 26);
        let height = read16(bytes, 28);
        let refresh_millihz = read32(bytes, 30);
        Ok(
            EncodedFrame {
                header: FrameHeader {
                    sequence,
                    timestamp_ns,
                    codec,
                    flags,
                    width,
                    height,
                    refresh_millihz,
                    payload_len,
                    payload_crc32,
                },
                payload,
            },
        )
    }
    /// Splits the encoded frame into fragments of at most
    /// `max_fragment_payload` bytes, numbered from 0.
    pub fn fragment(&self, max_fragment_payload: usize) -> (r: Result<Vec<Fragment>, ProtocolError>)
        ensures
            match (r, spec_fragment(self@, max_fragment_payload as nat)) {
                (Ok(v), Ok(w)) => fragments_view(v@) == w,
                (Err(e), Err(e2)) => e == e2,
                _ => false,
            },
    {
        if max_fragment_payload == 0 {
            return Err(ProtocolError::ZeroFragmentSize);
        }
        let max = max_fragment_payload;
        let encoded = self.encode();
        let len = encoded.len();
        let q = len / max;
        let total = if len % max == 0 {
            q
        } else {
            proof {
                vstd::arithmetic::div_mod::lemma_fundamental_div_mod(len as int, max as int);
                assert(max >= 2);
                assert(q < len) by (nonlinear_arith)
                    requires
                        len == max * q + len % max,
                        max >= 2,
                        q >= 0,
                        len % max > 0,
                ;
            }
            q + 1
        };
        if total > 65535 {
            return Err(ProtocolError::TooManyFragments { needed: total });
        }
        let ghost enc = encoded@;
        let ghost spec = spec_fragments(enc, max as nat, self.header.sequence);
        let mut out: Vec<Fragment> = Vec::new();
        let mut i: usize = 0;
        while i < total
            invariant
                0 <= i <= total,
                total == fragment_count(len as nat, max as nat),
                total <= 65535,
                max > 0,
                len == enc.len(),
                encoded@ == enc,
                spec == spec_fragments(enc, max as nat, self.header.sequence),
                out@.len() == i,
                forall|k: int| 0 <= k < i ==> (#[trigger] out@[k])@ == spec[k],
            decreases total - i,
        {
            proof {
                lemma_fragment_arith(len as nat, max as nat, i as int);
            }
            let start = i * max;
            let end = if len - start > max {
                start + max
            } else {
                len
            };
            let bytes = copy_range(encoded.as_slice(), start, end);
            out.push(
                Fragment {
                    frame_sequence: self.header.sequence,
                    index: i as u16,
                    total: total as u16,
                    bytes,
                },
            );
            i = i + 1;
        }
        assert(fragments_view(out@) =~= spec);
        Ok(out)
    }

    /// Rebuilds a frame from its fragments: every fragment must belong to
    /// `frame_sequence`, every index below the first fragment's total must be
    /// present, and the ordered bytes must decode.
    pub fn reassemble(frame_sequence: u64, fragments: &[Fragment]) -> (r: Result<EncodedFrame, ProtocolError>)
        ensures
            frame_result_view(r) == spec_reassemble(frame_sequence, fragments_view(fragments@)),
    {
        let ghost fv = fragments_view(fragments@);
        let total: u16 = if fragments.len() == 0 {
            0
        } else {
            fragments[0].total
        };
        let total_usize = total as usize;
        let mut ordered: Vec<Option<usize>> = Vec::new();
        let mut j: usize = 0;
        while j < total_usize
            invariant
                j <= total_usize,
                ordered@.len() == j,
                forall|t: int| 0 <= t < j ==> ordered@[t] is None,
            decreases total_usize - j,
        {
            ordered.push(None);
            j = j + 1;
        }
        let mut i: usize = 0;
        while i < fragments.len()
            invariant
                i <= fragments@.len(),
                fv == fragments_view(fragments@),
                ordered@.len() == total_usize,
                forall|t: int|
                    0 <= t < total_usize ==> #[trigger] ordered@[t] == match slot_of(fv, t, i as int) {
                        Some(k) => Some(k as usize),
                        None => None,
                    },
                forall|t: int| 0 <= t < i ==> fv[t].frame_sequence == frame_sequence,
                forall|t: int| #[trigger] slot_of(fv, t, i as int) matches Some(k) ==> 0 <= k < i,
            decreases fragments@.len() - i,
        {
            if fragments[i].frame_sequence != frame_sequence {
                proof {
                    lemma_first_foreign_at(fv, frame_sequence, 0, i as int);
                }
                return Err(
                    ProtocolError::FragmentSequenceMismatch {
                        fragment: fragments[i].index,
                        expected: frame_sequence,
                        actual: fragments[i].frame_sequence,
                    },
                );
            }
            let idx = fragments[i].index as usize;
            assert(fv[i as int].index == idx);
            if idx < ordered.len() {
                ordered.set(idx, Some(i));
            }
            proof {
                assert forall|t: int| 0 <= t < total_usize implies #[trigger] ordered@[t] == match slot_of(
                    fv,
                    t,
                    (i + 1) as int,
                ) {
                    Some(k) => Some(k as usize),
                    None => None,
                } by {
                    assert(slot_of(fv, t, (i + 1) as int) == if fv[i as int].index == t {
                        Some(i as int)
                    } else {
                        slot_of(fv, t, i as int)
                    });
                }
                assert forall|t: int| #[trigger] slot_of(fv, t, (i + 1) as int) matches Some(k) ==> 0 <= k < i + 1 by {
                    assert(slot_of(fv, t, (i + 1) as int) == if fv[i as int].index == t {
                        Some(i as int)
                    } else {
                        slot_of(fv, t, i as int)
                    });
                }
            }
            i = i + 1;
        }
        proof {
            lemma_first_foreign_none(fv, frame_sequence, 0);
            if fragments@.len() > 0 {
                assert(fv[0].total == fragments@[0].total);
            }
        }
        let mut bytes: Vec<u8> = Vec::new();
        let mut j: usize = 0;
        while j < total_usize
            invariant
                j <= total_usize,
                fv == fragments_view(fragments@),
                ordered@.len() == total_usize,
                total_usize == (if fv.len() == 0 { 0 } else { fv[0].total as int }),
                forall|t: int|
                    0 <= t < total_usize ==> #[trigger] ordered@[t] == match slot_of(fv, t, fv.len() as int) {
                        Some(k) => Some(k as usize),
                        None => None,
                    },
                forall|t: int| #[trigger] slot_of(fv, t, fv.len() as int) matches Some(k) ==> 0 <= k < fv.len(),
                fv.len() == fragments@.len(),
                forall|t: int| 0 <= t < j ==> slot_of(fv, t, fv.len() as int) is Some,
                bytes@ == joined(fv, j as int),
                first_foreign(fv, frame_sequence, 0) == -1,
            decreases total_usize - j,
        {
            match ordered[j] {
                None => {
                    proof {
                        lemma_first_missing_at(fv, total_usize as int, 0, j as int);
                    }
                    return Err(ProtocolError::MissingFragment(j as u16));
                },
                Some(k) => {
                    put_bytes(&mut bytes, fragments[k].bytes.as_slice());
                },
            }
            j = j + 1;
        }
        proof {
            lemma_first_missing_none(fv, total_usize as int, 0);
        }
        Self::decode(bytes.as_slice())
    }
}

/// `slot_of` finds a fragment carrying `j` among the first `m` whenever
/// there is one, and what it finds carries `j`.
proof fn lemma_slot_of_found(frags: Seq<FragmentView>, j: int, m: int)
    requires
        0 <= m <= frags.len(),
    ensures
        slot_of(frags, j, m) matches Some(q) ==> 0 <= q < m && frags[q].index == j,
        (exists|q: int| 0 <= q < m && #[trigger] frags[q].index == j) ==> slot_of(frags, j, m) is Some,
    decreases m,
{
    if m > 0 && frags[m - 1].index != j {
        lemma_slot_of_found(frags, j, m - 1);
        if exists|q: int| 0 <= q < m && #[trigger] frags[q].index == j {
            let q = choose|q: int| 0 <= q < m && #[trigger] frags[q].index == j;
            assert(q < m - 1);
        }
    }
}

/// Reassembly is keyed by fragment index: the fragments of a well-formed
/// frame, in any order, reassemble to the frame.
pub proof fn lemma_reassemble_any_order(f: FrameView, max: nat, p: Seq<FragmentView>)
    requires
        frame_wf(f),
        max > 0,
        fragment_count(spec_encode_frame(f).len(), max) <= 65535,
        p.to_multiset() == spec_fragments(spec_encode_frame(f), max, f.header.sequence).to_multiset(),
    ensures
        spec_reassemble(f.header.sequence, p) == Ok::<FrameView, ProtocolError>(f),
{
    let e = spec_encode_frame(f);
    let s = f.header.sequence;
    let frags = spec_fragments(e, max, s);
    let n = frags.len() as int;
    lemma_fragment_reassemble_round_trip(f, max);
    lemma_fragment_arith(e.len(), max, 0);
    vstd::seq_lib::to_multiset_len(p);
    vstd::seq_lib::to_multiset_len(frags);
    assert(p.len() == n);
    assert(forall|t: int| 0 <= t < n ==> frags[t].index == t);
    // every fragment of `p` is one of the frame's, and each of those is in `p`
    assert forall|i: int| 0 <= i < n implies frags.contains(#[trigger] p[i]) by {
        vstd::seq_lib::to_multiset_contains(p, p[i]);
        vstd::seq_lib::to_multiset_contains(frags, p[i]);
    }
    assert forall|t: int| 0 <= t < n implies p.contains(#[trigger] frags[t]) by {
        vstd::seq_lib::to_multiset_contains(frags, frags[t]);
        vstd::seq_lib::to_multiset_contains(p, frags[t]);
    }
    // a fragment of `p` carrying index `t` is the frame's fragment `t`
    assert forall|i: int, t: int| 0 <= i < n && 0 <= t < n && (#[trigger] p[i]).index == t implies p[i]
        == #[trigger] frags[t] by {
        let k = choose|k: int| 0 <= k < n && frags[k] == p[i];
    }
    assert forall|t: int| 0 <= t < n implies #[trigger] slot_of(p, t, n) is Some && p[slot_of(p, t, n).unwrap()] == frags[t] by {
        let k = choose|k: int| 0 <= k < n && p[k] == frags[t];
        assert(p[k].index == t);
        lemma_slot_of_found(p, t, n);
        let q = slot_of(p, t, n).unwrap();
        assert(p[q].index == t);
    }
    assert forall|t: int| 0 <= t < n implies #[trigger] slot_of(frags, t, n) == Some(t) by {
        lemma_slot_of_fragments(frags, t, n);
    }
    assert(p[0].total == n as u16) by {
        let k = choose|k: int| 0 <= k < n && frags[k] == p[0];
    }
    assert(forall|t: int| 0 <= t < n ==> (#[trigger] p[t]).frame_sequence == s) by {
        assert forall|t: int| 0 <= t < n implies (#[trigger] p[t]).frame_sequence == s by {
            let k = choose|k: int| 0 <= k < n && frags[k] == p[t];
        }
    }
    lemma_first_foreign_none(p, s, 0);
    lemma_first_missing_none(p, n, 0);
    lemma_joined_same(p, frags, n, n);
}

/// Sequences whose slots hold the same fragments join to the same bytes.
proof fn lemma_joined_same(p: Seq<FragmentView>, q: Seq<FragmentView>, n: int, k: int)
    requires
        0 <= k <= n,
        p.len() == n,
        q.len() == n,
        forall|t: int| 0 <= t < n ==> #[trigger] slot_of(p, t, n) is Some && p[slot_of(p, t, n).unwrap()] == q[t],
        forall|t: int| 0 <= t < n ==> #[trigger] slot_of(q, t, n) == Some(t),
    ensures
        joined(p, k) == joined(q, k),
    decreases k,
{
    if k > 0 {
        lemma_joined_same(p, q, n, k - 1);
        assert(slot_of(p, k - 1, n) is Some);
        assert(slot_of(q, k - 1, n) == Some(k - 1));
    }
}

/// Some fragment of `p` carries index `k`.
pub open spec fn holds_index(p: Seq<FragmentView>, k: int) -> bool {
    exists|t: int| 0 <= t < p.len() && #[trigger] p[t].index == k
}

/// Reassembly refuses a list holding a fragment of another frame, naming the
/// first such fragment, whatever order the fragments come in.
pub proof fn lemma_reassemble_names_first_foreign(sequence: u64, p: Seq<FragmentView>, i: int)
    requires
        0 <= i < p.len(),
        p[i].frame_sequence != sequence,
        forall|t: int| 0 <= t < i ==> #[trigger] p[t].frame_sequence == sequence,
    ensures
        spec_reassemble(sequence, p) == Err::<FrameView, ProtocolError>(
            ProtocolError::FragmentSequenceMismatch {
                fragment: p[i].index,
                expected: sequence,
                actual: p[i].frame_sequence,
            },
        ),
{
    lemma_first_foreign_at(p, sequence, 0, i);
}

/// Reassembly of fragments that all belong to the frame, in any order,
/// refuses when an index below the announced count is absent, naming the
/// smallest absent index.
pub proof fn lemma_reassemble_names_smallest_missing(sequence: u64, p: Seq<FragmentView>, j: int)
    requires
        p.len() > 0,
        forall|t: int| 0 <= t < p.len() ==> #[trigger] p[t].frame_sequence == sequence,
        0 <= j < p[0].total,
        forall|t: int| 0 <= t < p.len() ==> #[trigger] p[t].index != j,
        forall|k: int| 0 <= k < j ==> #[trigger] holds_index(p, k),
    ensures
        spec_reassemble(sequence, p) == Err::<FrameView, ProtocolError>(ProtocolError::MissingFragment(j as u16)),
{
    lemma_first_foreign_none(p, sequence, 0);
    assert forall|k: int| 0 <= k < j implies slot_of(p, k, p.len() as int) is Some by {
        assert(holds_index(p, k));
        lemma_slot_of_found(p, k, p.len() as int);
    }
    lemma_slot_of_found(p, j, p.len() as int);
    lemma_first_missing_at(p, p[0].total as int, 0, j);
}

} // verus!
