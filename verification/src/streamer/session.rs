//! The decisions of a streaming session: the framing of transport packets
//! on the socket, the reverse channel from the device, the frame sender's
//! bookkeeping, choosing the `adb` device, picking capture files, and live
//! and replay pacing.

use vstd::prelude::*;
use vstd::string::*;

use crate::encoder::config::Codec;
use crate::encoder::video::EncodedUnit;
use crate::input::{spec_decode_input, InputEvent, INPUT_EVENT_LEN};
use crate::protocol::{spec_fragment, EncodedFrame, FrameFlags, FrameHeader, FrameView, ProtocolError, MAX_PAYLOAD_LEN};
use crate::checksum::crc32_of;
use crate::transport::packetizer::{fragment_packets, packets_view, sequence_after, PacketizerView};
use crate::streamer::adb::{AdbDevice, AdbDeviceState};
use crate::streamer::adb::{DeviceView, StateView};
use crate::text::{chars_of, decimal, push_char, push_decimal};
use crate::transport::packet::{
    spec_decode_packet, spec_encode_packet, spec_received, ReceivedPacket, ReceivedView,
    TransportError, TransportPacket, DEFAULT_MAX_PACKET_PAYLOAD,
};
use crate::transport::Packetizer;
use crate::wire::{copy_range, le32, put32, put_bytes};

verus! {

/// The bytes a packet takes on the socket: its encoded length as a
/// little-endian `u32`, then the encoded packet.
pub open spec fn framed(encoded: Seq<u8>) -> Seq<u8> {
    le32(encoded.len() as u32) + encoded
}

/// The framed bytes of one transport packet.
pub fn frame_packet_bytes(packet: &TransportPacket) -> (r: Vec<u8>)
    ensures
        r@ == framed(spec_encode_packet(packet@)),
{
    let bytes = packet.encode();
    let mut out: Vec<u8> = Vec::new();
    put32(&mut out, bytes.len() as u32);
    put_bytes(&mut out, bytes.as_slice());
    assert(out@ =~= framed(spec_encode_packet(packet@)));
    out
}

/// The longest packet the reverse channel accepts: a full payload and its
/// header, with room to spare.
pub const MAX_REVERSE_PACKET_LEN: usize = 65600;

/// Whether a reverse-channel length prefix can be trusted; otherwise framing
/// was lost and the channel is not resynchronised.
pub fn reverse_length_ok(packet_len: u32) -> (r: bool)
    ensures
        r == (packet_len != 0 && packet_len <= MAX_REVERSE_PACKET_LEN),
{
    packet_len != 0 && (packet_len as usize) <= DEFAULT_MAX_PACKET_PAYLOAD + 64
}

/// The input events of the first `n` whole 16-byte records of a control
/// payload; records that do not decode are skipped.
pub open spec fn control_events_upto(payload: Seq<u8>, n: int) -> Seq<InputEvent>
    decreases n,
{
    if n <= 0 {
        Seq::empty()
    } else {
        let prev = control_events_upto(payload, n - 1);
        match spec_decode_input(payload.subrange(16 * (n - 1), 16 * n)) {
            Ok(e) => prev.push(e),
            Err(_) => prev,
        }
    }
}

/// The input events of a control payload: one per whole 16-byte record that
/// decodes; a trailing partial record is ignored.
pub open spec fn control_events(payload: Seq<u8>) -> Seq<InputEvent> {
    control_events_upto(payload, (payload.len() / 16) as int)
}

/// What a packet from the device asks of the host.
#[derive(Debug)]
pub enum ReverseMessage {
    /// Input events to inject.
    Input(Vec<InputEvent>),
    /// The device asks for a keyframe.
    KeyframeRequest,
    /// A malformed packet or one of another kind, dropped.
    Ignored,
}

/// What [`classify_reverse`] makes of a packet's bytes.
pub open spec fn spec_classify(bytes: Seq<u8>) -> Option<Option<Seq<InputEvent>>> {
    match spec_decode_packet(bytes, DEFAULT_MAX_PACKET_PAYLOAD as nat) {
        Err(_) => None,
        Ok(p) => match spec_received(p) {
            Ok(ReceivedView::Control(payload)) => Some(Some(control_events(payload))),
            Ok(ReceivedView::KeyframeRequest { .. }) => Some(None),
            _ => None,
        },
    }
}

/// The events in a control payload.
pub fn decode_control(payload: &Vec<u8>) -> (r: Vec<InputEvent>)
    ensures
        r@ == control_events(payload@),
{
    let len = payload.len();
    let n = len / INPUT_EVENT_LEN;
    let mut out: Vec<InputEvent> = Vec::new();
    let mut k: usize = 0;
    while k < n
        invariant
            len == payload@.len(),
            n == payload@.len() / 16,
            k <= n,
            out@ == control_events_upto(payload@, k as int),
        decreases n - k,
    {
        assert(16 * k + 16 <= len);
        let chunk = copy_range(payload.as_slice(), 16 * k, 16 * k + 16);
        match InputEvent::decode(chunk.as_slice()) {
            Ok(e) => {
                out.push(e);
            },
            Err(_) => {},
        }
        k = k + 1;
    }
    out
}

/// Classify a packet read from the device: input to inject, a keyframe
/// request, or nothing to act on.
pub fn classify_reverse(bytes: &[u8]) -> (r: ReverseMessage)
    ensures
        match r {
            ReverseMessage::Input(v) => spec_classify(bytes@) == Some(Some(v@)),
            ReverseMessage::KeyframeRequest => spec_classify(bytes@) == Some(
                None::<Seq<InputEvent>>,
            ),
            ReverseMessage::Ignored => spec_classify(bytes@) is None,
        },
{
    let packet = match TransportPacket::decode(bytes, DEFAULT_MAX_PACKET_PAYLOAD) {
        Ok(p) => p,
        Err(_) => {
            return ReverseMessage::Ignored;
        },
    };
    match packet.into_received() {
        Ok(ReceivedPacket::Control(payload)) => ReverseMessage::Input(decode_control(&payload)),
        Ok(ReceivedPacket::KeyframeRequest { .. }) => ReverseMessage::KeyframeRequest,
        _ => ReverseMessage::Ignored,
    }
}


/// The sequence number after `s`: it wraps past `u64::MAX` and skips 0.
pub open spec fn next_frame_sequence(s: u64) -> u64 {
    if s == u64::MAX {
        1
    } else {
        (s + 1) as u64
    }
}

/// Frame numbers never reach 0: the number after any frame's is at least 1,
/// and it is one more unless the count wrapped.
pub proof fn lemma_frame_sequence_never_zero(s: u64)
    ensures
        next_frame_sequence(s) >= 1,
        s < u64::MAX ==> next_frame_sequence(s) == s + 1,
{
}

/// Why a coded picture could not be sent.
#[derive(Debug, Clone, Copy, PartialEq, Eq)]
pub enum SendError {
    Protocol(ProtocolError),
    Transport(TransportError),
}

/// The frame sender's state.
pub ghost struct SenderView {
    pub packetizer: PacketizerView,
    pub codec: Codec,
    pub width: u16,
    pub height: u16,
    pub fps: u32,
    pub frame_sequence: u64,
    pub total_packets: nat,
    pub total_frames: nat,
    pub write_stall_ns_max: u64,
    pub last_stall_ns: u64,
}

/// Wraps coded pictures in protocol frames and transport packets, for the
/// live and replay paths and for USB and Wi-Fi alike, so framing stays the
/// same; and keeps the counts and send stalls that the statistics report.
pub struct FrameSender {
    packetizer: Packetizer,
    codec: Codec,
    width: u16,
    height: u16,
    fps: u32,
    frame_sequence: u64,
    total_packets: usize,
    total_frames: usize,
    write_stall_ns_max: u64,
    last_stall_ns: u64,
}

impl View for FrameSender {
    type V = SenderView;

    closed spec fn view(&self) -> SenderView {
        SenderView {
            packetizer: self.packetizer@,
            codec: self.codec,
            width: self.width,
            height: self.height,
            fps: self.fps,
            frame_sequence: self.frame_sequence,
            total_packets: self.total_packets as nat,
            total_frames: self.total_frames as nat,
            write_stall_ns_max: self.write_stall_ns_max,
            last_stall_ns: self.last_stall_ns,
        }
    }
}

/// The protocol frame of a coded picture sent by a sender in state `s`.
pub open spec fn unit_frame(s: SenderView, unit_bytes: Seq<u8>, keyframe: bool, timestamp_ns: u64) -> FrameView {
    FrameView {
        header: FrameHeader {
            sequence: s.frame_sequence,
            timestamp_ns,
            codec: match s.codec {
                Codec::H264 => crate::protocol::Codec::H264,
                Codec::H265 => crate::protocol::Codec::H265,
            },
            flags: FrameFlags(if keyframe { 1 } else { 0 }),
            width: s.width,
            height: s.height,
            refresh_millihz: (s.fps * 1000) as u32,
            payload_len: unit_bytes.len() as u32,
            payload_crc32: crc32_of(unit_bytes),
        },
        payload: unit_bytes,
    }
}

impl FrameSender {
    /// A sender for `width` x `height` pictures at `fps`, numbering frames
    /// from 1, with fragments of at most `max_packet_payload` bytes.
    pub fn new(codec: Codec, width: u16, height: u16, fps: u32, max_packet_payload: usize) -> (r: FrameSender)
        ensures
            r@.packetizer.max_packet_payload == (if max_packet_payload == 0 {
                1
            } else {
                max_packet_payload
            }),
            r@.packetizer.next_packet_sequence == 1,
            r@.codec == codec,
            r@.width == width,
            r@.height == height,
            r@.fps == fps,
            r@.frame_sequence == 1,
            r@.total_packets == 0,
            r@.total_frames == 0,
            r@.write_stall_ns_max == 0,
            r@.last_stall_ns == 0,
    {
        FrameSender {
            packetizer: Packetizer::new(max_packet_payload),
            codec,
            width,
            height,
            fps,
            frame_sequence: 1,
            total_packets: 0,
            total_frames: 0,
            write_stall_ns_max: 0,
            last_stall_ns: 0,
        }
    }

    /// Retag the sender after the capture size changed; the sizes are cut to
    /// 16 bits.
    pub fn set_size(&mut self, width: u32, height: u32)
        ensures
            final(self)@ == (SenderView { width: width as u16, height: height as u16, ..old(self)@ }),
    {
        self.width = width as u16;
        self.height = height as u16;
    }

    /// Frames sent so far.
    pub fn total_frames(&self) -> (r: usize)
        ensures
            r == self@.total_frames,
    {
        self.total_frames
    }

    /// Packets sent so far.
    pub fn total_packets(&self) -> (r: usize)
        ensures
            r == self@.total_packets,
    {
        self.total_packets
    }

    /// The stall of the last send, in nanoseconds.
    pub fn last_stall_ns(&self) -> (r: u64)
        ensures
            r == self@.last_stall_ns,
    {
        self.last_stall_ns
    }

    /// The longest send stall so far, in nanoseconds.
    pub fn write_stall_ns_max(&self) -> (r: u64)
        ensures
            r == self@.write_stall_ns_max,
    {
        self.write_stall_ns_max
    }

    /// The framed packets that carry one coded picture: the picture becomes
    /// the next protocol frame, numbered by the sender (the number wraps and
    /// skips 0), and its fragments become numbered transport packets.
    pub fn prepare_unit(&mut self, unit: &EncodedUnit) -> (r: Result<Vec<Vec<u8>>, SendError>)
        requires
            old(self)@.fps * 1000 <= u32::MAX,
        ensures
            ({
                let frame = unit_frame(old(self)@, unit.bytes@, unit.keyframe, unit.timestamp_ns);
                if unit.bytes@.len() > MAX_PAYLOAD_LEN {
                    &&& r == Err::<Vec<Vec<u8>>, SendError>(
                        SendError::Protocol(ProtocolError::PayloadTooLarge(unit.bytes@.len() as usize)),
                    )
                    &&& final(self)@ == old(self)@
                } else {
                    let after_seq = SenderView {
                        frame_sequence: next_frame_sequence(old(self)@.frame_sequence),
                        ..old(self)@
                    };
                    match spec_fragment(frame, old(self)@.packetizer.max_packet_payload as nat) {
                        Err(e) => r == Err::<Vec<Vec<u8>>, SendError>(
                            SendError::Transport(TransportError::Protocol(e)),
                        ) && final(self)@ == after_seq,
                        Ok(frags) => {
                            let packets = fragment_packets(
                                frags,
                                old(self)@.packetizer.next_packet_sequence,
                            );
                            &&& r matches Ok(v) && v@.len() == packets.len() && forall|i: int|
                                0 <= i < packets.len() ==> (#[trigger] v@[i])@ == framed(
                                    spec_encode_packet(packets[i]),
                                )
                            &&& final(self)@ == (SenderView {
                                packetizer: PacketizerView {
                                    max_packet_payload: old(self)@.packetizer.max_packet_payload,
                                    next_packet_sequence: sequence_after(
                                        old(self)@.packetizer.next_packet_sequence,
                                        frags.len(),
                                    ),
                                },
                                ..after_seq
                            })
                        },
                    }
                }
            }),
    {
        let flags = if unit.keyframe {
            FrameFlags::keyframe()
        } else {
            FrameFlags::none()
        };
        let payload = copy_range(unit.bytes.as_slice(), 0, unit.bytes.len());
        assert(payload@ =~= unit.bytes@);
        let frame = match EncodedFrame::new(
            self.frame_sequence,
            unit.timestamp_ns,
            self.codec.to_protocol(),
            flags,
            self.width,
            self.height,
            self.fps * 1000,
            payload,
        ) {
            Ok(f) => f,
            Err(e) => {
                return Err(SendError::Protocol(e));
            },
        };
        assert(flags == FrameFlags(if unit.keyframe { 1 } else { 0 }));
        self.frame_sequence = if self.frame_sequence == u64::MAX {
            1
        } else {
            self.frame_sequence + 1
        };
        let packets = match self.packetizer.packetize_frame(&frame) {
            Ok(p) => p,
            Err(e) => {
                return Err(SendError::Transport(e));
            },
        };
        let ghost pv = packets_view(packets@);
        let mut out: Vec<Vec<u8>> = Vec::new();
        let mut i: usize = 0;
        while i < packets.len()
            invariant
                i <= packets@.len(),
                pv == packets_view(packets@),
                out@.len() == i,
                forall|k: int| 0 <= k < i ==> (#[trigger] out@[k])@ == framed(spec_encode_packet(pv[k])),
            decreases packets@.len() - i,
        {
            out.push(frame_packet_bytes(&packets[i]));
            i = i + 1;
        }
        Ok(out)
    }

    /// Count one coded picture sent as `packets` packets, whose send stalled
    /// `stall_ns` nanoseconds.
    pub fn record_sent(&mut self, packets: usize, stall_ns: u64)
        requires
            old(self)@.total_packets + packets <= usize::MAX,
            old(self)@.total_frames + 1 <= usize::MAX,
        ensures
            final(self)@ == (SenderView {
                total_packets: old(self)@.total_packets + packets as nat,
                total_frames: old(self)@.total_frames + 1,
                write_stall_ns_max: if stall_ns > old(self)@.write_stall_ns_max {
                    stall_ns
                } else {
                    old(self)@.write_stall_ns_max
                },
                last_stall_ns: stall_ns,
                ..old(self)@
            }),
    {
        self.total_packets = self.total_packets + packets;
        self.total_frames = self.total_frames + 1;
        if stall_ns > self.write_stall_ns_max {
            self.write_stall_ns_max = stall_ns;
        }
        self.last_stall_ns = stall_ns;
    }
}


/// A stall in hundredths of a millisecond, rounded half up.
pub open spec fn hundredths_of_ms(ns: u64) -> nat {
    (ns / 10_000 + if ns % 10_000 >= 5_000 { 1nat } else { 0nat }) as nat
}

/// `n < 100` as two decimal digits.
pub open spec fn two_digits(n: nat) -> Seq<char> {
    if n < 10 {
        seq!['0'] + decimal(n)
    } else {
        decimal(n)
    }
}

/// The statistics line: frames and packets sent, the longest send stall in
/// milliseconds with two decimals, and the input events injected.
pub open spec fn stats_text(frames: nat, packets: nat, stall_max_ns: u64, injected: u64) -> Seq<char> {
    let h = hundredths_of_ms(stall_max_ns);
    "{\"streamed_frames\":"@ + decimal(frames) + ",\"streamed_packets\":"@ + decimal(packets)
        + ",\"write_stall_ms_max\":"@ + decimal(h / 100) + "."@ + two_digits(h % 100)
        + ",\"input_events_injected\":"@ + decimal(injected as nat) + "}"@
}

impl FrameSender {
    /// The statistics as one line of JSON.
    pub fn stats_line(&self, input_events_injected: u64) -> (r: String)
        ensures
            r@ == stats_text(
                self@.total_frames,
                self@.total_packets,
                self@.write_stall_ns_max,
                input_events_injected,
            ),
    {
        let ns = self.write_stall_ns_max;
        let h: u64 = ns / 10_000 + if ns % 10_000 >= 5_000 {
            1
        } else {
            0
        };
        let mut s = String::from_str("{\"streamed_frames\":");
        push_decimal(&mut s, self.total_frames as u64);
        s.append(",\"streamed_packets\":");
        push_decimal(&mut s, self.total_packets as u64);
        s.append(",\"write_stall_ms_max\":");
        push_decimal(&mut s, h / 100);
        s.append(".");
        if h % 100 < 10 {
            push_char(&mut s, '0');
        }
        push_decimal(&mut s, h % 100);
        s.append(",\"input_events_injected\":");
        push_decimal(&mut s, input_events_injected);
        s.append("}");
        assert(s@ =~= stats_text(
            self@.total_frames,
            self@.total_packets,
            self@.write_stall_ns_max,
            input_events_injected,
        ));
        s
    }
}

/// Why no `adb` device could be chosen.
#[derive(Debug, Clone, PartialEq, Eq)]
pub enum SerialError {
    NoDevices,
    NotConnected(String),
}

impl SerialError {
    /// The message of the error.
    pub fn message(&self) -> (r: String)
        ensures
            r@ == (match self {
                SerialError::NoDevices => "no connected adb devices found"@,
                SerialError::NotConnected(s) => "adb device '"@ + s@ + "' is not connected"@,
            }),
    {
        match self {
            SerialError::NoDevices => String::from_str("no connected adb devices found"),
            SerialError::NotConnected(s) => {
                let mut m = String::from_str("adb device '");
                m.append(s.as_str());
                m.append("' is not connected");
                m
            },
        }
    }
}

/// The serials of the devices in state `device`, in order.
pub open spec fn connected_serials(devs: Seq<DeviceView>) -> Seq<Seq<char>>
    decreases devs.len(),
{
    if devs.len() == 0 {
        Seq::empty()
    } else {
        let prev = connected_serials(devs.drop_last());
        if devs.last().state == StateView::Device {
            prev.push(devs.last().serial)
        } else {
            prev
        }
    }
}

/// The device to stream to: the requested one if it is connected, else the
/// first connected device.
pub open spec fn spec_choose_serial(devs: Seq<DeviceView>, requested: Option<Seq<char>>) -> Result<Seq<char>, Option<Seq<char>>> {
    let connected = connected_serials(devs);
    if connected.len() == 0 {
        Err(None)
    } else {
        match requested {
            Some(r) => if connected.contains(r) {
                Ok(r)
            } else {
                Err(Some(r))
            },
            None => Ok(connected[0]),
        }
    }
}

/// Choose the `adb` device: the requested serial when that device is
/// connected, else the first connected one.
pub fn choose_serial(devices: &Vec<AdbDevice>, requested: Option<&str>) -> (r: Result<String, SerialError>)
    ensures
        ({
            let devs = devices@.map_values(|d: AdbDevice| d@);
            let req = match requested {
                Some(s) => Some(s@),
                None => None,
            };
            match r {
                Ok(s) => spec_choose_serial(devs, req) == Ok::<Seq<char>, Option<Seq<char>>>(s@),
                Err(SerialError::NoDevices) => spec_choose_serial(devs, req) == Err::<Seq<char>, Option<Seq<char>>>(None),
                Err(SerialError::NotConnected(s)) => spec_choose_serial(devs, req) == Err::<Seq<char>, Option<Seq<char>>>(Some(s@)),
            }
        }),
{
    let ghost devs = devices@.map_values(|d: AdbDevice| d@);
    let mut connected: Vec<String> = Vec::new();
    let mut i: usize = 0;
    assert(devs.take(0) =~= Seq::<DeviceView>::empty());
    while i < devices.len()
        invariant
            i <= devices@.len(),
            devs == devices@.map_values(|d: AdbDevice| d@),
            connected@.map_values(|s: String| s@) == connected_serials(devs.take(i as int)),
        decreases devices@.len() - i,
    {
        let d = &devices[i];
        assert(devs.take(i as int + 1).drop_last() =~= devs.take(i as int));
        let is_device = match d.state {
            AdbDeviceState::Device => true,
            _ => false,
        };
        if is_device {
            let ghost before = connected@;
            connected.push(d.serial.clone());
            assert(connected@.map_values(|s: String| s@) =~= before.map_values(|s: String| s@).push(d.serial@));
        }
        i = i + 1;
    }
    assert(devs.take(i as int) =~= devs);
    let ghost cs = connected@.map_values(|s: String| s@);
    if connected.len() == 0 {
        return Err(SerialError::NoDevices);
    }
    match requested {
        Some(serial) => {
            let wanted = String::from_str(serial);
            let mut k: usize = 0;
            while k < connected.len()
                invariant
                    k <= connected@.len(),
                    wanted@ == serial@,
                    requested == Some(serial),
                    cs == connected@.map_values(|s: String| s@),
                    cs == connected_serials(devices@.map_values(|d: AdbDevice| d@)),
                    cs.len() > 0,
                    forall|t: int| 0 <= t < k ==> cs[t] != wanted@,
                decreases connected@.len() - k,
            {
                assert(cs[k as int] == connected@[k as int]@);
                if connected[k] == wanted {
                    assert(cs[k as int] == serial@);
                    assert(cs.contains(serial@));
                    return Ok(wanted);
                }
                k = k + 1;
            }
            Err(SerialError::NotConnected(wanted))
        },
        None => Ok(connected[0].clone()),
    }
}

/// A file name of a captured frame: `capture_*.bmp`.
pub open spec fn capture_name(n: Seq<char>) -> bool {
    &&& "capture_"@.is_prefix_of(n)
    &&& n.len() >= 4
    &&& n.subrange(n.len() - 4, n.len() as int) == ".bmp"@
}

/// Whether a file name is that of a captured frame, `capture_*.bmp`.
pub fn is_capture_file(name: &str) -> (r: bool)
    ensures
        r == capture_name(name@),
{
    let cs = chars_of(name);
    let n = cs.len();
    if !crate::text::span_starts_with(&cs, 0, n, "capture_") {
        assert(cs@.subrange(0, n as int) =~= cs@);
        return false;
    }
    assert(cs@.subrange(0, n as int) =~= cs@);
    if n < 4 {
        return false;
    }
    crate::text::span_is(&cs, n - 4, n, ".bmp")
}

/// What the live loop does next.
#[derive(Debug, Clone, Copy, PartialEq, Eq, Structural)]
pub enum LiveStep {
    /// The run is over.
    Stop,
    /// Nothing new; look again shortly.
    Wait,
    /// Stream the frame at this index, the newest; the ones before it are
    /// stale and get deleted.
    Stream { newest: usize },
}

/// The live loop's decision: nothing new (no capture, or the newest was
/// already streamed) waits when looping and stops otherwise; else the newest
/// capture is streamed.
pub open spec fn spec_live_step(frames: Seq<Seq<char>>, last: Option<Seq<char>>, loop_forever: bool) -> LiveStep {
    if frames.len() == 0 || last == Some(frames.last()) {
        if loop_forever {
            LiveStep::Wait
        } else {
            LiveStep::Stop
        }
    } else {
        LiveStep::Stream { newest: (frames.len() - 1) as usize }
    }
}

/// What the live loop does next with the sorted capture files `frames`.
pub fn live_step(frames: &Vec<String>, last: Option<&String>, loop_forever: bool) -> (r: LiveStep)
    ensures
        r == spec_live_step(
            frames@.map_values(|s: String| s@),
            match last {
                Some(l) => Some(l@),
                None => None,
            },
            loop_forever,
        ),
{
    let n = frames.len();
    let fresh = if n == 0 {
        false
    } else {
        match last {
            Some(l) => !(frames[n - 1] == *l),
            None => true,
        }
    };
    if !fresh {
        if loop_forever {
            LiveStep::Wait
        } else {
            LiveStep::Stop
        }
    } else {
        LiveStep::Stream { newest: n - 1 }
    }
}

/// What the replay loop does next.
#[derive(Debug, Clone, Copy, PartialEq, Eq, Structural)]
pub enum ReplayStep {
    /// The run is over.
    Stop,
    /// Every capture so far was streamed; look again shortly.
    Wait,
    /// Stream the captures from the next index on.
    Stream,
}

/// The replay loop's decision with `available` capture files, `next_index`
/// of them streamed, and `streamed` of at most `max_frames` input frames
/// used: new files are streamed; without them the loop waits when looping
/// and under the frame cap, and stops otherwise.
pub open spec fn spec_replay_step(
    available: usize,
    next_index: usize,
    streamed: usize,
    max_frames: usize,
    loop_forever: bool,
) -> ReplayStep {
    if available > next_index {
        ReplayStep::Stream
    } else if loop_forever && streamed < max_frames {
        ReplayStep::Wait
    } else {
        ReplayStep::Stop
    }
}

/// What the replay loop does next (see [`spec_replay_step`]).
pub fn replay_step(
    available: usize,
    next_index: usize,
    streamed: usize,
    max_frames: usize,
    loop_forever: bool,
) -> (r: ReplayStep)
    ensures
        r == spec_replay_step(available, next_index, streamed, max_frames, loop_forever),
{
    if available > next_index {
        ReplayStep::Stream
    } else if loop_forever && streamed < max_frames {
        ReplayStep::Wait
    } else {
        ReplayStep::Stop
    }
}

/// How long a replay waits before sending a picture stamped `timestamp_ns`,
/// when the first was stamped `first_ns` and `elapsed_ns` passed since the
/// replay began.
pub open spec fn spec_replay_delay(timestamp_ns: u64, first_ns: u64, elapsed_ns: u64) -> u64 {
    let target = if timestamp_ns >= first_ns {
        timestamp_ns - first_ns
    } else {
        0
    };
    if target > elapsed_ns {
        (target - elapsed_ns) as u64
    } else {
        0
    }
}

/// How long a replay waits before sending a picture (see [`spec_replay_delay`]).
pub fn replay_delay_ns(timestamp_ns: u64, first_ns: u64, elapsed_ns: u64) -> (r: u64)
    ensures
        r == spec_replay_delay(timestamp_ns, first_ns, elapsed_ns),
{
    let target = timestamp_ns.saturating_sub(first_ns);
    if target > elapsed_ns {
        target - elapsed_ns
    } else {
        0
    }
}

/// Nanoseconds per frame at `fps` (at least 1).
pub fn frame_duration_ns(fps: u32) -> (r: u64)
    ensures
        r == 1_000_000_000int / (if fps == 0 { 1int } else { fps as int }),
{
    let f: u64 = if fps == 0 {
        1
    } else {
        fps as u64
    };
    1_000_000_000u64 / f
}

/// Frames an encode run takes: at most `max_frames`, at most `available`.
pub fn capture_count(max_frames: Option<usize>, available: usize) -> (r: usize)
    ensures
        r == (match max_frames {
            Some(m) => if m < available {
                m
            } else {
                available
            },
            None => available,
        }),
{
    match max_frames {
        Some(m) => if m < available {
            m
        } else {
            available
        },
        None => available,
    }
}

/// Whether a decoded picture size is the captured size rounded up within one
/// 16-pixel macroblock (1080 decodes as 1088).
pub fn decoded_size_ok(decoded_width: u32, decoded_height: u32, width: u32, height: u32) -> (r: bool)
    requires
        width + 16 <= u32::MAX,
        height + 16 <= u32::MAX,
    ensures
        r == (width <= decoded_width < width + 16 && height <= decoded_height < height + 16),
{
    let w_ok = decoded_width >= width && decoded_width < width + 16;
    let h_ok = decoded_height >= height && decoded_height < height + 16;
    w_ok && h_ok
}


/// `s` with its ASCII capitals lowercased.
pub open spec fn ascii_lowercase(s: Seq<char>) -> Seq<char> {
    s.map_values(|c: char| crate::streamer::wifi::ascii_lower(c))
}

/// The codec a command-line name selects, case-insensitively: `h264` or
/// `avc`, `h265` or `hevc`.
pub open spec fn spec_codec_named(name: Seq<char>) -> Option<Codec> {
    let n = ascii_lowercase(name);
    if n == "h264"@ || n == "avc"@ {
        Some(Codec::H264)
    } else if n == "h265"@ || n == "hevc"@ {
        Some(Codec::H265)
    } else {
        None
    }
}

/// The codec a command-line name selects.
pub fn codec_named(name: &str) -> (r: Option<Codec>)
    ensures
        r == spec_codec_named(name@),
{
    let cs = chars_of(name);
    let mut lower: Vec<char> = Vec::new();
    let mut i: usize = 0;
    while i < cs.len()
        invariant
            i <= cs@.len(),
            lower@ == ascii_lowercase(cs@.take(i as int)),
        decreases cs@.len() - i,
    {
        let c = cs[i];
        let l = if 'A' <= c && c <= 'Z' {
            ((c as u8) + 32) as char
        } else {
            c
        };
        lower.push(l);
        i = i + 1;
        assert(lower@ =~= ascii_lowercase(cs@.take(i as int)));
    }
    assert(cs@.take(i as int) =~= cs@);
    let n = lower.len();
    if crate::text::span_is(&lower, 0, n, "h264") || crate::text::span_is(&lower, 0, n, "avc") {
        assert(lower@.subrange(0, n as int) =~= lower@);
        Some(Codec::H264)
    } else if crate::text::span_is(&lower, 0, n, "h265") || crate::text::span_is(&lower, 0, n, "hevc") {
        assert(lower@.subrange(0, n as int) =~= lower@);
        Some(Codec::H265)
    } else {
        assert(lower@.subrange(0, n as int) =~= lower@);
        None
    }
}


/// The total encoded length of some packets.
pub open spec fn encoded_len_sum(packets: Seq<crate::transport::packet::PacketView>) -> nat
    decreases packets.len(),
{
    if packets.len() == 0 {
        0
    } else {
        encoded_len_sum(packets.drop_last()) + spec_encode_packet(packets.last()).len()
    }
}

/// The protocol frame of the `index`-th coded picture of an encode run.
pub open spec fn run_frame(
    index: int,
    unit: (Seq<u8>, bool, u64),
    codec: Codec,
    width: u16,
    height: u16,
    fps: u32,
) -> FrameView {
    unit_frame(
        SenderView {
            packetizer: PacketizerView { max_packet_payload: 1, next_packet_sequence: 1 },
            codec,
            width,
            height,
            fps,
            frame_sequence: index as u64,
            total_packets: 0,
            total_frames: 0,
            write_stall_ns_max: 0,
            last_stall_ns: 0,
        },
        unit.0,
        unit.1,
        unit.2,
    )
}

/// The packets and bytes the transport needs for the first `k` coded
/// pictures of an encode run, numbered from 0 and packetized in order with
/// packets numbered from 1, and the next packet number; or the first error.
pub open spec fn run_totals(
    units: Seq<(Seq<u8>, bool, u64)>,
    k: int,
    codec: Codec,
    width: u16,
    height: u16,
    fps: u32,
    max: nat,
) -> Result<(nat, nat, u64), SendError>
    decreases k,
{
    if k <= 0 {
        Ok((0, 0, 1))
    } else {
        match run_totals(units, k - 1, codec, width, height, fps, max) {
            Err(e) => Err(e),
            Ok((packets, bytes, next)) => {
                let u = units[k - 1];
                if u.0.len() > MAX_PAYLOAD_LEN {
                    Err(SendError::Protocol(ProtocolError::PayloadTooLarge(u.0.len() as usize)))
                } else {
                    match spec_fragment(run_frame(k - 1, u, codec, width, height, fps), max) {
                        Err(e) => Err(SendError::Transport(TransportError::Protocol(e))),
                        Ok(frags) => Ok(
                            (
                                packets + frags.len(),
                                bytes + encoded_len_sum(fragment_packets(frags, next)),
                                sequence_after(next, frags.len()),
                            ),
                        ),
                    }
                }
            },
        }
    }
}

/// A coded picture as its bytes, keyframe flag and timestamp.
pub open spec fn unit_view(u: EncodedUnit) -> (Seq<u8>, bool, u64) {
    (u.bytes@, u.keyframe, u.timestamp_ns)
}

/// The fragment size a packetizer made with `max_packet_payload` uses.
pub open spec fn fragment_limit(max_packet_payload: usize) -> nat {
    if max_packet_payload == 0 {
        1
    } else {
        max_packet_payload as nat
    }
}

/// Coded pictures as their bytes, keyframe flags and timestamps.
pub open spec fn units_view(v: Seq<EncodedUnit>) -> Seq<(Seq<u8>, bool, u64)> {
    v.map_values(|u: EncodedUnit| unit_view(u))
}

/// A count held in a `usize`: the count itself, or `usize::MAX` where it
/// does not fit.
pub open spec fn saturated(x: nat) -> nat {
    if x > usize::MAX {
        usize::MAX as nat
    } else {
        x
    }
}

/// The transport packets and bytes an encode run's coded pictures take:
/// each becomes a protocol frame numbered by its position and is packetized
/// in order. Counts that do not fit a `usize` stay at `usize::MAX`.
#[verifier::spinoff_prover]
#[verifier::rlimit(40)]
pub fn transport_totals(
    units: &Vec<EncodedUnit>,
    codec: Codec,
    width: u16,
    height: u16,
    fps: u32,
    max_packet_payload: usize,
) -> (r: Result<(usize, usize), SendError>)
    requires
        fps * 1000 <= u32::MAX,
    ensures
        ({
            let total = run_totals(
                units_view(units@),
                units@.len() as int,
                codec,
                width,
                height,
                fps,
                fragment_limit(max_packet_payload),
            );
            match r {
                Ok((p, b)) => total matches Ok((tp, tb, _)) && p == saturated(tp) && b == saturated(
                    tb,
                ),
                Err(e) => total == Err::<(nat, nat, u64), SendError>(e),
            }
        }),
{
    let ghost uv = units_view(units@);
    let ghost max: nat = fragment_limit(max_packet_payload);
    let mut packetizer = Packetizer::new(max_packet_payload);
    let mut total_packets: usize = 0;
    let mut total_bytes: usize = 0;
    let mut i: usize = 0;
    while i < units.len()
        invariant
            i <= units@.len(),
            fps * 1000 <= u32::MAX,
            uv == units_view(units@),
            max == fragment_limit(max_packet_payload),
            packetizer@.max_packet_payload == max,
            run_totals(uv, i as int, codec, width, height, fps, max) matches Ok((tp, tb, next))
                && total_packets == saturated(tp) && total_bytes == saturated(tb)
                && packetizer@.next_packet_sequence == next,
        decreases units@.len() - i,
    {
        let u = &units[i];
        assert(uv[i as int] == unit_view(*u));
        let flags = if u.keyframe {
            FrameFlags::keyframe()
        } else {
            FrameFlags::none()
        };
        let payload = copy_range(u.bytes.as_slice(), 0, u.bytes.len());
        assert(payload@ =~= u.bytes@);
        let frame = match EncodedFrame::new(
            i as u64,
            u.timestamp_ns,
            codec.to_protocol(),
            flags,
            width,
            height,
            fps * 1000,
            payload,
        ) {
            Ok(f) => f,
            Err(e) => {
                proof {
                    lemma_run_error_sticks(uv, i as int + 1, units@.len() as int, codec, width, height, fps, max);
                }
                return Err(SendError::Protocol(e));
            },
        };
        assert(frame@ == run_frame(i as int, uv[i as int], codec, width, height, fps));
        let packets = match packetizer.packetize_frame(&frame) {
            Ok(p) => p,
            Err(e) => {
                proof {
                    lemma_run_error_sticks(uv, i as int + 1, units@.len() as int, codec, width, height, fps, max);
                }
                return Err(SendError::Transport(e));
            },
        };
        let ghost pv = packets_view(packets@);
        let mut bytes_here: usize = 0;
        let mut j: usize = 0;
        assert(pv.take(0) =~= Seq::<crate::transport::packet::PacketView>::empty());
        while j < packets.len()
            invariant
                j <= packets@.len(),
                pv == packets_view(packets@),
                bytes_here == saturated(encoded_len_sum(pv.take(j as int))),
            decreases packets@.len() - j,
        {
            let n = packets[j].encode().len();
            assert(pv.take(j as int + 1).drop_last() =~= pv.take(j as int));
            bytes_here = bytes_here.saturating_add(n);
            j = j + 1;
        }
        assert(pv.take(j as int) =~= pv);
        total_packets = total_packets.saturating_add(packets.len());
        total_bytes = total_bytes.saturating_add(bytes_here);
        i = i + 1;
    }
    Ok((total_packets, total_bytes))
}

/// Once an encode run fails, its later prefixes fail with the same error.
proof fn lemma_run_error_sticks(
    units: Seq<(Seq<u8>, bool, u64)>,
    k: int,
    n: int,
    codec: Codec,
    width: u16,
    height: u16,
    fps: u32,
    max: nat,
)
    requires
        0 < k <= n,
        run_totals(units, k, codec, width, height, fps, max) is Err,
    ensures
        run_totals(units, n, codec, width, height, fps, max) == run_totals(
            units,
            k,
            codec,
            width,
            height,
            fps,
            max,
        ),
    decreases n - k,
{
    if k < n {
        lemma_run_error_sticks(units, k, n - 1, codec, width, height, fps, max);
    }
}

} // verus!
