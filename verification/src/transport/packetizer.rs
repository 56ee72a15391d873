//! Packet sequencing: wrapping frames and control messages into numbered
//! transport packets.

use vstd::prelude::*;

use crate::protocol::{spec_fragment, EncodedFrame, ProtocolError};
use crate::transport::packet::{
    spec_ack_payload, spec_packet, Ack, PacketKind, PacketView, TransportError, TransportPacket,
};
use crate::wire::copy_range;

verus! {

/// The sequence number that follows `s`: sequences wrap past `u64::MAX` to 1
/// and are never 0.
pub open spec fn next_sequence(s: u64) -> u64 {
    if s == u64::MAX {
        1
    } else {
        (s + 1) as u64
    }
}

/// The sequence number `n` steps after `s`.
pub open spec fn sequence_after(s: u64, n: nat) -> u64
    decreases n,
{
    if n == 0 {
        s
    } else {
        next_sequence(sequence_after(s, (n - 1) as nat))
    }
}

/// Starting from a non-zero sequence, every later sequence is non-zero.
pub proof fn lemma_sequence_never_zero(s: u64, n: nat)
    requires
        s != 0,
    ensures
        sequence_after(s, n) != 0,
    decreases n,
{
    if n > 0 {
        lemma_sequence_never_zero(s, (n - 1) as nat);
    }
}

/// Numbers transport packets and cuts frames into them.
#[derive(Debug)]
pub struct Packetizer {
    max_packet_payload: usize,
    next_packet_sequence: u64,
}

/// The packetizer's state: the fragment size and the next sequence number.
pub ghost struct PacketizerView {
    pub max_packet_payload: usize,
    pub next_packet_sequence: u64,
}

impl View for Packetizer {
    type V = PacketizerView;

    closed spec fn view(&self) -> PacketizerView {
        PacketizerView {
            max_packet_payload: self.max_packet_payload,
            next_packet_sequence: self.next_packet_sequence,
        }
    }
}

/// The packets [`Packetizer::packetize_frame`] emits for fragments `frags`,
/// numbered from `start`.
pub open spec fn fragment_packets(frags: Seq<crate::protocol::FragmentView>, start: u64) -> Seq<
    PacketView,
> {
    Seq::new(
        frags.len(),
        |i: int|
            spec_packet(
                PacketKind::FrameFragment,
                sequence_after(start, i as nat),
                frags[i].frame_sequence,
                frags[i].index,
                frags[i].total,
                frags[i].bytes,
            ),
    )
}

/// The mathematical values of some packets.
pub open spec fn packets_view(v: Seq<TransportPacket>) -> Seq<PacketView> {
    v.map_values(|p: TransportPacket| p@)
}

impl Clone for Packetizer {
    fn clone(&self) -> (r: Packetizer)
        ensures
            r@ == self@,
    {
        proof {
            use_type_invariant(self);
        }
        Packetizer {
            max_packet_payload: self.max_packet_payload,
            next_packet_sequence: self.next_packet_sequence,
        }
    }
}

impl Packetizer {
    #[verifier::type_invariant]
    spec fn inv(self) -> bool {
        &&& self.max_packet_payload >= 1
        &&& self.next_packet_sequence != 0
    }

    /// A packetizer whose fragments hold at most `max_packet_payload` bytes
    /// (at least 1), numbering packets from 1.
    pub fn new(max_packet_payload: usize) -> (r: Packetizer)
        ensures
            r@ == (PacketizerView {
                max_packet_payload: if max_packet_payload == 0 {
                    1
                } else {
                    max_packet_payload
                },
                next_packet_sequence: 1,
            }),
            r@.next_packet_sequence != 0,
    {
        Packetizer {
            max_packet_payload: if max_packet_payload == 0 {
                1
            } else {
                max_packet_payload
            },
            next_packet_sequence: 1,
        }
    }

    fn take_sequence(&mut self) -> (r: u64)
        ensures
            r == old(self)@.next_packet_sequence,
            r != 0,
            final(self)@.next_packet_sequence != 0,
            final(self)@ == (PacketizerView {
                max_packet_payload: old(self)@.max_packet_payload,
                next_packet_sequence: next_sequence(r),
            }),
    {
        proof {
            use_type_invariant(&*self);
        }
        let sequence = self.next_packet_sequence;
        self.next_packet_sequence = if sequence == u64::MAX {
            1
        } else {
            sequence + 1
        };
        sequence
    }

    /// Fragments the frame and wraps each fragment in a numbered
    /// `FrameFragment` packet.
    pub fn packetize_frame(&mut self, frame: &EncodedFrame) -> (r: Result<Vec<TransportPacket>, TransportError>)
        ensures
            match spec_fragment(frame@, old(self)@.max_packet_payload as nat) {
                Err(e) => r == Err::<Vec<TransportPacket>, TransportError>(
                    TransportError::Protocol(e),
                ) && final(self)@ == old(self)@,
                Ok(frags) => r matches Ok(v) && packets_view(v@) == fragment_packets(
                    frags,
                    old(self)@.next_packet_sequence,
                ) && final(self)@ == (PacketizerView {
                    max_packet_payload: old(self)@.max_packet_payload,
                    next_packet_sequence: sequence_after(
                        old(self)@.next_packet_sequence,
                        frags.len(),
                    ),
                }),
            },
            r matches Ok(v) ==> forall|k: int|
                0 <= k < v@.len() ==> (#[trigger] v@[k])@.header.packet_sequence != 0,
            final(self)@.next_packet_sequence != 0,
    {
        proof {
            use_type_invariant(&*self);
        }
        let fragments = match frame.fragment(self.max_packet_payload) {
            Ok(f) => f,
            Err(e) => {
                return Err(TransportError::Protocol(e));
            },
        };
        let ghost frags = crate::protocol::fragments_view(fragments@);
        let ghost start = self@.next_packet_sequence;
        let mut out: Vec<TransportPacket> = Vec::new();
        let mut i: usize = 0;
        while i < fragments.len()
            invariant
                i <= fragments@.len(),
                frags == crate::protocol::fragments_view(fragments@),
                self@ == (PacketizerView {
                    max_packet_payload: old(self)@.max_packet_payload,
                    next_packet_sequence: sequence_after(start, i as nat),
                }),
                out@.len() == i,
                forall|k: int| 0 <= k < i ==> (#[trigger] out@[k])@ == fragment_packets(frags, start)[k],
            decreases fragments@.len() - i,
        {
            let sequence = self.take_sequence();
            let f = &fragments[i];
            let bytes = copy_range(f.bytes.as_slice(), 0, f.bytes.len());
            assert(bytes@ =~= f.bytes@);
            let packet = TransportPacket::new(
                PacketKind::FrameFragment,
                sequence,
                f.frame_sequence,
                f.index,
                f.total,
                bytes,
            );
            out.push(packet);
            i = i + 1;
        }
        assert(packets_view(out@) =~= fragment_packets(frags, start));
        proof {
            use_type_invariant(&*self);
            assert forall|k: int| 0 <= k < out@.len() implies (#[trigger] out@[k])@.header.packet_sequence != 0 by {
                lemma_sequence_never_zero(start, k as nat);
                assert(out@[k]@ == fragment_packets(frags, start)[k]);
            }
        }
        Ok(out)
    }

    /// A numbered heartbeat packet.
    pub fn heartbeat(&mut self) -> (r: TransportPacket)
        ensures
            r@ == spec_packet(
                PacketKind::Heartbeat,
                old(self)@.next_packet_sequence,
                0,
                0,
                0,
                Seq::empty(),
            ),
            final(self)@ == (PacketizerView {
                max_packet_payload: old(self)@.max_packet_payload,
                next_packet_sequence: next_sequence(old(self)@.next_packet_sequence),
            }),
            r@.header.packet_sequence != 0,
            final(self)@.next_packet_sequence != 0,
    {
        let sequence = self.take_sequence();
        TransportPacket::heartbeat(sequence)
    }

    /// A numbered keyframe request for `frame_sequence`.
    pub fn keyframe_request(&mut self, frame_sequence: u64) -> (r: TransportPacket)
        ensures
            r@ == spec_packet(
                PacketKind::KeyframeRequest,
                old(self)@.next_packet_sequence,
                frame_sequence,
                0,
                0,
                Seq::empty(),
            ),
            final(self)@ == (PacketizerView {
                max_packet_payload: old(self)@.max_packet_payload,
                next_packet_sequence: next_sequence(old(self)@.next_packet_sequence),
            }),
            r@.header.packet_sequence != 0,
            final(self)@.next_packet_sequence != 0,
    {
        let sequence = self.take_sequence();
        TransportPacket::keyframe_request(sequence, frame_sequence)
    }

    /// A numbered acknowledgement packet.
    pub fn ack(&mut self, ack: Ack) -> (r: TransportPacket)
        ensures
            r@ == spec_packet(
                PacketKind::Ack,
                old(self)@.next_packet_sequence,
                0,
                0,
                0,
                spec_ack_payload(ack@),
            ),
            final(self)@ == (PacketizerView {
                max_packet_payload: old(self)@.max_packet_payload,
                next_packet_sequence: next_sequence(old(self)@.next_packet_sequence),
            }),
            r@.header.packet_sequence != 0,
            final(self)@.next_packet_sequence != 0,
    {
        let sequence = self.take_sequence();
        TransportPacket::ack(sequence, ack)
    }
}

} // verus!
