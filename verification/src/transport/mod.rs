//! Reliable packet layer shared by the USB (ADB) and Wi-Fi transports: the
//! packet format, packetizing frames, reassembly, acknowledgement and
//! retransmission bookkeeping, and heartbeat liveness.

pub mod packet;

pub use packet::{
    Ack, AckView, PacketHeader, PacketKind, PacketView, ReceivedPacket, ReceivedView,
    TransportError, TransportPacket, DEFAULT_MAX_PACKET_PAYLOAD, PACKET_HEADER_LEN,
    PACKET_MAGIC, PACKET_VERSION,
};

pub mod packetizer;

pub use packetizer::Packetizer;

pub mod ordered_keys;
pub mod reassembly;

pub use reassembly::ReassemblyBuffer;

pub mod reliability;

pub use reliability::{HeartbeatMonitor, ReceiverAcks, RetransmitWindow};
