//! USBDisplay host library: wire protocol, transport packets, input events,
//! frame handling and the decisions of the streaming host.

pub mod checksum;
pub mod wire;
pub mod text;
pub mod protocol;
pub mod input;
pub mod transport;
pub mod encoder;
pub mod streamer;
