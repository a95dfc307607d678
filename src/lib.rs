//! Core of a peer-to-peer H.264-over-RTP conferencing mesh: the RTP header
//! codec, AVCC extraction, FU-A fragmentation and reassembly, the media- and
//! signaling-peer registries, the signaling wire format, the session core
//! that answers and performs joins, and the playout buffer.

pub mod buffers;
pub mod kinds;
pub mod rtp;
pub mod h264;
pub mod depacketizer;
pub mod playout;
pub mod receiver;
pub mod endpoint;
pub mod peers;
pub mod wire;
pub mod signaling;
pub mod mesh;
