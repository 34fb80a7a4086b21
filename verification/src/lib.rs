//! The network core of a small tile-map strategy game: a length-prefixed
//! frame codec with manual fragmentation and reassembly for payloads larger
//! than one frame, the per-peer session state that drives a non-blocking
//! client and server, and the tile grid the payloads describe.

pub mod packet;
pub mod session;
pub mod tilemap;

pub use session::ClientSession;
pub use session::ServerSession;
pub use session::wire_frames;
pub use tilemap::Layer;
pub use tilemap::TileIndex;
pub use packet::Packet;
pub use packet::PacketID;
pub use packet::DecodeError;
pub use packet::BigPacket;
pub use packet::MAX_PACKED_SIZE;
pub use packet::MULTIPLE_PACKET_HEADER_SIZE;
pub use packet::MultiplePacketHeader;
