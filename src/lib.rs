//! Length-prefixed chat transport: the packet codec, the per-connection
//! staging buffer, and the connection table that drives accept, read,
//! write, sweep, decode and broadcast for the server loop.
use vstd::prelude::*;

pub mod buffer;
pub mod codec;
pub mod connection;
pub mod table;

pub use buffer::NetworkBuffer;
pub use codec::{deserialize_all, deserialize_packet, serialize_packet, Decoded, Packet};
pub use connection::{send, send_msg, Connection, SERVER_USERNAME};
pub use table::{send_all, send_all_msg, ConnectionTable, JOIN_NOTICE, WELCOME_NOTICE};

verus! {

/// Identifier of the listening socket; connections are numbered from one.
pub const LOCAL_TOKEN: usize = 0;

/// Fixed capacity of each connection's inbound staging buffer.
pub const MAX_BUFFER_SIZE: usize = 1024;

/// Size of the big-endian length header in front of every frame.
pub const PACKET_HEADER_SIZE: usize = 8;

/// Exclusive bound on the length of a frame's body.
pub const MAX_PACKET_BODY_SIZE: usize = 256;

/// Largest frame on the wire: header plus the largest body.
pub const MAX_PACKET_SIZE: usize = PACKET_HEADER_SIZE + MAX_PACKET_BODY_SIZE;

} // verus!
