//! Verified core of a peer-to-peer picture sharing system: fragmentation of
//! pictures into datagram-sized pieces, their reassembly, the hidden payload
//! carried in a picture's alpha channel, the view counter inside that payload,
//! and the decisions of the directory servers and client middleware.

pub mod bully;
pub mod codec;
pub mod directory;
pub mod fragment;
pub mod middleware;
mod order;
pub mod padding;
pub mod payload;
pub mod peer;
pub mod picture;
pub mod reassembly;
pub mod server;
pub mod text;
pub mod wire;
