//! Bedrock game packets: the codec that turns bytes into packet types and back.
//!
//! Pure: no game state, no I/O. A malformed packet is an error value, never a panic,
//! and no read allocates from a length that came off the wire.
pub mod batch;
pub mod bytes;
pub mod chunk_radius;
pub mod handshake;
pub mod level_chunk;
pub mod login;
pub mod messages;
pub mod palette;
pub mod play_status;
pub mod player;
pub mod registries;
pub mod resource_packs;
pub mod start_game;
pub mod version;
