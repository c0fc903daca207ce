//! A Minecraft: Bedrock Edition server core: the RakNet transport, the game protocol
//! codec, the block vocabulary and the in-memory world, each stated against a
//! mathematical model and proved to meet it.
pub mod blocks;
pub mod crypto;
pub mod num;
pub mod protocol;
pub mod raknet;
pub mod server;
pub mod text;
pub mod world;
