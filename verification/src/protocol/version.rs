//! The target protocol version: the single source of truth for which Bedrock version
//! the server speaks.
//!
//! The values are deliberately unset. Filling them with a plausible-looking number
//! before a real client has confirmed it would be inventing data, and a wrong protocol
//! number shows up as "the server never appears in the list", with no error message.
use vstd::prelude::*;

verus! {

/// Numeric protocol version sent in `Login` and in the offline pong. Unset until
/// confirmed by capture.
pub const PROTOCOL_VERSION: Option<u32> = None;

/// Human-readable Minecraft version string. Unset until confirmed by capture.
pub const MINECRAFT_VERSION: Option<&'static str> = None;

} // verus!
