//! What the client reports about the player once it is in the world.
//!
//! Both packets here are read-only: the client narrates, the server listens. Nothing is
//! expected back. Positions and angles are `f32`s on the wire; they are read here as the
//! IEEE 754 bit patterns they are stored as, and turned into numbers by whoever needs to
//! do arithmetic on them.
use crate::num::le32_value;
use crate::protocol::bytes::{DecodeError, Reader};
use vstd::prelude::*;

verus! {

/// `PlayerAuthInput`, client to server. Sent every tick once the player exists.
pub const ID_PLAYER_AUTH_INPUT: u32 = 144;

/// `SetLocalPlayerAsInitialized`, client to server.
///
/// The client sends this once it has finished loading and the player is actually
/// standing in the world: the only server-side proof that a world was accepted.
pub const ID_SET_LOCAL_PLAYER_AS_INITIALIZED: u32 = 113;

/// Where the client says the player is and where they are looking, each an `f32` held
/// as its bit pattern.
#[derive(Debug, Clone, Copy, PartialEq, Eq, Structural)]
pub struct AuthInput {
    /// Where the head is pointing, up and down.
    pub pitch: u32,
    /// Where the body is facing.
    pub yaw: u32,
    /// Position along X.
    pub x: u32,
    /// Position along Y, a block and a half above the feet: not the feet, and not the
    /// camera either.
    pub y: u32,
    /// Position along Z.
    pub z: u32,
}

/// The five little-endian words at the front of `body`.
pub open spec fn auth_input_of(body: Seq<u8>) -> AuthInput {
    AuthInput {
        pitch: le32_value(body),
        yaw: le32_value(body.skip(4)),
        x: le32_value(body.skip(8)),
        y: le32_value(body.skip(12)),
        z: le32_value(body.skip(16)),
    }
}

/// Decodes the head of a `PlayerAuthInput` body.
///
/// Only the first five floats are read: the rest of the packet is a bitset whose width
/// tracks the protocol version, and none of it says where the player is standing. A
/// body too short for the five fails on the first float that does not fit, with the
/// bytes that were left.
pub fn decode_auth_input(body: &[u8]) -> (res: Result<AuthInput, DecodeError>)
    ensures
        body@.len() >= 20 ==> res == Ok::<AuthInput, DecodeError>(auth_input_of(body@)),
        body@.len() < 20 ==> res == Err::<AuthInput, DecodeError>(
            DecodeError::UnexpectedEnd { needed: 4, available: (body@.len() % 4) as usize },
        ),
{
    let mut r = Reader::new(body);
    let pitch = r.f32_bits()?;
    let yaw = r.f32_bits()?;
    let x = r.f32_bits()?;
    let y = r.f32_bits()?;
    let z = r.f32_bits()?;
    proof {
        assert(body@.skip(4).skip(4) =~= body@.skip(8));
        assert(body@.skip(8).skip(4) =~= body@.skip(12));
        assert(body@.skip(12).skip(4) =~= body@.skip(16));
    }
    Ok(AuthInput { pitch, yaw, x, y, z })
}

} // verus!
