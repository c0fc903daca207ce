//! View distance: what the client asks for, and what the server grants.
use crate::protocol::batch::Packet;
use crate::protocol::bytes::{
    unzigzag32, varint_encoding, varint_error_consumed, varint_read, zigzag32, DecodeError,
    Reader, Writer,
};
use vstd::prelude::*;

verus! {

/// `RequestChunkRadius`, client to server.
pub const ID_REQUEST_CHUNK_RADIUS: u32 = 69;

/// `ChunkRadiusUpdated`, server to client.
pub const ID_CHUNK_RADIUS_UPDATED: u32 = 70;

/// `ServerboundLoadingScreen`, client to server. Announces that a loading screen
/// opened or closed; nothing is expected back.
pub const ID_SERVERBOUND_LOADING_SCREEN: u32 = 312;

/// What the client asked for.
#[derive(Debug, Clone, Copy, PartialEq, Eq, Structural)]
pub struct Request {
    /// The radius it wants, in chunks.
    pub radius: i32,
    /// The largest it is willing to accept.
    pub max_radius: u8,
}

/// What a `RequestChunkRadius` body decodes to: a zigzag radius, then one byte.
pub open spec fn decode_request_spec(body: Seq<u8>) -> Result<Request, DecodeError> {
    match varint_read(body) {
        Err(e) => Err(e),
        Ok((v, n)) => if body.len() > n {
            Ok(Request { radius: unzigzag32(v), max_radius: body[n as int] })
        } else {
            Err(DecodeError::UnexpectedEnd { needed: 1, available: 0 })
        },
    }
}

/// Decodes a `RequestChunkRadius` body.
pub fn decode_request(body: &[u8]) -> (res: Result<Request, DecodeError>)
    ensures
        res == decode_request_spec(body@),
{
    let mut r = Reader::new(body);
    proof {
        crate::protocol::bytes::lemma_varint_scan_bounds(body@, 0, 5);
    }
    let radius = r.zigzag32()?;
    let max_radius = r.u8()?;
    Ok(Request { radius, max_radius })
}

/// Builds `ChunkRadiusUpdated`.
///
/// The granted radius is the server's decision, not a confirmation: a client asking
/// for more than the server will stream has to be told the smaller number.
pub fn granted(radius: i32) -> (p: Packet)
    ensures
        p@ == (ID_CHUNK_RADIUS_UPDATED, 0u8, 0u8, varint_encoding(zigzag32(radius) as nat)),
{
    let mut w = Writer::new();
    w.zigzag32(radius);
    Packet::new(ID_CHUNK_RADIUS_UPDATED, w.finish())
}

/// The radius to grant, given what the client asked and what the server serves: the
/// request, clamped to at least one and at most the server's own radius (itself at
/// least one).
pub fn grant(request: &Request, server_max: i32) -> (g: i32)
    ensures
        ({
            let hi = if server_max >= 1 {
                server_max
            } else {
                1
            };
            g == if request.radius < 1 {
                1
            } else if request.radius > hi {
                hi
            } else {
                request.radius
            }
        }),
{
    let hi = if server_max >= 1 {
        server_max
    } else {
        1
    };
    if request.radius < 1 {
        1
    } else if request.radius > hi {
        hi
    } else {
        request.radius
    }
}

/// The grant is never zero or negative, never more than the server serves when it
/// serves anything, and is what was asked for whenever that fits.
pub proof fn lemma_grant_bounds(radius: i32, server_max: i32, g: i32)
    requires
        g == (if radius < 1 {
            1
        } else if radius > (if server_max >= 1 {
            server_max
        } else {
            1
        }) {
            if server_max >= 1 {
                server_max
            } else {
                1
            }
        } else {
            radius
        }),
    ensures
        g >= 1,
        server_max >= 1 ==> g <= server_max,
        1 <= radius <= server_max ==> g == radius,
{
}

} // verus!
