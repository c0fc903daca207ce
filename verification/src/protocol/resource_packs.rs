//! Resource pack negotiation: the step between a login being accepted and the world
//! being described. A server with no packs still has to say so.
use crate::num::{le16, le64};
use crate::protocol::batch::Packet;
use crate::protocol::bytes::{prefixed_encoding, varint_encoding, DecodeError, Reader, Writer};
use crate::num::le32;
use vstd::prelude::*;
use vstd::string::StringSliceAdditionalSpecFns;

verus! {

/// `ResourcePacksInfo`, server to client.
pub const ID_RESOURCE_PACKS_INFO: u32 = 6;

/// `ResourcePackStack`, server to client.
pub const ID_RESOURCE_PACK_STACK: u32 = 7;

/// `ResourcePackClientResponse`, client to server.
pub const ID_RESOURCE_PACK_CLIENT_RESPONSE: u32 = 8;

/// What the client says about the packs it was offered.
#[derive(Debug, Clone, Copy, PartialEq, Eq, Structural)]
pub enum Response {
    /// The client is leaving.
    Cancel,
    /// The client is fetching packs.
    Downloading,
    /// The client has everything from [`ID_RESOURCE_PACKS_INFO`].
    DownloadingFinished,
    /// The client has applied the stack and is ready for the world.
    StackFinished,
}

/// The response a wire value names, if any.
pub open spec fn response_from(value: u8) -> Option<Response> {
    if value == 0 {
        Some(Response::Cancel)
    } else if value == 1 {
        Some(Response::Downloading)
    } else if value == 2 {
        Some(Response::DownloadingFinished)
    } else if value == 3 {
        Some(Response::StackFinished)
    } else {
        None
    }
}

impl Response {
    /// Reads the wire value.
    pub fn from_value(value: u8) -> (r: Option<Self>)
        ensures
            r == response_from(value),
    {
        match value {
            0 => Some(Response::Cancel),
            1 => Some(Response::Downloading),
            2 => Some(Response::DownloadingFinished),
            3 => Some(Response::StackFinished),
            _ => None,
        }
    }
}

/// Decodes a `ResourcePackClientResponse` body: one byte.
pub fn decode_response(body: &[u8]) -> (res: Result<Option<Response>, DecodeError>)
    ensures
        body@.len() >= 1 ==> res == Ok::<Option<Response>, DecodeError>(response_from(body@[0])),
        body@.len() == 0 ==> res == Err::<Option<Response>, DecodeError>(
            DecodeError::UnexpectedEnd { needed: 1, available: 0 },
        ),
{
    Ok(Response::from_value(Reader::new(body).u8()?))
}

/// The body of a `ResourcePacksInfo` that offers nothing: four clear flags, a nil
/// template UUID with an empty version, and no packs.
pub open spec fn packs_info_empty_body() -> Seq<u8> {
    seq![0u8, 0, 0, 0] + le64(0) + le64(0) + prefixed_encoding(Seq::empty()) + le16(0)
}

/// The body of a `ResourcePackStack` that applies nothing.
pub open spec fn pack_stack_empty_body(base_game_version: Seq<u8>) -> Seq<u8> {
    seq![0u8] + varint_encoding(0) + prefixed_encoding(base_game_version) + le32(0) + seq![
        0u8,
        0u8,
    ]
}

/// A `ResourcePacksInfo` offering nothing.
///
/// The world-template slot still has to carry a UUID and a version string; a nil UUID
/// and an empty version are how "there is no template" is spelled.
pub fn packs_info_empty() -> (p: Packet)
    ensures
        p@ == (ID_RESOURCE_PACKS_INFO, 0u8, 0u8, packs_info_empty_body()),
{
    let mut w = Writer::new();
    w.u8(0).u8(0).u8(0).u8(0);
    let empty: [u8; 0] = [];
    w.u64(0).u64(0).prefixed(&empty);
    w.u16(0);
    let body = w.finish();
    proof {
        assert(empty@ =~= Seq::<u8>::empty());
        assert(body@ =~= packs_info_empty_body());
    }
    Packet::new(ID_RESOURCE_PACKS_INFO, body)
}

/// A `ResourcePackStack` applying nothing.
///
/// The experiment count is a fixed `u32`, unlike the pack count above it.
pub fn pack_stack_empty(base_game_version: &str) -> (p: Packet)
    ensures
        p@ == (ID_RESOURCE_PACK_STACK, 0u8, 0u8, pack_stack_empty_body(
            base_game_version.spec_bytes(),
        )),
{
    let mut w = Writer::new();
    w.u8(0);
    w.varint(0);
    w.prefixed(base_game_version.as_bytes());
    w.u32(0).u8(0);
    w.u8(0);
    let body = w.finish();
    proof {
        assert(body@ =~= pack_stack_empty_body(base_game_version.spec_bytes()));
    }
    Packet::new(ID_RESOURCE_PACK_STACK, body)
}

} // verus!
