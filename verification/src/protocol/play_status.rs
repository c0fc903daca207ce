//! `PlayStatus`: the server's verdict on a login, and later the spawn signal.
//!
//! One `int32` big-endian. It is the first thing a client can be *told*, so it is also
//! the only way to fail a login visibly.
use crate::num::{be32, be32_value};
use crate::protocol::batch::Packet;
use crate::protocol::bytes::{DecodeError, Reader, Writer};
use vstd::prelude::*;

verus! {

/// `PlayStatus`, server to client.
pub const ID_PLAY_STATUS: u32 = 2;

/// What the server is telling the client.
#[derive(Debug, Clone, Copy, PartialEq, Eq, Structural)]
pub enum Status {
    /// The login was accepted.
    LoginSuccess,
    /// The client is older than this server speaks.
    ClientOutdated,
    /// This server is older than the client speaks.
    ServerOutdated,
    /// The world is ready and the player may spawn.
    PlayerSpawn,
    /// The client's account is not valid for this server.
    InvalidTenant,
    /// An Education client reached a vanilla server.
    EducationToVanilla,
    /// A vanilla client reached an Education server.
    VanillaToEducation,
    /// No room for another split-screen player.
    ServerFullForSubClient,
}

/// The wire value of each status.
pub open spec fn status_value(s: Status) -> i32 {
    match s {
        Status::LoginSuccess => 0,
        Status::ClientOutdated => 1,
        Status::ServerOutdated => 2,
        Status::PlayerSpawn => 3,
        Status::InvalidTenant => 4,
        Status::EducationToVanilla => 5,
        Status::VanillaToEducation => 6,
        Status::ServerFullForSubClient => 7,
    }
}

/// The status a wire value names, if any.
pub open spec fn status_from(value: i32) -> Option<Status> {
    if value == 0 {
        Some(Status::LoginSuccess)
    } else if value == 1 {
        Some(Status::ClientOutdated)
    } else if value == 2 {
        Some(Status::ServerOutdated)
    } else if value == 3 {
        Some(Status::PlayerSpawn)
    } else if value == 4 {
        Some(Status::InvalidTenant)
    } else if value == 5 {
        Some(Status::EducationToVanilla)
    } else if value == 6 {
        Some(Status::VanillaToEducation)
    } else if value == 7 {
        Some(Status::ServerFullForSubClient)
    } else {
        None
    }
}

/// What a body decodes to.
pub open spec fn decode_spec(body: Seq<u8>) -> Result<Option<Status>, DecodeError> {
    if body.len() < 4 {
        Err(DecodeError::UnexpectedEnd { needed: 4, available: body.len() as usize })
    } else {
        Ok(status_from(be32_value(body) as i32))
    }
}

impl Status {
    /// The wire value.
    pub fn value(self) -> (v: i32)
        ensures
            v == status_value(self),
    {
        match self {
            Status::LoginSuccess => 0,
            Status::ClientOutdated => 1,
            Status::ServerOutdated => 2,
            Status::PlayerSpawn => 3,
            Status::InvalidTenant => 4,
            Status::EducationToVanilla => 5,
            Status::VanillaToEducation => 6,
            Status::ServerFullForSubClient => 7,
        }
    }

    /// Reads the wire value.
    pub fn from_value(value: i32) -> (s: Option<Self>)
        ensures
            s == status_from(value),
    {
        match value {
            0 => Some(Status::LoginSuccess),
            1 => Some(Status::ClientOutdated),
            2 => Some(Status::ServerOutdated),
            3 => Some(Status::PlayerSpawn),
            4 => Some(Status::InvalidTenant),
            5 => Some(Status::EducationToVanilla),
            6 => Some(Status::VanillaToEducation),
            7 => Some(Status::ServerFullForSubClient),
            _ => None,
        }
    }

    /// Which side is behind, given the version a client declared.
    ///
    /// `None` when the versions match. Telling a client the wrong direction sends the
    /// player to update software that is already current.
    pub fn for_version_mismatch(client: u32, server: u32) -> (s: Option<Self>)
        ensures
            client == server ==> s == None::<Status>,
            client < server ==> s == Some(Status::ClientOutdated),
            client > server ==> s == Some(Status::ServerOutdated),
    {
        if client == server {
            None
        } else if client < server {
            Some(Status::ClientOutdated)
        } else {
            Some(Status::ServerOutdated)
        }
    }
}

/// Every status survives a trip through its wire value.
pub proof fn lemma_status_round_trip(s: Status)
    ensures
        status_from(status_value(s)) == Some(s),
{
}

/// Encodes the packet body.
pub fn encode(status: Status) -> (out: Vec<u8>)
    ensures
        out@ == be32(status_value(status) as u32),
{
    let mut w = Writer::new();
    w.u32_be(status.value() as u32);
    w.finish()
}

/// Decodes the packet body.
pub fn decode(body: &[u8]) -> (res: Result<Option<Status>, DecodeError>)
    ensures
        res == decode_spec(body@),
{
    let value = Reader::new(body).u32_be()? as i32;
    Ok(Status::from_value(value))
}

/// Decoding an encoded status gives the status back.
pub proof fn lemma_play_status_round_trip(s: Status)
    ensures
        decode_spec(be32(status_value(s) as u32)) == Ok::<Option<Status>, DecodeError>(Some(s)),
{
    crate::num::lemma_fixed_width_round_trip(0, status_value(s) as u32, 0);
}

/// This status, ready for a batch.
pub fn packet(status: Status) -> (p: Packet)
    ensures
        p@ == (ID_PLAY_STATUS, 0u8, 0u8, be32(status_value(status) as u32)),
{
    Packet::new(ID_PLAY_STATUS, encode(status))
}

} // verus!
