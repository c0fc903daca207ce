//! What each packet a client sends asks of the server.
//!
//! The server's loop reads a packet, looks up what it means here, and carries out the
//! answer: which reply goes out, what is reported, what the player's state becomes.
//! The looking up is this module; carrying it out is the caller's.
use crate::num::be32_value;
use crate::protocol::batch::{packets_view, parse_packets, Packet, PacketView, MARKER};
use crate::protocol::bytes::{DecodeError, Reader};
use crate::protocol::chunk_radius::{
    decode_request, decode_request_spec, grant, Request, ID_REQUEST_CHUNK_RADIUS,
    ID_SERVERBOUND_LOADING_SCREEN,
};
use crate::protocol::handshake::{ID_CLIENT_TO_SERVER_HANDSHAKE, ID_REQUEST_NETWORK_SETTINGS};
use crate::protocol::login::ID_LOGIN;
use crate::protocol::play_status::Status;
use crate::protocol::player::{
    auth_input_of, decode_auth_input, AuthInput, ID_PLAYER_AUTH_INPUT,
    ID_SET_LOCAL_PLAYER_AS_INITIALIZED,
};
use crate::protocol::resource_packs::{
    decode_response, response_from, Response, ID_RESOURCE_PACK_CLIENT_RESPONSE,
};
use crate::server::stage::Stage;
use crate::server::streaming::SERVER_CHUNK_RADIUS;
use vstd::prelude::*;

verus! {

/// What a packet sent in the clear asks for.
#[derive(Debug, Clone, Copy, PartialEq, Eq, Structural)]
pub enum ClearStep {
    /// Answer with the network settings; the client declared this protocol (zero when
    /// its request was too short to say).
    Settings { client_protocol: u32 },
    /// Verify a login.
    Login,
    /// The client accepted our handshake.
    Handshake,
    /// Report a packet not handled yet.
    Unhandled,
}

/// What a packet sent in the clear asks for, by its id and body.
pub open spec fn clear_step_of(id: u32, body: Seq<u8>) -> ClearStep {
    if id == ID_REQUEST_NETWORK_SETTINGS {
        ClearStep::Settings {
            client_protocol: if body.len() >= 4 {
                be32_value(body)
            } else {
                0
            },
        }
    } else if id == ID_LOGIN {
        ClearStep::Login
    } else if id == ID_CLIENT_TO_SERVER_HANDSHAKE {
        ClearStep::Handshake
    } else {
        ClearStep::Unhandled
    }
}

/// Looks up what a packet sent in the clear asks for.
pub fn clear_step(packet: &Packet) -> (step: ClearStep)
    ensures
        step == clear_step_of(packet.id, packet.body@),
{
    if packet.id == ID_REQUEST_NETWORK_SETTINGS {
        let client_protocol = match crate::protocol::handshake::RequestNetworkSettings::decode(
            packet.body.as_slice(),
        ) {
            Ok(request) => request.client_protocol,
            Err(_) => 0,
        };
        ClearStep::Settings { client_protocol }
    } else if packet.id == ID_LOGIN {
        ClearStep::Login
    } else if packet.id == ID_CLIENT_TO_SERVER_HANDSHAKE {
        ClearStep::Handshake
    } else {
        ClearStep::Unhandled
    }
}

/// What follows a client's answer to the pack offer.
#[derive(Debug, Clone, Copy, PartialEq, Eq, Structural)]
pub enum PackFollowUp {
    /// Send the (empty) pack stack.
    SendStack,
    /// Send the world description; and the three empty registries too, when bisecting
    /// stops at the world.
    SendWorld { registries: bool },
    /// Nothing to send.
    Nothing,
}

/// What a packet out of the encrypted stream asks for.
#[derive(Debug, Clone, Copy, PartialEq, Eq, Structural)]
pub enum EncryptedStep {
    /// The client switched to the encrypted stream: tell it where its login stands,
    /// and offer packs when it stands well.
    Handshake { status: Status, offer_packs: bool },
    /// The client answered the pack offer.
    Packs { response: Response, follow_up: PackFollowUp },
    /// The client asked for a view distance and is granted one; the world is streamed
    /// when bisecting runs that far.
    Radius { requested: i32, granted: i32, stream: bool },
    /// The client says the player is standing in the world.
    Initialized,
    /// The client reported where the player is.
    Moved(AuthInput),
    /// Nothing to do: a loading screen narrated, a request the stage stops before, or
    /// a body that did not decode.
    Nothing,
    /// Report a packet that decrypted but is not handled yet.
    Decrypted { id: u32, len: usize },
}

/// Where a login stands, from the protocol the client declared at login (ours, when
/// it declared none): the side that is behind, or success.
pub open spec fn handshake_status_of(declared: Option<u32>, target: u32) -> Status {
    let d = match declared {
        Some(d) => d,
        None => target,
    };
    if d == target {
        Status::LoginSuccess
    } else if d < target {
        Status::ClientOutdated
    } else {
        Status::ServerOutdated
    }
}

/// What follows a pack response at a stage. With an empty offer a client answers
/// "have all packs" and then "completed", and each gets its own follow-up.
pub open spec fn pack_follow_up_of(response: Response, stage: Stage) -> PackFollowUp {
    match response {
        Response::DownloadingFinished => PackFollowUp::SendStack,
        Response::StackFinished => PackFollowUp::SendWorld { registries: stage == Stage::World },
        _ => PackFollowUp::Nothing,
    }
}

/// Whether stage `a` runs at least as far as stage `b`.
pub open spec fn runs_to(a: Stage, b: Stage) -> bool {
    stage_rank(a) >= stage_rank(b)
}

/// The order of the stages.
pub open spec fn stage_rank(s: Stage) -> int {
    match s {
        Stage::StartGame => 0,
        Stage::World => 1,
        Stage::Radius => 2,
        Stage::Chunks => 3,
        Stage::Spawn => 4,
    }
}

/// The radius granted for a request: the request clamped to at least one and at most
/// the server's radius.
pub open spec fn granted_of(r: Request) -> i32 {
    if r.radius < 1 {
        1
    } else if r.radius > SERVER_CHUNK_RADIUS {
        SERVER_CHUNK_RADIUS
    } else {
        r.radius
    }
}

/// What a packet out of the encrypted stream asks for, by its id and body, at a stage
/// and for a client that declared `declared` at login.
pub open spec fn encrypted_step_of(
    id: u32,
    body: Seq<u8>,
    stage: Stage,
    declared: Option<u32>,
    target: u32,
) -> EncryptedStep {
    if id == ID_CLIENT_TO_SERVER_HANDSHAKE {
        let status = handshake_status_of(declared, target);
        EncryptedStep::Handshake { status, offer_packs: status == Status::LoginSuccess }
    } else if id == ID_RESOURCE_PACK_CLIENT_RESPONSE {
        if body.len() >= 1 && response_from(body[0]) is Some {
            let response = response_from(body[0])->Some_0;
            EncryptedStep::Packs { response, follow_up: pack_follow_up_of(response, stage) }
        } else {
            EncryptedStep::Nothing
        }
    } else if id == ID_REQUEST_CHUNK_RADIUS {
        match decode_request_spec(body) {
            Ok(request) => if runs_to(stage, Stage::Radius) {
                EncryptedStep::Radius {
                    requested: request.radius,
                    granted: granted_of(request),
                    stream: runs_to(stage, Stage::Chunks),
                }
            } else {
                EncryptedStep::Nothing
            },
            Err(_) => EncryptedStep::Nothing,
        }
    } else if id == ID_SERVERBOUND_LOADING_SCREEN {
        EncryptedStep::Nothing
    } else if id == ID_SET_LOCAL_PLAYER_AS_INITIALIZED {
        EncryptedStep::Initialized
    } else if id == ID_PLAYER_AUTH_INPUT {
        if body.len() >= 20 {
            EncryptedStep::Moved(auth_input_of(body))
        } else {
            EncryptedStep::Nothing
        }
    } else {
        EncryptedStep::Decrypted { id, len: body.len() as usize }
    }
}

/// The order of a stage, counted.
fn rank(s: Stage) -> (n: u8)
    ensures
        n == stage_rank(s),
{
    match s {
        Stage::StartGame => 0,
        Stage::World => 1,
        Stage::Radius => 2,
        Stage::Chunks => 3,
        Stage::Spawn => 4,
    }
}

/// Whether stage `a` runs at least as far as stage `b`.
pub(crate) fn stage_at_least(a: Stage, b: Stage) -> (r: bool)
    ensures
        r == runs_to(a, b),
{
    rank(a) >= rank(b)
}

/// Looks up what a packet out of the encrypted stream asks for.
pub fn encrypted_step(packet: &Packet, stage: Stage, declared: Option<u32>, target: u32) -> (step:
    EncryptedStep)
    ensures
        step == encrypted_step_of(packet.id, packet.body@, stage, declared, target),
{
    let body = packet.body.as_slice();
    if packet.id == ID_CLIENT_TO_SERVER_HANDSHAKE {
        // The verdict names the side that is behind, so a mismatched player is told to
        // update the right thing instead of watching a blank screen.
        let d = match declared {
            Some(d) => d,
            None => target,
        };
        let status = match Status::for_version_mismatch(d, target) {
            Some(s) => s,
            None => Status::LoginSuccess,
        };
        let offer_packs = match status {
            Status::LoginSuccess => true,
            _ => false,
        };
        EncryptedStep::Handshake { status, offer_packs }
    } else if packet.id == ID_RESOURCE_PACK_CLIENT_RESPONSE {
        match decode_response(body) {
            Ok(Some(response)) => {
                // Observed against a real client: with an empty offer it answers that
                // it has everything straight away, then that it is done.
                let follow_up = match response {
                    Response::DownloadingFinished => PackFollowUp::SendStack,
                    Response::StackFinished => PackFollowUp::SendWorld {
                        registries: match stage {
                            Stage::World => true,
                            _ => false,
                        },
                    },
                    _ => PackFollowUp::Nothing,
                };
                EncryptedStep::Packs { response, follow_up }
            },
            _ => EncryptedStep::Nothing,
        }
    } else if packet.id == ID_REQUEST_CHUNK_RADIUS {
        match decode_request(body) {
            Ok(request) => {
                if !stage_at_least(stage, Stage::Radius) {
                    return EncryptedStep::Nothing;
                }
                let granted = grant(&request, SERVER_CHUNK_RADIUS);
                EncryptedStep::Radius {
                    requested: request.radius,
                    granted,
                    stream: stage_at_least(stage, Stage::Chunks),
                }
            },
            Err(_) => EncryptedStep::Nothing,
        }
    } else if packet.id == ID_SERVERBOUND_LOADING_SCREEN {
        // The client narrating its own loading screen. Nothing is expected back.
        EncryptedStep::Nothing
    } else if packet.id == ID_SET_LOCAL_PLAYER_AS_INITIALIZED {
        EncryptedStep::Initialized
    } else if packet.id == ID_PLAYER_AUTH_INPUT {
        match decode_auth_input(body) {
            Ok(input) => EncryptedStep::Moved(input),
            Err(_) => EncryptedStep::Nothing,
        }
    } else {
        EncryptedStep::Decrypted { id: packet.id, len: body.len() }
    }
}

/// The packets a decrypted payload holds, past the compression method byte that opens
/// it (nothing, for an empty payload).
pub open spec fn decrypted_packets_of(plaintext: Seq<u8>) -> Result<Seq<PacketView>, DecodeError> {
    parse_packets(
        if plaintext.len() >= 1 {
            plaintext.skip(1)
        } else {
            Seq::<u8>::empty()
        },
    )
}

/// Splits a decrypted payload into its packets.
pub fn decrypted_packets(plaintext: &[u8]) -> (res: Result<Vec<Packet>, DecodeError>)
    ensures
        match decrypted_packets_of(plaintext@) {
            Ok(ps) => res matches Ok(v) && packets_view(v@) == ps,
            Err(e) => res == Err::<Vec<Packet>, DecodeError>(e),
        },
{
    let rest = if plaintext.len() >= 1 {
        vstd::slice::slice_subrange(plaintext, 1, plaintext.len())
    } else {
        plaintext
    };
    proof {
        if plaintext@.len() >= 1 {
            assert(rest@ =~= plaintext@.skip(1));
        } else {
            assert(rest@ =~= Seq::<u8>::empty());
        }
    }
    crate::protocol::batch::decode_packets(Reader::new(rest))
}

/// The ciphertext of an encrypted payload: everything after the batch marker, which
/// stays in the clear so the receiver recognises the payload at all.
pub fn ciphertext_of(payload: &[u8]) -> (body: Option<&[u8]>)
    ensures
        payload@.len() >= 1 && payload@[0] == MARKER ==> (body matches Some(b) && b@
            == payload@.skip(1)),
        !(payload@.len() >= 1 && payload@[0] == MARKER) ==> body is None,
{
    if payload.len() >= 1 && payload[0] == MARKER {
        let body = vstd::slice::slice_subrange(payload, 1, payload.len());
        proof {
            assert(body@ =~= payload@.skip(1));
        }
        Some(body)
    } else {
        None
    }
}

} // verus!
