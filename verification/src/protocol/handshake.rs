//! The packets that open a connection, before anything is encrypted.
//!
//! The client opens with `RequestNetworkSettings` and waits for `NetworkSettings`,
//! which decides the compression used from the next batch onwards.
use crate::num::{be32, be32_value, le16, le16_value, le32, le32_value};
use crate::protocol::batch::Packet;
use crate::protocol::bytes::{prefixed_encoding, prefixed_read, DecodeError, Reader, Writer};
use crate::text::utf8;
use vstd::prelude::*;
use vstd::string::StringSliceAdditionalSpecFns;
use vstd::utf8::valid_utf8;

verus! {

/// `RequestNetworkSettings`, client to server.
pub const ID_REQUEST_NETWORK_SETTINGS: u32 = 193;

/// `NetworkSettings`, server to client.
pub const ID_NETWORK_SETTINGS: u32 = 143;

/// `ServerToClientHandshake`, server to client. Carries the token that starts encryption.
pub const ID_SERVER_TO_CLIENT_HANDSHAKE: u32 = 3;

/// `ClientToServerHandshake`, client to server. Empty; its arrival is the message.
pub const ID_CLIENT_TO_SERVER_HANDSHAKE: u32 = 4;

/// How batches are compressed once negotiated.
#[derive(Debug, Clone, Copy, PartialEq, Eq, Structural)]
pub enum Compression {
    /// Raw deflate.
    ZLib,
    /// Snappy.
    Snappy,
    /// Nothing; packets follow the batch marker directly.
    Uncompressed,
}

/// The algorithm a wire value names, if any.
pub open spec fn compression_from(value: u16) -> Option<Compression> {
    if value == 0 {
        Some(Compression::ZLib)
    } else if value == 1 {
        Some(Compression::Snappy)
    } else if value == 2 {
        Some(Compression::Uncompressed)
    } else {
        None
    }
}

impl Compression {
    /// Reads the wire value.
    pub fn from_value(value: u16) -> (c: Option<Self>)
        ensures
            c == compression_from(value),
    {
        match value {
            0 => Some(Compression::ZLib),
            1 => Some(Compression::Snappy),
            2 => Some(Compression::Uncompressed),
            _ => None,
        }
    }

    /// The wire value.
    pub fn value(self) -> (v: u16)
        ensures
            compression_from(v) == Some(self),
    {
        match self {
            Compression::ZLib => 0,
            Compression::Snappy => 1,
            Compression::Uncompressed => 2,
        }
    }
}

/// The client's opening packet: the protocol version it speaks, and nothing else.
#[derive(Debug, Clone, Copy, PartialEq, Eq, Structural)]
pub struct RequestNetworkSettings {
    /// The protocol version the client speaks.
    pub client_protocol: u32,
}

impl RequestNetworkSettings {
    /// Decodes the packet body: one big-endian `u32`.
    pub fn decode(body: &[u8]) -> (res: Result<Self, DecodeError>)
        ensures
            body@.len() >= 4 ==> res == Ok::<Self, DecodeError>(
                RequestNetworkSettings { client_protocol: be32_value(body@) },
            ),
            body@.len() < 4 ==> res == Err::<Self, DecodeError>(
                DecodeError::UnexpectedEnd { needed: 4, available: body@.len() as usize },
            ),
    {
        Ok(RequestNetworkSettings { client_protocol: Reader::new(body).u32_be()? })
    }

    /// Encodes the packet body.
    pub fn encode(&self) -> (out: Vec<u8>)
        ensures
            out@ == be32(self.client_protocol),
    {
        let mut w = Writer::new();
        w.u32_be(self.client_protocol);
        w.finish()
    }
}

/// Decoding an encoded request gives it back.
pub proof fn lemma_request_round_trip(request: RequestNetworkSettings)
    ensures
        be32_value(be32(request.client_protocol)) == request.client_protocol,
{
    crate::num::lemma_fixed_width_round_trip(0, request.client_protocol, 0);
}

/// The server's answer, deciding compression and client-side throttling.
#[derive(Debug, Clone, Copy, PartialEq, Eq, Structural)]
pub struct NetworkSettings {
    /// Smallest payload worth compressing. Zero disables compression outright.
    pub compression_threshold: u16,
    /// Algorithm for every batch after this packet.
    pub compression: Compression,
    /// Whether the client should throttle how much it sends.
    pub client_throttle_enabled: bool,
    /// Player count above which the client throttles.
    pub client_throttle_threshold: u8,
    /// Scalar applied when throttling: an `f32`, held as its bit pattern.
    pub client_throttle_scalar: u32,
}

/// The ten bytes of a `NetworkSettings` body, in Mojang's ordinal order: threshold,
/// algorithm, throttle enabled, throttle threshold, throttle scalar.
pub open spec fn network_settings_body(s: NetworkSettings) -> Seq<u8> {
    le16(s.compression_threshold) + le16(compression_value(s.compression)) + seq![
        if s.client_throttle_enabled {
            1u8
        } else {
            0u8
        },
    ] + seq![s.client_throttle_threshold] + le32(s.client_throttle_scalar)
}

/// The wire value of an algorithm.
pub open spec fn compression_value(c: Compression) -> u16 {
    match c {
        Compression::ZLib => 0,
        Compression::Snappy => 1,
        Compression::Uncompressed => 2,
    }
}

/// What a `NetworkSettings` body decodes to: an unknown algorithm reads as
/// uncompressed, any non-zero flag as enabled.
pub open spec fn network_settings_of(body: Seq<u8>) -> Result<NetworkSettings, DecodeError> {
    if body.len() < 10 {
        Err(
            DecodeError::UnexpectedEnd {
                needed: if body.len() < 2 {
                    2
                } else if body.len() < 4 {
                    2
                } else if body.len() < 6 {
                    1
                } else {
                    4
                },
                available: if body.len() < 2 {
                    body.len() as usize
                } else if body.len() < 4 {
                    (body.len() - 2) as usize
                } else if body.len() < 6 {
                    0
                } else {
                    (body.len() - 6) as usize
                },
            },
        )
    } else {
        Ok(
            NetworkSettings {
                compression_threshold: le16_value(body),
                compression: match compression_from(le16_value(body.skip(2))) {
                    Some(c) => c,
                    None => Compression::Uncompressed,
                },
                client_throttle_enabled: body[4] != 0,
                client_throttle_threshold: body[5],
                client_throttle_scalar: le32_value(body.skip(6)),
            },
        )
    }
}

impl NetworkSettings {
    /// Settings that turn compression off, both by algorithm and by threshold, so that
    /// the login that follows can be read as plain bytes.
    pub fn uncompressed() -> (s: Self)
        ensures
            s == (NetworkSettings {
                compression_threshold: 0,
                compression: Compression::Uncompressed,
                client_throttle_enabled: false,
                client_throttle_threshold: 0,
                client_throttle_scalar: 0,
            }),
    {
        NetworkSettings {
            compression_threshold: 0,
            compression: Compression::Uncompressed,
            client_throttle_enabled: false,
            client_throttle_threshold: 0,
            client_throttle_scalar: 0,
        }
    }

    /// Encodes the packet body.
    pub fn encode(&self) -> (out: Vec<u8>)
        ensures
            out@ == network_settings_body(*self),
    {
        let mut w = Writer::new();
        w.u16(self.compression_threshold);
        w.u16(self.compression.value());
        w.u8(if self.client_throttle_enabled {
            1
        } else {
            0
        });
        w.u8(self.client_throttle_threshold);
        w.f32_bits(self.client_throttle_scalar);
        let out = w.finish();
        proof {
            assert(out@ =~= network_settings_body(*self));
        }
        out
    }

    /// Decodes the packet body.
    pub fn decode(body: &[u8]) -> (res: Result<Self, DecodeError>)
        ensures
            res == network_settings_of(body@),
    {
        let mut r = Reader::new(body);
        let compression_threshold = r.u16()?;
        let algorithm = r.u16()?;
        let compression = match Compression::from_value(algorithm) {
            Some(c) => c,
            None => Compression::Uncompressed,
        };
        let enabled = r.u8()?;
        let client_throttle_threshold = r.u8()?;
        let client_throttle_scalar = r.f32_bits()?;
        proof {
            assert(body@.skip(2).skip(2) =~= body@.skip(4));
            assert(body@.skip(4).skip(1) =~= body@.skip(5));
            assert(body@.skip(5).skip(1) =~= body@.skip(6));
        }
        Ok(NetworkSettings {
            compression_threshold,
            compression,
            client_throttle_enabled: enabled != 0,
            client_throttle_threshold,
            client_throttle_scalar,
        })
    }

    /// This packet, ready for a batch.
    pub fn packet(&self) -> (p: Packet)
        ensures
            p@ == (ID_NETWORK_SETTINGS, 0u8, 0u8, network_settings_body(*self)),
    {
        Packet::new(ID_NETWORK_SETTINGS, self.encode())
    }
}

/// Decoding encoded settings gives them back.
pub proof fn lemma_network_settings_round_trip(s: NetworkSettings)
    ensures
        network_settings_of(network_settings_body(s)) == Ok::<NetworkSettings, DecodeError>(s),
{
    let b = network_settings_body(s);
    crate::num::lemma_fixed_width_round_trip(s.compression_threshold, s.client_throttle_scalar, 0);
    crate::num::lemma_fixed_width_round_trip(compression_value(s.compression), 0, 0);
    assert(b.skip(2) =~= le16(compression_value(s.compression)) + b.skip(4));
    assert(b.take(2) =~= le16(s.compression_threshold));
    assert(b.skip(6) =~= le32(s.client_throttle_scalar));
    assert(le16_value(b) == le16_value(le16(s.compression_threshold)));
    assert(le16_value(b.skip(2)) == le16_value(le16(compression_value(s.compression))));
}

/// Wraps a signed handshake token in its packet, length-prefixed.
pub fn server_to_client_handshake(token: &str) -> (p: Packet)
    ensures
        p@ == (ID_SERVER_TO_CLIENT_HANDSHAKE, 0u8, 0u8, prefixed_encoding(token.spec_bytes())),
{
    let mut w = Writer::new();
    w.prefixed(token.as_bytes());
    Packet::new(ID_SERVER_TO_CLIENT_HANDSHAKE, w.finish())
}

/// Reads the token out of a `ServerToClientHandshake` body. Text that is not UTF-8
/// fails as `UnexpectedEnd { needed: 0, available: 0 }`.
pub fn decode_handshake_token(body: &[u8]) -> (res: Result<&str, DecodeError>)
    ensures
        match prefixed_read(body@) {
            Err(e) => res == Err::<&str, DecodeError>(e),
            Ok((token, _)) => if valid_utf8(token) {
                res matches Ok(s) && s.spec_bytes() == token
            } else {
                res == Err::<&str, DecodeError>(DecodeError::UnexpectedEnd { needed: 0, available: 0 })
            },
        },
{
    let mut r = Reader::new(body);
    let bytes = r.prefixed()?;
    match utf8(bytes) {
        Some(s) => Ok(s),
        None => Err(DecodeError::UnexpectedEnd { needed: 0, available: 0 }),
    }
}

} // verus!
