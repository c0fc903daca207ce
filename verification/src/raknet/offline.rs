//! The offline phase: the packets exchanged before a connection exists.
//!
//! These travel in the clear and unframed: no sequence numbers, no reliability, no
//! encryption. The pong answers which protocol version a server speaks without any of
//! the rest of the stack existing.
use crate::blocks::bytes_equal;
use crate::num::{be16, be16_value, be64, be64_value};
use crate::raknet::wire::{short, DecodeError, Reader, Writer};
use crate::raknet::{magic, magic_bytes};
use crate::text::utf8;
use vstd::prelude::*;
use vstd::utf8::{decode_utf8, valid_utf8};

verus! {

broadcast use vstd::utf8::encode_utf8_decode_utf8;

/// Packet id of `UnconnectedPing`.
pub const ID_UNCONNECTED_PING: u8 = 0x01;

/// Packet id of `UnconnectedPong`.
pub const ID_UNCONNECTED_PONG: u8 = 0x1c;

/// Why a datagram was not the offline packet we expected.
#[derive(Debug, Clone, PartialEq, Eq, Structural)]
pub enum OfflineError {
    /// The buffer ended early.
    Truncated(DecodeError),
    /// The first byte was not the expected packet id.
    UnexpectedId {
        /// The id we required.
        expected: u8,
        /// The id actually present.
        found: u8,
    },
    /// The 16-byte constant was missing or wrong, so this is not RakNet.
    BadMagic,
    /// The advertisement string was not valid UTF-8.
    InvalidUtf8,
}

/// An `UnconnectedPing` on the wire.
pub open spec fn ping_bytes(time: i64, client_guid: i64) -> Seq<u8> {
    seq![ID_UNCONNECTED_PING] + be64(time as u64) + magic() + be64(client_guid as u64)
}

/// Builds an `UnconnectedPing`. `time` is echoed back by the server, so the round trip
/// can be measured; `client_guid` identifies this sender.
pub fn encode_unconnected_ping(time: i64, client_guid: i64) -> (out: Vec<u8>)
    ensures
        out@ == ping_bytes(time, client_guid),
{
    let m = magic_bytes();
    let mut w = Writer::new();
    w.u8(ID_UNCONNECTED_PING).i64(time).bytes(m.as_slice()).i64(client_guid);
    let out = w.finish();
    proof {
        assert(out@ =~= ping_bytes(time, client_guid));
    }
    out
}

/// A decoded `UnconnectedPong`.
#[derive(Debug, Clone, PartialEq, Eq)]
pub struct UnconnectedPong {
    /// The `time` from our ping, echoed back.
    pub time: i64,
    /// The server's GUID.
    pub server_guid: i64,
    /// The raw advertisement string: semicolon-separated fields carrying the MOTD,
    /// protocol version, player counts and more.
    pub advertisement: String,
}

/// A pong as the contracts see it: time, server GUID, advertisement.
pub type PongView = (i64, i64, Seq<char>);

/// What decoding an `UnconnectedPong` yields.
pub open spec fn pong_read(s: Seq<u8>) -> Result<PongView, OfflineError> {
    if s.len() < 1 {
        Err(OfflineError::Truncated(short(1, s)))
    } else if s[0] != ID_UNCONNECTED_PONG {
        Err(OfflineError::UnexpectedId { expected: ID_UNCONNECTED_PONG, found: s[0] })
    } else if s.len() < 9 {
        Err(OfflineError::Truncated(short(8, s.skip(1))))
    } else if s.len() < 17 {
        Err(OfflineError::Truncated(short(8, s.skip(9))))
    } else if s.len() < 33 {
        Err(OfflineError::Truncated(short(16, s.skip(17))))
    } else if s.subrange(17, 33) != magic() {
        Err(OfflineError::BadMagic)
    } else if s.len() < 35 {
        Err(OfflineError::Truncated(short(2, s.skip(33))))
    } else {
        let len = be16_value(s.skip(33)) as int;
        if s.len() < 35 + len {
            Err(OfflineError::Truncated(short(len as nat, s.skip(35))))
        } else if !valid_utf8(s.subrange(35, 35 + len)) {
            Err(OfflineError::InvalidUtf8)
        } else {
            Ok(
                (
                    be64_value(s.skip(1)) as i64,
                    be64_value(s.skip(9)) as i64,
                    decode_utf8(s.subrange(35, 35 + len)),
                ),
            )
        }
    }
}

/// Decodes an `UnconnectedPong`. The advertisement length is the peer's claim, but the
/// read only borrows: a lie costs a failed read, not an allocation.
pub fn decode_unconnected_pong(buf: &[u8]) -> (res: Result<UnconnectedPong, OfflineError>)
    ensures
        match pong_read(buf@) {
            Ok(p) => res matches Ok(x) && (x.time, x.server_guid, x.advertisement@) == p,
            Err(e) => res == Err::<UnconnectedPong, OfflineError>(e),
        },
{
    let ghost s = buf@;
    let mut r = Reader::new(buf);
    let id = match r.u8() {
        Ok(v) => v,
        Err(e) => return Err(OfflineError::Truncated(e)),
    };
    if id != ID_UNCONNECTED_PONG {
        return Err(OfflineError::UnexpectedId { expected: ID_UNCONNECTED_PONG, found: id });
    }
    let time = match r.i64() {
        Ok(v) => v,
        Err(e) => return Err(OfflineError::Truncated(e)),
    };
    proof {
        assert(s.skip(1).skip(8) =~= s.skip(9));
    }
    let server_guid = match r.i64() {
        Ok(v) => v,
        Err(e) => return Err(OfflineError::Truncated(e)),
    };
    proof {
        assert(s.skip(9).skip(8) =~= s.skip(17));
    }
    let m = match r.bytes(16) {
        Ok(v) => v,
        Err(e) => return Err(OfflineError::Truncated(e)),
    };
    proof {
        assert(s.skip(17).skip(16) =~= s.skip(33));
        assert(s.skip(17).take(16) =~= s.subrange(17, 33));
    }
    let expected = magic_bytes();
    if !bytes_equal(m, expected.as_slice()) {
        return Err(OfflineError::BadMagic);
    }
    let len = match r.u16() {
        Ok(v) => v,
        Err(e) => return Err(OfflineError::Truncated(e)),
    };
    proof {
        assert(s.skip(33).skip(2) =~= s.skip(35));
    }
    let text = match r.bytes(len as usize) {
        Ok(v) => v,
        Err(e) => return Err(OfflineError::Truncated(e)),
    };
    proof {
        assert(s.skip(35).take(len as int) =~= s.subrange(35, 35 + len));
    }
    let advertisement = match utf8(text) {
        Some(t) => t,
        None => return Err(OfflineError::InvalidUtf8),
    };
    let owned = advertisement.to_owned();
    Ok(UnconnectedPong { time, server_guid, advertisement: owned })
}

} // verus!
