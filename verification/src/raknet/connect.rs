//! Connection opening: MTU discovery, still unframed and in the clear.
//!
//! ```text
//! client  OpenConnectionRequest1  ──►  padded to the MTU being probed
//!         OpenConnectionReply1    ◄──  server GUID, security flag, agreed MTU
//!         OpenConnectionRequest2  ──►  server address, MTU, client GUID
//!         OpenConnectionReply2    ◄──  client address as the server sees it
//! ```
//!
//! When the server sets its security flag it also sends a cookie, which the client must
//! echo in request 2: a spoofed source address never receives the cookie. A protocol
//! version mismatch is answered with [`IncompatibleProtocolVersion`], which carries the
//! version the server does speak.
use crate::blocks::bytes_equal;
use crate::num::{be16, be16_value, be32, be32_value, be64, be64_value};
use crate::raknet::address::{address_bytes, address_read, read as read_address, write as write_address, Address, AddressError, AddressView};
use crate::raknet::wire::{short, DecodeError, Reader, Writer};
use crate::raknet::{magic, magic_bytes, MAX_MTU, UDP_IP_OVERHEAD};
use vstd::prelude::*;

verus! {

/// `OpenConnectionRequest1`.
pub const ID_OPEN_CONNECTION_REQUEST_1: u8 = 0x05;

/// `OpenConnectionReply1`.
pub const ID_OPEN_CONNECTION_REPLY_1: u8 = 0x06;

/// `OpenConnectionRequest2`.
pub const ID_OPEN_CONNECTION_REQUEST_2: u8 = 0x07;

/// `OpenConnectionReply2`.
pub const ID_OPEN_CONNECTION_REPLY_2: u8 = 0x08;

/// `IncompatibleProtocolVersion`.
pub const ID_INCOMPATIBLE_PROTOCOL_VERSION: u8 = 0x19;

/// RakNet protocol version spoken by current Bedrock clients.
pub const PROTOCOL_VERSION: u8 = 11;

/// MTU sizes to probe, largest first: a server answers with the size of the largest
/// request 1 that reached it, so the walk down is for paths that drop anything bigger.
pub const MTU_LADDER: [usize; 3] = [MAX_MTU, 1200, 576];

/// Why an opening packet did not decode.
#[derive(Debug, Clone, PartialEq, Eq, Structural)]
pub enum ConnectError {
    /// The buffer ended early.
    Truncated(DecodeError),
    /// The first byte was not the expected packet id.
    UnexpectedId {
        /// The id required.
        expected: u8,
        /// The id found.
        found: u8,
    },
    /// The 16-byte constant was missing or wrong.
    BadMagic,
    /// An embedded address did not decode.
    Address(AddressError),
}

/// What checking a packet's id and magic yields.
pub open spec fn expect_read(s: Seq<u8>, id: u8) -> Result<(), ConnectError> {
    if s.len() < 1 {
        Err(ConnectError::Truncated(short(1, s)))
    } else if s[0] != id {
        Err(ConnectError::UnexpectedId { expected: id, found: s[0] })
    } else if s.len() < 17 {
        Err(ConnectError::Truncated(short(16, s.skip(1))))
    } else if s.subrange(1, 17) != magic() {
        Err(ConnectError::BadMagic)
    } else {
        Ok(())
    }
}

/// Checks a packet's id and the magic after it.
fn expect(r: &mut Reader, id: u8) -> (res: Result<(), ConnectError>)
    ensures
        res == expect_read(old(r)@, id),
        res is Ok ==> final(r)@ == old(r)@.skip(17),
{
    let ghost s = r@;
    let found = match r.u8() {
        Ok(v) => v,
        Err(e) => return Err(ConnectError::Truncated(e)),
    };
    if found != id {
        return Err(ConnectError::UnexpectedId { expected: id, found });
    }
    let m = match r.bytes(16) {
        Ok(v) => v,
        Err(e) => return Err(ConnectError::Truncated(e)),
    };
    proof {
        assert(s.skip(1).skip(16) =~= s.skip(17));
        assert(s.skip(1).take(16) =~= s.subrange(1, 17));
    }
    let expected = magic_bytes();
    if !bytes_equal(m, expected.as_slice()) {
        return Err(ConnectError::BadMagic);
    }
    Ok(())
}

/// `OpenConnectionRequest1` for a probe of `mtu` bytes.
pub open spec fn request_1_bytes(mtu: nat) -> Seq<u8> {
    seq![ID_OPEN_CONNECTION_REQUEST_1] + magic() + seq![PROTOCOL_VERSION] + Seq::new(
        (mtu - 18) as nat,
        |i: int| 0u8,
    )
}

/// Builds `OpenConnectionRequest1`, padded so the whole datagram is `mtu` bytes, or
/// `None` when `mtu` is smaller than the packet's fixed part.
pub fn encode_request_1(mtu: usize) -> (out: Option<Vec<u8>>)
    ensures
        mtu < 18 ==> out is None,
        mtu >= 18 ==> (out matches Some(v) && v@ == request_1_bytes(mtu as nat)),
{
    if mtu < 18 {
        return None;
    }
    let padding = mtu - 18;
    let m = magic_bytes();
    let mut w = Writer::new();
    w.u8(ID_OPEN_CONNECTION_REQUEST_1).bytes(m.as_slice()).u8(PROTOCOL_VERSION).zeros(padding);
    let out = w.finish();
    proof {
        assert(out@ =~= request_1_bytes(mtu as nat));
    }
    Some(out)
}

/// Usable datagram payload for an MTU: what the IP and UDP headers leave.
pub fn payload_limit(mtu: u16) -> (n: usize)
    ensures
        n == (if mtu >= 28 {
            mtu - 28
        } else {
            0
        }),
{
    (mtu as usize).saturating_sub(UDP_IP_OVERHEAD)
}

/// A decoded `OpenConnectionReply1`.
#[derive(Debug, Clone, Copy, PartialEq, Eq, Structural)]
pub struct Reply1 {
    /// The server's GUID.
    pub server_guid: i64,
    /// Cookie to echo in request 2, present when the server enables security.
    pub cookie: Option<u32>,
    /// The MTU the server agrees to.
    pub mtu: u16,
}

/// What decoding an `OpenConnectionReply1` yields.
pub open spec fn reply_1_read(s: Seq<u8>) -> Result<Reply1, ConnectError> {
    match expect_read(s, ID_OPEN_CONNECTION_REPLY_1) {
        Err(e) => Err(e),
        Ok(_) => if s.len() < 25 {
            Err(ConnectError::Truncated(short(8, s.skip(17))))
        } else if s.len() < 26 {
            Err(ConnectError::Truncated(short(1, s.skip(25))))
        } else if s[25] != 0 {
            if s.len() < 30 {
                Err(ConnectError::Truncated(short(4, s.skip(26))))
            } else if s.len() < 32 {
                Err(ConnectError::Truncated(short(2, s.skip(30))))
            } else {
                Ok(
                    Reply1 {
                        server_guid: be64_value(s.skip(17)) as i64,
                        cookie: Some(be32_value(s.skip(26))),
                        mtu: be16_value(s.skip(30)),
                    },
                )
            }
        } else if s.len() < 28 {
            Err(ConnectError::Truncated(short(2, s.skip(26))))
        } else {
            Ok(Reply1 { server_guid: be64_value(s.skip(17)) as i64, cookie: None, mtu: be16_value(s.skip(26)) })
        },
    }
}

/// Decodes `OpenConnectionReply1`. The cookie, when there is one, shifts the MTU field.
pub fn decode_reply_1(buf: &[u8]) -> (res: Result<Reply1, ConnectError>)
    ensures
        res == reply_1_read(buf@),
{
    let ghost s = buf@;
    let mut r = Reader::new(buf);
    match expect(&mut r, ID_OPEN_CONNECTION_REPLY_1) {
        Ok(()) => {},
        Err(e) => return Err(e),
    }
    let server_guid = match r.i64() {
        Ok(v) => v,
        Err(e) => return Err(ConnectError::Truncated(e)),
    };
    proof {
        assert(s.skip(17).skip(8) =~= s.skip(25));
    }
    let secure = match r.u8() {
        Ok(v) => v,
        Err(e) => return Err(ConnectError::Truncated(e)),
    };
    proof {
        assert(s.skip(25).skip(1) =~= s.skip(26));
        assert(s.skip(25)[0] == s[25]);
    }
    let cookie = if secure != 0 {
        let c = match r.u32() {
            Ok(v) => v,
            Err(e) => return Err(ConnectError::Truncated(e)),
        };
        proof {
            assert(s.skip(26).skip(4) =~= s.skip(30));
        }
        Some(c)
    } else {
        None
    };
    let mtu = match r.u16() {
        Ok(v) => v,
        Err(e) => return Err(ConnectError::Truncated(e)),
    };
    Ok(Reply1 { server_guid, cookie, mtu })
}

/// `OpenConnectionRequest2` on the wire.
pub open spec fn request_2_bytes(server: AddressView, mtu: u16, client_guid: i64, cookie: Option<u32>) -> Seq<u8> {
    seq![ID_OPEN_CONNECTION_REQUEST_2] + magic() + match cookie {
        Some(c) => be32(c) + seq![0u8],
        None => Seq::empty(),
    } + address_bytes(server) + be16(mtu) + be64(client_guid as u64)
}

/// Builds `OpenConnectionRequest2`. The cookie from reply 1, when there was one, goes
/// first, followed by a flag saying no client key follows.
pub fn encode_request_2(server: Address, mtu: u16, client_guid: i64, cookie: Option<u32>) -> (out: Vec<u8>)
    ensures
        out@ == request_2_bytes(server@, mtu, client_guid, cookie),
{
    let m = magic_bytes();
    let mut w = Writer::new();
    w.u8(ID_OPEN_CONNECTION_REQUEST_2).bytes(m.as_slice());
    let ghost head = w@;
    match cookie {
        Some(c) => {
            w.u32(c).u8(0);
        },
        None => {},
    }
    let ghost mid = w@;
    write_address(&mut w, server);
    w.u16(mtu).i64(client_guid);
    let out = w.finish();
    proof {
        assert(out@ =~= request_2_bytes(server@, mtu, client_guid, cookie));
    }
    out
}

/// A decoded `OpenConnectionReply2`.
#[derive(Debug, Clone, Copy, PartialEq, Eq)]
pub struct Reply2 {
    /// The server's GUID.
    pub server_guid: i64,
    /// Our address, as the server sees it.
    pub client_addr: Address,
    /// The MTU both sides use from here on.
    pub mtu: u16,
    /// Whether the server enabled encryption at the RakNet layer. Bedrock does not.
    pub encryption_enabled: bool,
}

impl View for Reply2 {
    type V = (i64, AddressView, u16, bool);

    open spec fn view(&self) -> (i64, AddressView, u16, bool) {
        (self.server_guid, self.client_addr@, self.mtu, self.encryption_enabled)
    }
}

/// What decoding an `OpenConnectionReply2` yields.
pub open spec fn reply_2_read(s: Seq<u8>) -> Result<(i64, AddressView, u16, bool), ConnectError> {
    match expect_read(s, ID_OPEN_CONNECTION_REPLY_2) {
        Err(e) => Err(e),
        Ok(_) => if s.len() < 25 {
            Err(ConnectError::Truncated(short(8, s.skip(17))))
        } else {
            match address_read(s.skip(25), true).0 {
                Err(e) => Err(ConnectError::Address(e)),
                Ok(addr) => {
                    let t = s.skip(32);
                    if t.len() < 2 {
                        Err(ConnectError::Truncated(short(2, t)))
                    } else if t.len() < 3 {
                        Err(ConnectError::Truncated(short(1, t.skip(2))))
                    } else {
                        Ok((be64_value(s.skip(17)) as i64, addr, be16_value(t), t[2] != 0))
                    }
                },
            }
        },
    }
}

/// Decodes `OpenConnectionReply2`.
pub fn decode_reply_2(buf: &[u8]) -> (res: Result<Reply2, ConnectError>)
    ensures
        match reply_2_read(buf@) {
            Ok(v) => res matches Ok(r) && r@ == v,
            Err(e) => res == Err::<Reply2, ConnectError>(e),
        },
{
    let ghost s = buf@;
    let mut r = Reader::new(buf);
    match expect(&mut r, ID_OPEN_CONNECTION_REPLY_2) {
        Ok(()) => {},
        Err(e) => return Err(e),
    }
    let server_guid = match r.i64() {
        Ok(v) => v,
        Err(e) => return Err(ConnectError::Truncated(e)),
    };
    proof {
        assert(s.skip(17).skip(8) =~= s.skip(25));
    }
    let client_addr = match read_address(&mut r) {
        Ok(a) => a,
        Err(e) => return Err(ConnectError::Address(e)),
    };
    proof {
        assert(s.skip(25).skip(7) =~= s.skip(32));
    }
    let mtu = match r.u16() {
        Ok(v) => v,
        Err(e) => return Err(ConnectError::Truncated(e)),
    };
    proof {
        if s.len() >= 35 {
            assert(s.skip(32).skip(2)[0] == s.skip(32)[2]);
        }
    }
    let flag = match r.u8() {
        Ok(v) => v,
        Err(e) => return Err(ConnectError::Truncated(e)),
    };
    Ok(Reply2 { server_guid, client_addr, mtu, encryption_enabled: flag != 0 })
}

/// A decoded `IncompatibleProtocolVersion`.
#[derive(Debug, Clone, Copy, PartialEq, Eq, Structural)]
pub struct IncompatibleProtocolVersion {
    /// The RakNet protocol version the server speaks.
    pub server_protocol: u8,
    /// The server's GUID.
    pub server_guid: i64,
}

/// What decoding an `IncompatibleProtocolVersion` yields.
pub open spec fn incompatible_read(s: Seq<u8>) -> Result<IncompatibleProtocolVersion, ConnectError> {
    if s.len() < 1 {
        Err(ConnectError::Truncated(short(1, s)))
    } else if s[0] != ID_INCOMPATIBLE_PROTOCOL_VERSION {
        Err(ConnectError::UnexpectedId { expected: ID_INCOMPATIBLE_PROTOCOL_VERSION, found: s[0] })
    } else if s.len() < 2 {
        Err(ConnectError::Truncated(short(1, s.skip(1))))
    } else if s.len() < 18 {
        Err(ConnectError::Truncated(short(16, s.skip(2))))
    } else if s.subrange(2, 18) != magic() {
        Err(ConnectError::BadMagic)
    } else if s.len() < 26 {
        Err(ConnectError::Truncated(short(8, s.skip(18))))
    } else {
        Ok(IncompatibleProtocolVersion { server_protocol: s[1], server_guid: be64_value(s.skip(18)) as i64 })
    }
}

/// Decodes `IncompatibleProtocolVersion`.
pub fn decode_incompatible(buf: &[u8]) -> (res: Result<IncompatibleProtocolVersion, ConnectError>)
    ensures
        res == incompatible_read(buf@),
{
    let ghost s = buf@;
    let mut r = Reader::new(buf);
    let found = match r.u8() {
        Ok(v) => v,
        Err(e) => return Err(ConnectError::Truncated(e)),
    };
    if found != ID_INCOMPATIBLE_PROTOCOL_VERSION {
        return Err(ConnectError::UnexpectedId { expected: ID_INCOMPATIBLE_PROTOCOL_VERSION, found });
    }
    let server_protocol = match r.u8() {
        Ok(v) => v,
        Err(e) => return Err(ConnectError::Truncated(e)),
    };
    proof {
        assert(s.skip(1).skip(1) =~= s.skip(2));
        assert(s.skip(1)[0] == s[1]);
    }
    let m = match r.bytes(16) {
        Ok(v) => v,
        Err(e) => return Err(ConnectError::Truncated(e)),
    };
    proof {
        assert(s.skip(2).skip(16) =~= s.skip(18));
        assert(s.skip(2).take(16) =~= s.subrange(2, 18));
    }
    let expected = magic_bytes();
    if !bytes_equal(m, expected.as_slice()) {
        return Err(ConnectError::BadMagic);
    }
    let server_guid = match r.i64() {
        Ok(v) => v,
        Err(e) => return Err(ConnectError::Truncated(e)),
    };
    Ok(IncompatibleProtocolVersion { server_protocol, server_guid })
}

} // verus!
