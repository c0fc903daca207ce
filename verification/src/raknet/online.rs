//! Packets carried inside frames, once the connection is open.
use crate::num::{be16_value, be64, be64_value};
use crate::raknet::address::{
    address_bytes, address_read, read as read_address, unassigned, write as write_address, Address,
    AddressError, AddressView,
};
use crate::raknet::wire::{short, DecodeError, Reader, Writer};
use vstd::prelude::*;

verus! {

/// `ConnectedPing`.
pub const ID_CONNECTED_PING: u8 = 0x00;

/// `ConnectedPong`.
pub const ID_CONNECTED_PONG: u8 = 0x03;

/// `ConnectionRequest`.
pub const ID_CONNECTION_REQUEST: u8 = 0x09;

/// `ConnectionRequestAccepted`.
pub const ID_CONNECTION_REQUEST_ACCEPTED: u8 = 0x10;

/// `NewIncomingConnection`.
pub const ID_NEW_INCOMING_CONNECTION: u8 = 0x13;

/// `Disconnect`.
pub const ID_DISCONNECT: u8 = 0x15;

/// Address slots emitted when there is no received count to mirror.
pub const SYSTEM_ADDRESS_COUNT: usize = 20;

/// Why a connected packet did not decode.
#[derive(Debug, Clone, PartialEq, Eq, Structural)]
pub enum OnlineError {
    /// The buffer ended early.
    Truncated(DecodeError),
    /// The first byte was not the expected packet id.
    UnexpectedId {
        /// The id required.
        expected: u8,
        /// The id found.
        found: u8,
    },
    /// An embedded address did not decode.
    Address(AddressError),
}

/// `ConnectionRequest` on the wire.
pub open spec fn connection_request_bytes(client_guid: i64, time: i64) -> Seq<u8> {
    seq![ID_CONNECTION_REQUEST] + be64(client_guid as u64) + be64(time as u64) + seq![0u8]
}

/// Builds `ConnectionRequest`.
pub fn encode_connection_request(client_guid: i64, time: i64) -> (out: Vec<u8>)
    ensures
        out@ == connection_request_bytes(client_guid, time),
{
    let mut w = Writer::new();
    w.u8(ID_CONNECTION_REQUEST).i64(client_guid).i64(time).u8(0);
    let out = w.finish();
    proof {
        assert(out@ =~= connection_request_bytes(client_guid, time));
    }
    out
}

/// Builds `ConnectedPing`.
pub fn encode_connected_ping(time: i64) -> (out: Vec<u8>)
    ensures
        out@ == seq![ID_CONNECTED_PING] + be64(time as u64),
{
    let mut w = Writer::new();
    w.u8(ID_CONNECTED_PING).i64(time);
    let out = w.finish();
    proof {
        assert(out@ =~= seq![ID_CONNECTED_PING] + be64(time as u64));
    }
    out
}

/// A decoded `ConnectedPong`.
#[derive(Debug, Clone, Copy, PartialEq, Eq, Structural)]
pub struct ConnectedPong {
    /// The timestamp from our ping.
    pub ping_time: i64,
    /// The server's timestamp.
    pub pong_time: i64,
}

/// What decoding a `ConnectedPong` yields.
pub open spec fn connected_pong_read(s: Seq<u8>) -> Result<ConnectedPong, OnlineError> {
    if s.len() < 1 {
        Err(OnlineError::Truncated(short(1, s)))
    } else if s[0] != ID_CONNECTED_PONG {
        Err(OnlineError::UnexpectedId { expected: ID_CONNECTED_PONG, found: s[0] })
    } else if s.len() < 9 {
        Err(OnlineError::Truncated(short(8, s.skip(1))))
    } else if s.len() < 17 {
        Err(OnlineError::Truncated(short(8, s.skip(9))))
    } else {
        Ok(ConnectedPong { ping_time: be64_value(s.skip(1)) as i64, pong_time: be64_value(s.skip(9)) as i64 })
    }
}

/// Decodes `ConnectedPong`.
pub fn decode_connected_pong(buf: &[u8]) -> (res: Result<ConnectedPong, OnlineError>)
    ensures
        res == connected_pong_read(buf@),
{
    let ghost s = buf@;
    let mut r = Reader::new(buf);
    let found = match r.u8() {
        Ok(v) => v,
        Err(e) => return Err(OnlineError::Truncated(e)),
    };
    if found != ID_CONNECTED_PONG {
        return Err(OnlineError::UnexpectedId { expected: ID_CONNECTED_PONG, found });
    }
    let ping_time = match r.i64() {
        Ok(v) => v,
        Err(e) => return Err(OnlineError::Truncated(e)),
    };
    proof {
        assert(s.skip(1).skip(8) =~= s.skip(9));
    }
    let pong_time = match r.i64() {
        Ok(v) => v,
        Err(e) => return Err(OnlineError::Truncated(e)),
    };
    Ok(ConnectedPong { ping_time, pong_time })
}

/// Bytes after the address slots: two timestamps.
pub const TRAILING_TIMESTAMPS: usize = 16;

/// A decoded `ConnectionRequestAccepted`.
#[derive(Debug, Clone, PartialEq, Eq)]
pub struct ConnectionRequestAccepted {
    /// Our address, as the server sees it.
    pub client_addr: Address,
    /// The server's index for this connection.
    pub system_index: u16,
    /// Address slots, mostly the unassigned placeholder.
    pub system_addresses: Vec<Address>,
    /// The timestamp we sent in `ConnectionRequest`.
    pub request_time: i64,
    /// The server's own timestamp.
    pub accepted_time: i64,
}

/// A `ConnectionRequestAccepted` as the contracts see it.
pub type AcceptedView = (AddressView, u16, Seq<AddressView>, i64, i64);

/// The views of a list of addresses.
pub open spec fn addresses_view(a: Seq<Address>) -> Seq<AddressView> {
    a.map_values(|x: Address| x@)
}

/// What reading address slots gives: one address at a time for as long as more than
/// the two trailing timestamps are left, and how many bytes that took.
pub open spec fn slots_read(s: Seq<u8>) -> (Result<Seq<AddressView>, AddressError>, nat)
    decreases s.len(),
{
    if s.len() <= TRAILING_TIMESTAMPS {
        (Ok(Seq::empty()), 0)
    } else {
        match address_read(s, true) {
            (Err(e), n) => (Err(e), n),
            (Ok(a), _) => {
                let (rest, m) = slots_read(s.skip(7));
                (
                    match rest {
                        Ok(v) => Ok(seq![a] + v),
                        Err(e) => Err(e),
                    },
                    7 + m,
                )
            },
        }
    }
}

/// What decoding a `ConnectionRequestAccepted` yields. The slot count is inferred from
/// the length, never assumed.
pub open spec fn accepted_read(s: Seq<u8>) -> Result<AcceptedView, OnlineError> {
    if s.len() < 1 {
        Err(OnlineError::Truncated(short(1, s)))
    } else if s[0] != ID_CONNECTION_REQUEST_ACCEPTED {
        Err(OnlineError::UnexpectedId { expected: ID_CONNECTION_REQUEST_ACCEPTED, found: s[0] })
    } else {
        match address_read(s.skip(1), true).0 {
            Err(e) => Err(OnlineError::Address(e)),
            Ok(client) => {
                let t = s.skip(8);
                if t.len() < 2 {
                    Err(OnlineError::Truncated(short(2, t)))
                } else {
                    let (slots, n) = slots_read(t.skip(2));
                    match slots {
                        Err(e) => Err(OnlineError::Address(e)),
                        Ok(addrs) => {
                            let u = t.skip(2).skip(n as int);
                            if u.len() < 8 {
                                Err(OnlineError::Truncated(short(8, u)))
                            } else if u.len() < 16 {
                                Err(OnlineError::Truncated(short(8, u.skip(8))))
                            } else {
                                Ok(
                                    (
                                        client,
                                        be16_value(t),
                                        addrs,
                                        be64_value(u) as i64,
                                        be64_value(u.skip(8)) as i64,
                                    ),
                                )
                            }
                        },
                    }
                }
            },
        }
    }
}

/// Decodes `ConnectionRequestAccepted`.
pub fn decode_connection_request_accepted(buf: &[u8]) -> (res: Result<ConnectionRequestAccepted, OnlineError>)
    ensures
        match accepted_read(buf@) {
            Ok(v) => res matches Ok(a) && (a.client_addr@, a.system_index, addresses_view(
                a.system_addresses@,
            ), a.request_time, a.accepted_time) == v,
            Err(e) => res == Err::<ConnectionRequestAccepted, OnlineError>(e),
        },
{
    let ghost s = buf@;
    let mut r = Reader::new(buf);
    let found = match r.u8() {
        Ok(v) => v,
        Err(e) => return Err(OnlineError::Truncated(e)),
    };
    if found != ID_CONNECTION_REQUEST_ACCEPTED {
        return Err(OnlineError::UnexpectedId { expected: ID_CONNECTION_REQUEST_ACCEPTED, found });
    }
    let client_addr = match read_address(&mut r) {
        Ok(a) => a,
        Err(e) => return Err(OnlineError::Address(e)),
    };
    proof {
        assert(s.skip(1).skip(7) =~= s.skip(8));
    }
    let system_index = match r.u16() {
        Ok(v) => v,
        Err(e) => return Err(OnlineError::Truncated(e)),
    };
    let ghost start = r@;
    proof {
        assert(start == s.skip(8).skip(2));
    }
    let mut system_addresses: Vec<Address> = Vec::new();
    while r.remaining() > TRAILING_TIMESTAMPS
        invariant
            s == buf@,
            start == s.skip(8).skip(2),
            s.len() >= 1,
            s[0] == ID_CONNECTION_REQUEST_ACCEPTED,
            address_read(s.skip(1), true).0 == Ok::<AddressView, AddressError>(client_addr@),
            s.skip(8).len() >= 2,
            be16_value(s.skip(8)) == system_index,
            start.len() >= r@.len(),
            r@ == start.skip(start.len() - r@.len()),
            slots_read(start).0 == match slots_read(r@).0 {
                Ok(v) => Ok(addresses_view(system_addresses@) + v),
                Err(e) => Err::<Seq<AddressView>, AddressError>(e),
            },
            slots_read(start).1 == (start.len() - r@.len()) + slots_read(r@).1,
        decreases r@.len(),
    {
        let ghost before = r@;
        let a = match read_address(&mut r) {
            Ok(a) => a,
            Err(e) => {
                proof {
                    assert(slots_read(before).0 == Err::<Seq<AddressView>, AddressError>(e));
                }
                return Err(OnlineError::Address(e));
            },
        };
        proof {
            assert(r@ =~= start.skip(start.len() - r@.len()));
            assert(addresses_view(system_addresses@.push(a)) =~= addresses_view(system_addresses@).push(a@));
            assert(addresses_view(system_addresses@).push(a@) + match slots_read(r@).0 {
                Ok(v) => v,
                Err(e) => Seq::empty(),
            } =~= addresses_view(system_addresses@) + (seq![a@] + match slots_read(r@).0 {
                Ok(v) => v,
                Err(e) => Seq::empty(),
            }));
        }
        system_addresses.push(a);
    }
    proof {
        assert(addresses_view(system_addresses@) + Seq::<AddressView>::empty() =~= addresses_view(system_addresses@));
        assert(r@ == start.skip(slots_read(start).1 as int));
    }
    let request_time = match r.i64() {
        Ok(v) => v,
        Err(e) => return Err(OnlineError::Truncated(e)),
    };
    proof {
        assert(start.skip(slots_read(start).1 as int).skip(8) =~= r@);
    }
    let accepted_time = match r.i64() {
        Ok(v) => v,
        Err(e) => return Err(OnlineError::Truncated(e)),
    };
    Ok(ConnectionRequestAccepted { client_addr, system_index, system_addresses, request_time, accepted_time })
}

/// `slots` copies of the unassigned placeholder on the wire.
pub open spec fn placeholder_slots(slots: nat) -> Seq<u8>
    decreases slots,
{
    if slots == 0 {
        Seq::empty()
    } else {
        placeholder_slots((slots - 1) as nat) + address_bytes((false, seq![255u8, 255, 255, 255], 0u16))
    }
}

/// `NewIncomingConnection` on the wire.
pub open spec fn new_incoming_bytes(server: AddressView, slots: nat, request_time: i64, accepted_time: i64) -> Seq<u8> {
    seq![ID_NEW_INCOMING_CONNECTION] + address_bytes(server) + placeholder_slots(slots) + be64(request_time as u64)
        + be64(accepted_time as u64)
}

/// Builds `NewIncomingConnection`. `slots` should mirror how many address slots the
/// server sent, since that is the count it is prepared to read back.
pub fn encode_new_incoming_connection(server: Address, slots: usize, request_time: i64, accepted_time: i64) -> (out: Vec<u8>)
    ensures
        out@ == new_incoming_bytes(server@, slots as nat, request_time, accepted_time),
{
    let mut w = Writer::new();
    w.u8(ID_NEW_INCOMING_CONNECTION);
    write_address(&mut w, server);
    let ghost head = w@;
    let mut i: usize = 0;
    while i < slots
        invariant
            i <= slots,
            w@ == head + placeholder_slots(i as nat),
        decreases slots - i,
    {
        write_address(&mut w, unassigned());
        proof {
            assert(w@ =~= head + placeholder_slots((i + 1) as nat));
        }
        i = i + 1;
    }
    w.i64(request_time).i64(accepted_time);
    let out = w.finish();
    proof {
        assert(out@ =~= new_incoming_bytes(server@, slots as nat, request_time, accepted_time));
    }
    out
}

/// Builds `Disconnect`.
pub fn encode_disconnect() -> (out: Vec<u8>)
    ensures
        out@ == seq![ID_DISCONNECT],
{
    let out = vec![ID_DISCONNECT];
    proof {
        assert(out@ =~= seq![ID_DISCONNECT]);
    }
    out
}

} // verus!
