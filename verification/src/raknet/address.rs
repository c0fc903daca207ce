//! Socket addresses on the wire: a `u8` version tag, then for IPv4 four
//! bitwise-complemented octets and a big-endian port.
//!
//! The complement is a RakNet quirk. It matters because a misread address looks
//! plausible rather than broken: the two readings are complements of each other.
//!
//! Treat any decoded remote address as a claim by a peer about itself.
//!
//! IPv6 is not decoded. Its RakNet layout is a dump of a platform `sockaddr_in6` and
//! varies with where the peer was compiled; [`AddressError::UnsupportedVersion`] says
//! so rather than guessing.
use crate::num::{be16, be16_value};
use crate::raknet::wire::{short, DecodeError, Reader, Writer};
use vstd::prelude::*;

verus! {

/// Encoded size of an IPv4 address.
pub const IPV4_LEN: usize = 7;

/// The version tag of an IPv4 address.
pub const VERSION_IPV4: u8 = 4;

/// Why an address did not decode.
#[derive(Debug, Clone, PartialEq, Eq, Structural)]
pub enum AddressError {
    /// The buffer ended early.
    Truncated(DecodeError),
    /// A version tag that is not decoded.
    UnsupportedVersion(u8),
}

/// A socket address: an IPv4 or IPv6 host, and a port.
#[derive(Debug, Clone, Copy)]
pub enum Address {
    /// Four octets, most significant first.
    V4 {
        /// The host.
        octets: [u8; 4],
        /// The port.
        port: u16,
    },
    /// Sixteen octets, most significant first.
    V6 {
        /// The host.
        octets: [u8; 16],
        /// The port.
        port: u16,
    },
}

/// An address as the contracts see it: whether it is IPv6, its octets, its port.
pub type AddressView = (bool, Seq<u8>, u16);

impl View for Address {
    type V = AddressView;

    open spec fn view(&self) -> AddressView {
        match self {
            Address::V4 { octets, port } => (false, octets@, *port),
            Address::V6 { octets, port } => (true, octets@, *port),
        }
    }
}

/// Each byte with its bits flipped.
pub open spec fn complement(b: Seq<u8>) -> Seq<u8> {
    b.map_values(|x: u8| !x)
}

/// The IPv4 host and port an address goes on the wire as: itself, or for IPv6 the
/// placeholder `255.255.255.255:0`.
pub open spec fn wire_v4(a: AddressView) -> (Seq<u8>, u16) {
    if a.0 {
        (seq![255u8, 255, 255, 255], 0)
    } else {
        (a.1, a.2)
    }
}

/// An address on the wire.
pub open spec fn address_bytes(a: AddressView) -> Seq<u8> {
    seq![VERSION_IPV4] + complement(wire_v4(a).0) + be16(wire_v4(a).1)
}

/// What reading an address off the front of `s` gives, octets complemented back or
/// taken as they are, and how many bytes the read consumed.
pub open spec fn address_read(s: Seq<u8>, complemented: bool) -> (Result<AddressView, AddressError>, nat) {
    if s.len() < 1 {
        (Err(AddressError::Truncated(short(1, s))), 0)
    } else if s[0] != VERSION_IPV4 {
        (Err(AddressError::UnsupportedVersion(s[0])), 1)
    } else if s.len() < 5 {
        (Err(AddressError::Truncated(short(4, s.skip(1)))), 1)
    } else if s.len() < 7 {
        (Err(AddressError::Truncated(short(2, s.skip(5)))), 5)
    } else {
        let raw = s.subrange(1, 5);
        (
            Ok(
                (
                    false,
                    if complemented {
                        complement(raw)
                    } else {
                        raw
                    },
                    be16_value(s.skip(5)),
                ),
            ),
            7,
        )
    }
}

/// Whether every byte is `v`.
pub open spec fn all_bytes(s: Seq<u8>, v: u8) -> bool {
    forall|i: int| 0 <= i < s.len() ==> s[i] == v
}

/// Whether an address is an empty slot: port zero and a host of all zeros, or for IPv4
/// all ones.
pub open spec fn empty_slot(a: AddressView) -> bool {
    a.2 == 0 && (all_bytes(a.1, 0) || (!a.0 && all_bytes(a.1, 255)))
}

impl Address {
    /// The port.
    pub fn port(&self) -> (p: u16)
        ensures
            p == self@.2,
    {
        match self {
            Address::V4 { port, .. } => *port,
            Address::V6 { port, .. } => *port,
        }
    }

    /// Whether two addresses are the same host and port.
    pub fn same(&self, other: &Address) -> (b: bool)
        ensures
            b == (self@ == other@),
    {
        match (self, other) {
            (Address::V4 { octets: a, port: p }, Address::V4 { octets: b, port: q }) => {
                let r = *p == *q && crate::blocks::bytes_equal(a, b);
                proof {
                    if *p == *q && a@ =~= b@ {
                        assert(self@ == other@);
                    }
                }
                r
            },
            (Address::V6 { octets: a, port: p }, Address::V6 { octets: b, port: q }) => {
                let r = *p == *q && crate::blocks::bytes_equal(a, b);
                proof {
                    if *p == *q && a@ =~= b@ {
                        assert(self@ == other@);
                    }
                }
                r
            },
            _ => false,
        }
    }

    /// Whether two addresses are the same host, whatever their ports.
    pub fn same_host(&self, other: &Address) -> (b: bool)
        ensures
            b == (self@.0 == other@.0 && self@.1 == other@.1),
    {
        match (self, other) {
            (Address::V4 { octets: a, .. }, Address::V4 { octets: b, .. }) => crate::blocks::bytes_equal(a, b),
            (Address::V6 { octets: a, .. }, Address::V6 { octets: b, .. }) => crate::blocks::bytes_equal(a, b),
            _ => false,
        }
    }
}

impl PartialEq for Address {
    fn eq(&self, other: &Address) -> (b: bool) {
        self.same(other)
    }
}

impl vstd::std_specs::cmp::PartialEqSpecImpl for Address {
    open spec fn obeys_eq_spec() -> bool {
        true
    }

    open spec fn eq_spec(&self, other: &Address) -> bool {
        self@ == other@
    }
}

impl Eq for Address {

}

/// RakNet's own placeholder for an unused address slot: `255.255.255.255:0`, which is
/// seven zero bytes on the wire.
pub fn unassigned() -> (a: Address)
    ensures
        a@ == (false, seq![255u8, 255, 255, 255], 0u16),
{
    let a = Address::V4 { octets: [255u8, 255, 255, 255], port: 0 };
    proof {
        assert(a@.1 =~= seq![255u8, 255, 255, 255]);
    }
    a
}

/// Whether an address slot is empty under either convention in use: RakNet writes
/// `255.255.255.255:0`, and some servers fill slots with `0.0.0.0:0` instead.
pub fn is_empty_slot(addr: Address) -> (b: bool)
    ensures
        b == empty_slot(addr@),
{
    if addr.port() != 0 {
        return false;
    }
    match addr {
        Address::V4 { octets, .. } => {
            let s: &[u8] = &octets;
            assert(s@ == octets@);
            let zeros = all_equal(s, 0);
            let ones = all_equal(s, 255);
            zeros || ones
        },
        Address::V6 { octets, .. } => {
            let s: &[u8] = &octets;
            assert(s@ == octets@);
            all_equal(s, 0)
        },
    }
}

/// Whether every byte is `v`.
fn all_equal(b: &[u8], v: u8) -> (r: bool)
    ensures
        r == all_bytes(b@, v),
{
    let mut i: usize = 0;
    while i < b.len()
        invariant
            i <= b@.len(),
            forall|j: int| 0 <= j < i ==> b@[j] == v,
        decreases b@.len() - i,
    {
        if b[i] != v {
            return false;
        }
        i = i + 1;
    }
    true
}

/// Writes an address. An IPv6 input is written as [`unassigned`], since sending a
/// layout that cannot be verified is worse than sending the placeholder peers accept.
pub fn write(w: &mut Writer, addr: Address) -> (ret: &mut Writer)
    ensures
        ret@ == old(w)@ + address_bytes(addr@),
        final(w)@ == final(ret)@,
{
    let (octets, port) = match addr {
        Address::V4 { octets, port } => (octets, port),
        Address::V6 { .. } => ([255u8, 255, 255, 255], 0u16),
    };
    proof {
        assert(octets@ =~= wire_v4(addr@).0);
    }
    w.u8(VERSION_IPV4);
    w.u8(!octets[0]);
    w.u8(!octets[1]);
    w.u8(!octets[2]);
    w.u8(!octets[3]);
    proof {
        assert(w@ =~= old(w)@ + seq![VERSION_IPV4] + complement(wire_v4(addr@).0));
    }
    w.u16(port)
}

/// Reads an address.
pub fn read(r: &mut Reader) -> (res: Result<Address, AddressError>)
    ensures
        ({
            let (want, n) = address_read(old(r)@, true);
            &&& final(r)@ == old(r)@.skip(n as int)
            &&& match want {
                Ok(v) => res matches Ok(a) && a@ == v,
                Err(e) => res == Err::<Address, AddressError>(e),
            }
        }),
{
    read_inner(r, true)
}

/// Reads an address without complementing the octets, for comparing the two readings
/// on a capture.
pub fn read_raw(r: &mut Reader) -> (res: Result<Address, AddressError>)
    ensures
        ({
            let (want, n) = address_read(old(r)@, false);
            &&& final(r)@ == old(r)@.skip(n as int)
            &&& match want {
                Ok(v) => res matches Ok(a) && a@ == v,
                Err(e) => res == Err::<Address, AddressError>(e),
            }
        }),
{
    read_inner(r, false)
}

fn read_inner(r: &mut Reader, complemented: bool) -> (res: Result<Address, AddressError>)
    ensures
        ({
            let (want, n) = address_read(old(r)@, complemented);
            &&& final(r)@ == old(r)@.skip(n as int)
            &&& match want {
                Ok(v) => res matches Ok(a) && a@ == v,
                Err(e) => res == Err::<Address, AddressError>(e),
            }
        }),
{
    let ghost s = r@;
    let version = match r.u8() {
        Ok(v) => v,
        Err(e) => {
            proof {
                assert(s.skip(0) =~= s);
            }
            return Err(AddressError::Truncated(e));
        },
    };
    if version != VERSION_IPV4 {
        return Err(AddressError::UnsupportedVersion(version));
    }
    let raw = match r.array::<4>() {
        Ok(v) => v,
        Err(e) => return Err(AddressError::Truncated(e)),
    };
    proof {
        assert(s.skip(1).skip(4) =~= s.skip(5));
        assert(s.skip(1).take(4) =~= s.subrange(1, 5));
    }
    let port = match r.u16() {
        Ok(v) => v,
        Err(e) => return Err(AddressError::Truncated(e)),
    };
    proof {
        assert(s.skip(5).skip(2) =~= s.skip(7));
    }
    let octets = if complemented {
        [!raw[0], !raw[1], !raw[2], !raw[3]]
    } else {
        raw
    };
    proof {
        if complemented {
            assert(octets@ =~= complement(s.subrange(1, 5)));
        } else {
            assert(octets@ =~= s.subrange(1, 5));
        }
    }
    Ok(Address::V4 { octets, port })
}

/// An IPv4 address survives a trip through its encoding; an IPv6 one comes back as
/// the placeholder.
pub proof fn lemma_address_round_trip(a: AddressView, rest: Seq<u8>)
    requires
        !a.0 ==> a.1.len() == 4,
    ensures
        address_read(address_bytes(a) + rest, true) == (
            Ok::<AddressView, AddressError>((false, wire_v4(a).0, wire_v4(a).1)),
            7nat,
        ),
{
    let s = address_bytes(a) + rest;
    let o = wire_v4(a).0;
    assert(o.len() == 4);
    assert(s.subrange(1, 5) =~= complement(o));
    assert forall|i: int| 0 <= i < 4 implies #[trigger] complement(complement(o))[i] == o[i] by {
        let x = o[i];
        assert(!(!x) == x) by (bit_vector);
    }
    assert(complement(complement(o)) =~= o);
    assert(s.skip(5) =~= be16(wire_v4(a).1) + rest);
    crate::raknet::wire::lemma_wire_round_trip(wire_v4(a).1, 0, 0, rest);
}

} // verus!
