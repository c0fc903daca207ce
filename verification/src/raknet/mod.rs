//! RakNet: a reliability layer over UDP.
//!
//! Offline discovery (ping and pong), connection establishment, ordering,
//! fragmentation and reassembly, acknowledgements and retransmission. It knows nothing
//! about Minecraft: a game packet type appearing here would be a design error.
//!
//! Every buffer sized from a remote field has an explicit upper bound, and reassembly
//! has a memory cap and a timeout.
pub mod address;
pub mod advertisement;
pub mod connect;
pub mod datagram;
pub mod frame;
pub mod listener;
pub mod messages;
pub mod offline;
pub mod online;
pub mod order;
pub mod retransmit;
pub mod session;
pub mod split;
pub mod wire;

use vstd::prelude::*;

verus! {

/// Default UDP port for Bedrock over IPv4.
pub const DEFAULT_PORT_V4: u16 = 19132;

/// Default UDP port for Bedrock over IPv6.
pub const DEFAULT_PORT_V6: u16 = 19133;

/// Largest datagram payload probed for, in bytes: an Ethernet MTU less the IP and UDP
/// headers.
pub const MAX_MTU: usize = 1492;

/// Bytes the IP and UDP headers take out of an MTU.
pub const UDP_IP_OVERHEAD: usize = 28;

/// The 16-byte constant carried by every offline (pre-connection) RakNet packet.
pub const MAGIC: [u8; 16] = [
    0x00,
    0xff,
    0xff,
    0x00,
    0xfe,
    0xfe,
    0xfe,
    0xfe,
    0xfd,
    0xfd,
    0xfd,
    0xfd,
    0x12,
    0x34,
    0x56,
    0x78,
];

/// The offline magic as the contracts see it.
pub open spec fn magic() -> Seq<u8> {
    seq![
        0x00u8,
        0xff,
        0xff,
        0x00,
        0xfe,
        0xfe,
        0xfe,
        0xfe,
        0xfd,
        0xfd,
        0xfd,
        0xfd,
        0x12,
        0x34,
        0x56,
        0x78,
    ]
}

/// The offline magic, as bytes to write or compare.
pub fn magic_bytes() -> (m: Vec<u8>)
    ensures
        m@ == magic(),
{
    let m = vec![
        0x00u8,
        0xff,
        0xff,
        0x00,
        0xfe,
        0xfe,
        0xfe,
        0xfe,
        0xfd,
        0xfd,
        0xfd,
        0xfd,
        0x12,
        0x34,
        0x56,
        0x78,
    ];
    proof {
        assert(m@ =~= magic());
    }
    m
}

} // verus!
