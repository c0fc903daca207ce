//! The registries a client expects between `StartGame` and its first chunk, sent
//! empty: the client keeps its own definitions and is only told the server overrides
//! none of them.
use crate::protocol::batch::Packet;
use crate::protocol::bytes::{varint_encoding, Writer};
use vstd::prelude::*;

verus! {

/// `AvailableActorIdentifiers`, server to client.
pub const ID_AVAILABLE_ACTOR_IDENTIFIERS: u32 = 119;

/// `BiomeDefinitionList`, server to client.
pub const ID_BIOME_DEFINITION_LIST: u32 = 122;

/// `ItemRegistry`, server to client.
pub const ID_ITEM_REGISTRY: u32 = 162;

/// An empty NBT compound in network form: tag, empty name, end.
pub open spec fn empty_nbt() -> Seq<u8> {
    seq![0x0au8, 0x00, 0x00]
}

/// An item registry that overrides nothing: a count of zero.
pub fn empty_item_registry() -> (p: Packet)
    ensures
        p@ == (ID_ITEM_REGISTRY, 0u8, 0u8, varint_encoding(0)),
{
    let mut w = Writer::new();
    w.varint(0);
    Packet::new(ID_ITEM_REGISTRY, w.finish())
}

/// Entity identifiers, as a bare NBT compound rather than a counted list.
pub fn empty_actor_identifiers() -> (p: Packet)
    ensures
        p@ == (ID_AVAILABLE_ACTOR_IDENTIFIERS, 0u8, 0u8, empty_nbt()),
{
    let body = vec![0x0au8, 0x00, 0x00];
    proof {
        assert(body@ =~= empty_nbt());
    }
    Packet::new(ID_AVAILABLE_ACTOR_IDENTIFIERS, body)
}

/// Biome definitions: a list of definitions and a list of the strings they index
/// into, both empty.
pub fn empty_biome_definitions() -> (p: Packet)
    ensures
        p@ == (ID_BIOME_DEFINITION_LIST, 0u8, 0u8, varint_encoding(0) + varint_encoding(0)),
{
    let mut w = Writer::new();
    w.varint(0).varint(0);
    Packet::new(ID_BIOME_DEFINITION_LIST, w.finish())
}

/// The three, in the order a real server sends them.
pub fn all_empty() -> (ps: [Packet; 3])
    ensures
        ps[0]@ == (ID_ITEM_REGISTRY, 0u8, 0u8, varint_encoding(0)),
        ps[1]@ == (ID_AVAILABLE_ACTOR_IDENTIFIERS, 0u8, 0u8, empty_nbt()),
        ps[2]@ == (ID_BIOME_DEFINITION_LIST, 0u8, 0u8, varint_encoding(0) + varint_encoding(0)),
{
    [empty_item_registry(), empty_actor_identifiers(), empty_biome_definitions()]
}

} // verus!
