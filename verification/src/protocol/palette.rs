//! Block identity to runtime id.
//!
//! A runtime id is a block state's index in the version's canonical ordered list. It is
//! a network identifier, valid only for the protocol version this crate pins, which is
//! why the mapping lives with the protocol and not next to the block vocabulary.
//!
//! A block this does not know is not guessed at: [`runtime_id`] answers `None` and the
//! caller decides, which for a chunk serializer means writing air.
use crate::blocks::{air_name, stone_name, str_equal, Block, BlockView};
use vstd::prelude::*;

verus! {

/// `minecraft:air`. Not zero: the list is not air-first.
pub const RUNTIME_ID_AIR: i32 = 13_094;

/// `minecraft:stone`.
pub const RUNTIME_ID_STONE: i32 = 2_706;

/// The runtime id of a block state, where this version's palette is known to carry it.
pub open spec fn runtime_id_of(b: BlockView) -> Option<i32> {
    if b.1.len() != 0 {
        None
    } else if b.0 == air_name() {
        Some(RUNTIME_ID_AIR)
    } else if b.0 == stone_name() {
        Some(RUNTIME_ID_STONE)
    } else {
        None
    }
}

/// The runtime id for a block state, if this version's palette is known to carry it.
///
/// Only blocks without state properties can be answered: a block with properties
/// occupies a different index per combination, and none of those are known.
pub fn runtime_id(block: &Block) -> (id: Option<i32>)
    ensures
        id == runtime_id_of(block@),
{
    if block.properties().len() != 0 {
        return None;
    }
    let air = "minecraft:air";
    let stone = "minecraft:stone";
    proof {
        reveal_strlit("minecraft:air");
        reveal_strlit("minecraft:stone");
        assert(air@ =~= air_name());
        assert(stone@ =~= stone_name());
    }
    if str_equal(block.name(), air) {
        Some(RUNTIME_ID_AIR)
    } else if str_equal(block.name(), stone) {
        Some(RUNTIME_ID_STONE)
    } else {
        None
    }
}

} // verus!
