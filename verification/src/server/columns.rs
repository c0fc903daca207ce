//! Turning a column of world into a `LevelChunk`.
//!
//! The world stores blocks and knows nothing about the wire; the protocol writes bytes
//! and knows nothing about the world. This is where the two meet.
use crate::blocks::BlockView;
use crate::protocol::batch::Packet;
use crate::protocol::level_chunk::{
    block_offset_spec, column_payload, column_payload_spec, level_chunk, level_chunk_body, Subchunk,
    BLOCKS_PER_SUBCHUNK, ID_LEVEL_CHUNK, RUNTIME_ID_AIR,
};
use crate::protocol::palette::{runtime_id, runtime_id_of};
use crate::world::chunk::{highest_used, Chunk, MIN_SECTION};
use crate::world::section::{blocks_view, offset_of, palette_index, section_wf, Section, SectionView};
use vstd::prelude::*;

verus! {

/// One subchunk's runtime-id palette and, when it needs one, its indices in wire order.
pub struct Encoded {
    /// Runtime ids, one per palette entry of the section.
    pub palette: Vec<i32>,
    /// One palette index per position in wire order, or `None` for one block
    /// everywhere.
    pub indices: Option<Vec<u16>>,
}

/// The runtime id a block is written as: its own, or air where the version's palette
/// does not carry it.
pub open spec fn wire_id(b: BlockView) -> i32 {
    match runtime_id_of(b) {
        Some(id) => id,
        None => RUNTIME_ID_AIR,
    }
}

/// A section's palette as runtime ids.
pub open spec fn wire_palette(s: SectionView) -> Seq<i32> {
    s.0.map_values(|b: BlockView| wire_id(b))
}

/// The position whose index sits at slot `w` of the wire order: X, then Z, then Y.
pub open spec fn wire_position(w: int) -> (int, int, int) {
    (w / 256, w % 16, (w / 16) % 16)
}

/// A section's indices in wire order.
pub open spec fn wire_indices(s: SectionView) -> Seq<u16> {
    Seq::new(
        4096,
        |w: int| palette_index(s, offset_of(wire_position(w).0, wire_position(w).1, wire_position(w).2)) as u16,
    )
}

/// A section as it goes on the wire: its palette as runtime ids, and its indices unless
/// it is one block everywhere.
pub open spec fn encoded_view(s: SectionView) -> (Seq<i32>, Option<Seq<u16>>) {
    (wire_palette(s), if s.1 is None || s.0.len() <= 1 {
        None
    } else {
        Some(wire_indices(s))
    })
}

/// How many subchunks a column needs, from the bottom up to its highest used section.
pub open spec fn subchunk_count_spec(sections: Seq<SectionView>) -> int {
    match highest_used(sections, 24) {
        None => 0,
        Some(top) => top - MIN_SECTION + 1,
    }
}

/// How many subchunks of a column carry blocks. Everything above the highest used
/// section is sky, and the client draws sky without being told.
pub fn subchunk_count(chunk: &Chunk) -> (n: usize)
    ensures
        n == subchunk_count_spec(chunk@.2),
        n <= 24,
{
    proof {
        lemma_highest_used_range(chunk@.2, 24);
    }
    match chunk.highest_used_section() {
        None => 0,
        Some(top) => (top - MIN_SECTION + 1) as usize,
    }
}

/// The highest used section lies in the column.
proof fn lemma_highest_used_range(ss: Seq<SectionView>, n: int)
    requires
        0 <= n <= 24,
    ensures
        highest_used(ss, n) matches Some(t) ==> MIN_SECTION <= t < MIN_SECTION + n,
    decreases n,
{
    if n > 0 {
        lemma_highest_used_range(ss, n - 1);
    }
}

/// Maps one section's blocks onto this version's runtime ids. A block whose runtime id
/// is unknown is written as air: a hole is easier to recognise than a stray block.
pub fn encode_section(section: &Section) -> (e: Encoded)
    ensures
        e.palette@ == encoded_view(section@).0,
        match e.indices {
            None => encoded_view(section@).1 is None,
            Some(ix) => encoded_view(section@).1 == Some(ix@),
        },
        e.palette@.len() <= 65536,
{
    let blocks = section.palette();
    let mut palette: Vec<i32> = Vec::new();
    let mut i: usize = 0;
    while i < blocks.len()
        invariant
            i <= blocks@.len(),
            blocks_view(blocks@) == section@.0,
            palette@ == section@.0.take(i as int).map_values(|b: BlockView| wire_id(b)),
        decreases blocks@.len() - i,
    {
        let id = match runtime_id(&blocks[i]) {
            Some(id) => id,
            None => RUNTIME_ID_AIR,
        };
        palette.push(id);
        proof {
            assert(blocks@[i as int]@ == section@.0[i as int]);
            assert(section@.0.take(i + 1) =~= section@.0.take(i as int).push(section@.0[i as int]));
            assert(palette@ =~= section@.0.take(i + 1).map_values(|b: BlockView| wire_id(b)));
        }
        i = i + 1;
    }
    proof {
        assert(section@.0.take(i as int) =~= section@.0);
    }
    if section.uniform_block().is_some() || palette.len() <= 1 {
        return Encoded { palette, indices: None };
    }
    let mut indices: Vec<u16> = Vec::new();
    let mut w: usize = 0;
    while w < BLOCKS_PER_SUBCHUNK
        invariant
            w <= 4096,
            indices@ == wire_indices(section@).take(w as int),
        decreases 4096 - w,
    {
        let x = w / 256;
        let y = w % 16;
        let z = (w / 16) % 16;
        let index = match section.index_at(x, y, z) {
            Some(index) => index,
            None => 0,
        };
        indices.push(index);
        proof {
            assert(indices@ =~= wire_indices(section@).take(w + 1));
        }
        w = w + 1;
    }
    proof {
        assert(wire_indices(section@).take(4096) =~= wire_indices(section@));
    }
    Encoded { palette, indices: Some(indices) }
}

/// The encodings of the first `n` sections of a column.
pub open spec fn encoded_sections(sections: Seq<SectionView>, n: int) -> Seq<(Seq<i32>, Option<Seq<u16>>)> {
    sections.take(n).map_values(|s: SectionView| encoded_view(s))
}

/// The `LevelChunk` for a column: its used subchunks, a full column of `biome`.
pub open spec fn column_packet_body(c: (i32, i32, Seq<SectionView>), biome: i32) -> Seq<u8> {
    let n = subchunk_count_spec(c.2);
    level_chunk_body(c.0, c.1, n as usize, column_payload_spec(encoded_sections(c.2, n), biome))
}

/// Builds the `LevelChunk` for a column.
pub fn column_packet(chunk: &Chunk, biome: i32) -> (p: Packet)
    ensures
        p@ == (ID_LEVEL_CHUNK, 0u8, 0u8, column_packet_body(chunk@, biome)),
{
    let (x, z) = chunk.position();
    let count = subchunk_count(chunk);
    let sections = chunk.sections();
    let mut encoded: Vec<Encoded> = Vec::new();
    let mut i: usize = 0;
    while i < count
        invariant
            i <= count <= 24,
            sections@.len() == 24,
            crate::world::chunk::sections_view(sections@) == chunk@.2,
            encoded@.len() == i,
            forall|k: int| 0 <= k < i ==> {
                &&& (#[trigger] encoded@[k]).palette@ == encoded_view(chunk@.2[k]).0
                &&& encoded@[k].palette@.len() <= 65536
                &&& match encoded@[k].indices {
                    None => encoded_view(chunk@.2[k]).1 is None,
                    Some(ix) => encoded_view(chunk@.2[k]).1 == Some(ix@),
                }
            },
        decreases count - i,
    {
        proof {
            assert(sections@[i as int]@ == chunk@.2[i as int]);
        }
        encoded.push(encode_section(&sections[i]));
        i = i + 1;
    }
    let mut views: Vec<Subchunk> = Vec::new();
    let mut j: usize = 0;
    while j < encoded.len()
        invariant
            j <= encoded@.len(),
            encoded@.len() == count,
            views@.len() == j,
            forall|k: int| 0 <= k < j ==> {
                &&& (#[trigger] views@[k]).palette@ == encoded@[k].palette@
                &&& match views@[k].indices {
                    None => encoded@[k].indices is None,
                    Some(ix) => encoded@[k].indices matches Some(v) && ix@ == v@,
                }
            },
        decreases encoded@.len() - j,
    {
        let e = &encoded[j];
        let ix = match &e.indices {
            Some(v) => Some(v.as_slice()),
            None => None,
        };
        views.push(Subchunk { palette: e.palette.as_slice(), indices: ix });
        j = j + 1;
    }
    proof {
        assert forall|k: int| 0 <= k < views@.len() implies #[trigger] views@[k].palette@.len() <= i32::MAX by {
            assert(encoded@[k].palette@.len() <= 65536);
        }
    }
    let payload = column_payload(views.as_slice(), biome);
    proof {
        let target = encoded_sections(chunk@.2, count as int);
        let got = crate::protocol::level_chunk::subchunks_view(views@);
        assert(got.len() == target.len());
        assert forall|k: int| 0 <= k < got.len() implies #[trigger] got[k] == target[k] by {
            assert(chunk@.2.take(count as int)[k] == chunk@.2[k]);
        }
        assert(got =~= target);
    }
    level_chunk(x, z, count, payload.as_slice())
}

} // verus!
