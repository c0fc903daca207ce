//! `LevelChunk`: a column of the world.
//!
//! ```text
//! zigzag x, zigzag z    which column
//! zigzag dimension
//! varint subchunk count
//! bool   blob hashes    always false here
//! string payload        the column itself, length-prefixed
//! ```
//!
//! A subchunk names its blocks by runtime id, a block state's index in the version's
//! canonical list; `minecraft:air` is 13094, not 0. Zero bits per block is the
//! single-value case: a subchunk that is entirely one block costs three header bytes
//! and one varint. A subchunk of several blocks carries one sixteen-bit palette index
//! per position, which the format allows and which keeps every index exact.
use crate::num::{le16, le32};
use crate::protocol::batch::Packet;
use crate::protocol::bytes::{
    lemma_varint_round_trip, lemma_zigzag_round_trip, prefixed_encoding, unzigzag32, varint_encoding, varint_read,
    zigzag32, Writer,
};
use vstd::prelude::*;

verus! {

/// `LevelChunk`, server to client.
pub const ID_LEVEL_CHUNK: u32 = 58;

/// `NetworkChunkPublisherUpdate`, server to client.
pub const ID_NETWORK_CHUNK_PUBLISHER_UPDATE: u32 = 121;

/// The overworld's lowest subchunk index, at y = -64.
pub const OVERWORLD_MIN_SUBCHUNK: i32 = -4;

/// The overworld's highest subchunk index, at y = 320.
pub const OVERWORLD_MAX_SUBCHUNK: i32 = 19;

/// Subchunks a full overworld column covers: `OVERWORLD_MAX_SUBCHUNK -
/// OVERWORLD_MIN_SUBCHUNK + 1`.
pub const OVERWORLD_SUBCHUNKS: usize = 24;

/// Plains. Numeric biome ids are stable across versions, unlike block ids.
pub const BIOME_PLAINS: i32 = 1;

/// `minecraft:air`. Not zero.
pub const RUNTIME_ID_AIR: i32 = 13_094;

/// `minecraft:stone`.
pub const RUNTIME_ID_STONE: i32 = 2_706;

/// Blocks tall a subchunk is.
pub const SUBCHUNK_HEIGHT: i32 = 16;

/// Blocks across a column, in both horizontal directions.
pub const CHUNK_WIDTH: i32 = 16;

/// Positions in one subchunk.
pub const BLOCKS_PER_SUBCHUNK: usize = 4096;

/// The one biome entry of a uniform subchunk's worth of biome.
pub open spec fn uniform_biome_bytes(biome: i32) -> Seq<u8> {
    seq![1u8] + varint_encoding(zigzag32(biome) as nat)
}

/// A subchunk that is one block everywhere: version 8, one layer, zero bits per block,
/// then the block.
pub open spec fn uniform_subchunk_bytes(runtime_id: i32) -> Seq<u8> {
    seq![8u8, 1u8, 1u8] + varint_encoding(zigzag32(runtime_id) as nat)
}

/// `n` copies of the uniform biome entry.
pub open spec fn biomes_bytes(n: nat, biome: i32) -> Seq<u8>
    decreases n,
{
    if n == 0 {
        Seq::empty()
    } else {
        biomes_bytes((n - 1) as nat, biome) + uniform_biome_bytes(biome)
    }
}

/// The subchunk index a height falls in.
pub open spec fn subchunk_of(height: i32) -> int {
    height as int / 16
}

/// How many subchunks, from the bottom of the dimension, reach `surface_height`.
pub open spec fn subchunks_up_to_spec(surface_height: i32) -> int {
    let n = subchunk_of(surface_height) - OVERWORLD_MIN_SUBCHUNK + 1;
    if n > 0 {
        n
    } else {
        0
    }
}

/// The palette indices of the subchunk a surface cuts through, `r` blocks above its
/// bottom: index 0 (stone) below the surface, index 1 (air) from it up.
pub open spec fn surface_indices(r: int) -> Seq<u16> {
    Seq::new(BLOCKS_PER_SUBCHUNK as nat, |i: int| if i % 16 < r { 0u16 } else { 1u16 })
}

/// The subchunk a flat column puts at `index` from the bottom: stone below the
/// surface's subchunk, air above it, and in the surface's own subchunk stone below
/// `surface_height` and air from it up.
pub open spec fn flat_subchunk_bytes(index: int, surface_height: i32) -> Seq<u8> {
    let y = OVERWORLD_MIN_SUBCHUNK + index;
    if y < subchunk_of(surface_height) {
        uniform_subchunk_bytes(RUNTIME_ID_STONE)
    } else if y == subchunk_of(surface_height) && surface_height as int % 16 != 0 {
        subchunk_bytes(
            seq![RUNTIME_ID_STONE, RUNTIME_ID_AIR],
            Some(surface_indices(surface_height as int % 16)),
        )
    } else {
        uniform_subchunk_bytes(RUNTIME_ID_AIR)
    }
}

/// The first `n` subchunks of a flat column.
pub open spec fn flat_subchunks(n: nat, surface_height: i32) -> Seq<u8>
    decreases n,
{
    if n == 0 {
        Seq::empty()
    } else {
        flat_subchunks((n - 1) as nat, surface_height) + flat_subchunk_bytes(n - 1, surface_height)
    }
}

/// The payload of a flat column.
pub open spec fn flat_column_spec(biome: i32, surface_height: i32) -> Seq<u8> {
    flat_subchunks(subchunks_up_to_spec(surface_height) as nat, surface_height) + biomes_bytes(
        OVERWORLD_SUBCHUNKS as nat,
        biome,
    ) + seq![0u8]
}

/// The payload of an all-air column: biomes and an empty border list.
pub open spec fn void_column_spec(biome: i32) -> Seq<u8> {
    biomes_bytes(OVERWORLD_SUBCHUNKS as nat, biome) + seq![0u8]
}

fn write_uniform_biome(w: &mut Writer, biome: i32)
    ensures
        final(w)@ == old(w)@ + uniform_biome_bytes(biome),
{
    w.u8(1);
    w.zigzag32(biome);
    proof {
        assert(w@ =~= old(w)@ + uniform_biome_bytes(biome));
    }
}

fn write_uniform_subchunk(w: &mut Writer, runtime_id: i32)
    ensures
        final(w)@ == old(w)@ + uniform_subchunk_bytes(runtime_id),
{
    w.u8(8).u8(1).u8(1);
    w.zigzag32(runtime_id);
    proof {
        assert(w@ =~= old(w)@ + uniform_subchunk_bytes(runtime_id));
    }
}

fn write_biomes(w: &mut Writer, biome: i32)
    ensures
        final(w)@ == old(w)@ + biomes_bytes(OVERWORLD_SUBCHUNKS as nat, biome),
{
    let mut i: usize = 0;
    while i < OVERWORLD_SUBCHUNKS
        invariant
            i <= OVERWORLD_SUBCHUNKS,
            w@ == old(w)@ + biomes_bytes(i as nat, biome),
        decreases OVERWORLD_SUBCHUNKS - i,
    {
        write_uniform_biome(w, biome);
        proof {
            assert(w@ =~= old(w)@ + biomes_bytes((i + 1) as nat, biome));
        }
        i = i + 1;
    }
}

/// How many subchunks a column must carry to reach `surface_height`.
///
/// Subchunks are written from the bottom of the dimension upwards with no gaps, so
/// reaching y = 80 means writing every subchunk below it too.
pub fn subchunks_up_to(surface_height: i32) -> (n: usize)
    ensures
        n == subchunks_up_to_spec(surface_height),
{
    let top = crate::num::floor_div16(surface_height);
    let n = top as i64 - OVERWORLD_MIN_SUBCHUNK as i64 + 1;
    if n > 0 {
        n as usize
    } else {
        0
    }
}

/// Builds the payload of a flat column: stone up to `surface_height`, air above.
///
/// The surface is the first air block, so a player standing at `surface_height` is
/// standing on stone.
pub fn flat_column(biome: i32, surface_height: i32) -> (out: Vec<u8>)
    ensures
        out@ == flat_column_spec(biome, surface_height),
{
    let mut w = Writer::new();
    let count = subchunks_up_to(surface_height);
    let surface_subchunk = crate::num::floor_div16(surface_height);
    let r: i32 = surface_height - surface_subchunk * 16;
    let palette: [i32; 2] = [RUNTIME_ID_STONE, RUNTIME_ID_AIR];
    let indices = surface_index_array(r);
    let mut index: usize = 0;
    while index < count
        invariant
            index <= count,
            count == subchunks_up_to_spec(surface_height),
            surface_subchunk == subchunk_of(surface_height),
            r == surface_height as int % 16,
            palette@ == seq![RUNTIME_ID_STONE, RUNTIME_ID_AIR],
            indices@ == surface_indices(r as int),
            w@ == flat_subchunks(index as nat, surface_height),
        decreases count - index,
    {
        let y = OVERWORLD_MIN_SUBCHUNK + index as i32;
        if y < surface_subchunk {
            write_uniform_subchunk(&mut w, RUNTIME_ID_STONE);
        } else if y == surface_subchunk && r != 0 {
            let sub = Subchunk { palette: palette.as_slice(), indices: Some(indices.as_slice()) };
            write_subchunk(&mut w, &sub);
        } else {
            write_uniform_subchunk(&mut w, RUNTIME_ID_AIR);
        }
        index = index + 1;
    }
    write_biomes(&mut w, biome);
    w.u8(0);
    w.finish()
}

/// The palette indices of a surface subchunk cut `r` blocks above its bottom.
fn surface_index_array(r: i32) -> (ix: Vec<u16>)
    ensures
        ix@ == surface_indices(r as int),
{
    let mut ix: Vec<u16> = Vec::new();
    let mut i: usize = 0;
    while i < BLOCKS_PER_SUBCHUNK
        invariant
            i <= BLOCKS_PER_SUBCHUNK,
            ix@.len() == i,
            forall|k: int| 0 <= k < i ==> ix@[k] == (if k % 16 < r { 0u16 } else { 1u16 }),
        decreases BLOCKS_PER_SUBCHUNK - i,
    {
        let y: i32 = (i % 16) as i32;
        ix.push(if y < r { 0u16 } else { 1u16 });
        i = i + 1;
    }
    proof {
        assert(ix@ =~= surface_indices(r as int));
    }
    ix
}

/// Builds the payload of an all-air column.
pub fn void_column(biome: i32) -> (out: Vec<u8>)
    ensures
        out@ == void_column_spec(biome),
{
    let mut w = Writer::new();
    write_biomes(&mut w, biome);
    w.u8(0);
    proof {
        assert(w@ =~= void_column_spec(biome));
    }
    w.finish()
}

/// The count a `LevelChunk` declares for `subchunks`: a count no `u32` can hold is
/// written as zero.
pub open spec fn declared_count(subchunks: usize) -> u32 {
    if subchunks <= u32::MAX {
        subchunks as u32
    } else {
        0
    }
}

/// The body of a `LevelChunk`.
pub open spec fn level_chunk_body(chunk_x: i32, chunk_z: i32, subchunks: usize, payload: Seq<u8>) -> Seq<
    u8,
> {
    varint_encoding(zigzag32(chunk_x) as nat) + varint_encoding(zigzag32(chunk_z) as nat)
        + varint_encoding(zigzag32(0) as nat) + varint_encoding(declared_count(subchunks) as nat)
        + seq![0u8] + prefixed_encoding(payload)
}

/// Builds a `LevelChunk` for one column in the overworld.
///
/// `subchunks` must match how many the payload actually carries: the count tells the
/// client where the blocks end and the biomes begin.
pub fn level_chunk(chunk_x: i32, chunk_z: i32, subchunks: usize, payload: &[u8]) -> (p: Packet)
    ensures
        p@ == (ID_LEVEL_CHUNK, 0u8, 0u8, level_chunk_body(chunk_x, chunk_z, subchunks, payload@)),
{
    let count: u32 = if subchunks <= u32::MAX as usize {
        subchunks as u32
    } else {
        0
    };
    let mut w = Writer::new();
    w.zigzag32(chunk_x).zigzag32(chunk_z).zigzag32(0).varint(count).u8(0).prefixed(payload);
    let body = w.finish();
    proof {
        assert(body@ =~= level_chunk_body(chunk_x, chunk_z, subchunks, payload@));
    }
    Packet::new(ID_LEVEL_CHUNK, body)
}

/// The body of a `NetworkChunkPublisherUpdate`.
pub open spec fn publisher_update_body(x: i32, y: i32, z: i32, radius: u32) -> Seq<u8> {
    varint_encoding(zigzag32(x) as nat) + varint_encoding(zigzag32(y) as nat) + varint_encoding(
        zigzag32(z) as nat,
    ) + varint_encoding(radius as nat) + le32(0)
}

/// Builds `NetworkChunkPublisherUpdate`: the point the client accepts columns around,
/// and no saved chunks.
pub fn publisher_update(x: i32, y: i32, z: i32, radius: u32) -> (p: Packet)
    ensures
        p@ == (ID_NETWORK_CHUNK_PUBLISHER_UPDATE, 0u8, 0u8, publisher_update_body(x, y, z, radius)),
{
    let mut w = Writer::new();
    w.zigzag32(x).zigzag32(y).zigzag32(z).varint(radius).u32(0);
    let body = w.finish();
    proof {
        assert(body@ =~= publisher_update_body(x, y, z, radius));
    }
    Packet::new(ID_NETWORK_CHUNK_PUBLISHER_UPDATE, body)
}

/// Every column within `radius` of a centre, row by row along X and then Z.
pub open spec fn columns_around_spec(centre_x: i32, centre_z: i32, radius: i32) -> Seq<(i32, i32)> {
    let side = 2 * radius + 1;
    if radius < 0 {
        Seq::empty()
    } else {
        Seq::new(
            (side * side) as nat,
            |i: int| ((centre_x - radius + i / side) as i32, (centre_z - radius + i % side) as i32),
        )
    }
}

/// Every column within `radius` of a centre, in chunk coordinates.
pub fn columns_around(centre_x: i32, centre_z: i32, radius: i32) -> (out: Vec<(i32, i32)>)
    requires
        radius >= 0 ==> i32::MIN <= centre_x - radius && centre_x + radius <= i32::MAX
            && i32::MIN <= centre_z - radius && centre_z + radius <= i32::MAX,
    ensures
        out@ == columns_around_spec(centre_x, centre_z, radius),
{
    let mut out: Vec<(i32, i32)> = Vec::new();
    if radius < 0 {
        proof {
            assert(out@ =~= columns_around_spec(centre_x, centre_z, radius));
        }
        return out;
    }
    let side: i64 = 2 * radius as i64 + 1;
    let ghost target = columns_around_spec(centre_x, centre_z, radius);
    let mut a: i64 = 0;
    while a < side
        invariant
            radius >= 0,
            side == 2 * radius + 1,
            0 <= a <= side,
            i32::MIN <= centre_x - radius && centre_x + radius <= i32::MAX,
            i32::MIN <= centre_z - radius && centre_z + radius <= i32::MAX,
            target == columns_around_spec(centre_x, centre_z, radius),
            target.len() == side * side,
            out@.len() == a * side,
            forall|i: int| 0 <= i < out@.len() ==> #[trigger] out@[i] == target[i],
        decreases side - a,
    {
        let x = (centre_x as i64 - radius as i64 + a) as i32;
        let mut b: i64 = 0;
        while b < side
            invariant
                radius >= 0,
                side == 2 * radius + 1,
                0 <= a < side,
                0 <= b <= side,
                x == centre_x - radius + a,
                i32::MIN <= centre_z - radius && centre_z + radius <= i32::MAX,
                target == columns_around_spec(centre_x, centre_z, radius),
                target.len() == side * side,
                out@.len() == a * side + b,
                forall|i: int| 0 <= i < out@.len() ==> #[trigger] out@[i] == target[i],
            decreases side - b,
        {
            let z = (centre_z as i64 - radius as i64 + b) as i32;
            proof {
                let i: int = a * side + b;
                let sd: int = side as int;
                let aa: int = a as int;
                let bb: int = b as int;
                assert(i / sd == aa && i % sd == bb) by (nonlinear_arith)
                    requires
                        i == aa * sd + bb,
                        0 <= bb < sd,
                        0 <= aa,
                ;
                assert(i < sd * sd) by (nonlinear_arith)
                    requires
                        i == aa * sd + bb,
                        0 <= bb < sd,
                        0 <= aa < sd,
                ;
                assert(target[i] == (x, z));
            }
            out.push((x, z));
            b = b + 1;
        }
        proof {
            assert(out@.len() == (a + 1) * side) by (nonlinear_arith)
                requires
                    out@.len() == a * side + side,
            ;
        }
        a = a + 1;
    }
    proof {
        assert(out@ =~= target);
    }
    out
}

/// One subchunk's palette and, when it is not one block everywhere, the palette index
/// of every position.
pub struct Subchunk<'a> {
    /// Runtime ids, indexed by the entries of `indices`.
    pub palette: &'a [i32],
    /// One palette index per position, in [`block_offset`] order, or `None` for a
    /// single-block subchunk.
    pub indices: Option<&'a [u16]>,
}

/// Where a position sits in a subchunk's index array on the wire: X, then Z, then Y.
pub open spec fn block_offset_spec(x: int, y: int, z: int) -> int {
    (x * 16 + z) * 16 + y
}

/// Where a position sits in a subchunk's index array on the wire.
pub fn block_offset(x: usize, y: usize, z: usize) -> (o: usize)
    requires
        x < 16,
        y < 16,
        z < 16,
    ensures
        o == block_offset_spec(x as int, y as int, z as int),
        o < BLOCKS_PER_SUBCHUNK,
{
    (x * 16 + z) * 16 + y
}

/// The index at `i`, positions past the end of `indices` reading as zero.
pub open spec fn index_or_zero(indices: Seq<u16>, i: int) -> u16 {
    if 0 <= i < indices.len() {
        indices[i]
    } else {
        0
    }
}

/// The first `n` palette indices as little-endian sixteen-bit words.
pub open spec fn index_words(indices: Seq<u16>, n: nat) -> Seq<u8>
    decreases n,
{
    if n == 0 {
        Seq::empty()
    } else {
        index_words(indices, (n - 1) as nat) + le16(index_or_zero(indices, n - 1))
    }
}

/// The first `n` palette entries as zigzag varints.
pub open spec fn palette_entries(palette: Seq<i32>, n: nat) -> Seq<u8>
    decreases n,
{
    if n == 0 {
        Seq::empty()
    } else {
        palette_entries(palette, (n - 1) as nat) + varint_encoding(zigzag32(palette[n - 1]) as nat)
    }
}

/// What reading `n` zigzag varints one after another off the front of `s` gives.
pub open spec fn zigzags_read(s: Seq<u8>, n: nat) -> Option<Seq<i32>>
    decreases n,
{
    if n == 0 {
        Some(Seq::empty())
    } else {
        match varint_read(s) {
            Ok((v, used)) => match zigzags_read(s.skip(used as int), (n - 1) as nat) {
                Some(rest) => Some(seq![unzigzag32(v)] + rest),
                None => None,
            },
            Err(_) => None,
        }
    }
}

/// The index words of a subchunk take two bytes each.
proof fn lemma_index_words_len(indices: Seq<u16>, n: nat)
    ensures
        index_words(indices, n).len() == 2 * n,
    decreases n,
{
    if n > 0 {
        lemma_index_words_len(indices, (n - 1) as nat);
    }
}

/// The palette entries start with the first one.
proof fn lemma_entries_front(palette: Seq<i32>, n: nat)
    requires
        1 <= n <= palette.len(),
    ensures
        palette_entries(palette, n) == varint_encoding(zigzag32(palette[0]) as nat) + palette_entries(
            palette.skip(1),
            (n - 1) as nat,
        ),
    decreases n,
{
    if n > 1 {
        lemma_entries_front(palette, (n - 1) as nat);
        let tail = palette.skip(1);
        assert(tail[n - 2] == palette[n - 1]);
        assert(palette_entries(tail, (n - 1) as nat) == palette_entries(tail, (n - 2) as nat) + varint_encoding(
            zigzag32(tail[n - 2]) as nat,
        ));
        assert(palette_entries(palette, n) =~= varint_encoding(zigzag32(palette[0]) as nat) + palette_entries(
            tail,
            (n - 1) as nat,
        ));
    } else {
        assert(palette_entries(palette, 0) =~= Seq::<u8>::empty());
        assert(palette_entries(palette.skip(1), 0) =~= Seq::<u8>::empty());
        assert(palette_entries(palette, 1) =~= varint_encoding(zigzag32(palette[0]) as nat));
    }
}

/// Reading the first `n` palette entries back gives the first `n` entries, in order.
proof fn lemma_entries_read(palette: Seq<i32>, n: nat, rest: Seq<u8>)
    requires
        n <= palette.len(),
    ensures
        zigzags_read(palette_entries(palette, n) + rest, n) == Some(palette.take(n as int)),
    decreases n,
{
    if n == 0 {
        assert(palette.take(0) =~= Seq::<i32>::empty());
    } else {
        lemma_entries_front(palette, n);
        let e = varint_encoding(zigzag32(palette[0]) as nat);
        let more = palette_entries(palette.skip(1), (n - 1) as nat);
        assert(palette_entries(palette, n) + rest =~= e + (more + rest));
        lemma_varint_round_trip(zigzag32(palette[0]), more + rest);
        assert((e + (more + rest)).skip(e.len() as int) =~= more + rest);
        lemma_entries_read(palette.skip(1), (n - 1) as nat, rest);
        lemma_zigzag_round_trip(palette[0]);
        assert(seq![palette[0]] + palette.skip(1).take(n - 1) =~= palette.take(n as int));
    }
}

/// The palette of a subchunk written with indices goes on the wire in order: after the
/// header and the index words, reading one zigzag varint more than there are entries
/// gives the palette's size and then every entry, so index `k` names `palette[k]`.
pub proof fn lemma_palette_in_order(palette: Seq<i32>, indices: Seq<u16>)
    requires
        2 <= palette.len() <= i32::MAX,
    ensures
        ({
            let s = subchunk_bytes(palette, Some(indices));
            &&& s.take(3) == seq![8u8, 1u8, 33u8]
            &&& zigzags_read(s.skip(3 + 2 * BLOCKS_PER_SUBCHUNK), palette.len() + 1) == Some(
                seq![palette.len() as i32] + palette,
            )
        }),
{
    let s = subchunk_bytes(palette, Some(indices));
    lemma_index_words_len(indices, BLOCKS_PER_SUBCHUNK as nat);
    let size = varint_encoding(zigzag32(palette.len() as i32) as nat);
    let entries = palette_entries(palette, palette.len());
    let head = seq![8u8, 1u8, 33u8] + index_words(indices, BLOCKS_PER_SUBCHUNK as nat);
    assert(s == head + size + entries);
    assert(s.take(3) =~= seq![8u8, 1u8, 33u8]);
    assert(s.skip(3 + 2 * BLOCKS_PER_SUBCHUNK) =~= size + entries);
    let whole = seq![palette.len() as i32] + palette;
    assert(whole[0] == palette.len() as i32);
    assert(whole.skip(1) =~= palette);
    lemma_entries_read(palette, palette.len(), Seq::empty());
    assert(entries + Seq::<u8>::empty() =~= entries);
    lemma_varint_round_trip(zigzag32(palette.len() as i32), entries);
    assert((size + entries).skip(size.len() as int) =~= entries);
    lemma_zigzag_round_trip(palette.len() as i32);
    assert(palette.take(palette.len() as int) =~= palette);
    assert(seq![palette.len() as i32] + palette =~= whole);
}

/// One subchunk on the wire: uniform when it has no indices or a single palette entry,
/// otherwise sixteen bits per block, the palette size and the palette.
pub open spec fn subchunk_bytes(palette: Seq<i32>, indices: Option<Seq<u16>>) -> Seq<u8> {
    let first = if palette.len() > 0 {
        palette[0]
    } else {
        RUNTIME_ID_AIR
    };
    match indices {
        None => uniform_subchunk_bytes(first),
        Some(ix) => if palette.len() <= 1 {
            uniform_subchunk_bytes(first)
        } else {
            seq![8u8, 1u8, 33u8] + index_words(ix, BLOCKS_PER_SUBCHUNK as nat) + varint_encoding(
                zigzag32(palette.len() as i32) as nat,
            ) + palette_entries(palette, palette.len())
        },
    }
}

/// The views of subchunks, as (palette, indices).
pub open spec fn subchunks_view(views: Seq<Subchunk>) -> Seq<(Seq<i32>, Option<Seq<u16>>)> {
    views.map_values(
        |s: Subchunk|
            (
                s.palette@,
                match s.indices {
                    Some(ix) => Some(ix@),
                    None => None,
                },
            ),
    )
}

/// The first `n` subchunks on the wire.
pub open spec fn subchunks_bytes(views: Seq<(Seq<i32>, Option<Seq<u16>>)>, n: nat) -> Seq<u8>
    decreases n,
{
    if n == 0 {
        Seq::empty()
    } else {
        subchunks_bytes(views, (n - 1) as nat) + subchunk_bytes(views[n - 1].0, views[n - 1].1)
    }
}

/// A column payload: its subchunks bottom first, a full column of biome, no border
/// blocks.
pub open spec fn column_payload_spec(views: Seq<(Seq<i32>, Option<Seq<u16>>)>, biome: i32) -> Seq<
    u8,
> {
    subchunks_bytes(views, views.len()) + biomes_bytes(OVERWORLD_SUBCHUNKS as nat, biome) + seq![
        0u8,
    ]
}

fn write_subchunk(w: &mut Writer, sub: &Subchunk)
    requires
        sub.palette@.len() <= i32::MAX,
    ensures
        final(w)@ == old(w)@ + subchunk_bytes(
            sub.palette@,
            match sub.indices {
                Some(ix) => Some(ix@),
                None => None,
            },
        ),
{
    let first = if sub.palette.len() > 0 {
        sub.palette[0]
    } else {
        RUNTIME_ID_AIR
    };
    let indices = match sub.indices {
        None => {
            write_uniform_subchunk(w, first);
            return;
        },
        Some(ix) => ix,
    };
    if sub.palette.len() <= 1 {
        write_uniform_subchunk(w, first);
        return;
    }
    w.u8(8).u8(1).u8(33);
    let ghost head = w@;
    let mut i: usize = 0;
    while i < BLOCKS_PER_SUBCHUNK
        invariant
            i <= BLOCKS_PER_SUBCHUNK,
            w@ == head + index_words(indices@, i as nat),
        decreases BLOCKS_PER_SUBCHUNK - i,
    {
        let v: u16 = if i < indices.len() {
            indices[i]
        } else {
            0
        };
        w.u8(v as u8).u8((v >> 8u16) as u8);
        proof {
            assert(w@ =~= head + index_words(indices@, (i + 1) as nat));
        }
        i = i + 1;
    }
    w.zigzag32(sub.palette.len() as i32);
    let ghost mid = w@;
    let mut j: usize = 0;
    while j < sub.palette.len()
        invariant
            j <= sub.palette@.len(),
            w@ == mid + palette_entries(sub.palette@, j as nat),
        decreases sub.palette@.len() - j,
    {
        w.zigzag32(sub.palette[j]);
        proof {
            assert(w@ =~= mid + palette_entries(sub.palette@, (j + 1) as nat));
        }
        j = j + 1;
    }
    proof {
        assert(w@ =~= old(w)@ + subchunk_bytes(sub.palette@, Some(indices@)));
    }
}

/// Builds a column payload from its subchunks, bottom first.
pub fn column_payload(views: &[Subchunk], biome: i32) -> (out: Vec<u8>)
    requires
        forall|i: int| 0 <= i < views@.len() ==> #[trigger] views@[i].palette@.len() <= i32::MAX,
    ensures
        out@ == column_payload_spec(subchunks_view(views@), biome),
{
    let mut w = Writer::new();
    let ghost vs = subchunks_view(views@);
    let mut i: usize = 0;
    while i < views.len()
        invariant
            i <= views@.len(),
            vs == subchunks_view(views@),
            forall|k: int| 0 <= k < views@.len() ==> #[trigger] views@[k].palette@.len() <= i32::MAX,
            w@ == subchunks_bytes(vs, i as nat),
        decreases views@.len() - i,
    {
        write_subchunk(&mut w, &views[i]);
        proof {
            assert(vs[i as int] == (views@[i as int].palette@, match views@[i as int].indices {
                Some(ix) => Some(ix@),
                None => None,
            }));
        }
        i = i + 1;
    }
    write_biomes(&mut w, biome);
    w.u8(0);
    w.finish()
}

} // verus!
