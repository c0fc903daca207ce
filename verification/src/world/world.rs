//! The world: every column that has been loaded, and the generator that makes the rest.
//!
//! Columns are generated on first use and kept until unloaded. An unloaded column that
//! had been changed is regenerated as it was generated, not as it was changed:
//! persistence is not part of M0.
use crate::blocks::{Block, BlockView};
use crate::num::{floor_div16, mod16};
use crate::world::chunk::{column_block, writable, Chunk, ChunkView};
use crate::world::generator::{flat_column_block, Flat};
use vstd::prelude::*;

verus! {

/// The loaded columns as the contracts see them.
pub type ColumnsView = Map<(i32, i32), ChunkView>;

/// A world as the contracts see it: the generator's surface height and the loaded
/// columns by chunk position.
pub type WorldView = (i32, ColumnsView);

/// Whether some column in `cs` sits at `k`.
pub open spec fn has_pos(cs: Seq<ChunkView>, k: (i32, i32)) -> bool {
    exists|i: int| 0 <= i < cs.len() && (#[trigger] cs[i]).0 == k.0 && cs[i].1 == k.1
}

/// Whether no two columns in `cs` sit at the same place.
pub open spec fn distinct_positions(cs: Seq<ChunkView>) -> bool {
    forall|i: int, j: int|
        0 <= i < j < cs.len() ==> !((#[trigger] cs[i]).0 == (#[trigger] cs[j]).0 && cs[i].1 == cs[j].1)
}

/// The columns of `cs` by position.
pub open spec fn columns_map(cs: Seq<ChunkView>) -> ColumnsView {
    Map::new(
        |k: (i32, i32)| has_pos(cs, k),
        |k: (i32, i32)| cs[choose|i: int| 0 <= i < cs.len() && (#[trigger] cs[i]).0 == k.0 && cs[i].1 == k.1],
    )
}

/// The column a block position falls in.
pub open spec fn chunk_of_spec(x: int, z: int) -> (i32, i32) {
    ((x / 16) as i32, (z / 16) as i32)
}

/// The block a world holds at a position: the loaded column's block where the column is
/// loaded, the generated one where it is not.
pub open spec fn world_block(w: WorldView, x: int, y: int, z: int) -> Option<BlockView> {
    let k = chunk_of_spec(x, z);
    if w.1.dom().contains(k) {
        column_block(w.1[k], x % 16, y, z % 16)
    } else {
        flat_column_block(w.0 as int, x % 16, y, z % 16)
    }
}

/// A block written stays until its own column is unloaded: dropping any other column
/// leaves every block of the world where it was.
pub proof fn lemma_unload_keeps_others(w: WorldView, k: (i32, i32), x: int, y: int, z: int)
    requires
        chunk_of_spec(x, z) != k,
    ensures
        world_block((w.0, w.1.remove(k)), x, y, z) == world_block(w, x, y, z),
{
}

/// A column dropped is generated afresh: once unloaded, every position in it reads as
/// the flat world has it, whatever was written there before.
pub proof fn lemma_unloaded_is_generated(w: WorldView, x: int, y: int, z: int)
    ensures
        world_block((w.0, w.1.remove(chunk_of_spec(x, z))), x, y, z) == flat_column_block(
            w.0 as int,
            x % 16,
            y,
            z % 16,
        ),
{
}

/// The views of a list of columns.
pub open spec fn chunks_view(cs: Seq<Chunk>) -> Seq<ChunkView> {
    cs.map_values(|c: Chunk| c@)
}

/// A column found at index `i` is the one the map holds for its position.
proof fn lemma_lookup(cs: Seq<ChunkView>, i: int)
    requires
        distinct_positions(cs),
        0 <= i < cs.len(),
    ensures
        columns_map(cs).dom().contains((cs[i].0, cs[i].1)),
        columns_map(cs)[(cs[i].0, cs[i].1)] == cs[i],
{
    let k = (cs[i].0, cs[i].1);
    assert(has_pos(cs, k));
    let j = choose|j: int| 0 <= j < cs.len() && (#[trigger] cs[j]).0 == k.0 && cs[j].1 == k.1;
    if j != i {
        if j < i {
            assert(!(cs[j].0 == cs[i].0 && cs[j].1 == cs[i].1));
        } else {
            assert(!(cs[i].0 == cs[j].0 && cs[i].1 == cs[j].1));
        }
    }
}

/// Adding a column at a new position adds it to the map.
proof fn lemma_push(cs: Seq<ChunkView>, c: ChunkView)
    requires
        distinct_positions(cs),
        !has_pos(cs, (c.0, c.1)),
    ensures
        distinct_positions(cs.push(c)),
        columns_map(cs.push(c)) == columns_map(cs).insert((c.0, c.1), c),
{
    let n = cs.push(c);
    assert forall|i: int, j: int| 0 <= i < j < n.len() implies !((#[trigger] n[i]).0 == (
    #[trigger] n[j]).0 && n[i].1 == n[j].1) by {
        if j == cs.len() {
            assert(n[i] == cs[i]);
        } else {
            assert(n[i] == cs[i] && n[j] == cs[j]);
        }
    }
    let k = (c.0, c.1);
    assert forall|q: (i32, i32)| #[trigger] columns_map(n).dom().contains(q) == columns_map(cs).insert(k, c).dom().contains(q) by {
        if has_pos(cs, q) {
            let i = choose|i: int| 0 <= i < cs.len() && (#[trigger] cs[i]).0 == q.0 && cs[i].1 == q.1;
            assert(n[i] == cs[i]);
        }
        if has_pos(n, q) {
            let i = choose|i: int| 0 <= i < n.len() && (#[trigger] n[i]).0 == q.0 && n[i].1 == q.1;
            if i < cs.len() {
                assert(n[i] == cs[i]);
            }
        }
        if q == k {
            assert(n[cs.len() as int] == c);
        }
    }
    assert forall|q: (i32, i32)| columns_map(n).dom().contains(q) implies #[trigger] columns_map(n)[q] == columns_map(cs).insert(k, c)[q] by {
        let i = choose|i: int| 0 <= i < n.len() && (#[trigger] n[i]).0 == q.0 && n[i].1 == q.1;
        lemma_lookup(n, i);
        if i < cs.len() {
            assert(n[i] == cs[i]);
            lemma_lookup(cs, i);
        }
    }
    assert(columns_map(n) =~= columns_map(cs).insert(k, c));
}

/// Replacing the column at index `i` by one at the same position replaces it in the
/// map.
proof fn lemma_update(cs: Seq<ChunkView>, i: int, c: ChunkView)
    requires
        distinct_positions(cs),
        0 <= i < cs.len(),
        c.0 == cs[i].0,
        c.1 == cs[i].1,
    ensures
        distinct_positions(cs.update(i, c)),
        columns_map(cs.update(i, c)) == columns_map(cs).insert((c.0, c.1), c),
{
    let n = cs.update(i, c);
    assert forall|a: int, b: int| 0 <= a < b < n.len() implies !((#[trigger] n[a]).0 == (
    #[trigger] n[b]).0 && n[a].1 == n[b].1) by {
        assert(n[a].0 == cs[a].0 && n[a].1 == cs[a].1);
        assert(n[b].0 == cs[b].0 && n[b].1 == cs[b].1);
    }
    let k = (c.0, c.1);
    assert forall|q: (i32, i32)| #[trigger] columns_map(n).dom().contains(q) == columns_map(cs).insert(k, c).dom().contains(q) by {
        if has_pos(cs, q) {
            let j = choose|j: int| 0 <= j < cs.len() && (#[trigger] cs[j]).0 == q.0 && cs[j].1 == q.1;
            assert(n[j].0 == cs[j].0 && n[j].1 == cs[j].1);
        }
        if has_pos(n, q) {
            let j = choose|j: int| 0 <= j < n.len() && (#[trigger] n[j]).0 == q.0 && n[j].1 == q.1;
            assert(n[j].0 == cs[j].0 && n[j].1 == cs[j].1);
        }
        if q == k {
            assert(n[i] == c);
        }
    }
    assert forall|q: (i32, i32)| columns_map(n).dom().contains(q) implies #[trigger] columns_map(n)[q] == columns_map(cs).insert(k, c)[q] by {
        let j = choose|j: int| 0 <= j < n.len() && (#[trigger] n[j]).0 == q.0 && n[j].1 == q.1;
        lemma_lookup(n, j);
        if j != i {
            assert(n[j] == cs[j]);
            lemma_lookup(cs, j);
        }
    }
    assert(columns_map(n) =~= columns_map(cs).insert(k, c));
}

/// Removing the column at index `i` removes its position from the map.
proof fn lemma_remove(cs: Seq<ChunkView>, i: int)
    requires
        distinct_positions(cs),
        0 <= i < cs.len(),
    ensures
        distinct_positions(cs.remove(i)),
        columns_map(cs.remove(i)) == columns_map(cs).remove((cs[i].0, cs[i].1)),
{
    let n = cs.remove(i);
    let k = (cs[i].0, cs[i].1);
    assert forall|a: int| 0 <= a < n.len() implies #[trigger] n[a] == cs[if a < i {
        a
    } else {
        a + 1
    }] by {}
    assert forall|a: int, b: int| 0 <= a < b < n.len() implies !((#[trigger] n[a]).0 == (
    #[trigger] n[b]).0 && n[a].1 == n[b].1) by {
        let a2 = if a < i {
            a
        } else {
            a + 1
        };
        let b2 = if b < i {
            b
        } else {
            b + 1
        };
        assert(n[a] == cs[a2] && n[b] == cs[b2]);
        assert(!(cs[a2].0 == cs[b2].0 && cs[a2].1 == cs[b2].1));
    }
    assert forall|q: (i32, i32)| #[trigger] columns_map(n).dom().contains(q) == columns_map(cs).remove(k).dom().contains(q) by {
        if has_pos(cs, q) && q != k {
            let j = choose|j: int| 0 <= j < cs.len() && (#[trigger] cs[j]).0 == q.0 && cs[j].1 == q.1;
            let j2 = if j < i {
                j
            } else {
                j - 1
            };
            assert(j != i);
            assert(n[j2] == cs[j]);
        }
        if has_pos(n, q) {
            let j = choose|j: int| 0 <= j < n.len() && (#[trigger] n[j]).0 == q.0 && n[j].1 == q.1;
            let j2 = if j < i {
                j
            } else {
                j + 1
            };
            assert(n[j] == cs[j2]);
            if q == k {
                if j2 < i {
                    assert(!(cs[j2].0 == cs[i].0 && cs[j2].1 == cs[i].1));
                } else {
                    assert(!(cs[i].0 == cs[j2].0 && cs[i].1 == cs[j2].1));
                }
            }
        }
    }
    assert forall|q: (i32, i32)| columns_map(n).dom().contains(q) implies #[trigger] columns_map(n)[q] == columns_map(cs).remove(k)[q] by {
        let j = choose|j: int| 0 <= j < n.len() && (#[trigger] n[j]).0 == q.0 && n[j].1 == q.1;
        let j2 = if j < i {
            j
        } else {
            j + 1
        };
        assert(n[j] == cs[j2]);
        lemma_lookup(n, j);
        lemma_lookup(cs, j2);
    }
    assert(columns_map(n) =~= columns_map(cs).remove(k));
}

/// The world: loaded columns plus the generator for the rest.
#[derive(Debug)]
pub struct World {
    generator: Flat,
    chunks: Vec<Chunk>,
}

impl View for World {
    type V = WorldView;

    closed spec fn view(&self) -> WorldView {
        (self.generator.surface_height_spec(), columns_map(chunks_view(self.chunks@)))
    }
}

impl World {
    #[verifier::type_invariant]
    closed spec fn well_formed(self) -> bool {
        distinct_positions(chunks_view(self.chunks@))
    }

    /// A flat world with nothing loaded yet.
    pub fn flat(surface_height: i32) -> (w: Self)
        ensures
            w@ == (surface_height, Map::<(i32, i32), ChunkView>::empty()),
    {
        let w = World { generator: Flat::new(surface_height), chunks: Vec::new() };
        proof {
            assert(columns_map(chunks_view(w.chunks@)) =~= Map::<(i32, i32), ChunkView>::empty());
        }
        w
    }

    /// The height of the first air block, everywhere nothing has been changed.
    pub fn surface_height(&self) -> (h: i32)
        ensures
            h == self@.0,
    {
        self.generator.surface_height()
    }

    /// Where column `(x, z)` sits in the list, if it is loaded.
    fn find(&self, x: i32, z: i32) -> (r: Option<usize>)
        ensures
            match r {
                Some(i) => i < self.chunks@.len() && self.chunks@[i as int]@.0 == x && self.chunks@[i as int]@.1 == z,
                None => !has_pos(chunks_view(self.chunks@), (x, z)),
            },
    {
        let mut i: usize = 0;
        while i < self.chunks.len()
            invariant
                i <= self.chunks@.len(),
                forall|j: int| 0 <= j < i ==> !((#[trigger] self.chunks@[j])@.0 == x && self.chunks@[j]@.1 == z),
            decreases self.chunks@.len() - i,
        {
            let (cx, cz) = self.chunks[i].position();
            if cx == x && cz == z {
                return Some(i);
            }
            i = i + 1;
        }
        proof {
            let cs = chunks_view(self.chunks@);
            if has_pos(cs, (x, z)) {
                let j = choose|j: int| 0 <= j < cs.len() && (#[trigger] cs[j]).0 == x && cs[j].1 == z;
                assert(cs[j] == self.chunks@[j]@);
            }
        }
        None
    }

    /// Loads column `(x, z)` if it is not loaded, and says where it is.
    fn load(&mut self, x: i32, z: i32) -> (i: usize)
        ensures
            i < final(self).chunks@.len(),
            final(self).chunks@[i as int]@.0 == x,
            final(self).chunks@[i as int]@.1 == z,
            final(self)@.0 == old(self)@.0,
            final(self)@.1.dom().contains((x, z)),
            final(self)@.1[(x, z)] == final(self).chunks@[i as int]@,
            old(self)@.1.dom().contains((x, z)) ==> final(self)@ == old(self)@,
            !old(self)@.1.dom().contains((x, z)) ==> final(self)@.1 == old(self)@.1.insert((x, z), final(self).chunks@[i as int]@)
                && forall|bx: int, by: int, bz: int| #[trigger] column_block(final(self)@.1[(x, z)], bx, by, bz)
                    == flat_column_block(old(self)@.0 as int, bx, by, bz),
    {
        proof {
            use_type_invariant(&*self);
        }
        match self.find(x, z) {
            Some(i) => {
                proof {
                    lemma_lookup(chunks_view(self.chunks@), i as int);
                }
                i
            },
            None => {
                let c = self.generator.generate(x, z);
                let ghost cv = c@;
                let ghost before = chunks_view(self.chunks@);
                proof {
                    lemma_push(before, cv);
                }
                let mut chunks: Vec<Chunk> = Vec::new();
                std::mem::swap(&mut chunks, &mut self.chunks);
                chunks.push(c);
                proof {
                    assert(chunks_view(chunks@) =~= before.push(cv));
                }
                self.chunks = chunks;
                proof {
                    lemma_lookup(chunks_view(self.chunks@), before.len() as int);
                }
                self.chunks.len() - 1
            },
        }
    }

    /// The column at chunk position `(x, z)`, generating it if it is not loaded.
    pub fn chunk(&mut self, x: i32, z: i32) -> (c: &Chunk)
        ensures
            final(self)@.0 == old(self)@.0,
            final(self)@.1.dom().contains((x, z)),
            c@ == final(self)@.1[(x, z)],
            old(self)@.1.dom().contains((x, z)) ==> final(self)@ == old(self)@,
            !old(self)@.1.dom().contains((x, z)) ==> final(self)@.1 == old(self)@.1.insert((x, z), c@)
                && forall|bx: int, by: int, bz: int| #[trigger] column_block(c@, bx, by, bz)
                    == flat_column_block(old(self)@.0 as int, bx, by, bz),
    {
        let i = self.load(x, z);
        &self.chunks[i]
    }

    /// The column at chunk position `(x, z)` if it is loaded.
    pub fn loaded_chunk(&self, x: i32, z: i32) -> (c: Option<&Chunk>)
        ensures
            match c {
                Some(c) => self@.1.dom().contains((x, z)) && c@ == self@.1[(x, z)],
                None => !self@.1.dom().contains((x, z)),
            },
    {
        proof {
            use_type_invariant(self);
        }
        match self.find(x, z) {
            Some(i) => {
                proof {
                    lemma_lookup(chunks_view(self.chunks@), i as int);
                }
                Some(&self.chunks[i])
            },
            None => None,
        }
    }

    /// How many columns are loaded.
    pub fn loaded(&self) -> (n: usize)
        ensures
            n == self@.1.len(),
            self@.1.dom().finite(),
    {
        proof {
            use_type_invariant(self);
            lemma_count(chunks_view(self.chunks@));
        }
        self.chunks.len()
    }

    /// Drops column `(x, z)`. Returns whether it was loaded; asking for it again
    /// generates it afresh.
    pub fn unload(&mut self, x: i32, z: i32) -> (was: bool)
        ensures
            was == old(self)@.1.dom().contains((x, z)),
            final(self)@ == (old(self)@.0, old(self)@.1.remove((x, z))),
            final(self)@.1.dom().finite(),
            final(self)@.1.len() == old(self)@.1.len() - if was {
                1int
            } else {
                0int
            },
    {
        proof {
            use_type_invariant(&*self);
            lemma_count(chunks_view(self.chunks@));
        }
        match self.find(x, z) {
            Some(i) => {
                let ghost before = chunks_view(self.chunks@);
                proof {
                    lemma_lookup(before, i as int);
                    lemma_remove(before, i as int);
                }
                let mut chunks: Vec<Chunk> = Vec::new();
                std::mem::swap(&mut chunks, &mut self.chunks);
                chunks.remove(i);
                proof {
                    assert(chunks_view(chunks@) =~= before.remove(i as int));
                }
                self.chunks = chunks;
                true
            },
            None => {
                proof {
                    assert(self@.1.remove((x, z)) =~= self@.1);
                }
                false
            },
        }
    }

    /// The block at a world position, generating its column if it is not loaded.
    pub fn block_at(&mut self, x: i32, y: i32, z: i32) -> (b: Option<&Block>)
        ensures
            world_block(final(self)@, x as int, y as int, z as int) == world_block(
                old(self)@,
                x as int,
                y as int,
                z as int,
            ),
            forall|bx: int, by: int, bz: int| #[trigger] world_block(final(self)@, bx, by, bz) == world_block(old(self)@, bx, by, bz),
            match b {
                Some(b) => world_block(old(self)@, x as int, y as int, z as int) == Some(b@),
                None => world_block(old(self)@, x as int, y as int, z as int) is None,
            },
    {
        let (cx, cz) = chunk_of(x, z);
        let (lx, lz) = local_of(x, z);
        let ghost before = self@;
        let i = self.load(cx, cz);
        proof {
            lemma_chunk_keeps_blocks(before, self@, cx, cz);
        }
        self.chunks[i].block_at(lx, y, lz)
    }

    /// Replaces one block, generating its column first if it is not loaded. Returns
    /// whether the position was inside the world's height.
    pub fn set_block(&mut self, x: i32, y: i32, z: i32, block: Block) -> (written: bool)
        ensures
            final(self)@.0 == old(self)@.0,
            written ==> -64 <= y < 320,
            old(self)@.1.dom().contains(chunk_of_spec(x as int, z as int)) ==> written == writable(
                old(self)@.1[chunk_of_spec(x as int, z as int)],
                x as int % 16,
                y as int,
                z as int % 16,
                block@,
            ),
            forall|bx: i32, by: i32, bz: i32| #[trigger] world_block(final(self)@, bx as int, by as int, bz as int) == if written && bx == x
                && by == y && bz == z {
                Some(block@)
            } else {
                world_block(old(self)@, bx as int, by as int, bz as int)
            },
            final(self)@.1.dom() == old(self)@.1.dom().insert(chunk_of_spec(x as int, z as int)),
            final(self)@.1.dom().finite(),
            final(self)@.1.len() == old(self)@.1.len() + if old(self)@.1.dom().contains(
                chunk_of_spec(x as int, z as int),
            ) {
                0int
            } else {
                1int
            },
    {
        proof {
            use_type_invariant(&*self);
            lemma_count(chunks_view(self.chunks@));
        }
        let (cx, cz) = chunk_of(x, z);
        let (lx, lz) = local_of(x, z);
        let ghost start = self@;
        let i = self.load(cx, cz);
        let ghost loaded = self@;
        proof {
            lemma_chunk_keeps_blocks(start, loaded, cx, cz);
            use_type_invariant(&*self);
        }
        let ghost bv = block@;
        let ghost before = chunks_view(self.chunks@);
        let mut chunks: Vec<Chunk> = Vec::new();
        std::mem::swap(&mut chunks, &mut self.chunks);
        let ghost old_chunk = chunks@[i as int]@;
        let mut c = chunks.remove(i);
        let written = c.set_block(lx, y, lz, block);
        let ghost new_chunk = c@;
        chunks.insert(i, c);
        proof {
            assert(chunks_view(chunks@) =~= before.update(i as int, new_chunk));
            lemma_update(before, i as int, new_chunk);
        }
        self.chunks = chunks;
        proof {
            let k = (cx, cz);
            assert(self@.1 == loaded.1.insert(k, new_chunk));
            assert(loaded.1[k] == old_chunk);
            assert forall|bx: i32, by: i32, bz: i32| #[trigger] world_block(self@, bx as int, by as int, bz as int) == if written
                && bx == x && by == y && bz == z {
                Some(bv)
            } else {
                world_block(start, bx as int, by as int, bz as int)
            } by {
                assert(world_block(loaded, bx as int, by as int, bz as int) == world_block(start, bx as int, by as int, bz as int));
                let k2 = chunk_of_spec(bx as int, bz as int);
                if k2 == k {
                    assert(column_block(new_chunk, bx as int % 16, by as int, bz as int % 16) == if written && bx as int % 16 == lx
                        && by == y && bz as int % 16 == lz {
                        Some(bv)
                    } else {
                        column_block(old_chunk, bx as int % 16, by as int, bz as int % 16)
                    });
                    if bx as int % 16 == lx && bz as int % 16 == lz {
                        lemma_same_position(bx as int, bz as int, x as int, z as int);
                    }
                }
            }
            use_type_invariant(&*self);
            lemma_count(chunks_view(self.chunks@));
            assert(self@.1.dom() =~= start.1.dom().insert(k));
        }
        written
    }
}

/// Loading a column changes no block of the world.
proof fn lemma_chunk_keeps_blocks(before: WorldView, after: WorldView, x: i32, z: i32)
    requires
        after.0 == before.0,
        after.1.dom().contains((x, z)),
        before.1.dom().contains((x, z)) ==> after == before,
        !before.1.dom().contains((x, z)) ==> after.1 == before.1.insert((x, z), after.1[(x, z)])
            && forall|bx: int, by: int, bz: int| #[trigger] column_block(after.1[(x, z)], bx, by, bz)
                == flat_column_block(before.0 as int, bx, by, bz),
    ensures
        forall|bx: int, by: int, bz: int| #[trigger] world_block(after, bx, by, bz) == world_block(before, bx, by, bz),
{
}

/// Two positions in the same column at the same local place are the same position.
proof fn lemma_same_position(x1: int, z1: int, x2: int, z2: int)
    requires
        chunk_of_spec(x1, z1) == chunk_of_spec(x2, z2),
        x1 % 16 == x2 % 16,
        z1 % 16 == z2 % 16,
        i32::MIN <= x1 <= i32::MAX,
        i32::MIN <= x2 <= i32::MAX,
        i32::MIN <= z1 <= i32::MAX,
        i32::MIN <= z2 <= i32::MAX,
    ensures
        x1 == x2,
        z1 == z2,
{
    assert(x1 / 16 == x2 / 16);
    assert(z1 / 16 == z2 / 16);
}

/// The map has one entry per column.
proof fn lemma_count(cs: Seq<ChunkView>)
    requires
        distinct_positions(cs),
    ensures
        columns_map(cs).dom().finite(),
        columns_map(cs).len() == cs.len(),
    decreases cs.len(),
{
    if cs.len() == 0 {
        assert(columns_map(cs).dom() =~= Set::<(i32, i32)>::empty());
    } else {
        let init = cs.drop_last();
        let c = cs.last();
        assert(distinct_positions(init)) by {
            assert forall|i: int, j: int| 0 <= i < j < init.len() implies !((#[trigger] init[i]).0 == (
            #[trigger] init[j]).0 && init[i].1 == init[j].1) by {
                assert(init[i] == cs[i] && init[j] == cs[j]);
            }
        }
        assert(!has_pos(init, (c.0, c.1))) by {
            if has_pos(init, (c.0, c.1)) {
                let i = choose|i: int| 0 <= i < init.len() && (#[trigger] init[i]).0 == c.0 && init[i].1 == c.1;
                assert(init[i] == cs[i]);
                assert(!(cs[i].0 == cs[cs.len() - 1].0 && cs[i].1 == cs[cs.len() - 1].1));
            }
        }
        lemma_count(init);
        lemma_push(init, c);
        assert(init.push(c) =~= cs);
    }
}

/// The column a block position falls in. Negative positions belong to the column
/// below: `-1` is in column `-1`, not `0`.
pub fn chunk_of(x: i32, z: i32) -> (c: (i32, i32))
    ensures
        c == chunk_of_spec(x as int, z as int),
{
    (floor_div16(x), floor_div16(z))
}

/// Where a block position sits inside its column.
pub fn local_of(x: i32, z: i32) -> (l: (usize, usize))
    ensures
        l.0 == x % 16,
        l.1 == z % 16,
{
    (mod16(x), mod16(z))
}

} // verus!
