//! A 16×16×16 cube of blocks, immutable once built.
//!
//! Immutability is the point: a section can be handed to another thread for
//! serialization because nothing can change it underneath. Writing a block produces a
//! new section; the chunk swaps the pointer.
//!
//! Blocks are stored as a palette plus one index per position. A section that is all
//! one block carries no index array at all.
use crate::blocks::{is_air_block, Block, BlockView};
use vstd::prelude::*;

verus! {

/// Blocks along each edge of a section.
pub const SECTION_SIZE: usize = 16;

/// Blocks in a whole section.
pub const BLOCKS_PER_SECTION: usize = 4096;

/// Where a position sits in the index array.
pub open spec fn offset_of(x: int, y: int, z: int) -> int {
    (y * 16 + z) * 16 + x
}

/// Whether a position lies inside a section.
pub open spec fn in_section(x: int, y: int, z: int) -> bool {
    0 <= x < 16 && 0 <= y < 16 && 0 <= z < 16
}

/// A section as the contracts see it: its palette, and its index array if it has one.
pub type SectionView = (Seq<BlockView>, Option<Seq<u16>>);

/// Which palette entry the position at offset `off` uses.
pub open spec fn palette_index(s: SectionView, off: int) -> int {
    match s.1 {
        None => 0,
        Some(ix) => ix[off] as int,
    }
}

/// The block at offset `off`.
pub open spec fn block_of(s: SectionView, off: int) -> BlockView {
    s.0[palette_index(s, off)]
}

/// Every block of a section, by offset.
pub open spec fn blocks_of(s: SectionView) -> Seq<BlockView> {
    Seq::new(4096, |off: int| block_of(s, off))
}

/// Whether one of the first `k` blocks built is `b`.
spec fn came_from(calls: Seq<Block>, k: int, b: BlockView) -> bool {
    exists|j: int| 0 <= j < k && #[trigger] calls[j]@ == b
}

/// Whether some position of a section holds `b`.
pub open spec fn placed(s: SectionView, b: BlockView) -> bool {
    exists|o: int| 0 <= o < 4096 && #[trigger] blocks_of(s)[o] == b
}

/// Whether no block occurs twice in a palette.
pub open spec fn distinct(p: Seq<BlockView>) -> bool {
    forall|i: int, j: int| 0 <= i < j < p.len() ==> #[trigger] p[i] != #[trigger] p[j]
}

/// What every section keeps: a palette of one to 65536 distinct blocks, and an index
/// array, when there is one, of one in-range index per position.
pub open spec fn section_wf(s: SectionView) -> bool {
    &&& 1 <= s.0.len() <= 65536
    &&& distinct(s.0)
    &&& (s.1 matches Some(ix) ==> ix.len() == 4096 && forall|i: int|
        0 <= i < 4096 ==> (#[trigger] ix[i] as int) < s.0.len())
}

/// Where `b` sits in a palette, or the palette's length when it is not there.
pub open spec fn position_in(p: Seq<BlockView>, b: BlockView) -> int {
    if exists|i: int| 0 <= i < p.len() && p[i] == b {
        choose|i: int| 0 <= i < p.len() && p[i] == b
    } else {
        p.len() as int
    }
}

/// The palette after making room for `b`.
pub open spec fn palette_with(p: Seq<BlockView>, b: BlockView) -> Seq<BlockView> {
    if exists|i: int| 0 <= i < p.len() && p[i] == b {
        p
    } else {
        p.push(b)
    }
}

/// A position's slot in the index array, or `None` outside the section.
///
/// The order is internal: a caller that needs blocks in a particular order asks for
/// them by coordinate.
pub fn offset(x: usize, y: usize, z: usize) -> (o: Option<usize>)
    ensures
        o == (if in_section(x as int, y as int, z as int) {
            Some(offset_of(x as int, y as int, z as int) as usize)
        } else {
            None
        }),
        o matches Some(v) ==> v < 4096,
{
    if x >= SECTION_SIZE || y >= SECTION_SIZE || z >= SECTION_SIZE {
        return None;
    }
    Some((y * SECTION_SIZE + z) * SECTION_SIZE + x)
}

/// Distinct positions have distinct slots.
pub proof fn lemma_offset_injective(x1: int, y1: int, z1: int, x2: int, y2: int, z2: int)
    requires
        in_section(x1, y1, z1),
        in_section(x2, y2, z2),
        offset_of(x1, y1, z1) == offset_of(x2, y2, z2),
    ensures
        x1 == x2 && y1 == y2 && z1 == z2,
{
}

/// Where the position that comes `k`-th in x, then y, then z order lies.
pub open spec fn position_of(k: int) -> (int, int, int) {
    (k / 256, (k / 16) % 16, k % 16)
}

/// Every slot belongs to exactly one position, and walking positions in order visits
/// each slot once.
pub proof fn lemma_position_slot(k: int)
    requires
        0 <= k < 4096,
    ensures
        in_section(position_of(k).0, position_of(k).1, position_of(k).2),
        0 <= offset_of(position_of(k).0, position_of(k).1, position_of(k).2) < 4096,
{
}

/// Two positions visited at different steps have different slots.
proof fn lemma_position_distinct(k1: int, k2: int)
    requires
        0 <= k1 < 4096,
        0 <= k2 < 4096,
        k1 != k2,
    ensures
        offset_of(position_of(k1).0, position_of(k1).1, position_of(k1).2) != offset_of(
            position_of(k2).0,
            position_of(k2).1,
            position_of(k2).2,
        ),
{
    lemma_position_digits(k1);
    lemma_position_digits(k2);
    let (a1, b1, c1) = position_of(k1);
    let (a2, b2, c2) = position_of(k2);
    if offset_of(a1, b1, c1) == offset_of(a2, b2, c2) {
        lemma_digits_unique(a1, b1, c1, a2, b2, c2);
    }
}

/// Base-16 digits name one number.
proof fn lemma_digits_unique(a1: int, b1: int, c1: int, a2: int, b2: int, c2: int)
    requires
        0 <= a1 < 16,
        0 <= b1 < 16,
        0 <= c1 < 16,
        0 <= a2 < 16,
        0 <= b2 < 16,
        0 <= c2 < 16,
        (b1 * 16 + c1) * 16 + a1 == (b2 * 16 + c2) * 16 + a2,
    ensures
        a1 == a2 && b1 == b2 && c1 == c2,
{
}

/// The position visited `k`-th, read back as base-16 digits, is `k`.
proof fn lemma_position_digits(k: int)
    requires
        0 <= k < 4096,
    ensures
        k == position_of(k).0 * 256 + position_of(k).1 * 16 + position_of(k).2,
        0 <= position_of(k).0 < 16,
        0 <= position_of(k).1 < 16,
        0 <= position_of(k).2 < 16,
{
    let q = k / 16;
    vstd::arithmetic::div_mod::lemma_fundamental_div_mod(k, 16);
    vstd::arithmetic::div_mod::lemma_fundamental_div_mod(q, 16);
    vstd::arithmetic::div_mod::lemma_div_denominator(k, 16, 16);
    assert(q / 16 == k / 256);
}

/// Whether the block at a position is one that `f` answered for it.
pub open spec fn built_by<F: Fn(usize, usize, usize) -> Block>(
    f: F,
    s: SectionView,
    x: usize,
    y: usize,
    z: usize,
) -> bool {
    exists|b: Block|
        #[trigger] f.ensures((x, y, z), b) && b@ == blocks_of(s)[offset_of(x as int, y as int, z as int)]
}

/// A cube of blocks.
#[derive(Debug)]
pub struct Section {
    /// The distinct blocks in this section. Never empty.
    palette: Vec<Block>,
    /// One palette index per position, or `None` when the section is a single block
    /// everywhere.
    indices: Option<Vec<u16>>,
}

/// The views of a list of blocks.
pub open spec fn blocks_view(bs: Seq<Block>) -> Seq<BlockView> {
    bs.map_values(|b: Block| b@)
}

impl View for Section {
    type V = SectionView;

    closed spec fn view(&self) -> SectionView {
        (blocks_view(self.palette@), match &self.indices {
            None => None,
            Some(v) => Some(v@),
        })
    }
}

/// Looks a block up in a palette.
fn find(palette: &Vec<Block>, block: &Block) -> (r: Option<usize>)
    ensures
        match r {
            Some(i) => i < palette@.len() && blocks_view(palette@)[i as int] == block@,
            None => forall|i: int| 0 <= i < palette@.len() ==> blocks_view(palette@)[i] != block@,
        },
{
    let mut i: usize = 0;
    while i < palette.len()
        invariant
            i <= palette@.len(),
            forall|j: int| 0 <= j < i ==> blocks_view(palette@)[j] != block@,
        decreases palette@.len() - i,
    {
        if palette[i].same(block) {
            return Some(i);
        }
        i = i + 1;
    }
    None
}

/// A distinct palette finds a block at the one place it is.
proof fn lemma_found_is_position(p: Seq<BlockView>, b: BlockView, i: int)
    requires
        distinct(p),
        0 <= i < p.len(),
        p[i] == b,
    ensures
        position_in(p, b) == i,
        palette_with(p, b) == p,
{
    let j = position_in(p, b);
    assert(0 <= j < p.len() && p[j] == b);
    if j != i {
        if i < j {
            assert(p[i] != p[j]);
        } else {
            assert(p[j] != p[i]);
        }
    }
}

/// A copy of a list of blocks.
fn copy_blocks(bs: &Vec<Block>) -> (out: Vec<Block>)
    ensures
        blocks_view(out@) == blocks_view(bs@),
{
    let mut out: Vec<Block> = Vec::new();
    let mut i: usize = 0;
    while i < bs.len()
        invariant
            i <= bs@.len(),
            out@.len() == i,
            forall|j: int| 0 <= j < i ==> (#[trigger] out@[j])@ == bs@[j]@,
        decreases bs@.len() - i,
    {
        out.push(bs[i].copy());
        i = i + 1;
    }
    proof {
        assert(blocks_view(out@) =~= blocks_view(bs@));
    }
    out
}

/// A copy of an index array.
fn copy_indices(ix: &Vec<u16>) -> (out: Vec<u16>)
    ensures
        out@ == ix@,
{
    let mut out: Vec<u16> = Vec::new();
    let mut i: usize = 0;
    while i < ix.len()
        invariant
            i <= ix@.len(),
            out@ == ix@.take(i as int),
        decreases ix@.len() - i,
    {
        out.push(ix[i]);
        proof {
            assert(ix@.take(i + 1) =~= ix@.take(i as int).push(ix@[i as int]));
        }
        i = i + 1;
    }
    proof {
        assert(ix@.take(i as int) =~= ix@);
    }
    out
}

/// `n` zero indices.
fn zeros(n: usize) -> (out: Vec<u16>)
    ensures
        out@ == Seq::new(n as nat, |i: int| 0u16),
{
    let mut out: Vec<u16> = Vec::new();
    let mut i: usize = 0;
    while i < n
        invariant
            i <= n,
            out@ == Seq::new(i as nat, |j: int| 0u16),
        decreases n - i,
    {
        out.push(0);
        proof {
            assert(out@ =~= Seq::new((i + 1) as nat, |j: int| 0u16));
        }
        i = i + 1;
    }
    out
}

impl Section {
    #[verifier::type_invariant]
    closed spec fn well_formed(self) -> bool {
        section_wf(self@)
    }

    /// A section that is `block` everywhere.
    pub fn uniform(block: Block) -> (s: Self)
        ensures
            s@ == (seq![block@], None::<Seq<u16>>),
            blocks_of(s@) == Seq::new(4096, |i: int| block@),
    {
        let palette = vec![block];
        let s = Section { palette, indices: None };
        proof {
            assert(blocks_view(palette@) =~= seq![block@]);
            assert(blocks_of(s@) =~= Seq::new(4096, |i: int| block@));
        }
        s
    }

    /// A section built by asking for the block at every position, one pass, the palette
    /// in the order blocks first appear walking x, then y, then z. One block everywhere
    /// comes out as the single-value case.
    pub fn from_fn<F: Fn(usize, usize, usize) -> Block>(block_at: F) -> (s: Self)
        requires
            forall|x: usize, y: usize, z: usize|
                x < 16 && y < 16 && z < 16 ==> #[trigger] block_at.requires((x, y, z)),
        ensures
            forall|x: usize, y: usize, z: usize|
                x < 16 && y < 16 && z < 16 ==> #[trigger] built_by(block_at, s@, x, y, z),
            (s@.1 is None) == (s@.0.len() == 1),
            section_wf(s@),
            forall|i: int| 0 <= i < s@.0.len() ==> placed(s@, #[trigger] s@.0[i]),
    {
        let mut palette: Vec<Block> = Vec::new();
        let mut indices = zeros(BLOCKS_PER_SECTION);
        let ghost mut calls: Seq<Block> = Seq::new(4096, |i: int| arbitrary());
        let mut k: usize = 0;
        while k < BLOCKS_PER_SECTION
            invariant
                k <= 4096,
                forall|x: usize, y: usize, z: usize|
                    x < 16 && y < 16 && z < 16 ==> #[trigger] block_at.requires((x, y, z)),
                indices@.len() == 4096,
                calls.len() == 4096,
                palette@.len() <= k,
                k > 0 ==> palette@.len() >= 1,
                distinct(blocks_view(palette@)),
                forall|i: int| 0 <= i < palette@.len() ==> came_from(calls, k as int, #[trigger] blocks_view(palette@)[i]),
                forall|o: int| 0 <= o < 4096 ==> (#[trigger] indices@[o] as int) < palette@.len()
                    || indices@[o] == 0,
                forall|j: int|
                    0 <= j < k ==> {
                        let p = position_of(j);
                        let o = offset_of(p.0, p.1, p.2);
                        &&& block_at.ensures((p.0 as usize, p.1 as usize, p.2 as usize), #[trigger] calls[j])
                        &&& (indices@[o] as int) < palette@.len()
                        &&& blocks_view(palette@)[indices@[o] as int] == calls[j]@
                    },
            decreases 4096 - k,
        {
            let x = k / 256;
            let y = (k / 16) % 16;
            let z = k % 16;
            proof {
                lemma_position_slot(k as int);
            }
            let block = block_at(x, y, z);
            let ghost before = blocks_view(palette@);
            let index = match find(&palette, &block) {
                Some(i) => i,
                None => {
                    palette.push(block.copy());
                    proof {
                        let after = blocks_view(palette@);
                        assert(after =~= before.push(block@));
                        assert forall|i: int, j: int| 0 <= i < j < after.len() implies #[trigger] after[i]
                            != #[trigger] after[j] by {
                            if j == before.len() {
                                assert(after[i] == before[i]);
                            } else {
                                assert(after[i] == before[i] && after[j] == before[j]);
                            }
                        }
                    }
                    palette.len() - 1
                },
            };
            let o = (y * SECTION_SIZE + z) * SECTION_SIZE + x;
            proof {
                assert(blocks_view(palette@)[index as int] == block@);
                assert(forall|i: int| 0 <= i < before.len() ==> blocks_view(palette@)[i] == before[i]);
            }
            indices.set(o, index as u16);
            proof {
                let ghost old_calls = calls;
                calls = calls.update(k as int, block);
                assert forall|j: int| 0 <= j < k + 1 implies {
                    let p = position_of(j);
                    let o2 = offset_of(p.0, p.1, p.2);
                    &&& block_at.ensures((p.0 as usize, p.1 as usize, p.2 as usize), #[trigger] calls[j])
                    &&& (indices@[o2] as int) < palette@.len()
                    &&& blocks_view(palette@)[indices@[o2] as int] == calls[j]@
                } by {
                    if j < k {
                        lemma_position_distinct(j, k as int);
                        lemma_position_slot(j);
                        assert(calls[j] == old_calls[j]);
                    }
                }
                assert forall|i: int| 0 <= i < palette@.len() implies came_from(
                    calls,
                    k + 1,
                    #[trigger] blocks_view(palette@)[i],
                ) by {
                    if i < before.len() {
                        assert(came_from(old_calls, k as int, before[i]));
                        let j = choose|j: int| 0 <= j < k && #[trigger] old_calls[j]@ == before[i];
                        assert(calls[j] == old_calls[j]);
                    } else {
                        assert(calls[k as int] == block);
                    }
                }
            }
            k = k + 1;
        }
        proof {
            assert forall|x: usize, y: usize, z: usize| x < 16 && y < 16 && z < 16 implies #[trigger] built_by(
                block_at,
                (blocks_view(palette@), Some(indices@)),
                x,
                y,
                z,
            ) by {
                let j = x * 256 + y * 16 + z;
                assert(position_of(j) == (x as int, y as int, z as int));
                assert(block_at.ensures((x, y, z), calls[j]));
            }
        }
        proof {
            assert forall|i: int| 0 <= i < palette@.len() implies placed(
                (blocks_view(palette@), Some(indices@)),
                #[trigger] blocks_view(palette@)[i],
            ) by {
                assert(came_from(calls, 4096, blocks_view(palette@)[i]));
                let j = choose|j: int| 0 <= j < 4096 && #[trigger] calls[j]@ == blocks_view(palette@)[i];
                lemma_position_slot(j);
                let p = position_of(j);
                let o = offset_of(p.0, p.1, p.2);
                assert(blocks_of((blocks_view(palette@), Some(indices@)))[o] == blocks_view(palette@)[indices@[o] as int]);
            }
        }
        if palette.len() == 1 {
            let s = Section { palette, indices: None };
            proof {
                assert forall|x: usize, y: usize, z: usize| x < 16 && y < 16 && z < 16 implies #[trigger] built_by(
                    block_at,
                    s@,
                    x,
                    y,
                    z,
                ) by {
                    let j = x * 256 + y * 16 + z;
                    assert(position_of(j) == (x as int, y as int, z as int));
                    assert(block_at.ensures((x, y, z), calls[j]));
                }
                use_type_invariant(&s);
                assert(blocks_of(s@)[0] == s@.0[0]);
                assert(placed(s@, s@.0[0]));
            }
            s
        } else {
            let s = Section { palette, indices: Some(indices) };
            proof {
                use_type_invariant(&s);
                assert(s@ == (blocks_view(palette@), Some(indices@)));
            }
            s
        }
    }

    /// The block at a position inside the section, or `None` outside it.
    pub fn get(&self, x: usize, y: usize, z: usize) -> (b: Option<&Block>)
        ensures
            match b {
                Some(b) => in_section(x as int, y as int, z as int) && b@ == blocks_of(self@)[offset_of(
                    x as int,
                    y as int,
                    z as int,
                )],
                None => !in_section(x as int, y as int, z as int),
            },
    {
        proof {
            use_type_invariant(self);
        }
        let o = match offset(x, y, z) {
            Some(o) => o,
            None => return None,
        };
        let index: usize = match &self.indices {
            None => 0,
            Some(ix) => ix[o] as usize,
        };
        Some(&self.palette[index])
    }

    /// Which palette entry a position uses, or `None` outside the section.
    pub fn index_at(&self, x: usize, y: usize, z: usize) -> (i: Option<u16>)
        ensures
            match i {
                Some(i) => in_section(x as int, y as int, z as int) && i as int == palette_index(
                    self@,
                    offset_of(x as int, y as int, z as int),
                ) && (i as int) < self@.0.len(),
                None => !in_section(x as int, y as int, z as int),
            },
    {
        proof {
            use_type_invariant(self);
        }
        let o = match offset(x, y, z) {
            Some(o) => o,
            None => return None,
        };
        match &self.indices {
            None => Some(0),
            Some(ix) => Some(ix[o]),
        }
    }

    /// The one block this section is made of, when it is made of one.
    pub fn uniform_block(&self) -> (b: Option<&Block>)
        ensures
            match b {
                Some(b) => self@.1 is None && b@ == self@.0[0],
                None => self@.1 is Some,
            },
            b matches Some(b) ==> blocks_of(self@) == Seq::new(4096, |i: int| b@),
    {
        proof {
            use_type_invariant(self);
        }
        match &self.indices {
            None => {
                proof {
                    assert(blocks_of(self@) =~= Seq::new(4096, |i: int| self@.0[0]));
                }
                Some(&self.palette[0])
            },
            Some(_) => None,
        }
    }

    /// The distinct blocks in this section.
    pub fn palette(&self) -> (p: &[Block])
        ensures
            blocks_view(p@) == self@.0,
            section_wf(self@),
    {
        proof {
            use_type_invariant(self);
        }
        self.palette.as_slice()
    }

    /// Whether this section holds nothing but air, judged from the palette: a block
    /// placed and then removed keeps the section looking non-empty until it is rebuilt.
    pub fn is_empty(&self) -> (r: bool)
        ensures
            r == (forall|i: int| 0 <= i < self@.0.len() ==> is_air_block(#[trigger] self@.0[i])),
    {
        let mut i: usize = 0;
        while i < self.palette.len()
            invariant
                i <= self.palette@.len(),
                forall|j: int| 0 <= j < i ==> is_air_block(#[trigger] blocks_view(self.palette@)[j]),
            decreases self.palette@.len() - i,
        {
            if !self.palette[i].is_air() {
                proof {
                    assert(self@.0[i as int] == blocks_view(self.palette@)[i as int]);
                    assert(!is_air_block(self@.0[i as int]));
                }
                return false;
            }
            i = i + 1;
        }
        true
    }

    /// A copy of this section with one block replaced, or `None` if the position is
    /// outside it, or the block is new and the palette already has 65536 entries.
    ///
    /// Copy-on-write: the section this is called on is untouched. Writing the block a
    /// position already holds gives back the same section; otherwise the palette grows
    /// only when the block is new to it.
    pub fn with_block(&self, x: usize, y: usize, z: usize, block: Block) -> (r: Option<Self>)
        ensures
            match r {
                None => !in_section(x as int, y as int, z as int) || (block_of(
                    self@,
                    offset_of(x as int, y as int, z as int),
                ) != block@ && position_in(self@.0, block@) > 65535),
                Some(t) => {
                    &&& in_section(x as int, y as int, z as int)
                    &&& (block_of(self@, offset_of(x as int, y as int, z as int)) == block@ || position_in(
                        self@.0,
                        block@,
                    ) <= 65535)
                    &&& blocks_of(t@) == blocks_of(self@).update(
                        offset_of(x as int, y as int, z as int),
                        block@,
                    )
                    &&& if block_of(self@, offset_of(x as int, y as int, z as int)) == block@ {
                        t@ == self@
                    } else {
                        t@.0 == palette_with(self@.0, block@)
                    }
                },
            },
            r matches Some(t) ==> section_wf(t@),
    {
        proof {
            use_type_invariant(self);
        }
        let o = match offset(x, y, z) {
            Some(o) => o,
            None => return None,
        };
        let ghost off = o as int;
        let ghost sv = self@;
        let current: usize = match &self.indices {
            None => 0,
            Some(ix) => ix[o] as usize,
        };
        if self.palette[current].same(&block) {
            let t = self.copy();
            proof {
                assert(blocks_of(t@) =~= blocks_of(self@).update(off, block@));
            }
            proof {
                use_type_invariant(&t);
            }
            return Some(t);
        }
        let mut palette = copy_blocks(&self.palette);
        let ghost before = blocks_view(palette@);
        let index = match find(&palette, &block) {
            Some(i) => {
                proof {
                    lemma_found_is_position(before, block@, i as int);
                }
                i
            },
            None => {
                proof {
                    assert(!(exists|i: int| 0 <= i < before.len() && before[i] == block@));
                }
                palette.push(block);
                palette.len() - 1
            },
        };
        proof {
            assert(index as int == position_in(before, block@));
        }
        if index > 65535 {
            return None;
        }
        let mut indices = match &self.indices {
            Some(ix) => copy_indices(ix),
            None => zeros(BLOCKS_PER_SECTION),
        };
        let ghost old_indices = indices@;
        indices.set(o, index as u16);
        proof {
            let after = blocks_view(palette@);
            assert(after =~= palette_with(before, block@));
            assert(forall|i: int| 0 <= i < before.len() ==> after[i] == before[i]);
            assert forall|i: int, j: int| 0 <= i < j < after.len() implies #[trigger] after[i]
                != #[trigger] after[j] by {
                if j >= before.len() {
                    assert(after[i] == before[i]);
                } else {
                    assert(after[i] == before[i] && after[j] == before[j]);
                }
            }
            assert forall|i: int| 0 <= i < 4096 implies (#[trigger] indices@[i] as int) < after.len() by {
                if i != off {
                    assert(indices@[i] == old_indices[i]);
                }
            }
        }
        let t = Section { palette, indices: Some(indices) };
        proof {
            assert(blocks_of(t@) =~= blocks_of(self@).update(off, block@));
        }
        proof {
            use_type_invariant(&t);
        }
        Some(t)
    }

    /// Whether two sections hold the same palette and the same indices.
    pub fn same(&self, other: &Section) -> (r: bool)
        ensures
            r == (self@ == other@),
    {
        if self.palette.len() != other.palette.len() {
            proof {
                assert(self@.0.len() != other@.0.len());
            }
            return false;
        }
        let mut i: usize = 0;
        while i < self.palette.len()
            invariant
                i <= self.palette@.len(),
                self.palette@.len() == other.palette@.len(),
                forall|j: int| 0 <= j < i ==> #[trigger] blocks_view(self.palette@)[j] == blocks_view(other.palette@)[j],
            decreases self.palette@.len() - i,
        {
            if !self.palette[i].same(&other.palette[i]) {
                proof {
                    assert(self@.0[i as int] != other@.0[i as int]);
                }
                return false;
            }
            i = i + 1;
        }
        proof {
            assert(self@.0 =~= other@.0);
        }
        match (&self.indices, &other.indices) {
            (None, None) => true,
            (Some(a), Some(b)) => {
                if a.len() != b.len() {
                    proof {
                        assert(a@ != b@);
                    }
                    return false;
                }
                let mut k: usize = 0;
                assert(self@.1 == Some(a@) && other@.1 == Some(b@));
                while k < a.len()
                    invariant
                        k <= a@.len(),
                        self@.1 == Some(a@),
                        other@.1 == Some(b@),
                        self@.0 == other@.0,
                        a@.len() == b@.len(),
                        forall|j: int| 0 <= j < k ==> a@[j] == b@[j],
                    decreases a@.len() - k,
                {
                    if a[k] != b[k] {
                        proof {
                            assert(a@[k as int] != b@[k as int]);
                            assert(a@ != b@);
                        }
                        return false;
                    }
                    k = k + 1;
                }
                proof {
                    assert(a@ =~= b@);
                }
                true
            },
            _ => false,
        }
    }

    /// A copy of this section.
    pub fn copy(&self) -> (t: Section)
        ensures
            t@ == self@,
    {
        proof {
            use_type_invariant(self);
        }
        let palette = copy_blocks(&self.palette);
        let indices = match &self.indices {
            None => None,
            Some(ix) => Some(copy_indices(ix)),
        };
        Section { palette, indices }
    }
}

impl Clone for Section {
    fn clone(&self) -> (t: Section)
        ensures
            t@ == self@,
    {
        self.copy()
    }
}

impl PartialEq for Section {
    fn eq(&self, other: &Section) -> (r: bool) {
        self.same(other)
    }
}

impl vstd::std_specs::cmp::PartialEqSpecImpl for Section {
    open spec fn obeys_eq_spec() -> bool {
        true
    }

    open spec fn eq_spec(&self, other: &Section) -> bool {
        self@ == other@
    }
}

impl Eq for Section {

}

} // verus!
