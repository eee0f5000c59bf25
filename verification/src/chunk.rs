//! World chunks: signed 2D chunk coordinates, per-cell block data, and the
//! authoritative chunk storage with its dirty-position set.
use vstd::prelude::*;
use crate::registry::Id;

verus! {

broadcast use vstd::std_specs::hash::group_hash_axioms;

/// Side length of a square chunk, in blocks.
pub const CHUNK_SIZE: usize = 16;

/// Cells in one chunk.
pub const CHUNK_AREA: usize = 256;

/// A signed 2D grid coordinate in whole-chunk units.
#[derive(Clone, Copy, Debug, Hash, PartialEq, Eq, Structural)]
pub struct ChunkPos {
    pub x: i32,
    pub y: i32,
}

/// A chunk position packed into one word, used to key hash containers.
pub open spec fn spec_pos_key(pos: ChunkPos) -> u64 {
    ((pos.x as u32 as u64) << 32u64) | (pos.y as u32 as u64)
}

/// Packing is injective: distinct positions get distinct keys.
pub proof fn lemma_pos_key_injective(a: ChunkPos, b: ChunkPos)
    requires
        spec_pos_key(a) == spec_pos_key(b),
    ensures
        a == b,
{
    let (ax, ay, bx, by) = (a.x, a.y, b.x, b.y);
    assert(((ax as u32 as u64) << 32u64) | (ay as u32 as u64) == ((bx as u32 as u64) << 32u64) | (
    by as u32 as u64) ==> ax == bx && ay == by) by (bit_vector);
}

impl ChunkPos {
    /// This position packed into one word.
    pub fn key(&self) -> (r: u64)
        ensures
            r == spec_pos_key(*self),
    {
        ((self.x as u32 as u64) << 32u64) | (self.y as u32 as u64)
    }

    /// The position offset by `(dx, dy)`, if it stays representable.
    pub fn checked_offset(&self, dx: i32, dy: i32) -> (r: Option<ChunkPos>)
        ensures
            i32::MIN <= self.x + dx <= i32::MAX && i32::MIN <= self.y + dy <= i32::MAX ==> r
                == Some(ChunkPos { x: (self.x + dx) as i32, y: (self.y + dy) as i32 }),
            !(i32::MIN <= self.x + dx <= i32::MAX && i32::MIN <= self.y + dy <= i32::MAX) ==> r
                is None,
    {
        match (self.x.checked_add(dx), self.y.checked_add(dy)) {
            (Some(x), Some(y)) => Some(ChunkPos { x, y }),
            _ => None,
        }
    }
}

/// One grid cell: which block descriptor it is, plus the baked collision
/// flag copied out of the descriptor for O(1) physics lookups.
#[derive(Clone, Copy, Debug)]
pub struct Block {
    pub id: Id<BlockDesc>,
    pub collision: bool,
}

impl Block {
    /// The descriptor this block was created from.
    pub fn get_id(&self) -> (r: Id<BlockDesc>)
        ensures
            r == self.id,
    {
        self.id
    }

    /// Whether this block stops entities.
    pub fn get_collision(&self) -> (r: bool)
        ensures
            r == self.collision,
    {
        self.collision
    }
}

/// A baked block descriptor, the output of registering a block prototype.
#[derive(Clone, Copy, Debug)]
pub struct BlockDesc {
    pub collision: bool,
}

impl BlockDesc {
    /// Stamps out a block of this descriptor.
    pub fn create(&self, id: Id<BlockDesc>) -> (r: Block)
        ensures
            r.id == id,
            r.collision == self.collision,
    {
        Block { id, collision: self.collision }
    }
}

/// An authored block prototype, as the content layer hands it over.
#[derive(Clone, Copy, Debug)]
pub struct BlockPrototype {
    pub collision: bool,
}

impl BlockPrototype {
    /// Bakes the prototype into its runtime descriptor.
    pub fn bake(self) -> (r: BlockDesc)
        ensures
            r.collision == self.collision,
    {
        BlockDesc { collision: self.collision }
    }
}

/// A fixed-size square grid of blocks; an immutable snapshot once generated,
/// owned by the chunk storage and copied cheaply to interested consumers.
#[derive(Clone, Debug)]
pub struct Chunk {
    blocks: Vec<Block>,
}

impl View for Chunk {
    type V = Seq<Block>;

    closed spec fn view(&self) -> Seq<Block> {
        self.blocks@
    }
}

/// The cell index of local coordinates `(x, y)` inside a chunk.
pub open spec fn spec_cell(x: int, y: int) -> int {
    y * (CHUNK_SIZE as int) + x
}

impl Chunk {
    /// A full grid of cells.
    pub open spec fn wf(&self) -> bool {
        self@.len() == CHUNK_AREA as int
    }

    /// A chunk with every cell holding `block`.
    pub fn filled(block: Block) -> (r: Chunk)
        ensures
            r.wf(),
            forall|i: int| 0 <= i < CHUNK_AREA as int ==> r@[i] == block,
    {
        let mut blocks: Vec<Block> = Vec::new();
        let mut i: usize = 0;
        while i < CHUNK_AREA
            invariant
                blocks@.len() == i <= CHUNK_AREA,
                forall|m: int| 0 <= m < i ==> blocks@[m] == block,
            decreases CHUNK_AREA - i,
        {
            blocks.push(block);
            i = i + 1;
        }
        Chunk { blocks }
    }

    /// A copy of the chunk holding exactly the same blocks.
    pub fn duplicate(&self) -> (r: Chunk)
        ensures
            r@ == self@,
    {
        let n = self.blocks.len();
        let mut blocks: Vec<Block> = Vec::new();
        let mut i: usize = 0;
        while i < n
            invariant
                n == self.blocks@.len(),
                blocks@.len() == i <= n,
                forall|m: int| 0 <= m < i ==> blocks@[m] == self.blocks@[m],
            decreases n - i,
        {
            blocks.push(self.blocks[i]);
            i = i + 1;
        }
        proof {
            assert(blocks@ =~= self.blocks@);
        }
        Chunk { blocks }
    }

    /// Whether this chunk is a full grid.
    pub fn is_well_formed(&self) -> (r: bool)
        ensures
            r == self.wf(),
    {
        self.blocks.len() == CHUNK_AREA
    }

    /// The block at local coordinates `(x, y)`.
    pub fn get(&self, x: usize, y: usize) -> (r: Block)
        requires
            self.wf(),
            x < CHUNK_SIZE,
            y < CHUNK_SIZE,
        ensures
            r == self@[spec_cell(x as int, y as int)],
    {
        self.blocks[y * CHUNK_SIZE + x]
    }

    /// Replaces the block at local coordinates `(x, y)`.
    pub fn set(&mut self, x: usize, y: usize, block: Block)
        requires
            old(self).wf(),
            x < CHUNK_SIZE,
            y < CHUNK_SIZE,
        ensures
            final(self).wf(),
            final(self)@ == old(self)@.update(spec_cell(x as int, y as int), block),
    {
        self.blocks[y * CHUNK_SIZE + x] = block;
    }
}

/// The authoritative mapping from chunk position to chunk, plus the set of
/// positions changed since the last drain.
pub struct ChunkStorage {
    chunks: std::collections::HashMap<u64, Chunk>,
    dirty: Vec<ChunkPos>,
}

impl ChunkStorage {
    /// The resident chunks, keyed by packed position.
    pub closed spec fn resident(&self) -> Map<u64, Chunk> {
        self.chunks@
    }

    /// The positions changed since the last drain, in marking order.
    pub closed spec fn dirty_list(&self) -> Seq<ChunkPos> {
        self.dirty@
    }

    /// Every resident chunk is a full grid, and no position is marked dirty
    /// twice between drains.
    pub closed spec fn wf(&self) -> bool {
        &&& forall|k: u64| self.resident().contains_key(k) ==> (#[trigger] self.resident()[k]).wf()
        &&& forall|i: int, j: int|
            0 <= i < j < self.dirty@.len() ==> spec_pos_key(#[trigger] self.dirty@[i])
                != spec_pos_key(#[trigger] self.dirty@[j])
    }

    /// In a well-formed storage every resident chunk is a full grid.
    pub proof fn lemma_resident_chunk_wf(&self, k: u64)
        requires
            self.wf(),
            self.resident().contains_key(k),
        ensures
            self.resident()[k].wf(),
    {
    }

    pub fn new() -> (r: ChunkStorage)
        ensures
            r.wf(),
            r.resident() == Map::<u64, Chunk>::empty(),
            r.dirty_list() == Seq::<ChunkPos>::empty(),
    {
        ChunkStorage { chunks: std::collections::HashMap::new(), dirty: Vec::new() }
    }

    /// Whether a chunk is resident at `pos`.
    pub fn contains(&self, pos: ChunkPos) -> (r: bool)
        ensures
            r == self.resident().contains_key(spec_pos_key(pos)),
    {
        self.chunks.contains_key(&pos.key())
    }

    /// The resident chunk at `pos`, if any.
    pub fn get_chunk(&self, pos: ChunkPos) -> (r: Option<&Chunk>)
        ensures
            r matches Some(c) ==> self.resident().contains_key(spec_pos_key(pos)) && *c
                == self.resident()[spec_pos_key(pos)],
            r is None ==> !self.resident().contains_key(spec_pos_key(pos)),
    {
        self.chunks.get(&pos.key())
    }

    /// Marks `pos` changed, once: a second mark before the next drain is
    /// absorbed.
    pub fn mark_dirty(&mut self, pos: ChunkPos)
        requires
            old(self).wf(),
        ensures
            final(self).wf(),
            final(self).resident() == old(self).resident(),
            old(self).dirty_list().contains(pos) ==> final(self).dirty_list() == old(
                self,
            ).dirty_list(),
            !old(self).dirty_list().contains(pos) ==> final(self).dirty_list() == old(
                self,
            ).dirty_list().push(pos),
    {
        let n = self.dirty.len();
        let mut i: usize = 0;
        while i < n
            invariant
                n == self.dirty@.len(),
                0 <= i <= n,
                forall|m: int| 0 <= m < i ==> self.dirty@[m] != pos,
            decreases n - i,
        {
            let d = self.dirty[i];
            if d.x == pos.x && d.y == pos.y {
                assert(self.dirty@[i as int] == pos);
                return ;
            }
            i = i + 1;
        }
        assert(!self.dirty@.contains(pos));
        assert forall|i0: int, j0: int|
            0 <= i0 < j0 < self.dirty@.push(pos).len() implies spec_pos_key(
            #[trigger] self.dirty@.push(pos)[i0],
        ) != spec_pos_key(#[trigger] self.dirty@.push(pos)[j0]) by {
            let ext = self.dirty@.push(pos);
            if j0 < self.dirty@.len() {
                assert(ext[i0] == self.dirty@[i0] && ext[j0] == self.dirty@[j0]);
            } else {
                assert(ext[j0] == pos);
                assert(ext[i0] == self.dirty@[i0]);
                if spec_pos_key(ext[i0]) == spec_pos_key(pos) {
                    lemma_pos_key_injective(ext[i0], pos);
                    assert(self.dirty@.contains(pos));
                }
            }
        }
        self.dirty.push(pos);
        proof {
            assert(self.resident() == old(self).resident());
            assert(forall|k: u64|
                self.resident().contains_key(k) ==> (#[trigger] self.resident()[k]).wf());
        }
    }

    /// Stores (or replaces) the chunk at `pos` and marks the position
    /// changed.
    pub fn put_chunk(&mut self, pos: ChunkPos, chunk: Chunk)
        requires
            old(self).wf(),
            chunk.wf(),
        ensures
            final(self).wf(),
            final(self).resident() == old(self).resident().insert(spec_pos_key(pos), chunk),
            old(self).dirty_list().contains(pos) ==> final(self).dirty_list() == old(
                self,
            ).dirty_list(),
            !old(self).dirty_list().contains(pos) ==> final(self).dirty_list() == old(
                self,
            ).dirty_list().push(pos),
    {
        self.chunks.insert(pos.key(), chunk);
        proof {
            assert(self.resident() == old(self).resident().insert(spec_pos_key(pos), chunk));
            assert forall|k: u64|
                self.resident().contains_key(k) implies (#[trigger] self.resident()[k]).wf() by {
                if k != spec_pos_key(pos) {
                    assert(old(self).resident().contains_key(k));
                }
            }
            assert(self.wf());
        }
        self.mark_dirty(pos);
    }

    /// Replaces one block of a resident chunk (a gameplay mutation) and marks
    /// the position changed so the chunk is re-sent to peers that hold it.
    /// Returns whether a chunk was resident at `pos`.
    pub fn set_block(&mut self, pos: ChunkPos, x: usize, y: usize, block: Block) -> (r: bool)
        requires
            old(self).wf(),
            x < CHUNK_SIZE,
            y < CHUNK_SIZE,
        ensures
            final(self).wf(),
            r == old(self).resident().contains_key(spec_pos_key(pos)),
            !r ==> final(self).resident() == old(self).resident() && final(self).dirty_list()
                == old(self).dirty_list(),
            r ==> {
                &&& final(self).resident() == old(self).resident().insert(
                    spec_pos_key(pos),
                    final(self).resident()[spec_pos_key(pos)],
                )
                &&& final(self).resident()[spec_pos_key(pos)]@ == old(self).resident()[spec_pos_key(
                    pos,
                )]@.update(spec_cell(x as int, y as int), block)
                &&& (old(self).dirty_list().contains(pos) ==> final(self).dirty_list() == old(
                    self,
                ).dirty_list())
                &&& (!old(self).dirty_list().contains(pos) ==> final(self).dirty_list() == old(
                    self,
                ).dirty_list().push(pos))
            },
    {
        let key = pos.key();
        match self.chunks.remove(&key) {
            Some(mut chunk) => {
                proof {
                    assert(chunk == old(self).resident()[spec_pos_key(pos)]);
                    assert(old(self).resident()[spec_pos_key(pos)].wf());
                }
                chunk.set(x, y, block);
                self.chunks.insert(key, chunk);
                proof {
                    assert(self.resident() =~= old(self).resident().insert(
                        spec_pos_key(pos),
                        chunk,
                    ));
                    assert forall|k: u64|
                        self.resident().contains_key(k) implies (#[trigger] self.resident()[k]).wf()
                        by {
                        if k != spec_pos_key(pos) {
                            assert(old(self).resident().contains_key(k));
                        }
                    }
                }
                self.mark_dirty(pos);
                true
            },
            None => {
                proof {
                    assert(self.resident() =~= old(self).resident());
                }
                false
            },
        }
    }

    /// Hands out the changed positions accumulated since the last drain and
    /// clears the set.
    pub fn drain_dirty(&mut self) -> (r: Vec<ChunkPos>)
        requires
            old(self).wf(),
        ensures
            final(self).wf(),
            final(self).resident() == old(self).resident(),
            r@ == old(self).dirty_list(),
            final(self).dirty_list() == Seq::<ChunkPos>::empty(),
    {
        let mut out: Vec<ChunkPos> = Vec::new();
        core::mem::swap(&mut out, &mut self.dirty);
        proof {
            assert(self.resident() == old(self).resident());
            assert(forall|k: u64|
                self.resident().contains_key(k) ==> (#[trigger] self.resident()[k]).wf());
        }
        out
    }

    /// Drops every resident chunk and every dirty mark.
    pub fn clear(&mut self)
        ensures
            final(self).wf(),
            final(self).resident() == Map::<u64, Chunk>::empty(),
            final(self).dirty_list() == Seq::<ChunkPos>::empty(),
    {
        self.chunks.clear();
        self.dirty.clear();
    }
}

} // verus!
