//! The authoritative sparse world store: chunks keyed by position, the
//! derived highest-opaque-block height per (x, z) column, and the stored
//! per-block light levels.

use vstd::prelude::*;
use crate::chunk::{block_index_spec, BlockId, Chunk, ChunkPos};

verus! {

/// Whether a block id blocks light. Zero is air; everything else is opaque.
pub open spec fn opaque_spec(b: BlockId) -> bool {
    b != 0
}

/// The height of a block inside a column: the chunk's vertical coordinate
/// and the local y inside that chunk. Ordering these pairs lexicographically
/// orders blocks by world height without any overflowing multiplication.
#[derive(Debug, Clone, Copy, PartialEq, Eq, Structural)]
pub struct BlockTop {
    pub cy: i64,
    pub ly: u32,
}

/// `a` lies strictly below `b`.
pub open spec fn top_lt(a: BlockTop, b: BlockTop) -> bool {
    a.cy < b.cy || (a.cy == b.cy && a.ly < b.ly)
}

/// The higher of two optional block heights (`None` is lowest).
pub open spec fn top_max(a: Option<BlockTop>, b: Option<BlockTop>) -> Option<BlockTop> {
    match (a, b) {
        (Option::None, _) => b,
        (_, Option::None) => a,
        (Option::Some(x), Option::Some(y)) => if top_lt(x, y) {
            b
        } else {
            a
        },
    }
}

/// Some block at level `ly` of the chunk is opaque.
pub open spec fn level_has_opaque(c: Seq<BlockId>, ly: int) -> bool {
    exists|lx: int, lz: int|
        0 <= lx < 32 && 0 <= lz < 32 && opaque_spec(c[block_index_spec(lx, ly, lz)])
}

/// The highest level `<= ly` of the chunk that holds an opaque block.
pub open spec fn chunk_top_from(c: Seq<BlockId>, ly: int) -> Option<u32>
    decreases ly + 1,
{
    if ly < 0 {
        Option::None
    } else if level_has_opaque(c, ly) {
        Option::Some(ly as u32)
    } else {
        chunk_top_from(c, ly - 1)
    }
}

/// The highest opaque level of a whole chunk.
pub open spec fn chunk_top_spec(c: Seq<BlockId>) -> Option<u32> {
    chunk_top_from(c, 31)
}

/// The highest opaque block among all stored chunks of column (x, z).
pub open spec fn column_top_spec(chunks: Seq<Chunk>, x: int, z: int) -> Option<BlockTop>
    decreases chunks.len(),
{
    if chunks.len() == 0 {
        Option::None
    } else {
        let rest = column_top_spec(chunks.drop_last(), x, z);
        let c = chunks.last();
        if c.pos.px == x && c.pos.pz == z {
            top_max(
                rest,
                match chunk_top_spec(c@) {
                    Option::None => Option::None,
                    Option::Some(ly) => Option::Some(BlockTop { cy: c.pos.py, ly }),
                },
            )
        } else {
            rest
        }
    }
}

/// The stored height of one (x, z) column.
#[derive(Debug, Clone, Copy)]
pub struct ColumnTop {
    pub x: i64,
    pub z: i64,
    pub top: Option<BlockTop>,
}

/// Stored per-block light levels of one chunk.
#[derive(Debug, Clone)]
pub struct LightChunk {
    pub pos: ChunkPos,
    pub data: Vec<u8>,
}

/// The world store. Mutated exclusively by the single orchestrator thread;
/// background workers only ever receive independently owned snapshots.
pub struct World {
    pub chunks: Vec<Chunk>,
    pub columns: Vec<ColumnTop>,
    pub lights: Vec<LightChunk>,
}

impl World {
    /// Chunks are keyed by distinct positions and are all well formed;
    /// columns are keyed by distinct (x, z); light data is one byte per
    /// block, every level at most 15.
    pub open spec fn wf(self) -> bool {
        &&& forall|i: int, j: int|
            0 <= i < j < self.chunks@.len() ==> self.chunks@[i].pos != self.chunks@[j].pos
        &&& forall|i: int| 0 <= i < self.chunks@.len() ==> (#[trigger] self.chunks@[i]).wf()
        &&& forall|i: int, j: int|
            0 <= i < j < self.columns@.len() ==> !(self.columns@[i].x == self.columns@[j].x
                && self.columns@[i].z == self.columns@[j].z)
        &&& forall|i: int, j: int|
            0 <= i < j < self.lights@.len() ==> self.lights@[i].pos != self.lights@[j].pos
        &&& forall|i: int| 0 <= i < self.lights@.len() ==> (#[trigger] self.lights@[i]).data@.len()
            == 32768
        &&& forall|i: int, m: int|
            0 <= i < self.lights@.len() && 0 <= m < 32768 ==> (#[trigger] self.lights@[i].data@[m])
                <= 15
    }

    /// A chunk is stored at `p`.
    pub open spec fn has_chunk(self, p: ChunkPos) -> bool {
        exists|i: int| 0 <= i < self.chunks@.len() && self.chunks@[i].pos == p
    }

    /// The index holding the chunk at `p`.
    pub open spec fn chunk_index(self, p: ChunkPos) -> int {
        choose|i: int| 0 <= i < self.chunks@.len() && self.chunks@[i].pos == p
    }

    /// The chunk stored at `p`.
    pub open spec fn chunk_at(self, p: ChunkPos) -> Chunk {
        self.chunks@[self.chunk_index(p)]
    }

    /// In a well-formed world, the chunk at index `i` is what `chunk_at`
    /// yields for its position.
    pub proof fn lemma_chunk_at(self, i: int)
        requires
            self.wf(),
            0 <= i < self.chunks@.len(),
        ensures
            self.has_chunk(self.chunks@[i].pos),
            self.chunk_at(self.chunks@[i].pos) == self.chunks@[i],
            self.chunk_index(self.chunks@[i].pos) == i,
    {
        let p = self.chunks@[i].pos;
        assert(self.has_chunk(p));
        let j = self.chunk_index(p);
        if i != j {
            assert(self.chunks@[i].pos != self.chunks@[j].pos);
        }
    }

    /// The stored column record for (x, z), if any.
    pub open spec fn has_column(self, x: int, z: int) -> bool {
        exists|i: int| 0 <= i < self.columns@.len() && self.columns@[i].x == x && self.columns@[i].z == z
    }

    pub open spec fn column_index(self, x: int, z: int) -> int {
        choose|i: int|
            0 <= i < self.columns@.len() && self.columns@[i].x == x && self.columns@[i].z == z
    }

    /// The stored height of column (x, z).
    pub open spec fn column_at(self, x: int, z: int) -> Option<BlockTop> {
        self.columns@[self.column_index(x, z)].top
    }

    /// Stored light data, if any.
    pub open spec fn has_light(self, p: ChunkPos) -> bool {
        exists|i: int| 0 <= i < self.lights@.len() && self.lights@[i].pos == p
    }

    pub open spec fn light_index(self, p: ChunkPos) -> int {
        choose|i: int| 0 <= i < self.lights@.len() && self.lights@[i].pos == p
    }

    pub open spec fn light_at(self, p: ChunkPos) -> Seq<u8> {
        self.lights@[self.light_index(p)].data@
    }

    pub proof fn lemma_light_at(self, i: int)
        requires
            self.wf(),
            0 <= i < self.lights@.len(),
        ensures
            self.has_light(self.lights@[i].pos),
            self.light_at(self.lights@[i].pos) == self.lights@[i].data@,
            self.light_index(self.lights@[i].pos) == i,
    {
        let p = self.lights@[i].pos;
        assert(self.has_light(p));
        let j = self.light_index(p);
        if i != j {
            assert(self.lights@[i].pos != self.lights@[j].pos);
        }
    }

    /// An empty world.
    pub fn new() -> (r: Self)
        ensures
            r.wf(),
            r.chunks@.len() == 0,
            r.columns@.len() == 0,
            r.lights@.len() == 0,
    {
        Self { chunks: Vec::new(), columns: Vec::new(), lights: Vec::new() }
    }

    /// Index of the stored chunk at `pos`, if present.
    fn find_chunk(&self, pos: ChunkPos) -> (r: Option<usize>)
        ensures
            match r {
                Some(i) => 0 <= i < self.chunks@.len() && self.chunks@[i as int].pos == pos,
                None => !self.has_chunk(pos),
            },
    {
        let mut i: usize = 0;
        let n = self.chunks.len();
        while i < n
            invariant
                n == self.chunks@.len(),
                i <= n,
                forall|j: int| 0 <= j < i ==> self.chunks@[j].pos != pos,
            decreases n - i,
        {
            let p = self.chunks[i].pos;
            if p.px == pos.px && p.py == pos.py && p.pz == pos.pz {
                return Some(i);
            }
            i = i + 1;
        }
        None
    }

    /// Borrow the chunk stored at `pos`, if any.
    pub fn get_chunk(&self, pos: ChunkPos) -> (r: Option<&Chunk>)
        requires
            self.wf(),
        ensures
            match r {
                Some(c) => self.has_chunk(pos) && *c == self.chunk_at(pos) && c.pos == pos,
                None => !self.has_chunk(pos),
            },
    {
        match self.find_chunk(pos) {
            Some(i) => {
                proof {
                    self.lemma_chunk_at(i as int);
                }
                Some(&self.chunks[i])
            },
            None => None,
        }
    }

    /// Insert or replace the chunk at `chunk.pos`. Column heights are
    /// recomputed separately by `update_highest_opaque_block`.
    pub fn set_chunk(&mut self, chunk: Chunk)
        requires
            old(self).wf(),
            chunk.wf(),
        ensures
            final(self).wf(),
            final(self).columns == old(self).columns,
            final(self).lights == old(self).lights,
            forall|p: ChunkPos|
                final(self).has_chunk(p) <==> (old(self).has_chunk(p) || p == chunk.pos),
            final(self).has_chunk(chunk.pos) && final(self).chunk_at(chunk.pos) == chunk,
            forall|p: ChunkPos|
                p != chunk.pos && old(self).has_chunk(p)
                    ==> final(self).has_chunk(p)
                        && final(self).chunk_at(p) == old(self).chunk_at(p),
    {
        let ghost before = *self;
        match self.find_chunk(chunk.pos) {
            Some(i) => {
                let ghost gi = i as int;
                self.chunks.set(i, chunk);
                proof {
                    assert forall|a: int, b: int|
                        0 <= a < b < self.chunks@.len() implies self.chunks@[a].pos
                        != self.chunks@[b].pos by {
                        assert(before.chunks@[a].pos != before.chunks@[b].pos);
                    }
                    self.lemma_chunk_at(gi);
                    assert forall|p: ChunkPos|
                        final(self).has_chunk(p) <==> (before.has_chunk(p) || p == chunk.pos) by {
                        if self.has_chunk(p) {
                            let w = self.chunk_index(p);
                            if w != gi {
                                assert(before.chunks@[w].pos == p);
                                assert(before.has_chunk(p));
                            }
                        }
                        if before.has_chunk(p) {
                            let w = before.chunk_index(p);
                            if w != gi {
                                assert(self.chunks@[w].pos == p);
                                assert(self.has_chunk(p));
                            } else {
                                assert(before.chunks@[gi].pos == chunk.pos);
                                assert(p == chunk.pos);
                            }
                        }
                    }
                    assert forall|p: ChunkPos|
                        p != chunk.pos && before.has_chunk(p) implies self.has_chunk(p)
                        && self.chunk_at(p) == before.chunk_at(p) by {
                        let w = before.chunk_index(p);
                        assert(before.chunks@[w].pos == p);
                        assert(w != gi);
                        assert(self.chunks@[w].pos == p);
                        self.lemma_chunk_at(w);
                        before.lemma_chunk_at(w);
                    }
                }
            },
            None => {
                self.chunks.push(chunk);
                proof {
                    let ghost gi = before.chunks@.len() as int;
                    assert forall|a: int, b: int|
                        0 <= a < b < self.chunks@.len() implies self.chunks@[a].pos
                        != self.chunks@[b].pos by {
                        if b < gi {
                            assert(before.chunks@[a].pos != before.chunks@[b].pos);
                        } else {
                            assert(self.chunks@[a] == before.chunks@[a]);
                            assert(self.chunks@[b].pos == chunk.pos);
                            assert(before.chunks@[a].pos == self.chunks@[a].pos);
                            if self.chunks@[a].pos == chunk.pos {
                                assert(before.has_chunk(chunk.pos));
                                assert(false);
                            }
                        }
                    }
                    self.lemma_chunk_at(gi);
                    assert forall|p: ChunkPos|
                        final(self).has_chunk(p) <==> (before.has_chunk(p) || p == chunk.pos) by {
                        if self.has_chunk(p) {
                            let w = self.chunk_index(p);
                            if w != gi {
                                assert(before.chunks@[w].pos == p);
                                assert(before.has_chunk(p));
                            }
                        }
                        if before.has_chunk(p) {
                            let w = before.chunk_index(p);
                            assert(self.chunks@[w].pos == p);
                            assert(self.has_chunk(p));
                        }
                    }
                    assert forall|p: ChunkPos|
                        p != chunk.pos && before.has_chunk(p) implies self.has_chunk(p)
                        && self.chunk_at(p) == before.chunk_at(p) by {
                        let w = before.chunk_index(p);
                        assert(before.chunks@[w].pos == p);
                        assert(self.chunks@[w].pos == p);
                        self.lemma_chunk_at(w);
                        before.lemma_chunk_at(w);
                    }
                }
            },
        }
    }
    /// Remove the chunk stored at `pos`, if any.
    pub fn remove_chunk(&mut self, pos: ChunkPos)
        requires
            old(self).wf(),
        ensures
            final(self).wf(),
            final(self).columns == old(self).columns,
            final(self).lights == old(self).lights,
            forall|p: ChunkPos|
                final(self).has_chunk(p) <==> (old(self).has_chunk(p) && p != pos),
            forall|p: ChunkPos|
                p != pos && old(self).has_chunk(p)
                    ==> final(self).chunk_at(p) == old(self).chunk_at(p),
    {
        let ghost before = *self;
        match self.find_chunk(pos) {
            Some(i) => {
                let ghost gi = i as int;
                self.chunks.remove(i);
                proof {
                    assert forall|a: int, b: int|
                        0 <= a < b < self.chunks@.len() implies self.chunks@[a].pos
                        != self.chunks@[b].pos by {
                        let a2 = if a < gi { a } else { a + 1 };
                        let b2 = if b < gi { b } else { b + 1 };
                        assert(self.chunks@[a] == before.chunks@[a2]);
                        assert(self.chunks@[b] == before.chunks@[b2]);
                    }
                    assert forall|k: int| 0 <= k < self.chunks@.len() implies (#[trigger] self.chunks@[k]).wf() by {
                        let k2 = if k < gi { k } else { k + 1 };
                        assert(self.chunks@[k] == before.chunks@[k2]);
                    }
                    assert forall|p: ChunkPos|
                        final(self).has_chunk(p) <==> (before.has_chunk(p) && p != pos) by {
                        if self.has_chunk(p) {
                            let w = self.chunk_index(p);
                            let w2 = if w < gi { w } else { w + 1 };
                            assert(self.chunks@[w] == before.chunks@[w2]);
                            assert(before.has_chunk(p));
                            if p == pos {
                                assert(before.chunks@[w2].pos != before.chunks@[gi].pos);
                                assert(false);
                            }
                        }
                        if before.has_chunk(p) && p != pos {
                            let w = before.chunk_index(p);
                            assert(before.chunks@[w].pos == p);
                            assert(w != gi);
                            if w < gi {
                                assert(self.chunks@[w].pos == p);
                            } else {
                                assert(self.chunks@[w - 1].pos == p);
                            }
                            assert(self.has_chunk(p));
                        }
                    }
                    assert forall|p: ChunkPos|
                        p != pos && before.has_chunk(p) implies self.chunk_at(p)
                        == before.chunk_at(p) by {
                        let w = before.chunk_index(p);
                        assert(before.chunks@[w].pos == p);
                        before.lemma_chunk_at(w);
                        assert(w != gi);
                        let w2 = if w < gi { w } else { w - 1 };
                        assert(self.chunks@[w2] == before.chunks@[w]);
                        self.lemma_chunk_at(w2);
                    }
                }
            },
            None => {},
        }
    }

    /// Index of the stored column record for (x, z), if present.
    fn find_column(&self, x: i64, z: i64) -> (r: Option<usize>)
        ensures
            match r {
                Some(i) => 0 <= i < self.columns@.len() && self.columns@[i as int].x == x
                    && self.columns@[i as int].z == z,
                None => !self.has_column(x as int, z as int),
            },
    {
        let mut i: usize = 0;
        let n = self.columns.len();
        while i < n
            invariant
                n == self.columns@.len(),
                i <= n,
                forall|j: int|
                    0 <= j < i ==> !(self.columns@[j].x == x && self.columns@[j].z == z),
            decreases n - i,
        {
            if self.columns[i].x == x && self.columns[i].z == z {
                return Some(i);
            }
            i = i + 1;
        }
        None
    }

    /// `column_at` matches the record at any index of a well-formed world.
    pub proof fn lemma_column_at(self, i: int)
        requires
            self.wf(),
            0 <= i < self.columns@.len(),
        ensures
            self.has_column(self.columns@[i].x as int, self.columns@[i].z as int),
            self.column_at(self.columns@[i].x as int, self.columns@[i].z as int)
                == self.columns@[i].top,
            self.column_index(self.columns@[i].x as int, self.columns@[i].z as int) == i,
    {
        let x = self.columns@[i].x as int;
        let z = self.columns@[i].z as int;
        assert(self.has_column(x, z));
        let j = self.column_index(x, z);
        if i != j {
            assert(!(self.columns@[i].x == self.columns@[j].x && self.columns@[i].z
                == self.columns@[j].z));
        }
    }

    /// The highest opaque block of column (x, z), computed from the stored
    /// chunks.
    pub fn compute_column_top(&self, x: i64, z: i64) -> (r: Option<BlockTop>)
        requires
            self.wf(),
        ensures
            r == column_top_spec(self.chunks@, x as int, z as int),
    {
        let mut cur: Option<BlockTop> = None;
        let mut i: usize = 0;
        let n = self.chunks.len();
        while i < n
            invariant
                self.wf(),
                n == self.chunks@.len(),
                i <= n,
                cur == column_top_spec(self.chunks@.subrange(0, i as int), x as int, z as int),
            decreases n - i,
        {
            proof {
                assert(self.chunks@.subrange(0, i as int + 1).drop_last() =~= self.chunks@.subrange(
                    0,
                    i as int,
                ));
                assert(self.chunks@.subrange(0, i as int + 1).last() == self.chunks@[i as int]);
            }
            let c = &self.chunks[i];
            if c.pos.px == x && c.pos.pz == z {
                let ct = compute_chunk_top(c);
                let cand: Option<BlockTop> = match ct {
                    Some(ly) => Some(BlockTop { cy: c.pos.py, ly }),
                    None => None,
                };
                cur = top_max_exec(cur, cand);
            }
            i = i + 1;
        }
        proof {
            assert(self.chunks@.subrange(0, n as int) =~= self.chunks@);
        }
        cur
    }

    /// Recompute and store the highest-opaque height of the column holding
    /// `pos`, returning whether the stored value changed (a fresh column
    /// counts as changed).
    pub fn update_highest_opaque_block(&mut self, pos: ChunkPos) -> (changed: bool)
        requires
            old(self).wf(),
        ensures
            final(self).wf(),
            final(self).chunks == old(self).chunks,
            final(self).lights == old(self).lights,
            final(self).has_column(pos.px as int, pos.pz as int),
            final(self).column_at(pos.px as int, pos.pz as int) == column_top_spec(
                old(self).chunks@,
                pos.px as int,
                pos.pz as int,
            ),
            forall|x: int, z: int|
                !(x == pos.px as int && z == pos.pz as int) ==> (final(self).has_column(x, z)
                    <==> old(self).has_column(x, z)),
            forall|x: int, z: int|
                !(x == pos.px as int && z == pos.pz as int) && old(self).has_column(x, z)
                    ==> final(self).column_at(x, z) == old(self).column_at(x, z),
            changed == !(old(self).has_column(pos.px as int, pos.pz as int) && old(self).column_at(
                pos.px as int,
                pos.pz as int,
            ) == column_top_spec(old(self).chunks@, pos.px as int, pos.pz as int)),
    {
        let ghost before = *self;
        let new_top = self.compute_column_top(pos.px, pos.pz);
        let rec = ColumnTop { x: pos.px, z: pos.pz, top: new_top };
        match self.find_column(pos.px, pos.pz) {
            Some(i) => {
                let ghost gi = i as int;
                proof {
                    before.lemma_column_at(gi);
                }
                let stored = self.columns[i].top;
                let changed = !top_opt_eq(stored, new_top);
                self.columns.set(i, rec);
                proof {
                    assert forall|a: int, b: int|
                        0 <= a < b < self.columns@.len() implies !(self.columns@[a].x
                        == self.columns@[b].x && self.columns@[a].z == self.columns@[b].z) by {
                        assert(!(before.columns@[a].x == before.columns@[b].x
                            && before.columns@[a].z == before.columns@[b].z));
                    }
                    self.lemma_column_at(gi);
                    assert forall|x: int, z: int|
                        !(x == pos.px as int && z == pos.pz as int) implies (self.has_column(x, z)
                        <==> before.has_column(x, z)) && (before.has_column(x, z)
                        ==> self.column_at(x, z) == before.column_at(x, z)) by {
                        if self.has_column(x, z) {
                            let w = self.column_index(x, z);
                            assert(w != gi);
                            assert(before.columns@[w] == self.columns@[w]);
                            assert(before.has_column(x, z));
                        }
                        if before.has_column(x, z) {
                            let w = before.column_index(x, z);
                            assert(before.columns@[w].x == x && before.columns@[w].z == z);
                            assert(w != gi);
                            assert(self.columns@[w] == before.columns@[w]);
                            assert(self.has_column(x, z));
                            self.lemma_column_at(w);
                            before.lemma_column_at(w);
                        }
                    }
                }
                changed
            },
            None => {
                let ghost gi = self.columns@.len() as int;
                self.columns.push(rec);
                proof {
                    assert forall|a: int, b: int|
                        0 <= a < b < self.columns@.len() implies !(self.columns@[a].x
                        == self.columns@[b].x && self.columns@[a].z == self.columns@[b].z) by {
                        if b < gi {
                            assert(!(before.columns@[a].x == before.columns@[b].x
                                && before.columns@[a].z == before.columns@[b].z));
                        } else {
                            assert(self.columns@[a] == before.columns@[a]);
                            if self.columns@[a].x == pos.px && self.columns@[a].z == pos.pz {
                                assert(before.has_column(pos.px as int, pos.pz as int));
                                assert(false);
                            }
                        }
                    }
                    self.lemma_column_at(gi);
                    assert forall|x: int, z: int|
                        !(x == pos.px as int && z == pos.pz as int) implies (self.has_column(x, z)
                        <==> before.has_column(x, z)) && (before.has_column(x, z)
                        ==> self.column_at(x, z) == before.column_at(x, z)) by {
                        if self.has_column(x, z) {
                            let w = self.column_index(x, z);
                            assert(w != gi);
                            assert(before.columns@[w] == self.columns@[w]);
                            assert(before.has_column(x, z));
                        }
                        if before.has_column(x, z) {
                            let w = before.column_index(x, z);
                            assert(self.columns@[w] == before.columns@[w]);
                            assert(self.has_column(x, z));
                            self.lemma_column_at(w);
                            before.lemma_column_at(w);
                        }
                    }
                }
                true
            },
        }
    }

    /// Index of the stored light data for `pos`, if present.
    fn find_light(&self, pos: ChunkPos) -> (r: Option<usize>)
        ensures
            match r {
                Some(i) => 0 <= i < self.lights@.len() && self.lights@[i as int].pos == pos,
                None => !self.has_light(pos),
            },
    {
        let mut i: usize = 0;
        let n = self.lights.len();
        while i < n
            invariant
                n == self.lights@.len(),
                i <= n,
                forall|j: int| 0 <= j < i ==> self.lights@[j].pos != pos,
            decreases n - i,
        {
            let p = self.lights[i].pos;
            if p.px == pos.px && p.py == pos.py && p.pz == pos.pz {
                return Some(i);
            }
            i = i + 1;
        }
        None
    }

    /// Borrow the stored light levels of the chunk at `pos`, if any.
    pub fn get_light(&self, pos: ChunkPos) -> (r: Option<&LightChunk>)
        requires
            self.wf(),
        ensures
            match r {
                Some(l) => self.has_light(pos) && l.pos == pos && l.data@ == self.light_at(pos),
                None => !self.has_light(pos),
            },
    {
        match self.find_light(pos) {
            Some(i) => {
                proof {
                    self.lemma_light_at(i as int);
                }
                Some(&self.lights[i])
            },
            None => None,
        }
    }

    /// Overwrite the stored light levels of the chunk at `pos`.
    pub fn set_light(&mut self, pos: ChunkPos, data: Vec<u8>)
        requires
            old(self).wf(),
            data@.len() == 32768,
            forall|m: int| 0 <= m < 32768 ==> data@[m] <= 15,
        ensures
            final(self).wf(),
            final(self).chunks == old(self).chunks,
            final(self).columns == old(self).columns,
            forall|p: ChunkPos|
                final(self).has_light(p) <==> (old(self).has_light(p) || p == pos),
            final(self).has_light(pos) && final(self).light_at(pos) == data@,
            forall|p: ChunkPos|
                p != pos && old(self).has_light(p)
                    ==> final(self).light_at(p) == old(self).light_at(p),
    {
        let ghost before = *self;
        let rec = LightChunk { pos, data };
        match self.find_light(pos) {
            Some(i) => {
                let ghost gi = i as int;
                self.lights.set(i, rec);
                proof {
                    assert forall|a: int, b: int|
                        0 <= a < b < self.lights@.len() implies self.lights@[a].pos
                        != self.lights@[b].pos by {
                        assert(before.lights@[a].pos != before.lights@[b].pos);
                    }
                    self.lemma_light_at(gi);
                    assert forall|p: ChunkPos|
                        final(self).has_light(p) <==> (before.has_light(p) || p == pos) by {
                        if self.has_light(p) {
                            let w = self.light_index(p);
                            if w != gi {
                                assert(before.lights@[w].pos == p);
                                assert(before.has_light(p));
                            }
                        }
                        if before.has_light(p) {
                            let w = before.light_index(p);
                            if w != gi {
                                assert(self.lights@[w].pos == p);
                                assert(self.has_light(p));
                            } else {
                                assert(p == pos);
                            }
                        }
                    }
                    assert forall|p: ChunkPos|
                        p != pos && before.has_light(p) implies self.light_at(p)
                        == before.light_at(p) by {
                        let w = before.light_index(p);
                        assert(before.lights@[w].pos == p);
                        assert(w != gi);
                        assert(self.lights@[w].pos == p);
                        self.lemma_light_at(w);
                        before.lemma_light_at(w);
                    }
                }
            },
            None => {
                let ghost gi = self.lights@.len() as int;
                self.lights.push(rec);
                proof {
                    assert forall|a: int, b: int|
                        0 <= a < b < self.lights@.len() implies self.lights@[a].pos
                        != self.lights@[b].pos by {
                        if b < gi {
                            assert(before.lights@[a].pos != before.lights@[b].pos);
                        } else {
                            assert(self.lights@[a] == before.lights@[a]);
                            if self.lights@[a].pos == pos {
                                assert(before.has_light(pos));
                                assert(false);
                            }
                        }
                    }
                    self.lemma_light_at(gi);
                    assert forall|p: ChunkPos|
                        final(self).has_light(p) <==> (before.has_light(p) || p == pos) by {
                        if self.has_light(p) {
                            let w = self.light_index(p);
                            if w != gi {
                                assert(before.lights@[w].pos == p);
                                assert(before.has_light(p));
                            }
                        }
                        if before.has_light(p) {
                            let w = before.light_index(p);
                            assert(self.lights@[w].pos == p);
                            assert(self.has_light(p));
                        }
                    }
                    assert forall|p: ChunkPos|
                        p != pos && before.has_light(p) implies self.light_at(p)
                        == before.light_at(p) by {
                        let w = before.light_index(p);
                        assert(before.lights@[w].pos == p);
                        assert(self.lights@[w].pos == p);
                        self.lemma_light_at(w);
                        before.lemma_light_at(w);
                    }
                }
            },
        }
    }
}

/// Some block at level `ly` of the chunk is opaque (executable scan).
fn level_has_opaque_exec(c: &Chunk, ly: u32) -> (r: bool)
    requires
        c.wf(),
        ly < 32,
    ensures
        r == level_has_opaque(c@, ly as int),
{
    let mut lx: u32 = 0;
    while lx < 32
        invariant
            c.wf(),
            ly < 32,
            lx <= 32,
            forall|a: int, b: int|
                0 <= a < lx && 0 <= b < 32 ==> !opaque_spec(
                    c@[block_index_spec(a, ly as int, b)],
                ),
        decreases 32 - lx,
    {
        let mut lz: u32 = 0;
        while lz < 32
            invariant
                c.wf(),
                ly < 32,
                lx < 32,
                lz <= 32,
                forall|a: int, b: int|
                    0 <= a < lx && 0 <= b < 32 ==> !opaque_spec(
                        c@[block_index_spec(a, ly as int, b)],
                    ),
                forall|b: int|
                    0 <= b < lz ==> !opaque_spec(c@[block_index_spec(lx as int, ly as int, b)]),
            decreases 32 - lz,
        {
            if c.get_block_at((lx, ly, lz)) != 0 {
                proof {
                    assert(opaque_spec(c@[block_index_spec(lx as int, ly as int, lz as int)]));
                    assert(level_has_opaque(c@, ly as int));
                }
                return true;
            }
            lz = lz + 1;
        }
        lx = lx + 1;
    }
    false
}

/// The highest opaque level of the chunk (executable scan from the top).
fn compute_chunk_top(c: &Chunk) -> (r: Option<u32>)
    requires
        c.wf(),
    ensures
        r == chunk_top_spec(c@),
{
    let mut ly: u32 = 32;
    while ly > 0
        invariant
            c.wf(),
            ly <= 32,
            chunk_top_spec(c@) == chunk_top_from(c@, ly as int - 1),
        decreases ly,
    {
        ly = ly - 1;
        if level_has_opaque_exec(c, ly) {
            return Some(ly);
        }
    }
    None
}

/// The higher of two optional block heights (executable).
fn top_max_exec(a: Option<BlockTop>, b: Option<BlockTop>) -> (r: Option<BlockTop>)
    ensures
        r == top_max(a, b),
{
    match a {
        None => b,
        Some(x) => match b {
            None => a,
            Some(y) => if x.cy < y.cy || (x.cy == y.cy && x.ly < y.ly) {
                b
            } else {
                a
            },
        },
    }
}

/// Equality of optional block heights (executable).
fn top_opt_eq(a: Option<BlockTop>, b: Option<BlockTop>) -> (r: bool)
    ensures
        r == (a == b),
{
    match a {
        None => match b {
            None => true,
            Some(_) => false,
        },
        Some(x) => match b {
            None => false,
            Some(y) => x.cy == y.cy && x.ly == y.ly,
        },
    }
}

} // verus!
