//! Incremental lighting engine: a deduplicating FIFO queue of chunk
//! positions awaiting a recompute, and the per-chunk skylight flood fill.
//! The orchestrator pops at most one position per tick, which bounds the
//! tick cost under bursty insertion.

use vstd::prelude::*;
use crate::chunk::{block_index_spec, BlockId, ChunkPos};
use crate::posset::{contains_pos, distinct_pos, lemma_contains_push};
use crate::world::{column_top_spec, opaque_spec, BlockTop, World};

verus! {

/// Highest light level: full skylight.
pub const MAX_LIGHT: u8 = 15;

/// FIFO queue of chunk positions awaiting a light recompute. Membership is
/// deduplicated: enqueuing a pending position is a no-op, so a position is
/// recomputed once per enqueue burst.
pub struct LightQueue {
    pub pending: Vec<ChunkPos>,
}

impl LightQueue {
    /// Each position is pending at most once.
    pub open spec fn wf(self) -> bool {
        distinct_pos(self.pending@)
    }

    /// An empty queue.
    pub fn new() -> (r: Self)
        ensures
            r.wf(),
            r.pending@.len() == 0,
    {
        Self { pending: Vec::new() }
    }

    /// Whether `pos` is pending.
    pub fn is_pending(&self, pos: ChunkPos) -> (r: bool)
        ensures
            r == self.pending@.contains(pos),
    {
        contains_pos(&self.pending, pos)
    }

    /// Enqueue `pos` for a light recompute; a no-op if already pending.
    pub fn enqueue(&mut self, pos: ChunkPos)
        requires
            old(self).wf(),
        ensures
            final(self).wf(),
            old(self).pending@.contains(pos) ==> *final(self) == *old(self),
            !old(self).pending@.contains(pos) ==> final(self).pending@ == old(self).pending@.push(
                pos,
            ),
            forall|p: ChunkPos|
                final(self).pending@.contains(p) <==> (old(self).pending@.contains(p) || p == pos),
    {
        let ghost before = self.pending@;
        if !contains_pos(&self.pending, pos) {
            self.pending.push(pos);
            proof {
                assert forall|i: int, j: int|
                    0 <= i < j < self.pending@.len() implies self.pending@[i]
                    != self.pending@[j] by {
                    if j < before.len() {
                        assert(self.pending@[i] == before[i] && self.pending@[j] == before[j]);
                    } else {
                        assert(self.pending@[j] == pos);
                        assert(self.pending@[i] == before[i]);
                        assert(before.contains(before[i]));
                    }
                }
            }
        }
        proof {
            assert forall|p: ChunkPos|
                self.pending@.contains(p) <==> (before.contains(p) || p == pos) by {
                lemma_contains_push(before, pos, p);
                if before.contains(pos) && p == pos {
                }
            }
        }
    }

    /// Pop the oldest pending position, if any.
    pub fn pop(&mut self) -> (r: Option<ChunkPos>)
        requires
            old(self).wf(),
        ensures
            final(self).wf(),
            old(self).pending@.len() == 0 ==> r is None && *final(self) == *old(self),
            old(self).pending@.len() > 0 ==> r == Some(old(self).pending@[0])
                && final(self).pending@ == old(self).pending@.remove(0),
    {
        if self.pending.len() == 0 {
            return None;
        }
        let ghost before = self.pending@;
        let p = self.pending[0];
        self.pending.remove(0);
        proof {
            assert forall|a: int, b: int|
                0 <= a < b < self.pending@.len() implies self.pending@[a] != self.pending@[b] by {
                assert(self.pending@[a] == before[a + 1]);
                assert(self.pending@[b] == before[b + 1]);
            }
        }
        Some(p)
    }
}

/// The block at chunk height (cy, ly) is above the column's highest opaque
/// block, so it sees the sky.
pub open spec fn above_top(cy: int, ly: int, top: Option<BlockTop>) -> bool {
    match top {
        Option::None => true,
        Option::Some(t) => cy > t.cy || (cy == t.cy && ly > t.ly),
    }
}

/// Valid light data for a chunk with blocks `c` at chunk height `cy` in a
/// column whose highest opaque block is `top`: one level per block, at most
/// `MAX_LIGHT`, zero on opaque blocks, and full skylight on every
/// transparent block exposed to the sky.
pub open spec fn light_ok(c: Seq<BlockId>, cy: int, top: Option<BlockTop>, l: Seq<u8>) -> bool {
    &&& l.len() == 32768
    &&& forall|m: int| 0 <= m < 32768 ==> l[m] <= 15
    &&& forall|lx: int, ly: int, lz: int|
        0 <= lx < 32 && 0 <= ly < 32 && 0 <= lz < 32 && opaque_spec(
            c[#[trigger] block_index_spec(lx, ly, lz)],
        ) ==> l[block_index_spec(lx, ly, lz)] == 0
    &&& forall|lx: int, ly: int, lz: int|
        0 <= lx < 32 && 0 <= ly < 32 && 0 <= lz < 32 && !opaque_spec(
            c[#[trigger] block_index_spec(lx, ly, lz)],
        ) && above_top(cy, ly, top) ==> l[block_index_spec(lx, ly, lz)] == 15
}

/// Index of local coordinates in the linearized arrays.
fn block_index(lx: u32, ly: u32, lz: u32) -> (r: usize)
    requires
        lx < 32,
        ly < 32,
        lz < 32,
    ensures
        r == block_index_spec(lx as int, ly as int, lz as int),
{
    (lx * 1024 + ly * 32 + lz) as usize
}

/// Raise the light of a transparent block to at least `cand`, preserving
/// validity. Opaque blocks are left dark and no level ever decreases, so
/// skylit blocks keep full light.
fn raise_light(
    l: &mut Vec<u8>,
    blocks: &Vec<BlockId>,
    cy: i64,
    Ghost(top): Ghost<Option<BlockTop>>,
    lx: u32,
    ly: u32,
    lz: u32,
    cand: u8,
)
    requires
        blocks@.len() == 32768,
        light_ok(blocks@, cy as int, top, old(l)@),
        lx < 32,
        ly < 32,
        lz < 32,
        cand <= 15,
    ensures
        light_ok(blocks@, cy as int, top, final(l)@),
{
    let idx = block_index(lx, ly, lz);
    let ghost gx = lx as int;
    let ghost gy = ly as int;
    let ghost gz = lz as int;
    proof {
        assert(0 <= block_index_spec(gx, gy, gz) < 32768);
    }
    if blocks[idx] == 0 {
        let cur = l[idx];
        if cand > cur {
            let ghost before = l@;
            l.set(idx, cand);
            proof {
                assert forall|lx2: int, ly2: int, lz2: int|
                    0 <= lx2 < 32 && 0 <= ly2 < 32 && 0 <= lz2 < 32 && opaque_spec(
                        blocks@[#[trigger] block_index_spec(lx2, ly2, lz2)],
                    ) implies l@[block_index_spec(lx2, ly2, lz2)] == 0 by {
                    if block_index_spec(lx2, ly2, lz2) == idx as int {
                        crate::chunk::lemma_block_index_injective(lx2, ly2, lz2, gx, gy, gz);
                        assert(!opaque_spec(blocks@[block_index_spec(gx, gy, gz)]));
                        assert(false);
                    } else {
                        assert(l@[block_index_spec(lx2, ly2, lz2)] == before[block_index_spec(
                            lx2,
                            ly2,
                            lz2,
                        )]);
                    }
                }
                assert forall|lx2: int, ly2: int, lz2: int|
                    0 <= lx2 < 32 && 0 <= ly2 < 32 && 0 <= lz2 < 32 && !opaque_spec(
                        blocks@[#[trigger] block_index_spec(lx2, ly2, lz2)],
                    ) && above_top(cy as int, ly2, top) implies l@[block_index_spec(
                    lx2,
                    ly2,
                    lz2,
                )] == 15 by {
                    if block_index_spec(lx2, ly2, lz2) == idx as int {
                        crate::chunk::lemma_block_index_injective(lx2, ly2, lz2, gx, gy, gz);
                        assert(before[idx as int] == 15);
                        assert(false);
                    } else {
                        assert(l@[block_index_spec(lx2, ly2, lz2)] == before[block_index_spec(
                            lx2,
                            ly2,
                            lz2,
                        )]);
                    }
                }
            }
        }
    }
}

/// Build the initial light data: full skylight on transparent blocks above
/// the column's highest opaque block, darkness elsewhere.
fn initial_light(blocks: &Vec<BlockId>, cy: i64, top: Option<BlockTop>) -> (l: Vec<u8>)
    requires
        blocks@.len() == 32768,
    ensures
        light_ok(blocks@, cy as int, top, l@),
{
    let mut l: Vec<u8> = Vec::new();
    let mut lx: u32 = 0;
    while lx < 32
        invariant
            blocks@.len() == 32768,
            lx <= 32,
            l@.len() == lx * 1024,
            forall|m: int| 0 <= m < l@.len() ==> l@[m] <= 15,
            forall|lx2: int, ly2: int, lz2: int|
                0 <= lx2 < 32 && 0 <= ly2 < 32 && 0 <= lz2 < 32 && #[trigger] block_index_spec(
                    lx2,
                    ly2,
                    lz2,
                ) < l@.len() ==> (opaque_spec(blocks@[block_index_spec(lx2, ly2, lz2)])
                    ==> l@[block_index_spec(lx2, ly2, lz2)] == 0) && (!opaque_spec(
                    blocks@[block_index_spec(lx2, ly2, lz2)],
                ) && above_top(cy as int, ly2, top) ==> l@[block_index_spec(lx2, ly2, lz2)] == 15),
        decreases 32 - lx,
    {
        let mut ly: u32 = 0;
        while ly < 32
            invariant
                blocks@.len() == 32768,
                lx < 32,
                ly <= 32,
                l@.len() == lx * 1024 + ly * 32,
                forall|m: int| 0 <= m < l@.len() ==> l@[m] <= 15,
                forall|lx2: int, ly2: int, lz2: int|
                    0 <= lx2 < 32 && 0 <= ly2 < 32 && 0 <= lz2 < 32 && #[trigger] block_index_spec(
                        lx2,
                        ly2,
                        lz2,
                    ) < l@.len() ==> (opaque_spec(blocks@[block_index_spec(lx2, ly2, lz2)])
                        ==> l@[block_index_spec(lx2, ly2, lz2)] == 0) && (!opaque_spec(
                        blocks@[block_index_spec(lx2, ly2, lz2)],
                    ) && above_top(cy as int, ly2, top) ==> l@[block_index_spec(lx2, ly2, lz2)]
                        == 15),
            decreases 32 - ly,
        {
            let mut lz: u32 = 0;
            while lz < 32
                invariant
                    blocks@.len() == 32768,
                    lx < 32,
                    ly < 32,
                    lz <= 32,
                    l@.len() == lx * 1024 + ly * 32 + lz,
                    forall|m: int| 0 <= m < l@.len() ==> l@[m] <= 15,
                    forall|lx2: int, ly2: int, lz2: int|
                        0 <= lx2 < 32 && 0 <= ly2 < 32 && 0 <= lz2 < 32
                            && #[trigger] block_index_spec(lx2, ly2, lz2) < l@.len() ==> (
                        opaque_spec(blocks@[block_index_spec(lx2, ly2, lz2)])
                            ==> l@[block_index_spec(lx2, ly2, lz2)] == 0) && (!opaque_spec(
                            blocks@[block_index_spec(lx2, ly2, lz2)],
                        ) && above_top(cy as int, ly2, top) ==> l@[block_index_spec(
                            lx2,
                            ly2,
                            lz2,
                        )] == 15),
                decreases 32 - lz,
            {
                let idx = block_index(lx, ly, lz);
                let sky = match top {
                    None => true,
                    Some(t) => cy > t.cy || (cy == t.cy && ly > t.ly),
                };
                let v: u8 = if blocks[idx] == 0 && sky {
                    15
                } else {
                    0
                };
                let ghost before = l@;
                l.push(v);
                proof {
                    assert forall|lx2: int, ly2: int, lz2: int|
                        0 <= lx2 < 32 && 0 <= ly2 < 32 && 0 <= lz2 < 32
                            && #[trigger] block_index_spec(lx2, ly2, lz2) < l@.len() implies (
                    opaque_spec(blocks@[block_index_spec(lx2, ly2, lz2)]) ==> l@[block_index_spec(
                        lx2,
                        ly2,
                        lz2,
                    )] == 0) && (!opaque_spec(blocks@[block_index_spec(lx2, ly2, lz2)])
                        && above_top(cy as int, ly2, top) ==> l@[block_index_spec(lx2, ly2, lz2)]
                        == 15) by {
                        if block_index_spec(lx2, ly2, lz2) < before.len() {
                            assert(l@[block_index_spec(lx2, ly2, lz2)] == before[block_index_spec(
                                lx2,
                                ly2,
                                lz2,
                            )]);
                        } else {
                            crate::chunk::lemma_block_index_injective(
                                lx2,
                                ly2,
                                lz2,
                                lx as int,
                                ly as int,
                                lz as int,
                            );
                            assert(l@[block_index_spec(lx2, ly2, lz2)] == v);
                        }
                    }
                }
                lz = lz + 1;
            }
            ly = ly + 1;
        }
        lx = lx + 1;
    }
    l
}

/// Recompute the light of the chunk at `pos` by a bounded flood fill:
/// skylight enters above the column's highest opaque block, seeds cross
/// into this chunk from stored neighbor light (a missing neighbor is
/// treated as unknown and skipped), and light spreads through transparent
/// blocks in six directions, attenuating by one per step and stopping at
/// opaque blocks or at zero. The result overwrites the stored light.
pub fn update_light(world: &mut World, pos: ChunkPos)
    requires
        old(world).wf(),
    ensures
        final(world).wf(),
        final(world).chunks == old(world).chunks,
        final(world).columns == old(world).columns,
        !old(world).has_chunk(pos) ==> final(world).lights == old(world).lights,
        old(world).has_chunk(pos) ==> {
            &&& forall|p: ChunkPos|
                final(world).has_light(p) <==> (old(world).has_light(p) || p == pos)
            &&& forall|p: ChunkPos|
                p != pos && old(world).has_light(p)
                    ==> final(world).light_at(p) == old(world).light_at(p)
            &&& light_ok(
                old(world).chunk_at(pos)@,
                pos.py as int,
                column_top_spec(old(world).chunks@, pos.px as int, pos.pz as int),
                final(world).light_at(pos),
            )
        },
{
    let blocks: Vec<BlockId> = match world.get_chunk(pos) {
        Some(c) => copy_blocks(c),
        None => {
            return ;
        },
    };
    let top = world.compute_column_top(pos.px, pos.pz);
    let ghost gtop = top;
    let cy = pos.py;
    let mut l = initial_light(&blocks, cy, top);
    seed_from_neighbors(&mut l, &blocks, cy, Ghost(gtop), world, pos);
    let mut sweep: u32 = 0;
    while sweep < 15
        invariant
            blocks@.len() == 32768,
            light_ok(blocks@, cy as int, gtop, l@),
        decreases 15 - sweep,
    {
        let mut lx: u32 = 0;
        while lx < 32
            invariant
                blocks@.len() == 32768,
                light_ok(blocks@, cy as int, gtop, l@),
                lx <= 32,
            decreases 32 - lx,
        {
            let mut ly: u32 = 0;
            while ly < 32
                invariant
                    blocks@.len() == 32768,
                    light_ok(blocks@, cy as int, gtop, l@),
                    lx < 32,
                    ly <= 32,
                decreases 32 - ly,
            {
                let mut lz: u32 = 0;
                while lz < 32
                    invariant
                        blocks@.len() == 32768,
                        light_ok(blocks@, cy as int, gtop, l@),
                        lx < 32,
                        ly < 32,
                        lz <= 32,
                    decreases 32 - lz,
                {
                    if lx > 0 {
                        let v = l[block_index(lx - 1, ly, lz)];
                        raise_light(&mut l, &blocks, cy, Ghost(gtop), lx, ly, lz, dim(v));
                    }
                    if lx < 31 {
                        let v = l[block_index(lx + 1, ly, lz)];
                        raise_light(&mut l, &blocks, cy, Ghost(gtop), lx, ly, lz, dim(v));
                    }
                    if ly > 0 {
                        let v = l[block_index(lx, ly - 1, lz)];
                        raise_light(&mut l, &blocks, cy, Ghost(gtop), lx, ly, lz, dim(v));
                    }
                    if ly < 31 {
                        let v = l[block_index(lx, ly + 1, lz)];
                        raise_light(&mut l, &blocks, cy, Ghost(gtop), lx, ly, lz, dim(v));
                    }
                    if lz > 0 {
                        let v = l[block_index(lx, ly, lz - 1)];
                        raise_light(&mut l, &blocks, cy, Ghost(gtop), lx, ly, lz, dim(v));
                    }
                    if lz < 31 {
                        let v = l[block_index(lx, ly, lz + 1)];
                        raise_light(&mut l, &blocks, cy, Ghost(gtop), lx, ly, lz, dim(v));
                    }
                    lz = lz + 1;
                }
                ly = ly + 1;
            }
            lx = lx + 1;
        }
        sweep = sweep + 1;
    }
    world.set_light(pos, l);
}

/// One step of attenuation.
fn dim(v: u8) -> (r: u8)
    requires
        v <= 15,
    ensures
        r <= 15,
        r == if v > 0 {
            (v - 1) as u8
        } else {
            0u8
        },
{
    if v > 0 {
        v - 1
    } else {
        0
    }
}

/// Copy the block array of a chunk.
fn copy_blocks(c: &crate::chunk::Chunk) -> (r: Vec<BlockId>)
    requires
        c.wf(),
    ensures
        r@ == c@,
{
    let mut r: Vec<BlockId> = Vec::new();
    let mut i: usize = 0;
    while i < 32768
        invariant
            c.wf(),
            i <= 32768,
            r@.len() == i,
            forall|m: int| 0 <= m < i ==> r@[m] == c@[m],
        decreases 32768 - i,
    {
        r.push(c.data[i]);
        i = i + 1;
    }
    proof {
        assert(r@ =~= c@);
    }
    r
}

/// Seed boundary blocks from the stored light of each of the six adjacent
/// chunks, where that light exists; a missing neighbor contributes nothing
/// and the position stays eligible for a later recompute.
fn seed_from_neighbors(
    l: &mut Vec<u8>,
    blocks: &Vec<BlockId>,
    cy: i64,
    Ghost(top): Ghost<Option<BlockTop>>,
    world: &World,
    pos: ChunkPos,
)
    requires
        world.wf(),
        blocks@.len() == 32768,
        light_ok(blocks@, cy as int, top, old(l)@),
    ensures
        light_ok(blocks@, cy as int, top, final(l)@),
{
    if pos.px > i64::MIN {
        let np = ChunkPos { px: pos.px - 1, py: pos.py, pz: pos.pz };
        seed_face(l, blocks, cy, Ghost(top), world, np, 0);
    }
    if pos.px < i64::MAX {
        let np = ChunkPos { px: pos.px + 1, py: pos.py, pz: pos.pz };
        seed_face(l, blocks, cy, Ghost(top), world, np, 1);
    }
    if pos.py > i64::MIN {
        let np = ChunkPos { px: pos.px, py: pos.py - 1, pz: pos.pz };
        seed_face(l, blocks, cy, Ghost(top), world, np, 2);
    }
    if pos.py < i64::MAX {
        let np = ChunkPos { px: pos.px, py: pos.py + 1, pz: pos.pz };
        seed_face(l, blocks, cy, Ghost(top), world, np, 3);
    }
    if pos.pz > i64::MIN {
        let np = ChunkPos { px: pos.px, py: pos.py, pz: pos.pz - 1 };
        seed_face(l, blocks, cy, Ghost(top), world, np, 4);
    }
    if pos.pz < i64::MAX {
        let np = ChunkPos { px: pos.px, py: pos.py, pz: pos.pz + 1 };
        seed_face(l, blocks, cy, Ghost(top), world, np, 5);
    }
}

/// Seed one face of the chunk from the stored light of the neighbor at
/// `np`. `face` selects which boundary plane receives the light.
fn seed_face(
    l: &mut Vec<u8>,
    blocks: &Vec<BlockId>,
    cy: i64,
    Ghost(top): Ghost<Option<BlockTop>>,
    world: &World,
    np: ChunkPos,
    face: u8,
)
    requires
        world.wf(),
        blocks@.len() == 32768,
        light_ok(blocks@, cy as int, top, old(l)@),
        face < 6,
    ensures
        light_ok(blocks@, cy as int, top, final(l)@),
{
    let nb = match world.get_light(np) {
        Some(lc) => lc,
        None => {
            return ;
        },
    };
    let mut a: u32 = 0;
    while a < 32
        invariant
            world.wf(),
            blocks@.len() == 32768,
            light_ok(blocks@, cy as int, top, l@),
            nb.data@.len() == 32768,
            forall|m: int| 0 <= m < 32768 ==> nb.data@[m] <= 15,
            face < 6,
            a <= 32,
        decreases 32 - a,
    {
        let mut b: u32 = 0;
        while b < 32
            invariant
                world.wf(),
                blocks@.len() == 32768,
                light_ok(blocks@, cy as int, top, l@),
                nb.data@.len() == 32768,
                forall|m: int| 0 <= m < 32768 ==> nb.data@[m] <= 15,
                face < 6,
                a < 32,
                b <= 32,
            decreases 32 - b,
        {
            if face == 0 {
                let v = nb.data[block_index(31, a, b)];
                raise_light(l, blocks, cy, Ghost(top), 0, a, b, dim(v));
            } else if face == 1 {
                let v = nb.data[block_index(0, a, b)];
                raise_light(l, blocks, cy, Ghost(top), 31, a, b, dim(v));
            } else if face == 2 {
                let v = nb.data[block_index(a, 31, b)];
                raise_light(l, blocks, cy, Ghost(top), a, 0, b, dim(v));
            } else if face == 3 {
                let v = nb.data[block_index(a, 0, b)];
                raise_light(l, blocks, cy, Ghost(top), a, 31, b, dim(v));
            } else if face == 4 {
                let v = nb.data[block_index(a, b, 31)];
                raise_light(l, blocks, cy, Ghost(top), a, b, 0, dim(v));
            } else {
                let v = nb.data[block_index(a, b, 0)];
                raise_light(l, blocks, cy, Ghost(top), a, b, 31, dim(v));
            }
            b = b + 1;
        }
        a = a + 1;
    }
}

} // verus!
