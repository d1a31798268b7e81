//! Chunk positions, dense block storage, and the run-length chunk codec.

use vstd::prelude::*;

verus! {

/// Identifier of a block type. Zero is air (transparent); every other
/// identifier is treated as opaque by the lighting engine.
pub type BlockId = u16;

/// Number of blocks along one axis of a chunk.
pub const CHUNK_SIZE: u32 = 32;

/// Number of blocks in a whole chunk (`CHUNK_SIZE` cubed).
pub const CHUNK_VOLUME: u32 = 32768;

/// Position of a chunk in the world, in chunk coordinates.
#[derive(Debug, Clone, Copy, PartialEq, Eq, Hash, Structural)]
pub struct ChunkPos {
    pub px: i64,
    pub py: i64,
    pub pz: i64,
}

impl ChunkPos {
    /// Offset the current chunk position by some amount of chunks.
    pub fn offset(self, dx: i64, dy: i64, dz: i64) -> (r: Self)
        requires
            i64::MIN <= self.px + dx <= i64::MAX,
            i64::MIN <= self.py + dy <= i64::MAX,
            i64::MIN <= self.pz + dz <= i64::MAX,
        ensures
            r.px == self.px + dx,
            r.py == self.py + dy,
            r.pz == self.pz + dz,
    {
        Self { px: self.px + dx, py: self.py + dy, pz: self.pz + dz }
    }
}

/// Index of local coordinates in the linearized block array.
pub open spec fn block_index_spec(lx: int, ly: int, lz: int) -> int {
    lx * 1024 + ly * 32 + lz
}

/// The linearization is injective on in-range coordinates.
pub proof fn lemma_block_index_injective(x1: int, y1: int, z1: int, x2: int, y2: int, z2: int)
    requires
        0 <= x1 < 32, 0 <= y1 < 32, 0 <= z1 < 32,
        0 <= x2 < 32, 0 <= y2 < 32, 0 <= z2 < 32,
        block_index_spec(x1, y1, z1) == block_index_spec(x2, y2, z2),
    ensures
        x1 == x2 && y1 == y2 && z1 == z2,
{
}

/// A chunk: a dense cube of `CHUNK_VOLUME` block identifiers, addressed by
/// local coordinates through the linearization `lx*32*32 + ly*32 + lz`.
#[derive(Debug, Clone)]
pub struct Chunk {
    pub pos: ChunkPos,
    pub data: Vec<BlockId>,
}

impl View for Chunk {
    type V = Seq<BlockId>;

    open spec fn view(&self) -> Seq<BlockId> {
        self.data@
    }
}

impl Chunk {
    /// A chunk is well formed when it holds exactly one block per cell.
    pub open spec fn wf(self) -> bool {
        self@.len() == CHUNK_VOLUME
    }

    /// Block stored at in-range local coordinates, as a spec value.
    pub open spec fn block_at_spec(self, lx: int, ly: int, lz: int) -> BlockId {
        self@[block_index_spec(lx, ly, lz)]
    }

    /// Create a new chunk filled with air (block id zero).
    pub fn new(pos: ChunkPos) -> (r: Self)
        ensures
            r.wf(),
            r.pos == pos,
            forall|i: int| 0 <= i < CHUNK_VOLUME ==> r@[i] == 0u16,
    {
        let mut data: Vec<BlockId> = Vec::new();
        let mut i: u32 = 0;
        while i < CHUNK_VOLUME
            invariant
                i <= CHUNK_VOLUME,
                data@.len() == i,
                forall|j: int| 0 <= j < i ==> data@[j] == 0u16,
            decreases CHUNK_VOLUME - i,
        {
            data.push(0u16);
            i = i + 1;
        }
        Self { pos, data }
    }

    /// Get the block at some local position.
    #[inline]
    pub fn get_block_at(&self, coords: (u32, u32, u32)) -> (r: BlockId)
        requires
            self.wf(),
            coords.0 < 32,
            coords.1 < 32,
            coords.2 < 32,
        ensures
            r == self.block_at_spec(coords.0 as int, coords.1 as int, coords.2 as int),
    {
        let (px, py, pz) = coords;
        self.data[(px * CHUNK_SIZE * CHUNK_SIZE + py * CHUNK_SIZE + pz) as usize]
    }

    /// Set the block at some local position.
    #[inline]
    pub fn set_block_at(&mut self, coords: (u32, u32, u32), block: BlockId)
        requires
            old(self).wf(),
            coords.0 < 32,
            coords.1 < 32,
            coords.2 < 32,
        ensures
            final(self).wf(),
            final(self).pos == old(self).pos,
            final(self)@ == old(self)@.update(
                block_index_spec(coords.0 as int, coords.1 as int, coords.2 as int),
                block,
            ),
    {
        let (px, py, pz) = coords;
        self.data.set((px * CHUNK_SIZE * CHUNK_SIZE + py * CHUNK_SIZE + pz) as usize, block);
    }
}

/// Error returned by the codec when a compressed chunk cannot be decoded.
#[derive(Debug, Clone, Copy, PartialEq, Eq, Structural)]
pub enum CodecError {
    /// The run lengths of the compressed form do not sum to `CHUNK_VOLUME`.
    CorruptChunkData,
}

/// The blocks described by a single (length, id) run.
pub open spec fn run_blocks(run: (u16, BlockId)) -> Seq<BlockId> {
    Seq::new(run.0 as nat, |i: int| run.1)
}

/// The dense block sequence described by a sequence of runs.
pub open spec fn expand_runs(runs: Seq<(u16, BlockId)>) -> Seq<BlockId>
    decreases runs.len(),
{
    if runs.len() == 0 {
        Seq::empty()
    } else {
        expand_runs(runs.drop_last()) + run_blocks(runs.last())
    }
}

/// Sum of the run lengths of a sequence of runs.
pub open spec fn runs_total(runs: Seq<(u16, BlockId)>) -> nat {
    expand_runs(runs).len()
}

/// Well-formed runs: every run is non-empty and runs are maximal, that is,
/// no two adjacent runs carry the same block id.
pub open spec fn wf_runs(runs: Seq<(u16, BlockId)>) -> bool {
    &&& forall|i: int| 0 <= i < runs.len() ==> (#[trigger] runs[i]).0 > 0
    &&& forall|i: int| 0 <= i < runs.len() - 1 ==> (#[trigger] runs[i]).1 != runs[i + 1].1
}

/// Number of positions where a block sequence differs from its predecessor.
/// A sequence with `k` changes consists of exactly `k + 1` maximal runs.
pub open spec fn num_changes(s: Seq<BlockId>) -> int
    decreases s.len(),
{
    if s.len() <= 1 {
        0
    } else {
        num_changes(s.drop_last()) + if s[s.len() - 2] != s[s.len() - 1] {
            1int
        } else {
            0int
        }
    }
}

/// Appending a run to a run sequence appends its blocks to the expansion.
pub proof fn lemma_expand_push(runs: Seq<(u16, BlockId)>, run: (u16, BlockId))
    ensures
        expand_runs(runs.push(run)) == expand_runs(runs) + run_blocks(run),
{
    assert(runs.push(run).drop_last() =~= runs);
    assert(runs.push(run).last() == run);
}

/// The expansion of a run sequence splits at any index.
pub proof fn lemma_expand_split(runs: Seq<(u16, BlockId)>, k: int)
    requires
        0 <= k <= runs.len(),
    ensures
        expand_runs(runs) == expand_runs(runs.subrange(0, k))
            + expand_runs(runs.subrange(k, runs.len() as int)),
    decreases runs.len(),
{
    let n = runs.len() as int;
    if k == n {
        assert(runs.subrange(0, k) =~= runs);
        assert(runs.subrange(k, n).len() == 0);
        assert(expand_runs(runs) =~= expand_runs(runs.subrange(0, k))
            + expand_runs(runs.subrange(k, n)));
    } else {
        let dl = runs.drop_last();
        lemma_expand_split(dl, k);
        assert(dl.subrange(0, k) =~= runs.subrange(0, k));
        assert(runs.subrange(k, n).drop_last() =~= dl.subrange(k, n - 1));
        assert(runs.subrange(k, n).last() == runs.last());
        assert(expand_runs(runs.subrange(k, n)) == expand_runs(dl.subrange(k, n - 1))
            + run_blocks(runs.last()));
        assert(expand_runs(runs) =~= expand_runs(runs.subrange(0, k))
            + expand_runs(runs.subrange(k, n)));
    }
}

/// Any prefix of a run sequence expands to at most as many blocks as the whole.
pub proof fn lemma_runs_total_prefix(runs: Seq<(u16, BlockId)>, k: int)
    requires
        0 <= k <= runs.len(),
    ensures
        runs_total(runs.subrange(0, k)) <= runs_total(runs),
{
    lemma_expand_split(runs, k);
}

/// Replacing the last run's length, keeping its block id, preserves
/// well-formedness.
proof fn lemma_wf_runs_last_same_block(
    runs: Seq<(u16, BlockId)>,
    a: (u16, BlockId),
    c: (u16, BlockId),
)
    requires
        wf_runs(runs.push(a)),
        c.0 > 0,
        c.1 == a.1,
    ensures
        wf_runs(runs.push(c)),
{
    let s = runs.push(a);
    let t = runs.push(c);
    assert forall|i: int| 0 <= i < t.len() implies (#[trigger] t[i]).0 > 0 by {
        if i < runs.len() {
            assert(t[i] == s[i]);
        }
    }
    assert forall|i: int| 0 <= i < t.len() - 1 implies (#[trigger] t[i]).1 != t[i + 1].1 by {
        assert(t[i] == s[i]);
        if i + 1 < runs.len() {
            assert(t[i + 1] == s[i + 1]);
        } else {
            assert(t[i + 1].1 == a.1);
        }
        assert(s[i].1 != s[i + 1].1);
    }
}

/// Starting a fresh non-empty run with a different block id preserves
/// well-formedness.
proof fn lemma_wf_runs_new_block(runs: Seq<(u16, BlockId)>, a: (u16, BlockId), b: (u16, BlockId))
    requires
        wf_runs(runs.push(a)),
        b.0 > 0,
        a.1 != b.1,
    ensures
        wf_runs(runs.push(a).push(b)),
{
    let s = runs.push(a);
    let t = s.push(b);
    assert forall|i: int| 0 <= i < t.len() implies (#[trigger] t[i]).0 > 0 by {
        if i < s.len() {
            assert(t[i] == s[i]);
        }
    }
    assert forall|i: int| 0 <= i < t.len() - 1 implies (#[trigger] t[i]).1 != t[i + 1].1 by {
        assert(t[i] == s[i]);
        if i + 1 < s.len() {
            assert(t[i + 1] == s[i + 1]);
            assert(s[i].1 != s[i + 1].1);
        } else {
            assert(t[i].1 == a.1);
            assert(t[i + 1].1 == b.1);
        }
    }
}

/// Round trip: take any well-formed chunk `c`, a compressed form `e` as
/// `from_chunk` guarantees it (its expansion is `c`'s block array), and a
/// decoded chunk `d` as `to_chunk` guarantees it on success (its blocks are
/// the expansion of `e`). Then decoding cannot have failed — the run
/// lengths sum to exactly `CHUNK_VOLUME` — and `d` holds exactly `c`'s
/// blocks.
pub proof fn lemma_codec_round_trip(c: Chunk, e: CompressedChunk, d: Chunk)
    requires
        c.wf(),
        expand_runs(e.data@) == c@,
        d@ == expand_runs(e.data@),
    ensures
        runs_total(e.data@) == CHUNK_VOLUME,
        d@ == c@,
{
}

/// Compactness: a uniform block sequence has no changes, so its encoding
/// (which holds one run per change, plus one) is a single run.
pub proof fn lemma_uniform_no_changes(s: Seq<BlockId>)
    requires
        forall|i: int, j: int| 0 <= i < s.len() && 0 <= j < s.len() ==> s[i] == s[j],
    ensures
        num_changes(s) == 0,
    decreases s.len(),
{
    if s.len() > 1 {
        lemma_uniform_no_changes(s.drop_last());
    }
}

/// An RLE-compressed chunk: a position and an ordered sequence of
/// (run length, block id) pairs.
#[derive(Debug, Clone)]
pub struct CompressedChunk {
    pub pos: ChunkPos,
    pub data: Vec<(u16, BlockId)>,
}

impl CompressedChunk {
    /// Compress `chunk` using RLE. The result expands back to exactly the
    /// chunk's blocks, its runs are non-empty and maximal, and it holds one
    /// run per maximal run of equal blocks.
    pub fn from_chunk(chunk: &Chunk) -> (r: CompressedChunk)
        requires
            chunk.wf(),
        ensures
            r.pos == chunk.pos,
            expand_runs(r.data@) == chunk@,
            wf_runs(r.data@),
            r.data@.len() == 1 + num_changes(chunk@),
    {
        let mut compressed_data: Vec<(u16, BlockId)> = Vec::new();
        let mut current_block: BlockId = chunk.data[0];
        let mut current_block_count: u16 = 0;
        let mut i: usize = 0;
        while i < 32768
            invariant
                chunk.wf(),
                i <= 32768,
                i == 0 ==> current_block_count == 0 && compressed_data@.len() == 0
                    && current_block == chunk@[0],
                i > 0 ==> 1 <= current_block_count <= i,
                i > 0 ==> current_block == chunk@[i - 1],
                i > 0 ==> expand_runs(compressed_data@)
                    + run_blocks((current_block_count, current_block))
                    =~= chunk@.subrange(0, i as int),
                i > 0 ==> wf_runs(compressed_data@.push((current_block_count, current_block))),
                i > 0 ==> compressed_data@.len() == num_changes(chunk@.subrange(0, i as int)),
            decreases 32768 - i,
        {
            proof {
                if i > 0 {
                    assert(chunk@.subrange(0, i as int + 1).drop_last()
                        =~= chunk@.subrange(0, i as int));
                }
            }
            let ghost prev_count = current_block_count;
            let ghost prev_block = current_block;
            let ghost prev_cd = compressed_data@;
            if chunk.data[i] != current_block {
                let ghost old_cd = compressed_data@;
                compressed_data.push((current_block_count, current_block));
                proof {
                    lemma_expand_push(old_cd, (current_block_count, current_block));
                }
                current_block = chunk.data[i];
                current_block_count = 0;
            }
            current_block_count = current_block_count + 1;
            proof {
                if i > 0 {
                    if prev_block == chunk@[i as int] {
                        lemma_wf_runs_last_same_block(
                            prev_cd,
                            (prev_count, prev_block),
                            (current_block_count, current_block),
                        );
                    } else {
                        lemma_wf_runs_new_block(
                            prev_cd,
                            (prev_count, prev_block),
                            (current_block_count, current_block),
                        );
                    }
                }
            }
            proof {
                assert(expand_runs(compressed_data@)
                    + run_blocks((current_block_count, current_block))
                    =~= chunk@.subrange(0, i as int + 1));
            }
            i = i + 1;
        }
        let ghost old_cd = compressed_data@;
        compressed_data.push((current_block_count, current_block));
        proof {
            lemma_expand_push(old_cd, (current_block_count, current_block));
            assert(chunk@.subrange(0, 32768) =~= chunk@);
            assert(expand_runs(compressed_data@) =~= chunk@);
        }
        Self { pos: chunk.pos, data: compressed_data }
    }

    /// Recover the original chunk. Fails with `CorruptChunkData` exactly when
    /// the run lengths do not sum to `CHUNK_VOLUME`; on success the chunk's
    /// blocks are exactly the expansion of the runs.
    pub fn to_chunk(&self) -> (r: Result<Chunk, CodecError>)
        ensures
            r is Ok <==> runs_total(self.data@) == CHUNK_VOLUME,
            r matches Ok(c) ==> c.wf() && c.pos == self.pos && c@ == expand_runs(self.data@),
            r is Err ==> r == Result::<Chunk, CodecError>::Err(CodecError::CorruptChunkData),
    {
        let mut data: Vec<BlockId> = Vec::new();
        let mut f: u32 = 0;
        while f < CHUNK_VOLUME
            invariant
                f <= CHUNK_VOLUME,
                data@.len() == f,
            decreases CHUNK_VOLUME - f,
        {
            data.push(0u16);
            f = f + 1;
        }
        let n = self.data.len();
        let mut i: u32 = 0;
        let mut k: usize = 0;
        while k < n
            invariant
                n == self.data@.len(),
                data@.len() == CHUNK_VOLUME,
                k <= n,
                i <= CHUNK_VOLUME,
                i == runs_total(self.data@.subrange(0, k as int)),
                forall|m: int| 0 <= m < i
                    ==> data@[m] == expand_runs(self.data@.subrange(0, k as int))[m],
            decreases n - k,
        {
            let (len, block) = self.data[k];
            proof {
                assert(self.data@.subrange(0, k as int + 1).drop_last()
                    =~= self.data@.subrange(0, k as int));
                assert(self.data@.subrange(0, k as int + 1).last() == self.data@[k as int]);
                lemma_expand_push(
                    self.data@.subrange(0, k as int),
                    (self.data@[k as int].0, self.data@[k as int].1),
                );
            }
            if (len as u32) > CHUNK_VOLUME - i {
                proof {
                    lemma_runs_total_prefix(self.data@, k as int + 1);
                }
                return Err(CodecError::CorruptChunkData);
            }
            let mut j: u16 = 0;
            while j < len
                invariant
                    j <= len,
                    data@.len() == CHUNK_VOLUME,
                    i + len <= CHUNK_VOLUME,
                    i == runs_total(self.data@.subrange(0, k as int)),
                    forall|m: int| 0 <= m < i
                        ==> data@[m] == expand_runs(self.data@.subrange(0, k as int))[m],
                    forall|m: int| i <= m < i + j ==> data@[m] == block,
                decreases len - j,
            {
                data.set((i + j as u32) as usize, block);
                j = j + 1;
            }
            i = i + len as u32;
            k = k + 1;
        }
        proof {
            assert(self.data@.subrange(0, n as int) =~= self.data@);
        }
        if i != CHUNK_VOLUME {
            return Err(CodecError::CorruptChunkData);
        }
        proof {
            assert(data@ =~= expand_runs(self.data@));
        }
        Ok(Chunk { pos: self.pos, data })
    }
}

} // verus!
