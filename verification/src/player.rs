//! Per-player render distance: the visibility predicate and the
//! nearest-first enumeration of visible chunk positions, plus the
//! per-player streaming bookkeeping.

use vstd::prelude::*;
use crate::chunk::ChunkPos;
use crate::posset::{contains_pos, distinct_pos, lemma_contains_push, lemma_distinct_remove};

verus! {

/// Squared Euclidean distance between two chunk positions, in chunk space.
pub open spec fn squared_dist_spec(a: ChunkPos, b: ChunkPos) -> int {
    (a.px - b.px) * (a.px - b.px) + (a.py - b.py) * (a.py - b.py) + (a.pz - b.pz) * (a.pz - b.pz)
}

/// The two positions differ by at most the largest radius on every axis,
/// so their squared distance fits comfortably in a `u64`.
pub open spec fn near_spec(a: ChunkPos, b: ChunkPos) -> bool {
    &&& -65535 <= a.px - b.px <= 65535
    &&& -65535 <= a.py - b.py <= 65535
    &&& -65535 <= a.pz - b.pz <= 65535
}

/// Squared Euclidean chunk-space distance; avoids costly roots.
pub fn squared_euclidian_distance(a: ChunkPos, b: ChunkPos) -> (r: u64)
    requires
        near_spec(a, b),
    ensures
        r == squared_dist_spec(a, b),
{
    let dx: i128 = a.px as i128 - b.px as i128;
    let dy: i128 = a.py as i128 - b.py as i128;
    let dz: i128 = a.pz as i128 - b.pz as i128;
    proof {
        assert(0 <= dx * dx <= 65535i128 * 65535i128 && 0 <= dy * dy <= 65535i128 * 65535i128
            && 0 <= dz * dz <= 65535i128 * 65535i128) by (nonlinear_arith)
            requires
                -65535 <= dx <= 65535,
                -65535 <= dy <= 65535,
                -65535 <= dz <= 65535,
        ;
    }
    (dx * dx + dy * dy + dz * dz) as u64
}

/// A squared distance is never negative, and is zero only between a
/// position and itself.
pub proof fn lemma_squared_dist_zero(a: ChunkPos, b: ChunkPos)
    ensures
        squared_dist_spec(a, b) >= 0,
        squared_dist_spec(a, b) == 0 ==> a == b,
{
    let dx = a.px - b.px;
    let dy = a.py - b.py;
    let dz = a.pz - b.pz;
    assert(dx * dx >= 0 && dy * dy >= 0 && dz * dz >= 0 && (dx != 0 ==> dx * dx > 0) && (dy != 0
        ==> dy * dy > 0) && (dz != 0 ==> dz * dz > 0)) by (nonlinear_arith);
}

/// `|b - a| <= r`, computed without overflow.
fn within(a: i64, b: i64, r: u16) -> (res: bool)
    ensures
        res == (-(r as int) <= b - a <= r as int),
{
    let d: i128 = b as i128 - a as i128;
    -(r as i128) <= d && d <= r as i128
}

/// The box-shaped set of chunk positions a player can see, given by a
/// radius per axis (anisotropy lets the vertical radius differ).
#[derive(Debug, Clone, Copy, PartialEq, Eq, Structural)]
pub struct RenderDistance {
    pub radius_x: u16,
    pub radius_y: u16,
    pub radius_z: u16,
}

impl RenderDistance {
    /// Whether `pos` is visible from a player standing in chunk `center`.
    pub open spec fn visible_spec(self, center: ChunkPos, pos: ChunkPos) -> bool {
        &&& -(self.radius_x as int) <= pos.px - center.px <= self.radius_x as int
        &&& -(self.radius_y as int) <= pos.py - center.py <= self.radius_y as int
        &&& -(self.radius_z as int) <= pos.pz - center.pz <= self.radius_z as int
    }

    /// The whole visible set can be offset from `center` without leaving
    /// the range of chunk coordinates.
    pub open spec fn center_in_range(self, center: ChunkPos) -> bool {
        &&& i64::MIN <= center.px - self.radius_x as int && center.px + self.radius_x as int
            <= i64::MAX
        &&& i64::MIN <= center.py - self.radius_y as int && center.py + self.radius_y as int
            <= i64::MAX
        &&& i64::MIN <= center.pz - self.radius_z as int && center.pz + self.radius_z as int
            <= i64::MAX
    }

    /// Visibility predicate used for membership and eviction tests.
    pub fn is_chunk_visible(&self, center: ChunkPos, pos: ChunkPos) -> (r: bool)
        ensures
            r == self.visible_spec(center, pos),
    {
        within(center.px, pos.px, self.radius_x) && within(center.py, pos.py, self.radius_y)
            && within(center.pz, pos.pz, self.radius_z)
    }

    /// Enumerate every chunk position visible from `center`, nearest first
    /// (by squared Euclidean distance), starting with `center` itself.
    pub fn iterate_around_player(&self, center: ChunkPos) -> (r: Vec<ChunkPos>)
        requires
            self.center_in_range(center),
        ensures
            distinct_pos(r@),
            forall|p: ChunkPos| r@.contains(p) <==> self.visible_spec(center, p),
            forall|i: int, j: int|
                0 <= i <= j < r@.len() ==> squared_dist_spec(center, r@[i]) <= squared_dist_spec(
                    center,
                    r@[j],
                ),
            r@.len() >= 1 && r@[0] == center,
    {
        let mut positions: Vec<ChunkPos> = Vec::new();
        let rx = self.radius_x as i64;
        let ry = self.radius_y as i64;
        let rz = self.radius_z as i64;
        let mut dx: i64 = -rx;
        while dx <= rx
            invariant
                self.center_in_range(center),
                rx == self.radius_x as int && ry == self.radius_y as int && rz
                    == self.radius_z as int,
                -rx <= dx <= rx + 1,
                distinct_pos(positions@),
                forall|p: ChunkPos|
                    positions@.contains(p) <==> (self.visible_spec(center, p) && p.px - center.px
                        < dx),
            decreases rx + 1 - dx,
        {
            let mut dy: i64 = -ry;
            while dy <= ry
                invariant
                    self.center_in_range(center),
                    rx == self.radius_x as int && ry == self.radius_y as int && rz
                        == self.radius_z as int,
                    -rx <= dx <= rx,
                    -ry <= dy <= ry + 1,
                    distinct_pos(positions@),
                    forall|p: ChunkPos|
                        positions@.contains(p) <==> (self.visible_spec(center, p) && (p.px
                            - center.px < dx || (p.px - center.px == dx && p.py - center.py
                            < dy))),
                decreases ry + 1 - dy,
            {
                let mut dz: i64 = -rz;
                while dz <= rz
                    invariant
                        self.center_in_range(center),
                        rx == self.radius_x as int && ry == self.radius_y as int && rz
                            == self.radius_z as int,
                        -rx <= dx <= rx,
                        -ry <= dy <= ry,
                        -rz <= dz <= rz + 1,
                        distinct_pos(positions@),
                        forall|p: ChunkPos|
                            positions@.contains(p) <==> (self.visible_spec(center, p) && (p.px
                                - center.px < dx || (p.px - center.px == dx && (p.py - center.py
                                < dy || (p.py - center.py == dy && p.pz - center.pz < dz))))),
                    decreases rz + 1 - dz,
                {
                    let p0 = ChunkPos { px: center.px + dx, py: center.py + dy, pz: center.pz + dz };
                    let ghost before = positions@;
                    proof {
                        assert(!before.contains(p0));
                    }
                    positions.push(p0);
                    proof {
                        assert forall|q: ChunkPos|
                            positions@.contains(q) <==> (before.contains(q) || q == p0) by {
                            lemma_contains_push(before, p0, q);
                        }
                        assert(self.visible_spec(center, p0));
                        assert forall|q: ChunkPos|
                            positions@.contains(q) <==> (self.visible_spec(center, q) && (q.px
                                - center.px < dx || (q.px - center.px == dx && (q.py - center.py
                                < dy || (q.py - center.py == dy && q.pz - center.pz
                                < dz + 1))))) by {
                            if positions@.contains(q) && !before.contains(q) {
                                assert(q == p0);
                            }
                            if self.visible_spec(center, q) && q.px - center.px == dx && q.py
                                - center.py == dy && q.pz - center.pz == dz {
                                assert(q.px == p0.px && q.py == p0.py && q.pz == p0.pz);
                                assert(q == p0);
                            }
                        }
                        assert forall|i: int, j: int|
                            0 <= i < j < positions@.len() implies positions@[i]
                            != positions@[j] by {
                            if j < before.len() {
                                assert(positions@[i] == before[i] && positions@[j] == before[j]);
                            } else {
                                assert(positions@[j] == p0);
                                assert(positions@[i] == before[i]);
                                assert(before.contains(before[i]));
                            }
                        }
                    }
                    dz = dz + 1;
                }
                dy = dy + 1;
            }
            dx = dx + 1;
        }
        proof {
            assert forall|k: int| 0 <= k < positions@.len() implies near_spec(
                center,
                #[trigger] positions@[k],
            ) by {
                assert(positions@.contains(positions@[k]));
            }
        }
        let r = sort_by_distance(center, positions);
        proof {
            assert(self.visible_spec(center, center));
            assert(r@.contains(center));
            let k = choose|k: int| 0 <= k < r@.len() && r@[k] == center;
            lemma_squared_dist_zero(center, r@[0]);
            assert(squared_dist_spec(center, center) == 0) by (nonlinear_arith);
            assert(squared_dist_spec(center, r@[0]) <= squared_dist_spec(center, r@[k]));
            assert(r@[0] == center);
        }
        r
    }
}

/// Positions in `v` are all within `near_spec` of `center`.
spec fn all_near(center: ChunkPos, s: Seq<ChunkPos>) -> bool {
    forall|k: int| 0 <= k < s.len() ==> near_spec(center, #[trigger] s[k])
}

/// Order a distinct set of positions by squared distance from `center`,
/// nondecreasing. Selection sort: repeatedly extract a closest remaining
/// position.
fn sort_by_distance(center: ChunkPos, v: Vec<ChunkPos>) -> (r: Vec<ChunkPos>)
    requires
        distinct_pos(v@),
        all_near(center, v@),
    ensures
        distinct_pos(r@),
        r@.len() == v@.len(),
        forall|p: ChunkPos| r@.contains(p) <==> v@.contains(p),
        forall|i: int, j: int|
            0 <= i <= j < r@.len() ==> squared_dist_spec(center, r@[i]) <= squared_dist_spec(
                center,
                r@[j],
            ),
{
    let mut rem = v;
    let mut out: Vec<ChunkPos> = Vec::new();
    while rem.len() > 0
        invariant
            distinct_pos(rem@),
            distinct_pos(out@),
            all_near(center, rem@),
            out@.len() + rem@.len() == v@.len(),
            forall|p: ChunkPos| #[trigger] v@.contains(p) <==> (out@.contains(p) || rem@.contains(p)),
            forall|p: ChunkPos| out@.contains(p) ==> !rem@.contains(p),
            forall|p: ChunkPos| out@.contains(p) ==> v@.contains(p),
            forall|p: ChunkPos| rem@.contains(p) ==> v@.contains(p),
            forall|i: int, j: int|
                0 <= i <= j < out@.len() ==> squared_dist_spec(center, out@[i])
                    <= squared_dist_spec(center, out@[j]),
            forall|i: int, j: int|
                0 <= i < out@.len() && 0 <= j < rem@.len() ==> squared_dist_spec(center, out@[i])
                    <= squared_dist_spec(center, rem@[j]),
        decreases rem@.len(),
    {
        let mut mi: usize = 0;
        let mut mind: u64 = squared_euclidian_distance(center, rem[0]);
        let mut k: usize = 1;
        while k < rem.len()
            invariant
                all_near(center, rem@),
                rem@.len() > 0,
                k <= rem@.len(),
                mi < rem@.len(),
                mind == squared_dist_spec(center, rem@[mi as int]),
                forall|j: int| 0 <= j < k ==> mind <= squared_dist_spec(center, rem@[j]),
            decreases rem@.len() - k,
        {
            let d = squared_euclidian_distance(center, rem[k]);
            if d < mind {
                mi = k;
                mind = d;
            }
            k = k + 1;
        }
        let p = rem[mi];
        let ghost old_out = out@;
        let ghost old_rem = rem@;
        out.push(p);
        rem.remove(mi);
        proof {
            assert forall|q: ChunkPos|
                out@.contains(q) <==> (old_out.contains(q) || q == p) by {
                lemma_contains_push(old_out, p, q);
            }
            assert forall|q: ChunkPos|
                rem@.contains(q) <==> (old_rem.contains(q) && q != p) by {
                lemma_distinct_remove(old_rem, mi as int, q);
            }
            lemma_distinct_remove(old_rem, mi as int, p);
            assert(old_rem.contains(p));
            assert forall|q: ChunkPos| out@.contains(q) implies !rem@.contains(q) by {
                if old_out.contains(q) {
                    assert(!old_rem.contains(q));
                }
            }
            assert forall|k: int| 0 <= k < rem@.len() implies near_spec(
                center,
                #[trigger] rem@[k],
            ) by {
                assert(rem@.contains(rem@[k]));
                let w = choose|w: int| 0 <= w < old_rem.len() && old_rem[w] == rem@[k];
            }
            assert forall|i: int, j: int|
                0 <= i < j < out@.len() implies out@[i] != out@[j] by {
                if j < old_out.len() {
                    assert(out@[i] == old_out[i] && out@[j] == old_out[j]);
                } else {
                    assert(out@[j] == p);
                    assert(out@[i] == old_out[i]);
                    assert(old_out.contains(old_out[i]));
                }
            }
            assert forall|i: int, j: int|
                0 <= i < out@.len() && 0 <= j < rem@.len() implies squared_dist_spec(
                center,
                out@[i],
            ) <= squared_dist_spec(center, rem@[j]) by {
                assert(rem@.contains(rem@[j]));
                assert(old_rem.contains(rem@[j]));
                let w = choose|w: int| 0 <= w < old_rem.len() && old_rem[w] == rem@[j];
                assert(mind <= squared_dist_spec(center, old_rem[w]));
                if i < old_out.len() {
                    assert(out@[i] == old_out[i]);
                } else {
                    assert(out@[i] == p);
                }
            }
            assert forall|i: int, j: int|
                0 <= i <= j < out@.len() implies squared_dist_spec(center, out@[i])
                    <= squared_dist_spec(center, out@[j]) by {
                if j < old_out.len() {
                } else if j == old_out.len() as int && i < j {
                    assert(out@[j] == p);
                    assert(out@[i] == old_out[i]);
                    assert(mind == squared_dist_spec(center, old_rem[mi as int]));
                }
            }
        }
    }
    out
}

/// The data that the server stores for every connected player: which chunks
/// it has already been sent, and how far it can see.
#[derive(Debug, Clone)]
pub struct PlayerData {
    pub loaded_chunks: Vec<ChunkPos>,
    pub render_distance: RenderDistance,
}

impl PlayerData {
    /// The delivered set holds each position at most once.
    pub open spec fn wf(self) -> bool {
        distinct_pos(self.loaded_chunks@)
    }

    /// Fresh bookkeeping for a newly connected player.
    pub fn new(render_distance: RenderDistance) -> (r: Self)
        ensures
            r.wf(),
            r.loaded_chunks@.len() == 0,
            r.render_distance == render_distance,
    {
        Self { loaded_chunks: Vec::new(), render_distance }
    }

    /// Whether `pos` was already delivered to this player.
    pub fn is_loaded(&self, pos: ChunkPos) -> (r: bool)
        ensures
            r == self.loaded_chunks@.contains(pos),
    {
        contains_pos(&self.loaded_chunks, pos)
    }

    /// Record that `pos` has been delivered.
    pub fn mark_loaded(&mut self, pos: ChunkPos)
        requires
            old(self).wf(),
            !old(self).loaded_chunks@.contains(pos),
        ensures
            final(self).wf(),
            final(self).render_distance == old(self).render_distance,
            forall|p: ChunkPos|
                final(self).loaded_chunks@.contains(p) <==> (old(self).loaded_chunks@.contains(p)
                    || p == pos),
    {
        let ghost before = self.loaded_chunks@;
        self.loaded_chunks.push(pos);
        proof {
            assert forall|q: ChunkPos|
                self.loaded_chunks@.contains(q) <==> (before.contains(q) || q == pos) by {
                lemma_contains_push(before, pos, q);
            }
            assert forall|i: int, j: int|
                0 <= i < j < self.loaded_chunks@.len() implies self.loaded_chunks@[i]
                != self.loaded_chunks@[j] by {
                if j < before.len() {
                    assert(self.loaded_chunks@[i] == before[i] && self.loaded_chunks@[j]
                        == before[j]);
                } else {
                    assert(self.loaded_chunks@[j] == pos);
                    assert(self.loaded_chunks@[i] == before[i]);
                    assert(before.contains(before[i]));
                }
            }
        }
    }

    /// Drop from the delivered set every position the player can no longer
    /// see; record-keeping only, no unload message is needed.
    pub fn retain_visible(&mut self, center: ChunkPos)
        requires
            old(self).wf(),
        ensures
            final(self).wf(),
            final(self).render_distance == old(self).render_distance,
            forall|p: ChunkPos|
                final(self).loaded_chunks@.contains(p) <==> (old(self).loaded_chunks@.contains(p)
                    && old(self).render_distance.visible_spec(center, p)),
    {
        let mut kept: Vec<ChunkPos> = Vec::new();
        let n = self.loaded_chunks.len();
        let mut i: usize = 0;
        while i < n
            invariant
                self == old(self),
                self.wf(),
                n == self.loaded_chunks@.len(),
                i <= n,
                distinct_pos(kept@),
                forall|q: ChunkPos| #[trigger]
                    kept@.contains(q) ==> exists|j: int|
                        0 <= j < i && self.loaded_chunks@[j] == q
                            && self.render_distance.visible_spec(center, q),
                forall|j: int|
                    0 <= j < i && self.render_distance.visible_spec(
                        center,
                        #[trigger] self.loaded_chunks@[j],
                    ) ==> kept@.contains(self.loaded_chunks@[j]),
            decreases n - i,
        {
            let p = self.loaded_chunks[i];
            if self.render_distance.is_chunk_visible(center, p) {
                let ghost before = kept@;
                proof {
                    if before.contains(p) {
                        let j = choose|j: int|
                            0 <= j < i && self.loaded_chunks@[j] == p
                                && self.render_distance.visible_spec(center, p);
                        assert(self.loaded_chunks@[j] == self.loaded_chunks@[i as int]);
                        assert(false);
                    }
                }
                kept.push(p);
                proof {
                    assert forall|q: ChunkPos|
                        kept@.contains(q) <==> (before.contains(q) || q == p) by {
                        lemma_contains_push(before, p, q);
                    }
                    assert forall|i2: int, j2: int|
                        0 <= i2 < j2 < kept@.len() implies kept@[i2] != kept@[j2] by {
                        if j2 < before.len() {
                            assert(kept@[i2] == before[i2] && kept@[j2] == before[j2]);
                        } else {
                            assert(kept@[j2] == p);
                            assert(kept@[i2] == before[i2]);
                            assert(before.contains(before[i2]));
                        }
                    }
                    assert forall|q: ChunkPos| #[trigger]
                        kept@.contains(q) implies exists|j: int|
                        0 <= j < i + 1 && self.loaded_chunks@[j] == q
                            && self.render_distance.visible_spec(center, q) by {
                        if before.contains(q) {
                            let j = choose|j: int|
                                0 <= j < i && self.loaded_chunks@[j] == q
                                    && self.render_distance.visible_spec(center, q);
                            assert(0 <= j < i + 1 && self.loaded_chunks@[j] == q
                                && self.render_distance.visible_spec(center, q));
                        } else {
                            assert(q == p);
                            assert(self.loaded_chunks@[i as int] == q);
                        }
                    }
                }
            } else {
                proof {
                    assert forall|q: ChunkPos| #[trigger]
                        kept@.contains(q) implies exists|j: int|
                        0 <= j < i + 1 && self.loaded_chunks@[j] == q
                            && self.render_distance.visible_spec(center, q) by {
                        let j = choose|j: int|
                            0 <= j < i && self.loaded_chunks@[j] == q
                                && self.render_distance.visible_spec(center, q);
                        assert(0 <= j < i + 1 && self.loaded_chunks@[j] == q
                            && self.render_distance.visible_spec(center, q));
                    }
                }
            }
            i = i + 1;
        }
        proof {
            assert forall|p: ChunkPos|
                kept@.contains(p) <==> (self.loaded_chunks@.contains(p)
                    && self.render_distance.visible_spec(center, p)) by {
                if kept@.contains(p) {
                    let j = choose|j: int|
                        0 <= j < n && self.loaded_chunks@[j] == p
                            && self.render_distance.visible_spec(center, p);
                    assert(self.loaded_chunks@.contains(p));
                }
                if self.loaded_chunks@.contains(p) && self.render_distance.visible_spec(
                    center,
                    p,
                ) {
                    let j = choose|j: int|
                        0 <= j < self.loaded_chunks@.len() && self.loaded_chunks@[j] == p;
                    assert(kept@.contains(p));
                }
            }
        }
        self.loaded_chunks = kept;
    }
}

} // verus!
