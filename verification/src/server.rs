//! The tick orchestrator: single-threaded owner of all mutable server
//! state. It applies network events, installs background generation
//! results, advances the lighting engine one bounded step per tick, and
//! runs the streaming and eviction pass for every connected player.

use vstd::prelude::*;
use crate::chunk::{expand_runs, wf_runs, Chunk, ChunkPos, CompressedChunk};
use crate::light::{update_light, light_ok, LightQueue};
use crate::player::{squared_dist_spec, squared_euclidian_distance, PlayerData, RenderDistance};
use crate::posset::{contains_pos, distinct_pos, lemma_contains_push};
use crate::world::{column_top_spec, World};
use crate::worker::{JobQueue, QueuedJob};

verus! {

/// Identifier the transport assigns to a connected client.
pub type PlayerId = u64;

/// One connected player's bookkeeping.
pub struct PlayerEntry {
    pub id: PlayerId,
    pub data: PlayerData,
}

/// A player's current chunk-space position and render distance, as read
/// from the physics state at the start of a streaming pass.
#[derive(Debug, Clone, Copy, PartialEq, Eq, Structural)]
pub struct PlayerView {
    pub center: ChunkPos,
    pub render_distance: RenderDistance,
}

/// `p` is visible to at least one of the given players.
pub open spec fn visible_any(views: Seq<PlayerView>, p: ChunkPos) -> bool {
    exists|i: int|
        0 <= i < views.len() && views[i].render_distance.visible_spec(views[i].center, p)
}

/// The chunks whose light a fresh chunk at `pos` can affect. When the
/// column height changed, a whole same-or-lower 3-wide column sweep is
/// relit, because a height increase can newly shadow anything below; when
/// it did not change, only the immediate 3x3x3 neighborhood is relit.
pub open spec fn relight_region(q: ChunkPos, pos: ChunkPos, height_changed: bool) -> bool {
    if height_changed {
        q.py <= pos.py && -1 <= q.px - pos.px <= 1 && -1 <= q.pz - pos.pz <= 1
    } else {
        -1 <= q.py - pos.py <= 1 && -1 <= q.px - pos.px <= 1 && -1 <= q.pz - pos.pz <= 1
    }
}

/// `|b - a| <= 1`, computed without overflow.
fn near1(a: i64, b: i64) -> (r: bool)
    ensures
        r == (-1 <= b - a <= 1),
{
    let d: i128 = b as i128 - a as i128;
    -1 <= d && d <= 1
}

/// All mutable state of one server instance, threaded through each tick.
pub struct ServerState {
    pub world: World,
    pub players: Vec<PlayerEntry>,
    pub generating: Vec<ChunkPos>,
    pub jobs: JobQueue,
    pub lighting: LightQueue,
}

impl ServerState {
    /// Distinct player ids with well-formed data; distinct generating
    /// positions; well-formed world, job queue and lighting queue; and
    /// every queued job's position is in the generating set.
    pub open spec fn wf(self) -> bool {
        &&& self.world.wf()
        &&& forall|i: int, j: int|
            0 <= i < j < self.players@.len() ==> self.players@[i].id != self.players@[j].id
        &&& forall|i: int| 0 <= i < self.players@.len() ==> (#[trigger] self.players@[i]).data.wf()
        &&& distinct_pos(self.generating@)
        &&& self.jobs.wf()
        &&& self.lighting.wf()
        &&& forall|i: int|
            0 <= i < self.jobs.jobs@.len() ==> self.generating@.contains(
                (#[trigger] self.jobs.jobs@[i]).pos,
            )
    }

    /// A player with this id is connected.
    pub open spec fn has_player(self, id: PlayerId) -> bool {
        exists|i: int| 0 <= i < self.players@.len() && self.players@[i].id == id
    }

    pub open spec fn player_index(self, id: PlayerId) -> int {
        choose|i: int| 0 <= i < self.players@.len() && self.players@[i].id == id
    }

    /// The bookkeeping of the player with this id.
    pub open spec fn player_at(self, id: PlayerId) -> PlayerData {
        self.players@[self.player_index(id)].data
    }

    pub proof fn lemma_player_at(self, i: int)
        requires
            self.wf(),
            0 <= i < self.players@.len(),
        ensures
            self.has_player(self.players@[i].id),
            self.player_at(self.players@[i].id) == self.players@[i].data,
            self.player_index(self.players@[i].id) == i,
    {
        let id = self.players@[i].id;
        assert(self.has_player(id));
        let j = self.player_index(id);
        if i != j {
            assert(self.players@[i].id != self.players@[j].id);
        }
    }

    /// A fresh server with no players, chunks or pending work.
    pub fn new() -> (r: Self)
        ensures
            r.wf(),
            r.players@.len() == 0,
            r.generating@.len() == 0,
            r.jobs.jobs@.len() == 0,
            r.lighting.pending@.len() == 0,
            r.world.chunks@.len() == 0,
    {
        Self {
            world: World::new(),
            players: Vec::new(),
            generating: Vec::new(),
            jobs: JobQueue::new(),
            lighting: LightQueue::new(),
        }
    }

    /// Index of the player entry with this id, if connected.
    fn find_player(&self, id: PlayerId) -> (r: Option<usize>)
        ensures
            match r {
                Some(i) => 0 <= i < self.players@.len() && self.players@[i as int].id == id,
                None => !self.has_player(id),
            },
    {
        let mut i: usize = 0;
        let n = self.players.len();
        while i < n
            invariant
                n == self.players@.len(),
                i <= n,
                forall|j: int| 0 <= j < i ==> self.players@[j].id != id,
            decreases n - i,
        {
            if self.players[i].id == id {
                return Some(i);
            }
            i = i + 1;
        }
        None
    }

    /// Whether a player with this id is connected. Messages that name an
    /// unknown id indicate transport desynchronization; the caller checks
    /// this and fails fast, as the protocol demands.
    pub fn contains_player(&self, id: PlayerId) -> (r: bool)
        ensures
            r == self.has_player(id),
    {
        self.find_player(id).is_some()
    }

    /// Register a newly connected player with empty bookkeeping.
    pub fn handle_connect(&mut self, id: PlayerId, render_distance: RenderDistance)
        requires
            old(self).wf(),
            !old(self).has_player(id),
        ensures
            final(self).wf(),
            final(self).world == old(self).world,
            final(self).generating == old(self).generating,
            final(self).jobs == old(self).jobs,
            final(self).lighting == old(self).lighting,
            final(self).players@.len() == old(self).players@.len() + 1,
            forall|j: PlayerId|
                final(self).has_player(j) <==> (old(self).has_player(j) || j == id),
            final(self).has_player(id),
            final(self).player_at(id).loaded_chunks@.len() == 0,
            final(self).player_at(id).render_distance == render_distance,
            forall|j: PlayerId|
                j != id && old(self).has_player(j)
                    ==> final(self).player_at(j) == old(self).player_at(j),
    {
        let ghost before = *self;
        let entry = PlayerEntry { id, data: PlayerData::new(render_distance) };
        self.players.push(entry);
        proof {
            let gi = before.players@.len() as int;
            assert forall|a: int, b: int|
                0 <= a < b < self.players@.len() implies self.players@[a].id
                != self.players@[b].id by {
                if b < gi {
                    assert(self.players@[a] == before.players@[a]);
                    assert(self.players@[b] == before.players@[b]);
                } else {
                    assert(self.players@[a] == before.players@[a]);
                    assert(self.players@[b].id == id);
                    if self.players@[a].id == id {
                        assert(before.has_player(id));
                        assert(false);
                    }
                }
            }
            assert forall|k: int| 0 <= k < self.players@.len() implies (#[trigger] self.players@[k]).data.wf() by {
                if k < gi {
                    assert(self.players@[k] == before.players@[k]);
                }
            }
            self.lemma_player_at(gi);
            assert forall|j: PlayerId|
                final(self).has_player(j) <==> (before.has_player(j) || j == id) by {
                if self.has_player(j) {
                    let w = self.player_index(j);
                    if w != gi {
                        assert(before.players@[w].id == j);
                        assert(before.has_player(j));
                    }
                }
                if before.has_player(j) {
                    let w = before.player_index(j);
                    assert(self.players@[w].id == j);
                    assert(self.has_player(j));
                }
            }
            assert forall|j: PlayerId|
                j != id && before.has_player(j) implies final(self).player_at(j)
                == before.player_at(j) by {
                let w = before.player_index(j);
                assert(before.players@[w].id == j);
                assert(self.players@[w] == before.players@[w]);
                self.lemma_player_at(w);
                before.lemma_player_at(w);
            }
        }
    }

    /// Remove a disconnected player's bookkeeping; a no-op for an unknown
    /// id (the physics side is the caller's concern).
    pub fn handle_disconnect(&mut self, id: PlayerId)
        requires
            old(self).wf(),
        ensures
            final(self).wf(),
            final(self).world == old(self).world,
            final(self).generating == old(self).generating,
            final(self).jobs == old(self).jobs,
            final(self).lighting == old(self).lighting,
            forall|j: PlayerId|
                final(self).has_player(j) <==> (old(self).has_player(j) && j != id),
            forall|j: PlayerId|
                j != id && old(self).has_player(j)
                    ==> final(self).player_at(j) == old(self).player_at(j),
    {
        let ghost before = *self;
        match self.find_player(id) {
            Some(i) => {
                let ghost gi = i as int;
                self.players.remove(i);
                proof {
                    assert forall|a: int, b: int|
                        0 <= a < b < self.players@.len() implies self.players@[a].id
                        != self.players@[b].id by {
                        let a2 = if a < gi { a } else { a + 1 };
                        let b2 = if b < gi { b } else { b + 1 };
                        assert(self.players@[a] == before.players@[a2]);
                        assert(self.players@[b] == before.players@[b2]);
                    }
                    assert forall|k: int| 0 <= k < self.players@.len() implies (#[trigger] self.players@[k]).data.wf() by {
                        let k2 = if k < gi { k } else { k + 1 };
                        assert(self.players@[k] == before.players@[k2]);
                    }
                    assert forall|j: PlayerId|
                        final(self).has_player(j) <==> (before.has_player(j) && j != id) by {
                        if self.has_player(j) {
                            let w = self.player_index(j);
                            let w2 = if w < gi { w } else { w + 1 };
                            assert(self.players@[w] == before.players@[w2]);
                            assert(before.has_player(j));
                            if j == id {
                                assert(before.players@[w2].id != before.players@[gi].id);
                                assert(false);
                            }
                        }
                        if before.has_player(j) && j != id {
                            let w = before.player_index(j);
                            assert(before.players@[w].id == j);
                            assert(w != gi);
                            if w < gi {
                                assert(self.players@[w].id == j);
                            } else {
                                assert(self.players@[w - 1].id == j);
                            }
                            assert(self.has_player(j));
                        }
                    }
                    assert forall|j: PlayerId|
                        j != id && before.has_player(j) implies final(self).player_at(j)
                        == before.player_at(j) by {
                        let w = before.player_index(j);
                        assert(before.players@[w].id == j);
                        before.lemma_player_at(w);
                        assert(w != gi);
                        let w2 = if w < gi { w } else { w - 1 };
                        assert(self.players@[w2] == before.players@[w]);
                        self.lemma_player_at(w2);
                    }
                }
            },
            None => {},
        }
    }

    /// Update a connected player's render distance. The caller must have
    /// checked the id: an unknown id is a protocol violation.
    pub fn handle_set_render_distance(&mut self, id: PlayerId, render_distance: RenderDistance)
        requires
            old(self).wf(),
            old(self).has_player(id),
        ensures
            final(self).wf(),
            final(self).world == old(self).world,
            final(self).generating == old(self).generating,
            final(self).jobs == old(self).jobs,
            final(self).lighting == old(self).lighting,
            forall|j: PlayerId| final(self).has_player(j) <==> old(self).has_player(j),
            final(self).player_at(id).render_distance == render_distance,
            final(self).player_at(id).loaded_chunks@ == old(self).player_at(id).loaded_chunks@,
            forall|j: PlayerId|
                j != id && old(self).has_player(j)
                    ==> final(self).player_at(j) == old(self).player_at(j),
    {
        let ghost before = *self;
        match self.find_player(id) {
            Some(i) => {
                let ghost gi = i as int;
                proof {
                    before.lemma_player_at(gi);
                }
                let loaded = copy_positions(&self.players[i].data.loaded_chunks);
                let entry = PlayerEntry {
                    id,
                    data: PlayerData { loaded_chunks: loaded, render_distance },
                };
                self.players.set(i, entry);
                proof {
                    assert forall|a: int, b: int|
                        0 <= a < b < self.players@.len() implies self.players@[a].id
                        != self.players@[b].id by {
                        assert(before.players@[a].id != before.players@[b].id);
                    }
                    assert forall|k: int| 0 <= k < self.players@.len() implies (#[trigger] self.players@[k]).data.wf() by {
                        if k != gi {
                            assert(self.players@[k] == before.players@[k]);
                        }
                    }
                    self.lemma_player_at(gi);
                    assert forall|j: PlayerId|
                        final(self).has_player(j) <==> before.has_player(j) by {
                        if self.has_player(j) {
                            let w = self.player_index(j);
                            if w != gi {
                                assert(before.players@[w].id == j);
                            }
                            assert(before.has_player(j));
                        }
                        if before.has_player(j) {
                            let w = before.player_index(j);
                            if w != gi {
                                assert(self.players@[w].id == j);
                            }
                            assert(self.has_player(j));
                        }
                    }
                    assert forall|j: PlayerId|
                        j != id && before.has_player(j) implies final(self).player_at(j)
                        == before.player_at(j) by {
                        let w = before.player_index(j);
                        assert(before.players@[w].id == j);
                        assert(w != gi);
                        assert(self.players@[w] == before.players@[w]);
                        self.lemma_player_at(w);
                        before.lemma_player_at(w);
                    }
                }
            },
            None => {
                proof {
                    assert(false);
                }
            },
        }
    }
    /// Install one background generation result. A result whose position
    /// is no longer in the generating set is stale and discarded whole.
    /// Installing recomputes the column height and enqueues the light of
    /// the affected neighborhood: a wide same-or-lower sweep if the height
    /// changed, the immediate 3x3x3 neighborhood otherwise.
    pub fn install_chunk(&mut self, chunk: Chunk)
        requires
            old(self).wf(),
            chunk.wf(),
        ensures
            final(self).wf(),
            final(self).players == old(self).players,
            !old(self).generating@.contains(chunk.pos) ==> *final(self) == *old(self),
            old(self).generating@.contains(chunk.pos) ==> {
                let hc = !(old(self).world.has_column(chunk.pos.px as int, chunk.pos.pz as int)
                    && old(self).world.column_at(chunk.pos.px as int, chunk.pos.pz as int)
                    == column_top_spec(
                    final(self).world.chunks@,
                    chunk.pos.px as int,
                    chunk.pos.pz as int,
                ));
                &&& forall|p: ChunkPos|
                    final(self).generating@.contains(p) <==> (old(self).generating@.contains(p)
                        && p != chunk.pos)
                &&& forall|p: ChunkPos|
                    final(self).jobs.has_job(p) <==> (old(self).jobs.has_job(p) && p != chunk.pos)
                &&& forall|p: ChunkPos|
                    final(self).world.has_chunk(p) <==> (old(self).world.has_chunk(p) || p
                        == chunk.pos)
                &&& final(self).world.chunk_at(chunk.pos) == chunk
                &&& forall|p: ChunkPos|
                    p != chunk.pos && old(self).world.has_chunk(p)
                        ==> final(self).world.chunk_at(p) == old(self).world.chunk_at(p)
                &&& final(self).world.lights == old(self).world.lights
                &&& final(self).world.column_at(chunk.pos.px as int, chunk.pos.pz as int)
                    == column_top_spec(
                    final(self).world.chunks@,
                    chunk.pos.px as int,
                    chunk.pos.pz as int,
                )
                &&& forall|q: ChunkPos|
                    final(self).lighting.pending@.contains(q) <==> (
                    old(self).lighting.pending@.contains(q) || (final(self).world.has_chunk(q)
                        && relight_region(q, chunk.pos, hc)))
            },
    {
        if !contains_pos(&self.generating, chunk.pos) {
            return ;
        }
        let ghost s0 = *self;
        let pos = chunk.pos;
        crate::posset::remove_pos(&mut self.generating, pos);
        let ghost jobs0 = self.jobs;
        self.jobs.dequeue(pos);
        proof {
            assert forall|p: ChunkPos|
                self.jobs.has_job(p) <==> (jobs0.has_job(p) && p != pos) by {
                if jobs0.has_job(pos) {
                    let i = choose|i: int|
                        0 <= i < jobs0.jobs@.len() && jobs0.jobs@[i].pos == pos && self.jobs.jobs@
                            == jobs0.jobs@.remove(i);
                    if self.jobs.has_job(p) {
                        let w = self.jobs.job_index(p);
                        assert(self.jobs.jobs@[w].pos == p);
                        let w2 = if w < i { w } else { w + 1 };
                        assert(self.jobs.jobs@[w] == jobs0.jobs@[w2]);
                        assert(jobs0.has_job(p));
                        if p == pos {
                            assert(jobs0.jobs@[w2].pos != jobs0.jobs@[i].pos);
                            assert(false);
                        }
                    }
                    if jobs0.has_job(p) && p != pos {
                        let w = jobs0.job_index(p);
                        assert(jobs0.jobs@[w].pos == p);
                        assert(w != i);
                        if w < i {
                            assert(self.jobs.jobs@[w].pos == p);
                        } else {
                            assert(self.jobs.jobs@[w - 1].pos == p);
                        }
                        assert(self.jobs.has_job(p));
                    }
                } else {
                    if p == pos {
                        assert(!self.jobs.has_job(p));
                    }
                }
            }
        }
        self.world.set_chunk(chunk);
        let ghost s1 = *self;
        let changed = self.world.update_highest_opaque_block(pos);
        let ghost s2 = *self;
        let ghost lightq0 = self.lighting;
        let n = self.world.chunks.len();
        let mut k: usize = 0;
        while k < n
            invariant
                self.world == s2.world,
                self.players == s2.players,
                self.generating == s2.generating,
                self.jobs == s2.jobs,
                self.world.wf(),
                self.lighting.wf(),
                n == self.world.chunks@.len(),
                k <= n,
                forall|q: ChunkPos| #[trigger]
                    self.lighting.pending@.contains(q) ==> (lightq0.pending@.contains(q) || (
                    self.world.has_chunk(q) && relight_region(q, pos, changed))),
                forall|q: ChunkPos| #[trigger]
                    lightq0.pending@.contains(q) ==> self.lighting.pending@.contains(q),
                forall|j: int|
                    0 <= j < k && relight_region(#[trigger] self.world.chunks@[j].pos, pos, changed)
                        ==> self.lighting.pending@.contains(self.world.chunks@[j].pos),
            decreases n - k,
        {
            let q = self.world.chunks[k].pos;
            proof {
                self.world.lemma_chunk_at(k as int);
            }
            let cond = if changed {
                q.py <= pos.py && near1(pos.px, q.px) && near1(pos.pz, q.pz)
            } else {
                near1(pos.py, q.py) && near1(pos.px, q.px) && near1(pos.pz, q.pz)
            };
            proof {
                assert(cond == relight_region(q, pos, changed));
            }
            let ghost lbefore = self.lighting;
            if cond {
                self.lighting.enqueue(q);
            }
            proof {
                assert(self.world == s2.world);
                assert(self.lighting.wf());
                assert forall|q2: ChunkPos|
                    self.lighting.pending@.contains(q2) implies (lightq0.pending@.contains(q2) || (
                self.world.has_chunk(q2) && relight_region(q2, pos, changed))) by {
                    if cond && q2 == q {
                        self.world.lemma_chunk_at(k as int);
                        assert(self.world.has_chunk(q2) && relight_region(q2, pos, changed));
                    } else {
                        assert(lbefore.pending@.contains(q2));
                        assert(lightq0.pending@.contains(q2) || (self.world.has_chunk(q2)
                            && relight_region(q2, pos, changed)));
                    }
                }
                assert forall|j: int|
                    0 <= j < k + 1 && relight_region(
                        #[trigger] self.world.chunks@[j].pos,
                        pos,
                        changed,
                    ) implies self.lighting.pending@.contains(self.world.chunks@[j].pos) by {
                    if j < k {
                        assert(lbefore.pending@.contains(self.world.chunks@[j].pos));
                    } else {
                        assert(self.world.chunks@[j].pos == q);
                    }
                }
            }
            k = k + 1;
        }
        proof {
            assert forall|q: ChunkPos|
                self.lighting.pending@.contains(q) <==> (lightq0.pending@.contains(q) || (
                self.world.has_chunk(q) && relight_region(q, pos, changed))) by {
                if self.world.has_chunk(q) && relight_region(q, pos, changed) {
                    let w = self.world.chunk_index(q);
                    assert(self.world.chunks@[w].pos == q);
                }
            }
            assert(self.world.column_at(pos.px as int, pos.pz as int) == column_top_spec(
                self.world.chunks@,
                pos.px as int,
                pos.pz as int,
            ));
            assert(changed == !(s0.world.has_column(pos.px as int, pos.pz as int)
                && s0.world.column_at(pos.px as int, pos.pz as int) == column_top_spec(
                self.world.chunks@,
                pos.px as int,
                pos.pz as int,
            )));
        }
    }

    /// Pop at most one pending position and recompute its light. The
    /// one-chunk-per-tick bound keeps the worst-case tick cost flat under
    /// bursty insertion.
    pub fn light_tick(&mut self)
        requires
            old(self).wf(),
        ensures
            final(self).wf(),
            final(self).players == old(self).players,
            final(self).generating == old(self).generating,
            final(self).jobs == old(self).jobs,
            final(self).world.chunks == old(self).world.chunks,
            final(self).world.columns == old(self).world.columns,
            old(self).lighting.pending@.len() == 0 ==> *final(self) == *old(self),
            old(self).lighting.pending@.len() > 0 ==> {
                let pos = old(self).lighting.pending@[0];
                &&& final(self).lighting.pending@ == old(self).lighting.pending@.remove(0)
                &&& !old(self).world.has_chunk(pos) ==> final(self).world.lights == old(
                    self,
                ).world.lights
                &&& old(self).world.has_chunk(pos) ==> {
                    &&& forall|p: ChunkPos|
                        final(self).world.has_light(p) <==> (old(self).world.has_light(p) || p
                            == pos)
                    &&& forall|p: ChunkPos|
                        p != pos && old(self).world.has_light(p)
                            ==> final(self).world.light_at(p) == old(self).world.light_at(p)
                    &&& light_ok(
                        old(self).world.chunk_at(pos)@,
                        pos.py as int,
                        column_top_spec(old(self).world.chunks@, pos.px as int, pos.pz as int),
                        final(self).world.light_at(pos),
                    )
                }
            },
    {
        match self.lighting.pop() {
            Some(pos) => {
                update_light(&mut self.world, pos);
            },
            None => {},
        }
    }
    /// The per-player streaming pass. Walks the player's visible set
    /// nearest first: a stored, not-yet-delivered chunk is encoded and
    /// returned for sending (and marked delivered); an absent chunk not
    /// already generating joins the generating set and gets a generation
    /// job at this player's squared distance. Afterwards every position
    /// the player can no longer see is dropped from its delivered set.
    #[verifier::rlimit(100)]
    pub fn stream_player(&mut self, id: PlayerId, player_chunk: ChunkPos) -> (sends: Vec<
        CompressedChunk,
    >)
        requires
            old(self).wf(),
            old(self).has_player(id),
            old(self).player_at(id).render_distance.center_in_range(player_chunk),
        ensures
            final(self).wf(),
            final(self).world == old(self).world,
            final(self).lighting == old(self).lighting,
            forall|j: PlayerId| final(self).has_player(j) <==> old(self).has_player(j),
            forall|j: PlayerId|
                j != id && old(self).has_player(j)
                    ==> final(self).player_at(j) == old(self).player_at(j),
            final(self).player_at(id).render_distance == old(self).player_at(id).render_distance,
            forall|k: int|
                0 <= k < sends@.len() ==> {
                    &&& newly_sent(*old(self), id, player_chunk, (#[trigger] sends@[k]).pos)
                    &&& expand_runs(sends@[k].data@) == old(self).world.chunk_at(sends@[k].pos)@
                    &&& wf_runs(sends@[k].data@)
                },
            forall|p: ChunkPos| #[trigger]
                newly_sent(*old(self), id, player_chunk, p) ==> exists|k: int|
                    0 <= k < sends@.len() && sends@[k].pos == p,
            forall|k1: int, k2: int|
                0 <= k1 < k2 < sends@.len() ==> sends@[k1].pos != sends@[k2].pos,
            forall|k1: int, k2: int|
                0 <= k1 <= k2 < sends@.len() ==> squared_dist_spec(player_chunk, sends@[k1].pos)
                    <= squared_dist_spec(player_chunk, sends@[k2].pos),
            forall|p: ChunkPos| #[trigger]
                final(self).player_at(id).loaded_chunks@.contains(p) <==> ((old(self).player_at(
                    id,
                ).loaded_chunks@.contains(p) && old(self).player_at(id).render_distance.visible_spec(
                    player_chunk,
                    p,
                )) || newly_sent(*old(self), id, player_chunk, p)),
            forall|p: ChunkPos| #[trigger]
                final(self).generating@.contains(p) <==> (old(self).generating@.contains(p)
                    || newly_requested(*old(self), id, player_chunk, p)),
            forall|p: ChunkPos| #[trigger]
                final(self).jobs.has_job(p) <==> (old(self).jobs.has_job(p) || newly_requested(
                    *old(self),
                    id,
                    player_chunk,
                    p,
                )),
            forall|p: ChunkPos|
                old(self).jobs.has_job(p) ==> final(self).jobs.job_at(p) == old(self).jobs.job_at(
                    p,
                ),
            forall|p: ChunkPos| #[trigger]
                newly_requested(*old(self), id, player_chunk, p) ==> final(self).jobs.job_at(
                    p,
                ).priority == squared_dist_spec(player_chunk, p),
    {
        let idx = match self.find_player(id) {
            Some(i) => i,
            None => {
                proof {
                    assert(false);
                }
                return Vec::new();
            },
        };
        let ghost s0 = *self;
        proof {
            s0.lemma_player_at(idx as int);
        }
        let rd = self.players[idx].data.render_distance;
        let targets = rd.iterate_around_player(player_chunk);
        let mut sends: Vec<CompressedChunk> = Vec::new();
        let tn = targets.len();
        let mut k: usize = 0;
        while k < tn
            invariant
                s0.wf(),
                self.world == s0.world,
                self.players == s0.players,
                self.lighting == s0.lighting,
                self.jobs.wf(),
                distinct_pos(self.generating@),
                0 <= idx < self.players@.len(),
                self.players@[idx as int].id == id,
                s0.player_at(id) == self.players@[idx as int].data,
                rd == s0.player_at(id).render_distance,
                rd.center_in_range(player_chunk),
                tn == targets@.len(),
                k <= tn,
                distinct_pos(targets@),
                forall|p: ChunkPos| #[trigger]
                    targets@.contains(p) <==> rd.visible_spec(player_chunk, p),
                forall|i: int, j: int|
                    0 <= i <= j < tn ==> squared_dist_spec(player_chunk, targets@[i])
                        <= squared_dist_spec(player_chunk, targets@[j]),
                forall|m: int|
                    0 <= m < sends@.len() ==> {
                        &&& newly_sent(s0, id, player_chunk, (#[trigger] sends@[m]).pos)
                        &&& expand_runs(sends@[m].data@) == s0.world.chunk_at(sends@[m].pos)@
                        &&& wf_runs(sends@[m].data@)
                    },
                forall|m: int|
                    0 <= m < sends@.len() ==> exists|w: int|
                        0 <= w < k && targets@[w] == (#[trigger] sends@[m]).pos,
                forall|m1: int, m2: int|
                    0 <= m1 < m2 < sends@.len() ==> sends@[m1].pos != sends@[m2].pos,
                forall|m1: int, m2: int|
                    0 <= m1 <= m2 < sends@.len() ==> squared_dist_spec(player_chunk, sends@[m1].pos)
                        <= squared_dist_spec(player_chunk, sends@[m2].pos),
                forall|w: int|
                    0 <= w < k && newly_sent(s0, id, player_chunk, #[trigger] targets@[w])
                        ==> exists|m: int| 0 <= m < sends@.len() && sends@[m].pos == targets@[w],
                forall|p: ChunkPos| #[trigger]
                    self.generating@.contains(p) <==> (s0.generating@.contains(p) || (
                    targets@.subrange(0, k as int).contains(p) && newly_requested(
                        s0,
                        id,
                        player_chunk,
                        p,
                    ))),
                forall|p: ChunkPos| #[trigger]
                    self.jobs.has_job(p) <==> (s0.jobs.has_job(p) || (targets@.subrange(
                        0,
                        k as int,
                    ).contains(p) && newly_requested(s0, id, player_chunk, p))),
                forall|p: ChunkPos|
                    s0.jobs.has_job(p) ==> self.jobs.job_at(p) == s0.jobs.job_at(p),
                forall|p: ChunkPos|
                    self.jobs.has_job(p) && !s0.jobs.has_job(p) ==> self.jobs.job_at(p).priority
                        == squared_dist_spec(player_chunk, p),
                forall|i: int|
                    0 <= i < self.jobs.jobs@.len() ==> self.generating@.contains(
                        (#[trigger] self.jobs.jobs@[i]).pos,
                    ),
            decreases tn - k,
        {
            let p = targets[k];
            proof {
                assert(targets@[k as int] == p);
                assert(targets@.contains(p));
                assert(rd.visible_spec(player_chunk, p));
                assert(targets@.subrange(0, k as int + 1).drop_last() =~= targets@.subrange(
                    0,
                    k as int,
                ));
            }
            let loaded = self.players[idx].data.is_loaded(p);
            if !loaded {
                let got = self.world.get_chunk(p);
                match got {
                    Some(c) => {
                        proof {
                            let w = self.world.chunk_index(p);
                            assert(self.world.chunks@[w].wf());
                        }
                        let cc = CompressedChunk::from_chunk(c);
                        let ghost sends0 = sends@;
                        sends.push(cc);
                        proof {
                            assert(newly_sent(s0, id, player_chunk, p));
                            assert(sends@[sends0.len() as int].pos == p);
                            assert forall|m1: int, m2: int|
                                0 <= m1 <= m2 < sends@.len() implies squared_dist_spec(
                                player_chunk,
                                sends@[m1].pos,
                            ) <= squared_dist_spec(player_chunk, sends@[m2].pos) by {
                                if m2 < sends0.len() {
                                    assert(sends@[m1] == sends0[m1] && sends@[m2] == sends0[m2]);
                                } else if m1 < sends0.len() {
                                    assert(sends@[m1] == sends0[m1]);
                                    let w = choose|w: int|
                                        0 <= w < k && targets@[w] == sends0[m1 as int].pos;
                                    assert(squared_dist_spec(player_chunk, targets@[w])
                                        <= squared_dist_spec(player_chunk, targets@[k as int]));
                                }
                            }
                            assert forall|m1: int, m2: int|
                                0 <= m1 < m2 < sends@.len() implies sends@[m1].pos
                                != sends@[m2].pos by {
                                if m2 < sends0.len() {
                                    assert(sends@[m1] == sends0[m1] && sends@[m2] == sends0[m2]);
                                } else {
                                    assert(sends@[m1] == sends0[m1]);
                                    let w = choose|w: int|
                                        0 <= w < k && targets@[w] == sends0[m1 as int].pos;
                                    assert(targets@[w] != targets@[k as int]);
                                }
                            }
                            assert forall|w: int|
                                0 <= w < k + 1 && newly_sent(
                                    s0,
                                    id,
                                    player_chunk,
                                    #[trigger] targets@[w],
                                ) implies exists|m: int|
                                0 <= m < sends@.len() && sends@[m].pos == targets@[w] by {
                                if w < k {
                                    let m = choose|m: int|
                                        0 <= m < sends0.len() && sends0[m].pos == targets@[w];
                                    assert(sends@[m].pos == targets@[w]);
                                } else {
                                    assert(sends@[sends0.len() as int].pos == targets@[w]);
                                }
                            }
                            assert forall|p2: ChunkPos| #[trigger]
                                self.generating@.contains(p2) <==> (s0.generating@.contains(p2)
                                    || (targets@.subrange(0, k as int + 1).contains(p2)
                                    && newly_requested(s0, id, player_chunk, p2))) by {
                                lemma_subrange_grow(targets@, k as int, p2);
                                if p2 == p {
                                    assert(s0.world.has_chunk(p));
                                    assert(!newly_requested(s0, id, player_chunk, p));
                                }
                            }
                            assert forall|p2: ChunkPos| #[trigger]
                                self.jobs.has_job(p2) <==> (s0.jobs.has_job(p2) || (
                                targets@.subrange(0, k as int + 1).contains(p2) && newly_requested(
                                    s0,
                                    id,
                                    player_chunk,
                                    p2,
                                ))) by {
                                lemma_subrange_grow(targets@, k as int, p2);
                                if p2 == p {
                                    assert(s0.world.has_chunk(p));
                                    assert(!newly_requested(s0, id, player_chunk, p));
                                }
                            }
                        }
                    },
                    None => {
                        if !contains_pos(&self.generating, p) {
                            proof {
                                assert(!targets@.subrange(0, k as int).contains(p)) by {
                                    if targets@.subrange(0, k as int).contains(p) {
                                        let w = choose|w: int|
                                            0 <= w < k && targets@.subrange(0, k as int)[w] == p;
                                        assert(targets@[w] == p);
                                        assert(targets@[w] != targets@[k as int]);
                                    }
                                }
                                assert(!s0.generating@.contains(p));
                                assert(newly_requested(s0, id, player_chunk, p));
                                if s0.jobs.has_job(p) {
                                    let w = s0.jobs.job_index(p);
                                    assert(s0.generating@.contains(s0.jobs.jobs@[w].pos));
                                    assert(false);
                                }
                            }
                            let ghost gen0 = self.generating@;
                            self.generating.push(p);
                            proof {
                                assert forall|q: ChunkPos|
                                    self.generating@.contains(q) <==> (gen0.contains(q) || q
                                        == p) by {
                                    lemma_contains_push(gen0, p, q);
                                }
                                assert forall|i2: int, j2: int|
                                    0 <= i2 < j2 < self.generating@.len() implies self.generating@[i2]
                                    != self.generating@[j2] by {
                                    if j2 < gen0.len() {
                                        assert(self.generating@[i2] == gen0[i2]
                                            && self.generating@[j2] == gen0[j2]);
                                    } else {
                                        assert(self.generating@[j2] == p);
                                        assert(self.generating@[i2] == gen0[i2]);
                                        assert(gen0.contains(gen0[i2]));
                                    }
                                }
                            }
                            let d = squared_euclidian_distance(player_chunk, p);
                            let ghost jobs0 = self.jobs;
                            proof {
                                assert(!jobs0.has_job(p));
                            }
                            self.jobs.enqueue(p, d);
                            proof {
                                JobQueue::lemma_enqueue_effect(
                                    jobs0,
                                    self.jobs,
                                    QueuedJob { pos: p, priority: d },
                                );
                                assert forall|p2: ChunkPos| #[trigger]
                                    self.generating@.contains(p2) implies (
                                s0.generating@.contains(p2) || (targets@.subrange(
                                    0,
                                    k as int + 1,
                                ).contains(p2) && newly_requested(s0, id, player_chunk, p2))) by {
                                    lemma_subrange_grow(targets@, k as int, p2);
                                    assert(gen0.contains(p2) || p2 == p);
                                    if p2 == p {
                                        assert(targets@.subrange(0, k as int + 1)[k as int] == p);
                                    }
                                }
                                assert forall|p2: ChunkPos|
                                    (s0.generating@.contains(p2) || (targets@.subrange(
                                        0,
                                        k as int + 1,
                                    ).contains(p2) && newly_requested(s0, id, player_chunk, p2)))
                                    implies #[trigger] self.generating@.contains(p2) by {
                                    lemma_subrange_grow(targets@, k as int, p2);
                                    if gen0.contains(p2) {
                                        assert(self.generating@.contains(p2));
                                    } else {
                                        assert(p2 == p);
                                        assert(self.generating@.contains(p2));
                                    }
                                }
                                assert forall|p2: ChunkPos| #[trigger]
                                    self.jobs.has_job(p2) implies (s0.jobs.has_job(p2) || (
                                targets@.subrange(0, k as int + 1).contains(p2) && newly_requested(
                                    s0,
                                    id,
                                    player_chunk,
                                    p2,
                                ))) by {
                                    lemma_subrange_grow(targets@, k as int, p2);
                                    assert(jobs0.has_job(p2) || p2 == p);
                                    if p2 == p {
                                        assert(targets@.subrange(0, k as int + 1)[k as int] == p);
                                    }
                                }
                                assert forall|p2: ChunkPos|
                                    (s0.jobs.has_job(p2) || (targets@.subrange(
                                        0,
                                        k as int + 1,
                                    ).contains(p2) && newly_requested(s0, id, player_chunk, p2)))
                                    implies #[trigger] self.jobs.has_job(p2) by {
                                    lemma_subrange_grow(targets@, k as int, p2);
                                    if jobs0.has_job(p2) {
                                        assert(self.jobs.has_job(p2));
                                    } else {
                                        assert(p2 == p);
                                        assert(self.jobs.has_job(p2));
                                    }
                                }
                                assert forall|i2: int|
                                    0 <= i2 < self.jobs.jobs@.len() implies self.generating@.contains(
                                    (#[trigger] self.jobs.jobs@[i2]).pos,
                                ) by {
                                    if i2 < jobs0.jobs@.len() {
                                        assert(self.jobs.jobs@[i2] == jobs0.jobs@[i2]);
                                        assert(gen0.contains(jobs0.jobs@[i2].pos));
                                    } else {
                                        assert(self.jobs.jobs@[i2].pos == p);
                                    }
                                }
                            }
                        } else {
                            proof {
                                assert forall|p2: ChunkPos| #[trigger]
                                    self.generating@.contains(p2) <==> (s0.generating@.contains(p2)
                                        || (targets@.subrange(0, k as int + 1).contains(p2)
                                        && newly_requested(s0, id, player_chunk, p2))) by {
                                    lemma_subrange_grow(targets@, k as int, p2);
                                    if p2 == p && !s0.generating@.contains(p) {
                                        assert(targets@.subrange(0, k as int).contains(p)
                                            && newly_requested(s0, id, player_chunk, p));
                                        assert(false);
                                    }
                                }
                                assert forall|p2: ChunkPos| #[trigger]
                                    self.jobs.has_job(p2) <==> (s0.jobs.has_job(p2) || (
                                    targets@.subrange(0, k as int + 1).contains(p2)
                                        && newly_requested(s0, id, player_chunk, p2))) by {
                                    lemma_subrange_grow(targets@, k as int, p2);
                                    if p2 == p && self.generating@.contains(p) {
                                        assert(!newly_requested(s0, id, player_chunk, p));
                                    }
                                }
                            }
                        }
                    },
                }
            } else {
                proof {
                    assert(s0.player_at(id).loaded_chunks@.contains(p));
                    assert(!newly_sent(s0, id, player_chunk, p));
                    assert(!newly_requested(s0, id, player_chunk, p));
                    assert forall|p2: ChunkPos| #[trigger]
                        self.generating@.contains(p2) <==> (s0.generating@.contains(p2) || (
                        targets@.subrange(0, k as int + 1).contains(p2) && newly_requested(
                            s0,
                            id,
                            player_chunk,
                            p2,
                        ))) by {
                        lemma_subrange_grow(targets@, k as int, p2);
                    }
                    assert forall|p2: ChunkPos| #[trigger]
                        self.jobs.has_job(p2) <==> (s0.jobs.has_job(p2) || (targets@.subrange(
                            0,
                            k as int + 1,
                        ).contains(p2) && newly_requested(s0, id, player_chunk, p2))) by {
                        lemma_subrange_grow(targets@, k as int, p2);
                    }
                }
            }
            k = k + 1;
        }
        proof {
            assert(targets@.subrange(0, tn as int) =~= targets@);
        }
        let mut new_loaded: Vec<ChunkPos> = Vec::new();
        let ln = self.players[idx].data.loaded_chunks.len();
        let mut i: usize = 0;
        while i < ln
            invariant
                self.players == s0.players,
                s0.wf(),
                0 <= idx < self.players@.len(),
                s0.player_at(id) == self.players@[idx as int].data,
                rd == s0.player_at(id).render_distance,
                ln == self.players@[idx as int].data.loaded_chunks@.len(),
                i <= ln,
                distinct_pos(new_loaded@),
                forall|q: ChunkPos| #[trigger]
                    new_loaded@.contains(q) ==> exists|j: int|
                        0 <= j < i && self.players@[idx as int].data.loaded_chunks@[j] == q
                            && rd.visible_spec(player_chunk, q),
                forall|j: int|
                    0 <= j < i && rd.visible_spec(
                        player_chunk,
                        #[trigger] self.players@[idx as int].data.loaded_chunks@[j],
                    ) ==> new_loaded@.contains(self.players@[idx as int].data.loaded_chunks@[j]),
            decreases ln - i,
        {
            let q = self.players[idx].data.loaded_chunks[i];
            if rd.is_chunk_visible(player_chunk, q) {
                let ghost before = new_loaded@;
                proof {
                    if before.contains(q) {
                        let j = choose|j: int|
                            0 <= j < i && self.players@[idx as int].data.loaded_chunks@[j] == q
                                && rd.visible_spec(player_chunk, q);
                        assert(self.players@[idx as int].data.wf());
                        assert(self.players@[idx as int].data.loaded_chunks@[j]
                            == self.players@[idx as int].data.loaded_chunks@[i as int]);
                        assert(false);
                    }
                }
                new_loaded.push(q);
                proof {
                    assert forall|q2: ChunkPos|
                        new_loaded@.contains(q2) <==> (before.contains(q2) || q2 == q) by {
                        lemma_contains_push(before, q, q2);
                    }
                    assert forall|i2: int, j2: int|
                        0 <= i2 < j2 < new_loaded@.len() implies new_loaded@[i2]
                        != new_loaded@[j2] by {
                        if j2 < before.len() {
                            assert(new_loaded@[i2] == before[i2] && new_loaded@[j2] == before[j2]);
                        } else {
                            assert(new_loaded@[j2] == q);
                            assert(new_loaded@[i2] == before[i2]);
                            assert(before.contains(before[i2]));
                        }
                    }
                    assert forall|q2: ChunkPos| #[trigger]
                        new_loaded@.contains(q2) implies exists|j: int|
                        0 <= j < i + 1 && self.players@[idx as int].data.loaded_chunks@[j] == q2
                            && rd.visible_spec(player_chunk, q2) by {
                        if before.contains(q2) {
                            let j = choose|j: int|
                                0 <= j < i && self.players@[idx as int].data.loaded_chunks@[j]
                                    == q2 && rd.visible_spec(player_chunk, q2);
                            assert(0 <= j < i + 1
                                && self.players@[idx as int].data.loaded_chunks@[j] == q2
                                && rd.visible_spec(player_chunk, q2));
                        } else {
                            assert(self.players@[idx as int].data.loaded_chunks@[i as int] == q2);
                        }
                    }
                }
            } else {
                proof {
                    assert forall|q2: ChunkPos| #[trigger]
                        new_loaded@.contains(q2) implies exists|j: int|
                        0 <= j < i + 1 && self.players@[idx as int].data.loaded_chunks@[j] == q2
                            && rd.visible_spec(player_chunk, q2) by {
                        let j = choose|j: int|
                            0 <= j < i && self.players@[idx as int].data.loaded_chunks@[j] == q2
                                && rd.visible_spec(player_chunk, q2);
                        assert(0 <= j < i + 1 && self.players@[idx as int].data.loaded_chunks@[j]
                            == q2 && rd.visible_spec(player_chunk, q2));
                    }
                }
            }
            i = i + 1;
        }
        proof {
            assert forall|q: ChunkPos| #[trigger]
                new_loaded@.contains(q) <==> (s0.player_at(id).loaded_chunks@.contains(q)
                    && rd.visible_spec(player_chunk, q)) by {
                if new_loaded@.contains(q) {
                    let j = choose|j: int|
                        0 <= j < ln && self.players@[idx as int].data.loaded_chunks@[j] == q
                            && rd.visible_spec(player_chunk, q);
                    assert(s0.player_at(id).loaded_chunks@.contains(q));
                }
                if s0.player_at(id).loaded_chunks@.contains(q) && rd.visible_spec(
                    player_chunk,
                    q,
                ) {
                    let j = choose|j: int|
                        0 <= j < s0.player_at(id).loaded_chunks@.len() && s0.player_at(
                            id,
                        ).loaded_chunks@[j] == q;
                    assert(new_loaded@.contains(q));
                }
            }
        }
        let ghost kept = new_loaded@;
        let sn = sends.len();
        let mut m: usize = 0;
        while m < sn
            invariant
                self.players == s0.players,
                s0.wf(),
                0 <= idx < self.players@.len(),
                s0.player_at(id) == self.players@[idx as int].data,
                rd == s0.player_at(id).render_distance,
                sn == sends@.len(),
                m <= sn,
                distinct_pos(new_loaded@),
                forall|m1: int, m2: int|
                    0 <= m1 < m2 < sends@.len() ==> sends@[m1].pos != sends@[m2].pos,
                forall|m2: int|
                    0 <= m2 < sends@.len() ==> newly_sent(
                        s0,
                        id,
                        player_chunk,
                        (#[trigger] sends@[m2]).pos,
                    ),
                forall|q: ChunkPos| #[trigger]
                    kept.contains(q) <==> (s0.player_at(id).loaded_chunks@.contains(q)
                        && rd.visible_spec(player_chunk, q)),
                forall|q: ChunkPos| #[trigger]
                    new_loaded@.contains(q) <==> (kept.contains(q) || exists|w: int|
                        0 <= w < m && sends@[w].pos == q),
            decreases sn - m,
        {
            let q = sends[m].pos;
            let ghost before = new_loaded@;
            proof {
                assert(newly_sent(s0, id, player_chunk, q));
                if before.contains(q) {
                    if kept.contains(q) {
                        assert(s0.player_at(id).loaded_chunks@.contains(q));
                        assert(false);
                    } else {
                        let w = choose|w: int| 0 <= w < m && sends@[w].pos == q;
                        assert(sends@[w].pos != sends@[m as int].pos);
                        assert(false);
                    }
                }
            }
            new_loaded.push(q);
            proof {
                assert forall|q2: ChunkPos|
                    new_loaded@.contains(q2) <==> (before.contains(q2) || q2 == q) by {
                    lemma_contains_push(before, q, q2);
                }
                assert forall|i2: int, j2: int|
                    0 <= i2 < j2 < new_loaded@.len() implies new_loaded@[i2]
                    != new_loaded@[j2] by {
                    if j2 < before.len() {
                        assert(new_loaded@[i2] == before[i2] && new_loaded@[j2] == before[j2]);
                    } else {
                        assert(new_loaded@[j2] == q);
                        assert(new_loaded@[i2] == before[i2]);
                        assert(before.contains(before[i2]));
                    }
                }
                assert forall|q2: ChunkPos| #[trigger]
                    new_loaded@.contains(q2) implies (kept.contains(q2) || exists|w: int|
                        0 <= w < m + 1 && #[trigger] sends@[w].pos == q2) by {
                    if before.contains(q2) {
                        if !kept.contains(q2) {
                            let w = choose|w: int| 0 <= w < m && #[trigger] sends@[w].pos == q2;
                            assert(0 <= w < m + 1 && sends@[w].pos == q2);
                        }
                    } else {
                        assert(q2 == q);
                        assert(sends@[m as int].pos == q2);
                    }
                }
                assert forall|q2: ChunkPos|
                    (kept.contains(q2) || exists|w: int|
                        0 <= w < m + 1 && #[trigger] sends@[w].pos == q2) implies #[trigger]
                    new_loaded@.contains(q2) by {
                    if before.contains(q2) {
                        assert(new_loaded@.contains(q2));
                    } else if kept.contains(q2) {
                        assert(before.contains(q2));
                    } else {
                        let w = choose|w: int| 0 <= w < m + 1 && #[trigger] sends@[w].pos == q2;
                        if w < m {
                            assert(before.contains(q2));
                        } else {
                            assert(q2 == q);
                            assert(new_loaded@.contains(q2));
                        }
                    }
                }
            }
            m = m + 1;
        }
        let entry = PlayerEntry {
            id,
            data: PlayerData { loaded_chunks: new_loaded, render_distance: rd },
        };
        let ghost splayers = *self;
        self.players.set(idx, entry);
        proof {
            let gi = idx as int;
            assert forall|a: int, b: int|
                0 <= a < b < self.players@.len() implies self.players@[a].id
                != self.players@[b].id by {
                assert(s0.players@[a].id != s0.players@[b].id);
            }
            assert forall|n2: int| 0 <= n2 < self.players@.len() implies (#[trigger] self.players@[n2]).data.wf() by {
                if n2 != gi {
                    assert(self.players@[n2] == s0.players@[n2]);
                }
            }
            self.lemma_player_at(gi);
            assert forall|j: PlayerId| final(self).has_player(j) <==> s0.has_player(j) by {
                if self.has_player(j) {
                    let w = self.player_index(j);
                    if w != gi {
                        assert(s0.players@[w].id == j);
                    }
                    assert(s0.has_player(j));
                }
                if s0.has_player(j) {
                    let w = s0.player_index(j);
                    if w != gi {
                        assert(self.players@[w].id == j);
                    }
                    assert(self.has_player(j));
                }
            }
            assert forall|j: PlayerId|
                j != id && s0.has_player(j) implies final(self).player_at(j) == s0.player_at(
                j,
            ) by {
                let w = s0.player_index(j);
                assert(s0.players@[w].id == j);
                assert(w != gi);
                assert(self.players@[w] == s0.players@[w]);
                self.lemma_player_at(w);
                s0.lemma_player_at(w);
            }
            assert forall|p: ChunkPos| #[trigger]
                final(self).player_at(id).loaded_chunks@.contains(p) <==> ((s0.player_at(
                    id,
                ).loaded_chunks@.contains(p) && rd.visible_spec(player_chunk, p)) || newly_sent(
                    s0,
                    id,
                    player_chunk,
                    p,
                )) by {
                if newly_sent(s0, id, player_chunk, p) {
                    let w2 = choose|w2: int| 0 <= w2 < sends@.len() && sends@[w2].pos == p;
                    assert(new_loaded@.contains(p));
                }
            }
        }
        sends
    }
}

/// Whether some player sees `p`.
fn sees_any(views: &Vec<PlayerView>, p: ChunkPos) -> (r: bool)
    ensures
        r == visible_any(views@, p),
{
    let mut v: usize = 0;
    let n = views.len();
    while v < n
        invariant
            n == views@.len(),
            v <= n,
            forall|w: int|
                0 <= w < v ==> !(#[trigger] views@[w]).render_distance.visible_spec(
                    views@[w].center,
                    p,
                ),
        decreases n - v,
    {
        let vw = views[v];
        if vw.render_distance.is_chunk_visible(vw.center, p) {
            proof {
                assert(views@[v as int].render_distance.visible_spec(views@[v as int].center, p));
            }
            return true;
        }
        v = v + 1;
    }
    false
}

impl ServerState {
    /// Evict from the world store every chunk position visible to no
    /// current player; every chunk some player still sees is retained
    /// untouched.
    pub fn evict_chunks(&mut self, views: &Vec<PlayerView>)
        requires
            old(self).wf(),
        ensures
            final(self).wf(),
            final(self).players == old(self).players,
            final(self).generating == old(self).generating,
            final(self).jobs == old(self).jobs,
            final(self).lighting == old(self).lighting,
            final(self).world.columns == old(self).world.columns,
            final(self).world.lights == old(self).world.lights,
            forall|p: ChunkPos| #[trigger]
                final(self).world.has_chunk(p) <==> (old(self).world.has_chunk(p) && visible_any(
                    views@,
                    p,
                )),
            forall|p: ChunkPos|
                final(self).world.has_chunk(p) ==> final(self).world.chunk_at(p) == old(
                    self,
                ).world.chunk_at(p),
    {
        let ghost s0 = *self;
        let mut positions: Vec<ChunkPos> = Vec::new();
        let n = self.world.chunks.len();
        let mut i: usize = 0;
        while i < n
            invariant
                *self == s0,
                s0.wf(),
                n == self.world.chunks@.len(),
                i <= n,
                positions@.len() == i,
                forall|j: int| 0 <= j < i ==> positions@[j] == self.world.chunks@[j].pos,
            decreases n - i,
        {
            positions.push(self.world.chunks[i].pos);
            i = i + 1;
        }
        proof {
            assert forall|p: ChunkPos|
                s0.world.has_chunk(p) <==> positions@.contains(p) by {
                if s0.world.has_chunk(p) {
                    let w = s0.world.chunk_index(p);
                    assert(positions@[w] == p);
                }
                if positions@.contains(p) {
                    let w = choose|w: int| 0 <= w < positions@.len() && positions@[w] == p;
                    assert(s0.world.chunks@[w].pos == p);
                }
            }
        }
        let pn = positions.len();
        let mut t: usize = 0;
        while t < pn
            invariant
                self.players == s0.players,
                self.generating == s0.generating,
                self.jobs == s0.jobs,
                self.lighting == s0.lighting,
                self.world.columns == s0.world.columns,
                self.world.lights == s0.world.lights,
                self.world.wf(),
                s0.wf(),
                pn == positions@.len(),
                t <= pn,
                forall|p: ChunkPos| s0.world.has_chunk(p) <==> positions@.contains(p),
                forall|p: ChunkPos| #[trigger]
                    self.world.has_chunk(p) <==> (s0.world.has_chunk(p) && !(positions@.subrange(
                        0,
                        t as int,
                    ).contains(p) && !visible_any(views@, p))),
                forall|p: ChunkPos|
                    self.world.has_chunk(p) ==> self.world.chunk_at(p) == s0.world.chunk_at(p),
            decreases pn - t,
        {
            let p = positions[t];
            proof {
                assert(positions@[t as int] == p);
            }
            let ghost w0 = self.world;
            if !sees_any(views, p) {
                self.world.remove_chunk(p);
            }
            proof {
                assert forall|p2: ChunkPos| #[trigger]
                    self.world.has_chunk(p2) implies (s0.world.has_chunk(p2) && !(
                positions@.subrange(0, t as int + 1).contains(p2) && !visible_any(
                    views@,
                    p2,
                ))) by {
                    lemma_subrange_grow(positions@, t as int, p2);
                    assert(w0.has_chunk(p2));
                }
                assert forall|p2: ChunkPos|
                    (s0.world.has_chunk(p2) && !(positions@.subrange(0, t as int + 1).contains(p2)
                        && !visible_any(views@, p2))) implies #[trigger] self.world.has_chunk(
                    p2,
                ) by {
                    lemma_subrange_grow(positions@, t as int, p2);
                    if w0.has_chunk(p2) {
                        if p2 == p {
                            assert(visible_any(views@, p2));
                            assert(self.world.has_chunk(p2));
                        } else {
                            assert(self.world.has_chunk(p2));
                        }
                    }
                }
            }
            t = t + 1;
        }
        proof {
            assert(positions@.subrange(0, pn as int) =~= positions@);
            assert forall|p: ChunkPos| #[trigger]
                final(self).world.has_chunk(p) <==> (s0.world.has_chunk(p) && visible_any(
                    views@,
                    p,
                )) by {
                if s0.world.has_chunk(p) {
                    assert(positions@.contains(p));
                }
            }
        }
    }

    /// Maintain the generating set and job priorities against the current
    /// players: a position no player wants any more is dropped and its job
    /// cancelled (advisory); a still-wanted position's job priority becomes
    /// the minimum squared distance over the players that see it.
    #[verifier::rlimit(50)]
    pub fn update_generating(&mut self, views: &Vec<PlayerView>)
        requires
            old(self).wf(),
        ensures
            final(self).wf(),
            final(self).players == old(self).players,
            final(self).world == old(self).world,
            final(self).lighting == old(self).lighting,
            forall|p: ChunkPos| #[trigger]
                final(self).generating@.contains(p) <==> (old(self).generating@.contains(p)
                    && visible_any(views@, p)),
            forall|p: ChunkPos| #[trigger]
                final(self).jobs.has_job(p) <==> (old(self).jobs.has_job(p) && visible_any(
                    views@,
                    p,
                )),
            forall|p: ChunkPos|
                final(self).jobs.has_job(p) ==> {
                    &&& final(self).jobs.job_at(p).pos == p
                    &&& exists|w: int|
                        0 <= w < views@.len() && (#[trigger] views@[w]).render_distance.visible_spec(
                            views@[w].center,
                            p,
                        ) && final(self).jobs.job_at(p).priority == squared_dist_spec(
                            views@[w].center,
                            p,
                        )
                    &&& forall|w: int|
                        0 <= w < views@.len() && (#[trigger] views@[w]).render_distance.visible_spec(
                            views@[w].center,
                            p,
                        ) ==> final(self).jobs.job_at(p).priority <= squared_dist_spec(
                            views@[w].center,
                            p,
                        )
                },
    {
        let ghost s0 = *self;
        let gen_list = copy_positions(&self.generating);
        let mut new_gen: Vec<ChunkPos> = Vec::new();
        let gn = gen_list.len();
        let mut t: usize = 0;
        while t < gn
            invariant
                self.players == s0.players,
                self.world == s0.world,
                self.lighting == s0.lighting,
                self.generating == s0.generating,
                s0.wf(),
                self.jobs.wf(),
                gn == gen_list@.len(),
                gen_list@ == s0.generating@,
                t <= gn,
                distinct_pos(new_gen@),
                forall|q: ChunkPos| #[trigger]
                    new_gen@.contains(q) ==> exists|j: int|
                        0 <= j < t && gen_list@[j] == q && visible_any(views@, q),
                forall|j: int|
                    0 <= j < t && visible_any(views@, #[trigger] gen_list@[j])
                        ==> new_gen@.contains(gen_list@[j]),
                forall|p: ChunkPos| #[trigger]
                    self.jobs.has_job(p) <==> (s0.jobs.has_job(p) && !(gen_list@.subrange(
                        0,
                        t as int,
                    ).contains(p) && !visible_any(views@, p))),
                forall|p: ChunkPos|
                    self.jobs.has_job(p) && !gen_list@.subrange(0, t as int).contains(p)
                        ==> self.jobs.job_at(p) == s0.jobs.job_at(p),
                forall|p: ChunkPos|
                    self.jobs.has_job(p) && gen_list@.subrange(0, t as int).contains(p) ==> {
                        &&& self.jobs.job_at(p).pos == p
                        &&& exists|w: int|
                            0 <= w < views@.len() && (
                            #[trigger] views@[w]).render_distance.visible_spec(views@[w].center, p)
                                && self.jobs.job_at(p).priority == squared_dist_spec(
                                views@[w].center,
                                p,
                            )
                        &&& forall|w: int|
                            0 <= w < views@.len() && (
                            #[trigger] views@[w]).render_distance.visible_spec(views@[w].center, p)
                                ==> self.jobs.job_at(p).priority <= squared_dist_spec(
                                views@[w].center,
                                p,
                            )
                    },
            decreases gn - t,
        {
            let p = gen_list[t];
            proof {
                assert(gen_list@[t as int] == p);
                assert(!gen_list@.subrange(0, t as int).contains(p)) by {
                    if gen_list@.subrange(0, t as int).contains(p) {
                        let w = choose|w: int|
                            0 <= w < t && #[trigger] gen_list@.subrange(0, t as int)[w] == p;
                        assert(gen_list@[w] == gen_list@[t as int]);
                        assert(distinct_pos(s0.generating@));
                        assert(false);
                    }
                }
            }
            let mut best: Option<u64> = None;
            let vn = views.len();
            let mut v: usize = 0;
            while v < vn
                invariant
                    vn == views@.len(),
                    v <= vn,
                    match best {
                        Option::None => forall|w: int|
                            0 <= w < v ==> !(#[trigger] views@[w]).render_distance.visible_spec(
                                views@[w].center,
                                p,
                            ),
                        Option::Some(b) => {
                            &&& exists|w: int|
                                0 <= w < v && (#[trigger] views@[w]).render_distance.visible_spec(
                                    views@[w].center,
                                    p,
                                ) && b == squared_dist_spec(views@[w].center, p)
                            &&& forall|w: int|
                                0 <= w < v && (#[trigger] views@[w]).render_distance.visible_spec(
                                    views@[w].center,
                                    p,
                                ) ==> b <= squared_dist_spec(views@[w].center, p)
                        },
                    },
                decreases vn - v,
            {
                let vw = views[v];
                let ghost oldbest = best;
                if vw.render_distance.is_chunk_visible(vw.center, p) {
                    let d = squared_euclidian_distance(vw.center, p);
                    best = match best {
                        None => Some(d),
                        Some(b) => if d < b {
                            Some(d)
                        } else {
                            Some(b)
                        },
                    };
                    proof {
                        assert(views@[v as int].render_distance.visible_spec(
                            views@[v as int].center,
                            p,
                        ));
                    }
                }
                v = v + 1;
            }
            let ghost jobs0 = self.jobs;
            match best {
                None => {
                    proof {
                        assert(!visible_any(views@, p)) by {
                            if visible_any(views@, p) {
                                let w = choose|w: int|
                                    0 <= w < views@.len() && (
                                    #[trigger] views@[w]).render_distance.visible_spec(
                                        views@[w].center,
                                        p,
                                    );
                                assert(false);
                            }
                        }
                    }
                    self.jobs.dequeue(p);
                    proof {
                        if jobs0.has_job(p) {
                            let i = choose|i: int|
                                0 <= i < jobs0.jobs@.len() && jobs0.jobs@[i].pos == p
                                    && self.jobs.jobs@ == jobs0.jobs@.remove(i);
                            JobQueue::lemma_remove_effect(jobs0, self.jobs, i);
                        }
                        assert forall|p2: ChunkPos| #[trigger]
                            self.jobs.has_job(p2) implies (s0.jobs.has_job(p2) && !(
                        gen_list@.subrange(0, t as int + 1).contains(p2) && !visible_any(
                            views@,
                            p2,
                        ))) by {
                            lemma_subrange_grow(gen_list@, t as int, p2);
                            assert(jobs0.has_job(p2));
                            assert(p2 != p);
                        }
                        assert forall|p2: ChunkPos|
                            (s0.jobs.has_job(p2) && !(gen_list@.subrange(0, t as int + 1).contains(
                                p2,
                            ) && !visible_any(views@, p2))) implies #[trigger] self.jobs.has_job(
                            p2,
                        ) by {
                            lemma_subrange_grow(gen_list@, t as int, p2);
                            if jobs0.has_job(p2) {
                                assert(p2 != p);
                                assert(self.jobs.has_job(p2));
                            }
                        }
                        assert forall|p2: ChunkPos|
                            self.jobs.has_job(p2) && !gen_list@.subrange(0, t as int + 1).contains(
                                p2,
                            ) implies self.jobs.job_at(p2) == s0.jobs.job_at(p2) by {
                            lemma_subrange_grow(gen_list@, t as int, p2);
                            assert(jobs0.has_job(p2));
                            assert(p2 != p);
                        }
                        assert forall|p2: ChunkPos|
                            self.jobs.has_job(p2) && gen_list@.subrange(0, t as int + 1).contains(
                                p2,
                            ) implies (self.jobs.job_at(p2).pos == p2 && exists|w: int|
                            0 <= w < views@.len() && (
                            #[trigger] views@[w]).render_distance.visible_spec(views@[w].center, p2)
                                && self.jobs.job_at(p2).priority == squared_dist_spec(
                                views@[w].center,
                                p2,
                            ) && forall|w2: int|
                            0 <= w2 < views@.len() && views@[w2].render_distance.visible_spec(
                                views@[w2].center,
                                p2,
                            ) ==> self.jobs.job_at(p2).priority <= squared_dist_spec(
                                views@[w2].center,
                                p2,
                            )) by {
                            lemma_subrange_grow(gen_list@, t as int, p2);
                            assert(jobs0.has_job(p2));
                            assert(p2 != p);
                            assert(gen_list@.subrange(0, t as int).contains(p2));
                        }
                    }
                },
                Some(b) => {
                    self.jobs.set_priority(p, b);
                    proof {
                        if jobs0.has_job(p) {
                            let i = choose|i: int|
                                0 <= i < jobs0.jobs@.len() && jobs0.jobs@[i].pos == p
                                    && self.jobs.jobs@ == jobs0.jobs@.update(
                                    i,
                                    QueuedJob { pos: p, priority: b },
                                );
                            JobQueue::lemma_update_effect(
                                jobs0,
                                self.jobs,
                                i,
                                QueuedJob { pos: p, priority: b },
                            );
                        }
                        assert(visible_any(views@, p));
                        assert forall|p2: ChunkPos| #[trigger]
                            self.jobs.has_job(p2) implies (s0.jobs.has_job(p2) && !(
                        gen_list@.subrange(0, t as int + 1).contains(p2) && !visible_any(
                            views@,
                            p2,
                        ))) by {
                            lemma_subrange_grow(gen_list@, t as int, p2);
                            assert(jobs0.has_job(p2));
                        }
                        assert forall|p2: ChunkPos|
                            (s0.jobs.has_job(p2) && !(gen_list@.subrange(0, t as int + 1).contains(
                                p2,
                            ) && !visible_any(views@, p2))) implies #[trigger] self.jobs.has_job(
                            p2,
                        ) by {
                            lemma_subrange_grow(gen_list@, t as int, p2);
                            if jobs0.has_job(p2) {
                                assert(self.jobs.has_job(p2));
                            }
                        }
                        assert forall|p2: ChunkPos|
                            self.jobs.has_job(p2) && !gen_list@.subrange(0, t as int + 1).contains(
                                p2,
                            ) implies self.jobs.job_at(p2) == s0.jobs.job_at(p2) by {
                            lemma_subrange_grow(gen_list@, t as int, p2);
                            assert(jobs0.has_job(p2));
                            assert(p2 != p);
                        }
                        assert forall|p2: ChunkPos|
                            self.jobs.has_job(p2) && gen_list@.subrange(0, t as int + 1).contains(
                                p2,
                            ) implies (self.jobs.job_at(p2).pos == p2 && exists|w: int|
                            0 <= w < views@.len() && (
                            #[trigger] views@[w]).render_distance.visible_spec(views@[w].center, p2)
                                && self.jobs.job_at(p2).priority == squared_dist_spec(
                                views@[w].center,
                                p2,
                            ) && forall|w2: int|
                            0 <= w2 < views@.len() && views@[w2].render_distance.visible_spec(
                                views@[w2].center,
                                p2,
                            ) ==> self.jobs.job_at(p2).priority <= squared_dist_spec(
                                views@[w2].center,
                                p2,
                            )) by {
                            lemma_subrange_grow(gen_list@, t as int, p2);
                            if p2 == p {
                                if jobs0.has_job(p) {
                                    assert(self.jobs.job_at(p) == QueuedJob { pos: p, priority: b });
                                } else {
                                    assert(!self.jobs.has_job(p2));
                                }
                            } else {
                                assert(jobs0.has_job(p2));
                                assert(gen_list@.subrange(0, t as int).contains(p2));
                            }
                        }
                    }
                    let ghost ng0 = new_gen@;
                    new_gen.push(p);
                    proof {
                        assert forall|q: ChunkPos|
                            new_gen@.contains(q) <==> (ng0.contains(q) || q == p) by {
                            lemma_contains_push(ng0, p, q);
                        }
                        assert forall|i2: int, j2: int|
                            0 <= i2 < j2 < new_gen@.len() implies new_gen@[i2] != new_gen@[j2] by {
                            if j2 < ng0.len() {
                                assert(new_gen@[i2] == ng0[i2] && new_gen@[j2] == ng0[j2]);
                            } else {
                                assert(new_gen@[j2] == p);
                                assert(new_gen@[i2] == ng0[i2]);
                                assert(ng0.contains(ng0[i2]));
                                let j3 = choose|j3: int|
                                    0 <= j3 < t && gen_list@[j3] == ng0[i2] && visible_any(
                                        views@,
                                        ng0[i2],
                                    );
                                assert(gen_list@[j3] != gen_list@[t as int]);
                            }
                        }
                        assert forall|q: ChunkPos| #[trigger]
                            new_gen@.contains(q) implies exists|j: int|
                            0 <= j < t + 1 && gen_list@[j] == q && visible_any(views@, q) by {
                            if ng0.contains(q) {
                                let j = choose|j: int|
                                    0 <= j < t && gen_list@[j] == q && visible_any(views@, q);
                                assert(0 <= j < t + 1 && gen_list@[j] == q && visible_any(
                                    views@,
                                    q,
                                ));
                            } else {
                                assert(q == p);
                                assert(gen_list@[t as int] == q && visible_any(views@, q));
                            }
                        }
                        assert forall|j: int|
                            0 <= j < t + 1 && visible_any(views@, #[trigger] gen_list@[j]) implies
                            new_gen@.contains(gen_list@[j]) by {
                            if j < t {
                                assert(ng0.contains(gen_list@[j]));
                                assert(new_gen@.contains(gen_list@[j]));
                            } else {
                                assert(gen_list@[j] == p);
                                assert(new_gen@[ng0.len() as int] == p);
                                assert(new_gen@.contains(p));
                            }
                        }
                    }
                },
            }
            proof {
                assert forall|j: int|
                    0 <= j < t + 1 && visible_any(views@, #[trigger] gen_list@[j]) implies
                    new_gen@.contains(gen_list@[j]) by {
                    if j == t {
                        assert(gen_list@[j] == p);
                    }
                }
            }
            t = t + 1;
        }
        self.generating = new_gen;
        proof {
            assert(gen_list@.subrange(0, gn as int) =~= gen_list@);
            assert forall|p: ChunkPos| #[trigger]
                final(self).generating@.contains(p) <==> (s0.generating@.contains(p)
                    && visible_any(views@, p)) by {
                if self.generating@.contains(p) {
                    let j = choose|j: int|
                        0 <= j < gn && gen_list@[j] == p && visible_any(views@, p);
                    assert(s0.generating@.contains(p));
                }
                if s0.generating@.contains(p) && visible_any(views@, p) {
                    let j = choose|j: int| 0 <= j < s0.generating@.len() && s0.generating@[j] == p;
                    assert(gen_list@[j] == p);
                    assert(self.generating@.contains(p));
                }
            }
            assert forall|p: ChunkPos| #[trigger]
                final(self).jobs.has_job(p) <==> (s0.jobs.has_job(p) && visible_any(
                    views@,
                    p,
                )) by {
                if s0.jobs.has_job(p) {
                    let w = s0.jobs.job_index(p);
                    assert(s0.generating@.contains(s0.jobs.jobs@[w].pos));
                    assert(gen_list@.contains(p));
                    let j = choose|j: int| 0 <= j < gen_list@.len() && gen_list@[j] == p;
                    assert(gen_list@.subrange(0, gn as int)[j] == p);
                }
            }
            assert forall|i2: int|
                0 <= i2 < self.jobs.jobs@.len() implies self.generating@.contains(
                (#[trigger] self.jobs.jobs@[i2]).pos,
            ) by {
                self.jobs.lemma_job_at(i2);
                let q = self.jobs.jobs@[i2].pos;
                assert(self.jobs.has_job(q));
                assert(s0.jobs.has_job(q) && visible_any(views@, q));
                let w0 = s0.jobs.job_index(q);
                assert(s0.generating@.contains(s0.jobs.jobs@[w0].pos));
                let j = choose|j: int| 0 <= j < gen_list@.len() && #[trigger] gen_list@[j] == q;
                assert(new_gen@.contains(gen_list@[j]));
            }
        }
    }
}

/// Membership in a one-longer prefix of a sequence of positions.
proof fn lemma_subrange_grow(s: Seq<ChunkPos>, k: int, p: ChunkPos)
    requires
        0 <= k < s.len(),
    ensures
        s.subrange(0, k + 1).contains(p) <==> (s.subrange(0, k).contains(p) || s[k] == p),
{
    if s.subrange(0, k + 1).contains(p) {
        let w = choose|w: int| 0 <= w < k + 1 && #[trigger] s.subrange(0, k + 1)[w] == p;
        if w < k {
            assert(s.subrange(0, k)[w] == p);
        }
    }
    if s.subrange(0, k).contains(p) {
        let w = choose|w: int| 0 <= w < k && #[trigger] s.subrange(0, k)[w] == p;
        assert(s.subrange(0, k + 1)[w] == p);
    }
    if s[k] == p {
        assert(s.subrange(0, k + 1)[k] == p);
    }
}

/// A chunk the streaming pass sends to this player: visible from the
/// player's position, not yet delivered, and present in the world store.
pub open spec fn newly_sent(s: ServerState, id: PlayerId, pc: ChunkPos, p: ChunkPos) -> bool {
    &&& s.player_at(id).render_distance.visible_spec(pc, p)
    &&& !s.player_at(id).loaded_chunks@.contains(p)
    &&& s.world.has_chunk(p)
}

/// A chunk the streaming pass requests from the generator for this player:
/// visible, not delivered, absent from the store, and not yet generating.
pub open spec fn newly_requested(s: ServerState, id: PlayerId, pc: ChunkPos, p: ChunkPos) -> bool {
    &&& s.player_at(id).render_distance.visible_spec(pc, p)
    &&& !s.player_at(id).loaded_chunks@.contains(p)
    &&& !s.world.has_chunk(p)
    &&& !s.generating@.contains(p)
}

/// Copy a vector of positions.
fn copy_positions(v: &Vec<ChunkPos>) -> (r: Vec<ChunkPos>)
    ensures
        r@ == v@,
{
    let mut r: Vec<ChunkPos> = Vec::new();
    let mut i: usize = 0;
    let n = v.len();
    while i < n
        invariant
            n == v@.len(),
            i <= n,
            r@.len() == i,
            forall|m: int| 0 <= m < i ==> r@[m] == v@[m],
        decreases n - i,
    {
        r.push(v[i]);
        i = i + 1;
    }
    proof {
        assert(r@ =~= v@);
    }
    r
}

} // verus!
