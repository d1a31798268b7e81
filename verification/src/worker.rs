//! Priority queue for background jobs. One instance schedules world
//! generation; the same pattern serves client-side meshing. Jobs are kept
//! in insertion order and `pop` takes the first job of minimal priority,
//! so ties break first-in-first-out, which bounds the latency of any job.

use vstd::prelude::*;
use crate::chunk::ChunkPos;

verus! {

/// A queued background job: the chunk position it concerns and its current
/// scheduling priority. Lower priority values are served sooner.
#[derive(Debug, Clone, Copy, PartialEq, Eq, Structural)]
pub struct QueuedJob {
    pub pos: ChunkPos,
    pub priority: u64,
}

/// The queue of not-yet-started background jobs, in insertion order.
pub struct JobQueue {
    pub jobs: Vec<QueuedJob>,
}

impl JobQueue {
    /// Each position is tracked at most once.
    pub open spec fn wf(self) -> bool {
        forall|i: int, j: int| 0 <= i < j < self.jobs@.len() ==> self.jobs@[i].pos != self.jobs@[j].pos
    }

    /// Whether a job for `pos` is queued.
    pub open spec fn has_job(self, pos: ChunkPos) -> bool {
        exists|i: int| 0 <= i < self.jobs@.len() && self.jobs@[i].pos == pos
    }

    pub open spec fn job_index(self, pos: ChunkPos) -> int {
        choose|i: int| 0 <= i < self.jobs@.len() && self.jobs@[i].pos == pos
    }

    /// The queued job for `pos`.
    pub open spec fn job_at(self, pos: ChunkPos) -> QueuedJob {
        self.jobs@[self.job_index(pos)]
    }

    /// In a well-formed queue, the job at any index is what `job_at`
    /// yields for its position.
    pub proof fn lemma_job_at(self, i: int)
        requires
            self.wf(),
            0 <= i < self.jobs@.len(),
        ensures
            self.has_job(self.jobs@[i].pos),
            self.job_at(self.jobs@[i].pos) == self.jobs@[i],
            self.job_index(self.jobs@[i].pos) == i,
    {
        let p = self.jobs@[i].pos;
        assert(self.has_job(p));
        let j = self.job_index(p);
        if i != j {
            assert(self.jobs@[i].pos != self.jobs@[j].pos);
        }
    }

    /// Effect of appending a fresh job on membership and lookup.
    pub proof fn lemma_enqueue_effect(q0: JobQueue, q1: JobQueue, job: QueuedJob)
        requires
            q0.wf(),
            !q0.has_job(job.pos),
            q1.jobs@ == q0.jobs@.push(job),
        ensures
            q1.wf(),
            forall|p: ChunkPos| q1.has_job(p) <==> (q0.has_job(p) || p == job.pos),
            forall|p: ChunkPos| q0.has_job(p) ==> q1.job_at(p) == q0.job_at(p),
            q1.job_at(job.pos) == job,
    {
        let gi = q0.jobs@.len() as int;
        assert forall|a: int, b: int|
            0 <= a < b < q1.jobs@.len() implies q1.jobs@[a].pos != q1.jobs@[b].pos by {
            if b < gi {
                assert(q1.jobs@[a] == q0.jobs@[a] && q1.jobs@[b] == q0.jobs@[b]);
            } else {
                assert(q1.jobs@[a] == q0.jobs@[a]);
                assert(q1.jobs@[b].pos == job.pos);
                if q1.jobs@[a].pos == job.pos {
                    assert(q0.has_job(job.pos));
                    assert(false);
                }
            }
        }
        q1.lemma_job_at(gi);
        assert forall|p: ChunkPos| q1.has_job(p) <==> (q0.has_job(p) || p == job.pos) by {
            if q1.has_job(p) {
                let w = q1.job_index(p);
                assert(q1.jobs@[w].pos == p);
                if w != gi {
                    assert(q0.jobs@[w].pos == p);
                    assert(q0.has_job(p));
                }
            }
            if q0.has_job(p) {
                let w = q0.job_index(p);
                assert(q0.jobs@[w].pos == p);
                assert(q1.jobs@[w].pos == p);
                assert(q1.has_job(p));
            }
        }
        assert forall|p: ChunkPos| q0.has_job(p) implies q1.job_at(p) == q0.job_at(p) by {
            let w = q0.job_index(p);
            assert(q0.jobs@[w].pos == p);
            q0.lemma_job_at(w);
            assert(q1.jobs@[w] == q0.jobs@[w]);
            q1.lemma_job_at(w);
        }
    }

    /// Effect of removing the job at index `i` on membership and lookup.
    pub proof fn lemma_remove_effect(q0: JobQueue, q1: JobQueue, i: int)
        requires
            q0.wf(),
            0 <= i < q0.jobs@.len(),
            q1.jobs@ == q0.jobs@.remove(i),
        ensures
            q1.wf(),
            forall|p: ChunkPos| q1.has_job(p) <==> (q0.has_job(p) && p != q0.jobs@[i].pos),
            forall|p: ChunkPos|
                p != q0.jobs@[i].pos && q0.has_job(p) ==> q1.job_at(p) == q0.job_at(p),
    {
        let pos = q0.jobs@[i].pos;
        assert forall|a: int, b: int|
            0 <= a < b < q1.jobs@.len() implies q1.jobs@[a].pos != q1.jobs@[b].pos by {
            let a2 = if a < i { a } else { a + 1 };
            let b2 = if b < i { b } else { b + 1 };
            assert(q1.jobs@[a] == q0.jobs@[a2]);
            assert(q1.jobs@[b] == q0.jobs@[b2]);
        }
        assert forall|p: ChunkPos| q1.has_job(p) <==> (q0.has_job(p) && p != pos) by {
            if q1.has_job(p) {
                let w = q1.job_index(p);
                assert(q1.jobs@[w].pos == p);
                let w2 = if w < i { w } else { w + 1 };
                assert(q1.jobs@[w] == q0.jobs@[w2]);
                assert(q0.has_job(p));
                if p == pos {
                    assert(q0.jobs@[w2].pos != q0.jobs@[i].pos);
                    assert(false);
                }
            }
            if q0.has_job(p) && p != pos {
                let w = q0.job_index(p);
                assert(q0.jobs@[w].pos == p);
                assert(w != i);
                if w < i {
                    assert(q1.jobs@[w].pos == p);
                } else {
                    assert(q1.jobs@[w - 1].pos == p);
                }
                assert(q1.has_job(p));
            }
        }
        assert forall|p: ChunkPos|
            p != pos && q0.has_job(p) implies q1.job_at(p) == q0.job_at(p) by {
            let w = q0.job_index(p);
            assert(q0.jobs@[w].pos == p);
            q0.lemma_job_at(w);
            assert(w != i);
            let w2 = if w < i { w } else { w - 1 };
            assert(q1.jobs@[w2] == q0.jobs@[w]);
            q1.lemma_job_at(w2);
        }
    }

    /// Effect of overwriting the job at index `i` (same position) on
    /// membership and lookup.
    pub proof fn lemma_update_effect(q0: JobQueue, q1: JobQueue, i: int, job: QueuedJob)
        requires
            q0.wf(),
            0 <= i < q0.jobs@.len(),
            q0.jobs@[i].pos == job.pos,
            q1.jobs@ == q0.jobs@.update(i, job),
        ensures
            q1.wf(),
            forall|p: ChunkPos| q1.has_job(p) <==> q0.has_job(p),
            forall|p: ChunkPos|
                p != job.pos && q0.has_job(p) ==> q1.job_at(p) == q0.job_at(p),
            q1.job_at(job.pos) == job,
    {
        assert forall|a: int, b: int|
            0 <= a < b < q1.jobs@.len() implies q1.jobs@[a].pos != q1.jobs@[b].pos by {
            assert(q0.jobs@[a].pos != q0.jobs@[b].pos);
        }
        q1.lemma_job_at(i);
        assert forall|p: ChunkPos| q1.has_job(p) <==> q0.has_job(p) by {
            if q1.has_job(p) {
                let w = q1.job_index(p);
                assert(q1.jobs@[w].pos == p);
                assert(q0.jobs@[w].pos == p);
                assert(q0.has_job(p));
            }
            if q0.has_job(p) {
                let w = q0.job_index(p);
                assert(q0.jobs@[w].pos == p);
                assert(q1.jobs@[w].pos == p);
                assert(q1.has_job(p));
            }
        }
        assert forall|p: ChunkPos|
            p != job.pos && q0.has_job(p) implies q1.job_at(p) == q0.job_at(p) by {
            let w = q0.job_index(p);
            assert(q0.jobs@[w].pos == p);
            q0.lemma_job_at(w);
            assert(w != i);
            assert(q1.jobs@[w] == q0.jobs@[w]);
            q1.lemma_job_at(w);
        }
    }

    /// An empty queue.
    pub fn new() -> (r: Self)
        ensures
            r.wf(),
            r.jobs@.len() == 0,
    {
        Self { jobs: Vec::new() }
    }

    /// Find the index of the job for `pos`, if one is queued.
    fn find(&self, pos: ChunkPos) -> (r: Option<usize>)
        ensures
            match r {
                Some(i) => 0 <= i < self.jobs@.len() && self.jobs@[i as int].pos == pos,
                None => !self.has_job(pos),
            },
    {
        let mut i: usize = 0;
        let n = self.jobs.len();
        while i < n
            invariant
                n == self.jobs@.len(),
                i <= n,
                forall|j: int| 0 <= j < i ==> self.jobs@[j].pos != pos,
            decreases n - i,
        {
            let p = self.jobs[i].pos;
            if p.px == pos.px && p.py == pos.py && p.pz == pos.pz {
                return Some(i);
            }
            i = i + 1;
        }
        None
    }

    /// Add a job at its current priority; a no-op if the position is
    /// already tracked.
    pub fn enqueue(&mut self, pos: ChunkPos, priority: u64)
        requires
            old(self).wf(),
        ensures
            final(self).wf(),
            old(self).has_job(pos) ==> *final(self) == *old(self),
            !old(self).has_job(pos) ==> final(self).jobs@ == old(self).jobs@.push(
                QueuedJob { pos, priority },
            ),
    {
        if self.find(pos).is_none() {
            let ghost before = self.jobs@;
            self.jobs.push(QueuedJob { pos, priority });
            proof {
                assert forall|i: int, j: int|
                    0 <= i < j < self.jobs@.len() implies self.jobs@[i].pos
                    != self.jobs@[j].pos by {
                    if j < before.len() {
                        assert(self.jobs@[i] == before[i] && self.jobs@[j] == before[j]);
                    } else {
                        assert(self.jobs@[i] == before[i]);
                        assert(self.jobs@[j].pos == pos);
                    }
                }
            }
        }
    }

    /// Remove a queued-but-not-yet-started job. Advisory cancellation only:
    /// a job no longer in the queue is simply not found and nothing happens.
    pub fn dequeue(&mut self, pos: ChunkPos)
        requires
            old(self).wf(),
        ensures
            final(self).wf(),
            !old(self).has_job(pos) ==> *final(self) == *old(self),
            old(self).has_job(pos) ==> exists|i: int|
                0 <= i < old(self).jobs@.len() && old(self).jobs@[i].pos == pos
                    && final(self).jobs@ == old(self).jobs@.remove(i),
    {
        match self.find(pos) {
            Some(i) => {
                let ghost before = self.jobs@;
                let ghost gi = i as int;
                self.jobs.remove(i);
                proof {
                    assert forall|a: int, b: int|
                        0 <= a < b < self.jobs@.len() implies self.jobs@[a].pos
                        != self.jobs@[b].pos by {
                        let a2 = if a < gi { a } else { a + 1 };
                        let b2 = if b < gi { b } else { b + 1 };
                        assert(self.jobs@[a] == before[a2]);
                        assert(self.jobs@[b] == before[b2]);
                    }
                }
            },
            None => {},
        }
    }

    /// Update the ordering key of a still-queued job; a no-op if the job is
    /// no longer queued (already started or never submitted).
    pub fn set_priority(&mut self, pos: ChunkPos, priority: u64)
        requires
            old(self).wf(),
        ensures
            final(self).wf(),
            !old(self).has_job(pos) ==> *final(self) == *old(self),
            old(self).has_job(pos) ==> exists|i: int|
                0 <= i < old(self).jobs@.len() && old(self).jobs@[i].pos == pos
                    && final(self).jobs@ == old(self).jobs@.update(i, QueuedJob { pos, priority }),
    {
        match self.find(pos) {
            Some(i) => {
                let ghost before = self.jobs@;
                let ghost gi = i as int;
                self.jobs.set(i, QueuedJob { pos, priority });
                proof {
                    assert forall|a: int, b: int|
                        0 <= a < b < self.jobs@.len() implies self.jobs@[a].pos
                        != self.jobs@[b].pos by {
                        assert(before[a].pos != before[b].pos);
                    }
                }
            },
            None => {},
        }
    }

    /// Pop the job to run next: the earliest-inserted job among those of
    /// minimal priority. Returns `None` exactly when the queue is empty.
    pub fn pop(&mut self) -> (r: Option<QueuedJob>)
        requires
            old(self).wf(),
        ensures
            final(self).wf(),
            old(self).jobs@.len() == 0 ==> r is None && *final(self) == *old(self),
            old(self).jobs@.len() > 0 ==> match r {
                Some(job) => exists|i: int|
                    {
                        &&& 0 <= i < old(self).jobs@.len()
                        &&& old(self).jobs@[i] == job
                        &&& final(self).jobs@ == old(self).jobs@.remove(i)
                        &&& forall|k: int|
                            0 <= k < old(self).jobs@.len()
                                ==> old(self).jobs@[k].priority >= job.priority
                        &&& forall|k: int| 0 <= k < i ==> old(self).jobs@[k].priority > job.priority
                    },
                None => false,
            },
    {
        let n = self.jobs.len();
        if n == 0 {
            return None;
        }
        let mut mi: usize = 0;
        let mut best = self.jobs[0];
        let mut k: usize = 1;
        while k < n
            invariant
                self == old(self),
                self.wf(),
                n == self.jobs@.len(),
                1 <= k <= n,
                mi < k,
                best == self.jobs@[mi as int],
                forall|j: int| 0 <= j < k ==> self.jobs@[j].priority >= best.priority,
                forall|j: int| 0 <= j < mi ==> self.jobs@[j].priority > best.priority,
            decreases n - k,
        {
            let cand = self.jobs[k];
            if cand.priority < best.priority {
                mi = k;
                best = cand;
            }
            k = k + 1;
        }
        let ghost before = self.jobs@;
        let ghost gi = mi as int;
        self.jobs.remove(mi);
        proof {
            assert forall|a: int, b: int|
                0 <= a < b < self.jobs@.len() implies self.jobs@[a].pos != self.jobs@[b].pos by {
                let a2 = if a < gi { a } else { a + 1 };
                let b2 = if b < gi { b } else { b + 1 };
                assert(self.jobs@[a] == before[a2]);
                assert(self.jobs@[b] == before[b2]);
            }
        }
        Some(best)
    }
}

} // verus!
