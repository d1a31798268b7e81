use voxel_core::chunk::ChunkPos;
use voxel_core::light::LightQueue;
use voxel_core::worker::JobQueue;

fn pos(px: i64, py: i64, pz: i64) -> ChunkPos {
    ChunkPos { px, py, pz }
}

#[test]
fn pop_is_priority_ascending() {
    let mut q = JobQueue::new();
    q.enqueue(pos(5, 0, 0), 5);
    q.enqueue(pos(1, 0, 0), 1);
    q.enqueue(pos(3, 0, 0), 3);
    let order: Vec<u64> = (0..3).map(|_| q.pop().unwrap().priority).collect();
    assert_eq!(order, vec![1, 3, 5]);
    assert!(q.pop().is_none());
}

#[test]
fn pop_breaks_ties_first_in_first_out() {
    let mut q = JobQueue::new();
    q.enqueue(pos(1, 0, 0), 2);
    q.enqueue(pos(2, 0, 0), 2);
    q.enqueue(pos(3, 0, 0), 1);
    assert_eq!(q.pop().unwrap().pos, pos(3, 0, 0));
    assert_eq!(q.pop().unwrap().pos, pos(1, 0, 0));
    assert_eq!(q.pop().unwrap().pos, pos(2, 0, 0));
}

#[test]
fn enqueue_is_deduplicated() {
    let mut q = JobQueue::new();
    q.enqueue(pos(1, 0, 0), 5);
    q.enqueue(pos(1, 0, 0), 9);
    assert_eq!(q.jobs.len(), 1);
    assert_eq!(q.pop().unwrap().priority, 5);
}

#[test]
fn dequeue_cancels_a_queued_job() {
    let mut q = JobQueue::new();
    q.enqueue(pos(1, 0, 0), 5);
    q.enqueue(pos(2, 0, 0), 6);
    q.dequeue(pos(1, 0, 0));
    assert_eq!(q.pop().unwrap().pos, pos(2, 0, 0));
    assert!(q.pop().is_none());
}

#[test]
fn set_priority_reorders_a_queued_job() {
    let mut q = JobQueue::new();
    q.enqueue(pos(1, 0, 0), 5);
    q.enqueue(pos(2, 0, 0), 4);
    q.set_priority(pos(1, 0, 0), 2);
    assert_eq!(q.pop().unwrap().pos, pos(1, 0, 0));
}

#[test]
fn lighting_enqueue_is_deduplicated() {
    let mut q = LightQueue::new();
    q.enqueue(pos(4, 5, 6));
    q.enqueue(pos(4, 5, 6));
    assert_eq!(q.pending.len(), 1);
    assert_eq!(q.pop(), Some(pos(4, 5, 6)));
    assert_eq!(q.pop(), None);
}

#[test]
fn lighting_queue_is_first_in_first_out() {
    let mut q = LightQueue::new();
    q.enqueue(pos(1, 0, 0));
    q.enqueue(pos(2, 0, 0));
    assert!(q.is_pending(pos(1, 0, 0)));
    assert_eq!(q.pop(), Some(pos(1, 0, 0)));
    assert_eq!(q.pop(), Some(pos(2, 0, 0)));
}
