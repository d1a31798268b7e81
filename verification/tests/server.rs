use voxel_core::chunk::{Chunk, ChunkPos};
use voxel_core::player::RenderDistance;
use voxel_core::server::{PlayerView, ServerState};

fn pos(px: i64, py: i64, pz: i64) -> ChunkPos {
    ChunkPos { px, py, pz }
}

fn sq_dist(a: ChunkPos, b: ChunkPos) -> u64 {
    let dx = a.px - b.px;
    let dy = a.py - b.py;
    let dz = a.pz - b.pz;
    (dx * dx + dy * dy + dz * dz) as u64
}

fn priority_of(s: &ServerState, p: ChunkPos) -> Option<u64> {
    s.jobs.jobs.iter().find(|j| j.pos == p).map(|j| j.priority)
}

#[test]
fn connect_and_disconnect_players() {
    let mut s = ServerState::new();
    let rd = RenderDistance { radius_x: 1, radius_y: 1, radius_z: 1 };
    s.handle_connect(4, rd);
    assert!(s.contains_player(4));
    s.handle_set_render_distance(4, RenderDistance { radius_x: 2, radius_y: 1, radius_z: 2 });
    s.handle_disconnect(4);
    assert!(!s.contains_player(4));
}

#[test]
fn stale_worker_results_are_discarded() {
    let mut s = ServerState::new();
    s.install_chunk(Chunk::new(pos(0, 0, 0)));
    assert!(s.world.get_chunk(pos(0, 0, 0)).is_none());
}

#[test]
fn eviction_removes_unseen_chunks() {
    let mut s = ServerState::new();
    s.world.set_chunk(Chunk::new(pos(0, 0, 0)));
    s.world.set_chunk(Chunk::new(pos(10, 0, 0)));
    let rd = RenderDistance { radius_x: 1, radius_y: 1, radius_z: 1 };
    let views = vec![PlayerView { center: pos(0, 0, 0), render_distance: rd }];
    s.evict_chunks(&views);
    assert!(s.world.get_chunk(pos(0, 0, 0)).is_some());
    assert!(s.world.get_chunk(pos(10, 0, 0)).is_none());
}

#[test]
fn multi_requester_priority_follows_minimum() {
    let mut s = ServerState::new();
    let rd = RenderDistance { radius_x: 3, radius_y: 3, radius_z: 3 };
    s.handle_connect(1, rd);
    s.handle_connect(2, rd);
    let a_center = pos(1, 3, 0);
    let b_center = pos(1, 1, 1);
    let target = pos(0, 0, 0);
    assert_eq!(sq_dist(a_center, target), 10);
    assert_eq!(sq_dist(b_center, target), 3);
    s.stream_player(1, a_center);
    s.stream_player(2, b_center);
    assert_eq!(priority_of(&s, target), Some(10));
    let both = vec![
        PlayerView { center: a_center, render_distance: rd },
        PlayerView { center: b_center, render_distance: rd },
    ];
    s.update_generating(&both);
    assert_eq!(priority_of(&s, target), Some(3));
    s.handle_disconnect(2);
    let only_a = vec![PlayerView { center: a_center, render_distance: rd }];
    s.update_generating(&only_a);
    assert_eq!(priority_of(&s, target), Some(10));
    s.update_generating(&Vec::new());
    assert_eq!(priority_of(&s, target), None);
    assert!(s.generating.is_empty());
}

#[test]
fn end_to_end_initial_streaming() {
    let mut s = ServerState::new();
    let rd = RenderDistance { radius_x: 1, radius_y: 1, radius_z: 1 };
    s.handle_connect(7, rd);
    let center = pos(0, 0, 0);
    let first_pass = s.stream_player(7, center);
    assert!(first_pass.is_empty());
    assert_eq!(s.jobs.jobs.len(), 27);
    assert_eq!(s.generating.len(), 27);
    for job in s.jobs.jobs.iter() {
        assert_eq!(job.priority, sq_dist(center, job.pos));
    }
    let mut results = Vec::new();
    while let Some(job) = s.jobs.pop() {
        results.push(Chunk::new(job.pos));
    }
    assert_eq!(results.len(), 27);
    assert_eq!(results[0].pos, center);
    for chunk in results {
        s.install_chunk(chunk);
    }
    assert!(s.generating.is_empty());
    let second_pass = s.stream_player(7, center);
    assert_eq!(second_pass.len(), 27);
    assert_eq!(second_pass[0].pos, center);
    for pair in second_pass.windows(2) {
        assert!(sq_dist(center, pair[0].pos) <= sq_dist(center, pair[1].pos));
    }
    for sent in second_pass.iter() {
        let decoded = sent.to_chunk().unwrap();
        assert_eq!(decoded.get_block_at((0, 0, 0)), 0);
    }
    let third_pass = s.stream_player(7, center);
    assert!(third_pass.is_empty());
}

#[test]
fn moving_away_drops_and_refetches_chunks() {
    let mut s = ServerState::new();
    let rd = RenderDistance { radius_x: 1, radius_y: 1, radius_z: 1 };
    s.handle_connect(9, rd);
    let center = pos(0, 0, 0);
    s.stream_player(9, center);
    while let Some(job) = s.jobs.pop() {
        let p = job.pos;
        s.install_chunk(Chunk::new(p));
    }
    let sent = s.stream_player(9, center);
    assert_eq!(sent.len(), 27);
    let far = pos(100, 0, 0);
    let sent_far = s.stream_player(9, far);
    assert!(sent_far.is_empty());
    assert_eq!(s.jobs.jobs.len(), 27);
    let views = vec![PlayerView { center: far, render_distance: rd }];
    s.evict_chunks(&views);
    s.update_generating(&views);
    assert!(s.world.get_chunk(center).is_none());
    while let Some(job) = s.jobs.pop() {
        s.install_chunk(Chunk::new(job.pos));
    }
    let sent_back = s.stream_player(9, far);
    assert_eq!(sent_back.len(), 27);
}

#[test]
fn install_schedules_neighborhood_relighting() {
    let mut s = ServerState::new();
    let rd = RenderDistance { radius_x: 1, radius_y: 1, radius_z: 1 };
    s.handle_connect(3, rd);
    let center = pos(0, 0, 0);
    s.stream_player(3, center);
    while let Some(job) = s.jobs.pop() {
        s.install_chunk(Chunk::new(job.pos));
    }
    assert!(!s.lighting.pending.is_empty());
    let pending_before = s.lighting.pending.len();
    s.light_tick();
    assert_eq!(s.lighting.pending.len(), pending_before - 1);
    let lit = s.lighting.pending.first().copied();
    s.light_tick();
    if let Some(p) = lit {
        assert!(s.world.get_light(p).is_some());
    }
}
