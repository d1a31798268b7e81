use voxel_core::chunk::{Chunk, ChunkPos};
use voxel_core::light::update_light;
use voxel_core::world::World;

fn pos(px: i64, py: i64, pz: i64) -> ChunkPos {
    ChunkPos { px, py, pz }
}

fn idx(x: usize, y: usize, z: usize) -> usize {
    x * 1024 + y * 32 + z
}

#[test]
fn set_get_and_remove_chunk() {
    let mut w = World::new();
    assert!(w.get_chunk(pos(0, 0, 0)).is_none());
    let mut c = Chunk::new(pos(0, 0, 0));
    c.set_block_at((1, 2, 3), 8);
    w.set_chunk(c);
    let got = w.get_chunk(pos(0, 0, 0)).unwrap();
    assert_eq!(got.get_block_at((1, 2, 3)), 8);
    let mut c2 = Chunk::new(pos(0, 0, 0));
    c2.set_block_at((1, 2, 3), 9);
    w.set_chunk(c2);
    assert_eq!(w.get_chunk(pos(0, 0, 0)).unwrap().get_block_at((1, 2, 3)), 9);
    w.remove_chunk(pos(0, 0, 0));
    assert!(w.get_chunk(pos(0, 0, 0)).is_none());
}

#[test]
fn column_height_tracks_highest_opaque_block() {
    let mut w = World::new();
    let mut c = Chunk::new(pos(0, 0, 0));
    c.set_block_at((0, 5, 0), 1);
    w.set_chunk(c);
    assert!(w.update_highest_opaque_block(pos(0, 0, 0)));
    assert!(!w.update_highest_opaque_block(pos(0, 0, 0)));
    let mut above = Chunk::new(pos(0, 3, 0));
    above.set_block_at((7, 0, 7), 1);
    w.set_chunk(above);
    assert!(w.update_highest_opaque_block(pos(0, 3, 0)));
    let below = Chunk::new(pos(0, -1, 0));
    w.set_chunk(below);
    assert!(!w.update_highest_opaque_block(pos(0, -1, 0)));
}

#[test]
fn light_fills_an_open_chunk_with_skylight() {
    let mut w = World::new();
    w.set_chunk(Chunk::new(pos(0, 0, 0)));
    update_light(&mut w, pos(0, 0, 0));
    let l = w.get_light(pos(0, 0, 0)).unwrap();
    assert_eq!(l.data.len(), 32768);
    assert_eq!(l.data[idx(0, 0, 0)], 15);
    assert_eq!(l.data[idx(31, 31, 31)], 15);
    assert_eq!(l.data[idx(16, 3, 16)], 15);
}

#[test]
fn light_stops_at_opaque_blocks_and_attenuates() {
    let mut w = World::new();
    let mut c = Chunk::new(pos(0, 0, 0));
    c.set_block_at((0, 5, 0), 1);
    w.set_chunk(c);
    update_light(&mut w, pos(0, 0, 0));
    let l = w.get_light(pos(0, 0, 0)).unwrap();
    assert_eq!(l.data[idx(0, 5, 0)], 0);
    assert_eq!(l.data[idx(0, 6, 0)], 15);
    assert_eq!(l.data[idx(1, 5, 0)], 14);
    assert_eq!(l.data[idx(0, 4, 0)], 12);
}

#[test]
fn light_skips_a_missing_chunk() {
    let mut w = World::new();
    update_light(&mut w, pos(9, 9, 9));
    assert!(w.get_light(pos(9, 9, 9)).is_none());
}
