use voxel_core::chunk::{Chunk, ChunkPos, CodecError, CompressedChunk};

fn pos(px: i64, py: i64, pz: i64) -> ChunkPos {
    ChunkPos { px, py, pz }
}

#[test]
fn round_trip_varied_chunk() {
    let data: Vec<u16> = (0..32768u32).map(|i| (i % 5) as u16).collect();
    let chunk = Chunk { pos: pos(1, -2, 3), data: data.clone() };
    let compressed = CompressedChunk::from_chunk(&chunk);
    let back = compressed.to_chunk().unwrap();
    assert_eq!(back.pos, pos(1, -2, 3));
    assert_eq!(back.data, data);
}

#[test]
fn round_trip_edited_chunk() {
    let mut chunk = Chunk::new(pos(0, 0, 0));
    chunk.set_block_at((0, 0, 0), 9);
    chunk.set_block_at((31, 31, 31), 4);
    chunk.set_block_at((5, 6, 7), 1);
    let compressed = CompressedChunk::from_chunk(&chunk);
    let back = compressed.to_chunk().unwrap();
    assert_eq!(back.get_block_at((0, 0, 0)), 9);
    assert_eq!(back.get_block_at((31, 31, 31)), 4);
    assert_eq!(back.get_block_at((5, 6, 7)), 1);
    assert_eq!(back.get_block_at((1, 1, 1)), 0);
    assert_eq!(back.data, chunk.data);
}

#[test]
fn uniform_chunk_is_one_run() {
    let chunk = Chunk { pos: pos(0, 0, 0), data: vec![7u16; 32768] };
    let compressed = CompressedChunk::from_chunk(&chunk);
    assert_eq!(compressed.data, vec![(32768u16, 7u16)]);
}

#[test]
fn alternating_chunk_is_one_run_per_block() {
    let data: Vec<u16> = (0..32768u32).map(|i| (i % 2) as u16).collect();
    let chunk = Chunk { pos: pos(0, 0, 0), data };
    let compressed = CompressedChunk::from_chunk(&chunk);
    assert_eq!(compressed.data.len(), 32768);
    assert_eq!(compressed.data[0], (1, 0));
    assert_eq!(compressed.data[1], (1, 1));
}

#[test]
fn two_blocks_are_two_runs() {
    let mut data = vec![0u16; 32768];
    for cell in data.iter_mut().take(100) {
        *cell = 3;
    }
    let chunk = Chunk { pos: pos(0, 0, 0), data };
    let compressed = CompressedChunk::from_chunk(&chunk);
    assert_eq!(compressed.data, vec![(100u16, 3u16), (32668u16, 0u16)]);
}

#[test]
fn decode_rejects_short_data() {
    let compressed = CompressedChunk { pos: pos(0, 0, 0), data: vec![(100, 1)] };
    assert!(matches!(compressed.to_chunk(), Err(CodecError::CorruptChunkData)));
}

#[test]
fn decode_rejects_long_data() {
    let compressed =
        CompressedChunk { pos: pos(0, 0, 0), data: vec![(30000, 1), (30000, 2)] };
    assert!(matches!(compressed.to_chunk(), Err(CodecError::CorruptChunkData)));
}

#[test]
fn decode_accepts_exact_data() {
    let compressed =
        CompressedChunk { pos: pos(2, 2, 2), data: vec![(30000, 1), (2768, 2)] };
    let chunk = compressed.to_chunk().unwrap();
    assert_eq!(chunk.pos, pos(2, 2, 2));
    assert_eq!(chunk.data[0], 1);
    assert_eq!(chunk.data[29999], 1);
    assert_eq!(chunk.data[30000], 2);
    assert_eq!(chunk.data[32767], 2);
}

#[test]
fn decode_accepts_zero_length_runs_when_total_is_exact() {
    let compressed =
        CompressedChunk { pos: pos(0, 0, 0), data: vec![(32768, 5), (0, 9)] };
    let chunk = compressed.to_chunk().unwrap();
    assert_eq!(chunk.data[0], 5);
    assert_eq!(chunk.data[32767], 5);
}

#[test]
fn offset_moves_position() {
    let p = pos(1, 2, 3).offset(-4, 5, -6);
    assert_eq!(p, pos(-3, 7, -3));
}
