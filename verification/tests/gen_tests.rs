use voxelith::block::{BlockState, ChunkPos};
use voxelith::gen::{block_at, generate_chunk};

#[test]
fn depth_layering() {
    assert_eq!(block_at(63, 64), BlockState(3));
    assert_eq!(block_at(62, 64), BlockState(2));
    assert_eq!(block_at(60, 64), BlockState(2));
    assert_eq!(block_at(59, 64), BlockState(1));
    assert_eq!(block_at(0, 64), BlockState(1));
    assert_eq!(block_at(0, 1), BlockState(3));
}

#[test]
fn height_map_chunk() {
    let mut heights = vec![64usize; 256];
    heights[0] = 1;
    heights[17] = 400;
    let c = generate_chunk(ChunkPos::new(0, -1), &heights);
    assert_eq!(c.pos, ChunkPos::new(0, -1));
    assert_eq!(c.get(0, 0, 0), BlockState(3));
    assert_eq!(c.get(0, 1, 0), BlockState(0));
    assert_eq!(c.get(5, 63, 5), BlockState(3));
    assert_eq!(c.get(5, 64, 5), BlockState(0));
    assert_eq!(c.get(5, 61, 5), BlockState(2));
    assert_eq!(c.get(5, 59, 5), BlockState(1));
    assert_eq!(c.get(1, 383, 1), BlockState(1));
}

#[test]
fn last_chunk_row_generates() {
    let c = generate_chunk(ChunkPos::new(134217727, 134217727), &vec![10usize; 256]);
    assert_eq!(c.get(15, 9, 15), BlockState(3));
    assert_eq!(c.aabb.max[0], 2147483648);
}
