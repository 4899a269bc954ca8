use voxelith::block::{BlockState, ChunkPos};
use voxelith::chunk::{Chunk, MeshState, WORLD_HEIGHT};

#[test]
fn empty_chunk_layout() {
    let c = Chunk::empty(ChunkPos::new(2, -1));
    assert_eq!(c.pos, ChunkPos::new(2, -1));
    assert_eq!(c.mesh_state, MeshState::Dirty);
    assert_eq!(c.subchunks.len(), 24);
    assert_eq!(c.aabb.min, [32, 0, -16]);
    assert_eq!(c.aabb.max, [48, 384, 0]);
    assert!(c.subchunks.iter().all(|s| s.is_empty()));
    assert_eq!(c.get(0, 0, 0), BlockState(0));
    assert_eq!(c.get(15, 383, 15), BlockState(0));
}

#[test]
fn set_writes_one_block_and_marks_dirty() {
    let mut c = Chunk::empty(ChunkPos::new(0, 0));
    c.mesh_state = MeshState::Ready(0);
    c.set(3, 200, 7, BlockState(1));
    assert_eq!(c.get(3, 200, 7), BlockState(1));
    assert_eq!(c.get(3, 201, 7), BlockState(0));
    assert_eq!(c.get(4, 200, 7), BlockState(0));
    assert_eq!(c.mesh_state, MeshState::Dirty);
    assert!(!c.subchunks[12].is_empty());
    assert!(c.subchunks[11].is_empty());
}

#[test]
fn top_of_the_column() {
    let mut c = Chunk::empty(ChunkPos::new(-3, 4));
    c.set(15, 383, 0, BlockState(5));
    assert_eq!(c.get(15, 383, 0), BlockState(5));
    assert!(!c.subchunks[23].is_empty());
    assert_eq!(WORLD_HEIGHT, 384);
}

#[test]
fn mesh_states_compare() {
    assert_eq!(MeshState::Ready(2), MeshState::Ready(2));
    assert_ne!(MeshState::Ready(2), MeshState::Ready(1));
    assert_ne!(MeshState::Building, MeshState::Dirty);
}

#[test]
fn last_chunk_row_has_its_box() {
    let c = Chunk::empty(ChunkPos::new(134217727, -134217728));
    assert_eq!(c.aabb.min, [2147483632, 0, -2147483648]);
    assert_eq!(c.aabb.max, [2147483648, 384, -2147483632]);
}
