use voxelith::block::{local_index, BlockState, ChunkPos, SUBCHUNKS_PER_CHUNK, SUBCHUNK_SIZE, SUBCHUNK_VOLUME};

#[test]
fn air_is_the_zero_state() {
    assert!(BlockState(0).is_air());
    assert!(!BlockState(0).is_solid());
    assert!(!BlockState(3).is_air());
    assert!(BlockState(3).is_solid());
    assert!(BlockState(u16::MAX).is_solid());
}

#[test]
fn chunk_pos_keeps_its_coordinates() {
    let p = ChunkPos::new(3, -2);
    assert_eq!(p.x, 3);
    assert_eq!(p.z, -2);
}

#[test]
fn world_origin_is_sixteen_blocks_per_chunk() {
    assert_eq!(ChunkPos::new(0, 0).world_origin(), (0, 0));
    assert_eq!(ChunkPos::new(-1, 2).world_origin(), (-16, 32));
    assert_eq!(ChunkPos::new(5, -7).world_origin(), (80, -112));
}

#[test]
fn local_index_is_y_then_z_then_x() {
    assert_eq!(local_index(0, 0, 0), 0);
    assert_eq!(local_index(1, 0, 0), 1);
    assert_eq!(local_index(0, 0, 1), 16);
    assert_eq!(local_index(0, 1, 0), 256);
    assert_eq!(local_index(1, 2, 3), 561);
    assert_eq!(local_index(15, 15, 15), 4095);
}

#[test]
fn grid_constants() {
    assert_eq!(SUBCHUNK_SIZE, 16);
    assert_eq!(SUBCHUNK_VOLUME, 4096);
    assert_eq!(SUBCHUNKS_PER_CHUNK, 24);
}
