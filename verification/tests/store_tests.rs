use voxelith::block::{BlockState, ChunkPos};
use voxelith::chunk::{Chunk, MeshState};
use voxelith::store::WorldStore;

#[test]
fn new_store_keeps_its_seed() {
    let s = WorldStore::new(1234);
    assert_eq!(s.seed(), 1234);
    assert!(s.export_overrides().is_empty());
    assert_eq!(s.edited_block(0, 0, 0), None);
}

#[test]
fn unedited_blocks_come_from_the_generator() {
    let s = WorldStore::new(0);
    assert_eq!(s.block_at(5, 70, -3, BlockState(3)), BlockState(3));
    assert!(s.is_solid(5, 70, -3, BlockState(1)));
    assert!(!s.is_solid(5, 70, -3, BlockState(0)));
    assert!(!s.is_solid(5, 70, -3, BlockState(6)));
}

#[test]
fn edit_then_read() {
    let mut s = WorldStore::new(7);
    s.set_block(5, 70, -3, BlockState(0));
    assert_eq!(s.block_at(5, 70, -3, BlockState(3)), BlockState(0));
    assert!(!s.is_solid(5, 70, -3, BlockState(3)));
    assert_eq!(s.edited_block(5, 70, -3), Some(BlockState(0)));
    assert_eq!(s.block_at(5, 71, -3, BlockState(3)), BlockState(3));
    s.set_block(5, 70, -3, BlockState(8));
    assert_eq!(s.block_at(5, 70, -3, BlockState(0)), BlockState(8));
    assert_eq!(s.export_overrides().len(), 1);
    assert_eq!(s.seed(), 7);
}

#[test]
fn extreme_positions_are_distinct() {
    let mut s = WorldStore::new(0);
    s.set_block(i32::MIN, i32::MIN, i32::MIN, BlockState(1));
    s.set_block(i32::MAX, i32::MAX, i32::MAX, BlockState(2));
    s.set_block(-1, 0, 0, BlockState(3));
    assert_eq!(s.edited_block(i32::MIN, i32::MIN, i32::MIN), Some(BlockState(1)));
    assert_eq!(s.edited_block(i32::MAX, i32::MAX, i32::MAX), Some(BlockState(2)));
    assert_eq!(s.edited_block(-1, 0, 0), Some(BlockState(3)));
    assert_eq!(s.edited_block(0, 0, -1), None);
}

#[test]
fn export_lists_each_edit_once() {
    let mut s = WorldStore::new(0);
    s.set_block(1, 2, 3, BlockState(4));
    s.set_block(-5, 6, -7, BlockState(0));
    s.set_block(1, 2, 3, BlockState(9));
    let mut out = s.export_overrides();
    out.sort();
    assert_eq!(out, vec![(-5, 6, -7, 0), (1, 2, 3, 9)]);
}

#[test]
fn export_then_import_round_trips() {
    let mut s = WorldStore::new(3);
    s.set_block(1, 2, 3, BlockState(4));
    s.set_block(-20, 100, 40, BlockState(0));
    s.set_block(15, 383, 15, BlockState(8));
    let saved = s.export_overrides();
    let mut t = WorldStore::new(3);
    t.import_overrides(&saved);
    let mut a = s.export_overrides();
    let mut b = t.export_overrides();
    a.sort();
    b.sort();
    assert_eq!(a, b);
    assert_eq!(t.block_at(-20, 100, 40, BlockState(1)), BlockState(0));
}

#[test]
fn import_later_entries_win() {
    let mut s = WorldStore::new(0);
    s.set_block(0, 0, 0, BlockState(1));
    s.import_overrides(&[(0, 0, 0, 2), (1, 1, 1, 3), (0, 0, 0, 5)]);
    assert_eq!(s.edited_block(0, 0, 0), Some(BlockState(5)));
    assert_eq!(s.edited_block(1, 1, 1), Some(BlockState(3)));
    assert_eq!(s.export_overrides().len(), 2);
}

#[test]
fn generate_chunk_applies_column_edits() {
    let mut s = WorldStore::new(0);
    s.set_block(17, 10, -14, BlockState(7));
    s.set_block(16, 383, -16, BlockState(1));
    s.set_block(0, 10, 0, BlockState(5));
    s.set_block(17, 400, -14, BlockState(5));
    s.set_block(17, -1, -14, BlockState(5));
    let mut generated = Chunk::empty(ChunkPos::new(1, -1));
    generated.set(1, 10, 2, BlockState(2));
    generated.set(1, 11, 2, BlockState(2));
    generated.mesh_state = MeshState::Ready(0);
    let c = s.generate_chunk(generated);
    assert_eq!(c.pos, ChunkPos::new(1, -1));
    assert_eq!(c.get(1, 10, 2), BlockState(7));
    assert_eq!(c.get(1, 11, 2), BlockState(2));
    assert_eq!(c.get(0, 383, 0), BlockState(1));
    assert_eq!(c.get(0, 10, 0), BlockState(0));
    assert_eq!(c.mesh_state, MeshState::Dirty);
}

#[test]
fn generate_chunk_without_edits_is_unchanged() {
    let mut s = WorldStore::new(0);
    s.set_block(100, 10, 100, BlockState(7));
    let mut generated = Chunk::empty(ChunkPos::new(0, 0));
    generated.set(3, 3, 3, BlockState(1));
    generated.mesh_state = MeshState::Ready(1);
    let c = s.generate_chunk(generated);
    assert_eq!(c.get(3, 3, 3), BlockState(1));
    assert_eq!(c.mesh_state, MeshState::Ready(1));
}

#[test]
fn edits_reach_the_last_chunk_row() {
    let mut s = WorldStore::new(0);
    s.set_block(i32::MAX, 5, 0, BlockState(2));
    let c = s.generate_chunk(Chunk::empty(ChunkPos::new(134217727, 0)));
    assert_eq!(c.get(15, 5, 0), BlockState(2));
    assert_eq!(c.mesh_state, MeshState::Dirty);
}
