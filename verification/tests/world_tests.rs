use voxelith::block::{BlockState, ChunkPos};
use voxelith::chunk::{Chunk, MeshState};
use voxelith::world::{chunk_key_of, chunk_of_key, World};

#[test]
fn new_world_is_empty() {
    let w = World::new();
    assert_eq!(w.loaded_count(), 0);
    assert!(w.get(ChunkPos::new(0, 0)).is_none());
    assert!(w.iter().is_empty());
}

#[test]
fn insert_then_get() {
    let mut w = World::new();
    w.insert(Chunk::empty(ChunkPos::new(1, 2)));
    assert_eq!(w.loaded_count(), 1);
    assert_eq!(w.get(ChunkPos::new(1, 2)).map(|c| c.pos), Some(ChunkPos::new(1, 2)));
    assert!(w.get(ChunkPos::new(2, 1)).is_none());
}

#[test]
fn insert_replaces_the_same_position() {
    let mut w = World::new();
    w.insert(Chunk::empty(ChunkPos::new(-4, 9)));
    let mut c = Chunk::empty(ChunkPos::new(-4, 9));
    c.set(0, 0, 0, BlockState(1));
    w.insert(c);
    assert_eq!(w.loaded_count(), 1);
    assert_eq!(w.get(ChunkPos::new(-4, 9)).unwrap().get(0, 0, 0), BlockState(1));
}

#[test]
fn get_mut_edits_in_place() {
    let mut w = World::new();
    w.insert(Chunk::empty(ChunkPos::new(0, 0)));
    {
        let c = w.get_mut(ChunkPos::new(0, 0)).unwrap();
        c.set(1, 2, 3, BlockState(2));
        c.mesh_state = MeshState::Building;
    }
    assert!(w.get_mut(ChunkPos::new(5, 5)).is_none());
    let c = w.get(ChunkPos::new(0, 0)).unwrap();
    assert_eq!(c.get(1, 2, 3), BlockState(2));
    assert_eq!(c.mesh_state, MeshState::Building);
}

#[test]
fn iter_visits_each_chunk_once() {
    let mut w = World::new();
    for x in -2..3 {
        w.insert(Chunk::empty(ChunkPos::new(x, 7)));
    }
    let mut xs: Vec<i32> = w.iter().iter().map(|c| c.pos.x).collect();
    xs.sort();
    assert_eq!(xs, vec![-2, -1, 0, 1, 2]);
}

#[test]
fn block_at_reads_across_chunks() {
    let mut w = World::new();
    let mut a = Chunk::empty(ChunkPos::new(0, 0));
    a.set(1, 5, 2, BlockState(1));
    w.insert(a);
    let mut b = Chunk::empty(ChunkPos::new(-1, -1));
    b.set(15, 10, 15, BlockState(7));
    w.insert(b);
    assert_eq!(w.block_at(1, 5, 2), BlockState(1));
    assert_eq!(w.block_at(-1, 10, -1), BlockState(7));
    assert_eq!(w.block_at(-16, 10, -16), BlockState(0));
    assert_eq!(w.block_at(1, 4, 2), BlockState(0));
}

#[test]
fn block_at_outside_is_air() {
    let mut w = World::new();
    let mut a = Chunk::empty(ChunkPos::new(0, 0));
    a.set(0, 0, 0, BlockState(1));
    w.insert(a);
    assert_eq!(w.block_at(0, -1, 0), BlockState(0));
    assert_eq!(w.block_at(0, 384, 0), BlockState(0));
    assert_eq!(w.block_at(100, 0, 0), BlockState(0));
    assert_eq!(w.block_at(i32::MIN, 0, i32::MAX), BlockState(0));
}

#[test]
fn chunk_keys_round_trip() {
    for p in [ChunkPos::new(0, 0), ChunkPos::new(-1, 1), ChunkPos::new(i32::MIN, i32::MAX), ChunkPos::new(123, -456)] {
        assert_eq!(chunk_of_key(chunk_key_of(p)), p);
    }
    assert_ne!(chunk_key_of(ChunkPos::new(1, 0)), chunk_key_of(ChunkPos::new(0, 1)));
}
