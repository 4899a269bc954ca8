use voxelith::block::{BlockState, ChunkPos};
use voxelith::chunk::Chunk;
use voxelith::cull::{mesh_chunk, CullFace};
use voxelith::world::World;

#[test]
fn lone_block_shows_six_faces_in_order() {
    let mut c = Chunk::empty(ChunkPos::new(0, 0));
    c.set(0, 0, 0, BlockState(1));
    let mut w = World::new();
    w.insert(c.clone());
    let f = mesh_chunk(&c, &w);
    let expected: Vec<CullFace> = (0..6).map(|k| CullFace { x: 0, y: 0, z: 0, face: k, block: BlockState(1) }).collect();
    assert_eq!(f, expected);
}

#[test]
fn touching_blocks_hide_their_shared_faces() {
    let mut c = Chunk::empty(ChunkPos::new(0, 0));
    c.set(0, 0, 0, BlockState(1));
    c.set(1, 0, 0, BlockState(2));
    let mut w = World::new();
    w.insert(c.clone());
    let f = mesh_chunk(&c, &w);
    assert_eq!(f.len(), 10);
    assert!(!f.iter().any(|q| q.x == 0 && q.face == 0));
    assert!(!f.iter().any(|q| q.x == 1 && q.face == 1));
}

#[test]
fn neighbour_chunk_hides_the_border_wall() {
    let mut a = Chunk::empty(ChunkPos::new(0, 0));
    a.set(15, 0, 0, BlockState(1));
    let mut b = Chunk::empty(ChunkPos::new(1, 0));
    b.set(0, 0, 0, BlockState(1));
    let mut w = World::new();
    w.insert(a.clone());
    w.insert(b.clone());
    let fa = mesh_chunk(&a, &w);
    assert_eq!(fa.len(), 5);
    assert!(!fa.iter().any(|q| q.face == 0));
    let fb = mesh_chunk(&b, &w);
    assert_eq!(fb.len(), 5);
    assert!(fb.iter().all(|q| q.x == 16 && q.face != 1));
}

#[test]
fn unloaded_neighbour_counts_as_air() {
    let mut a = Chunk::empty(ChunkPos::new(-1, -1));
    a.set(0, 100, 0, BlockState(4));
    let w = World::new();
    let f = mesh_chunk(&a, &w);
    assert_eq!(f.len(), 6);
    assert!(f.iter().all(|q| q.x == -16 && q.y == 100 && q.z == -16 && q.block == BlockState(4)));
}

#[test]
fn faces_come_in_meshing_order() {
    let mut c = Chunk::empty(ChunkPos::new(2, 0));
    c.set(5, 3, 0, BlockState(1));
    c.set(0, 3, 1, BlockState(1));
    c.set(9, 1, 9, BlockState(1));
    let w = World::new();
    let f = mesh_chunk(&c, &w);
    assert_eq!(f.len(), 18);
    assert_eq!((f[0].x, f[0].y, f[0].z), (41, 1, 9));
    assert_eq!((f[6].x, f[6].y, f[6].z), (37, 3, 0));
    assert_eq!((f[12].x, f[12].y, f[12].z), (32, 3, 1));
}
