use voxelith::biome::biomes;
use voxelith::block::{BlockState, ChunkPos};
use voxelith::chunk::MeshState;
use voxelith::worldgen::{block_at, block_for, generate_chunk, Column, SEA_LEVEL};

#[test]
fn layering_above_sea() {
    let plains = biomes()[0];
    assert_eq!(block_for(80, 70, &plains), BlockState(0));
    assert_eq!(block_for(70, 70, &plains), BlockState(3));
    assert_eq!(block_for(69, 70, &plains), BlockState(2));
    assert_eq!(block_for(67, 70, &plains), BlockState(2));
    assert_eq!(block_for(66, 70, &plains), BlockState(1));
    assert_eq!(block_for(0, 70, &plains), BlockState(1));
}

#[test]
fn layering_under_sea() {
    let forest = biomes()[1];
    assert_eq!(SEA_LEVEL, 62);
    assert_eq!(block_for(62, 50, &forest), BlockState(6));
    assert_eq!(block_for(51, 50, &forest), BlockState(6));
    assert_eq!(block_for(63, 50, &forest), BlockState(0));
    assert_eq!(block_for(50, 50, &forest), BlockState(4));
    assert_eq!(block_for(62, 62, &forest), BlockState(4));
    assert_eq!(block_for(49, 50, &forest), BlockState(2));
}

#[test]
fn desert_surface_and_filler() {
    let desert = biomes()[3];
    assert_eq!(block_for(90, 90, &desert), BlockState(4));
    assert_eq!(block_for(88, 90, &desert), BlockState(4));
    assert_eq!(block_for(86, 90, &desert), BlockState(1));
}

#[test]
fn below_the_world_is_stone() {
    let snowy = biomes()[4];
    assert_eq!(block_at(-1, 70, &snowy), BlockState(1));
    assert_eq!(block_at(-100, 70, &snowy), BlockState(1));
    assert_eq!(block_at(70, 70, &snowy), BlockState(5));
}

#[test]
fn generated_chunk_follows_its_columns() {
    let b = biomes();
    let mut columns = Vec::new();
    for z in 0..16 {
        for x in 0..16 {
            let height = if x == 0 && z == 0 { 40 } else { 64 + x as i32 };
            columns.push(Column { height, biome: b[(x + z) % 6] });
        }
    }
    let c = generate_chunk(ChunkPos::new(1, 1), &columns);
    assert_eq!(c.pos, ChunkPos::new(1, 1));
    assert_eq!(c.mesh_state, MeshState::Dirty);
    assert_eq!(c.get(0, 40, 0), BlockState(4));
    assert_eq!(c.get(0, 41, 0), BlockState(6));
    assert_eq!(c.get(0, 62, 0), BlockState(6));
    assert_eq!(c.get(0, 63, 0), BlockState(0));
    assert_eq!(c.get(3, 67, 0), b[3].surface);
    assert_eq!(c.get(3, 66, 0), b[3].filler);
    assert_eq!(c.get(3, 10, 0), BlockState(1));
    assert_eq!(c.get(3, 68, 0), BlockState(0));
    assert_eq!(c.get(15, 79, 15), b[0].surface);
    for z in 0..16 {
        for x in 0..16 {
            let col = columns[x + 16 * z];
            for y in [0usize, 30, 61, 62, 63, 64, 70, 79, 80, 200, 383] {
                assert_eq!(c.get(x, y, z), block_for(y as i32, col.height, &col.biome));
            }
        }
    }
}
