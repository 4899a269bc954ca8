use voxelith::block::ChunkPos;
use voxelith::edit::touched_chunks;

fn cp(x: i32, z: i32) -> ChunkPos {
    ChunkPos::new(x, z)
}

#[test]
fn inner_block_touches_one_chunk() {
    assert_eq!(touched_chunks(5, 5), vec![cp(0, 0)]);
    assert_eq!(touched_chunks(-8, 40), vec![cp(-1, 2)]);
}

#[test]
fn corner_block_touches_three_chunks() {
    assert_eq!(touched_chunks(0, 0), vec![cp(0, 0), cp(-1, 0), cp(0, -1)]);
    assert_eq!(touched_chunks(15, 31), vec![cp(0, 1), cp(1, 1), cp(0, 2)]);
}

#[test]
fn negative_coordinates_use_floor_division() {
    assert_eq!(touched_chunks(-1, -16), vec![cp(-1, -1), cp(0, -1), cp(-1, -2)]);
    assert_eq!(touched_chunks(-17, 7), vec![cp(-2, 0), cp(-1, 0)]);
}

#[test]
fn edge_blocks() {
    assert_eq!(touched_chunks(16, 8), vec![cp(1, 0), cp(0, 0)]);
    assert_eq!(touched_chunks(8, 47), vec![cp(0, 2), cp(0, 3)]);
    assert_eq!(touched_chunks(i32::MIN, i32::MAX), vec![cp(-134217728, 134217727), cp(-134217729, 134217727), cp(-134217728, 134217728)]);
}

#[test]
fn every_neighbour_chunk_is_touched() {
    for (wx, wz) in [(0, 0), (15, 15), (16, 31), (-1, -1), (-16, 47), (7, -33), (i32::MIN + 1, i32::MAX - 1)] {
        let t = touched_chunks(wx, wz);
        for (dx, dz) in [(0i64, 0i64), (-1, 0), (1, 0), (0, -1), (0, 1)] {
            let x = wx as i64 + dx;
            let z = wz as i64 + dz;
            let c = cp(x.div_euclid(16) as i32, z.div_euclid(16) as i32);
            assert!(t.contains(&c), "{:?} misses {:?}", (wx, wz), c);
        }
    }
}
