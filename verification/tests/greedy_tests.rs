use voxelith::block::{BlockState, ChunkPos};
use voxelith::chunk::Chunk;
use voxelith::greedy::{mesh_chunk, Border, Quad, Tint};

fn white() -> Tint {
    Tint { r: 255, g: 255, b: 255 }
}

fn air_border() -> Border {
    Border {
        west: vec![BlockState(0); 6144],
        east: vec![BlockState(0); 6144],
        north: vec![BlockState(0); 6144],
        south: vec![BlockState(0); 6144],
        below: vec![BlockState(0); 256],
        above: vec![BlockState(0); 256],
        tints: vec![white(); 324],
    }
}

fn area(qs: &[Quad]) -> usize {
    qs.iter().map(|q| q.w * q.h).sum()
}

fn sides(qs: &[Quad]) -> Vec<(usize, i32, bool)> {
    let mut v: Vec<(usize, i32, bool)> = qs.iter().map(|q| (q.axis, q.plane, q.mask.positive)).collect();
    v.sort();
    v
}

#[test]
fn empty_chunk_has_no_quads() {
    let c = Chunk::empty(ChunkPos::new(0, 0));
    assert!(mesh_chunk(&c, &air_border()).is_empty());
}

#[test]
fn single_block_has_six_unit_quads() {
    let mut c = Chunk::empty(ChunkPos::new(0, 0));
    c.set(0, 0, 0, BlockState(1));
    let q = mesh_chunk(&c, &air_border());
    assert_eq!(q.len(), 6);
    assert!(q.iter().all(|x| x.w == 1 && x.h == 1 && x.i == 0 && x.j == 0));
    assert!(q.iter().all(|x| x.mask.layer == 0 && x.mask.tint == white()));
    assert_eq!(sides(&q), vec![(0, 0, false), (0, 1, true), (1, 0, false), (1, 1, true), (2, 0, false), (2, 1, true)]);
}

#[test]
fn full_layer_merges_into_six_quads() {
    let mut c = Chunk::empty(ChunkPos::new(3, -2));
    for z in 0..16 {
        for x in 0..16 {
            c.set(x, 0, z, BlockState(1));
        }
    }
    let q = mesh_chunk(&c, &air_border());
    assert_eq!(q.len(), 6);
    assert_eq!(area(&q), 256 + 256 + 4 * 16);
    let top = q.iter().find(|x| x.axis == 1 && x.plane == 1).unwrap();
    assert_eq!((top.i, top.j, top.w, top.h), (0, 0, 16, 16));
    assert!(top.mask.positive);
}

#[test]
fn solid_neighbour_hides_the_border_face() {
    let mut c = Chunk::empty(ChunkPos::new(0, 0));
    c.set(15, 0, 0, BlockState(1));
    let mut bd = air_border();
    for k in 0..6144 {
        bd.east[k] = BlockState(1);
    }
    let q = mesh_chunk(&c, &bd);
    assert!(!q.iter().any(|x| x.axis == 0 && x.plane == 16 && x.mask.positive));
    let inward: Vec<&Quad> = q.iter().filter(|x| x.axis == 0 && x.plane == 16).collect();
    assert_eq!(area(&q) - inward.iter().map(|x| x.w * x.h).sum::<usize>(), 5);
    assert_eq!(inward.iter().map(|x| x.w * x.h).sum::<usize>(), 384 * 16 - 1);
    assert_eq!(q.len(), 7);
}

#[test]
fn border_block_shows_its_face_into_the_chunk() {
    let c = Chunk::empty(ChunkPos::new(0, 0));
    let mut bd = air_border();
    bd.west[5 * 16 + 7] = BlockState(1);
    let q = mesh_chunk(&c, &bd);
    assert_eq!(q.len(), 1);
    assert_eq!((q[0].axis, q[0].plane, q[0].i, q[0].j, q[0].w, q[0].h), (0, 0, 5, 7, 1, 1));
    assert!(q[0].mask.positive);
}

#[test]
fn grass_faces_carry_textures_and_tint() {
    let mut c = Chunk::empty(ChunkPos::new(0, 0));
    c.set(2, 5, 3, BlockState(3));
    let mut bd = air_border();
    let green = Tint { r: 10, g: 200, b: 30 };
    bd.tints[(3 + 1) * 18 + (2 + 1)] = green;
    let q = mesh_chunk(&c, &bd);
    assert_eq!(q.len(), 6);
    assert!(q.iter().all(|x| x.mask.tint == green));
    let top = q.iter().find(|x| x.axis == 1 && x.plane == 6).unwrap();
    assert_eq!(top.mask.layer, 2);
    let bottom = q.iter().find(|x| x.axis == 1 && x.plane == 5).unwrap();
    assert_eq!(bottom.mask.layer, 1);
    assert!(q.iter().filter(|x| x.axis != 1).all(|x| x.mask.layer == 3));
}

#[test]
fn water_next_to_stone() {
    let mut c = Chunk::empty(ChunkPos::new(0, 0));
    c.set(0, 0, 0, BlockState(6));
    c.set(1, 0, 0, BlockState(1));
    let q = mesh_chunk(&c, &air_border());
    assert_eq!(q.len(), 11);
    let between: Vec<&Quad> = q.iter().filter(|x| x.axis == 0 && x.plane == 1).collect();
    assert_eq!(between.len(), 1);
    assert!(!between[0].mask.positive);
    assert_eq!(between[0].mask.layer, 0);
}

#[test]
fn quads_of_a_slice_never_overlap() {
    let mut c = Chunk::empty(ChunkPos::new(0, 0));
    for x in 0..16 {
        for z in 0..16 {
            if (x * 7 + z * 3) % 5 != 0 {
                c.set(x, 10, z, BlockState(((x + z) % 3 + 1) as u16));
            }
        }
    }
    let q = mesh_chunk(&c, &air_border());
    let tops: Vec<&Quad> = q.iter().filter(|x| x.axis == 1 && x.plane == 11).collect();
    let mut seen = vec![false; 256];
    for t in &tops {
        for a in t.i..t.i + t.w {
            for b in t.j..t.j + t.h {
                assert!(!seen[a * 16 + b]);
                seen[a * 16 + b] = true;
            }
        }
    }
    let solid = (0..256).filter(|k| (k / 16 * 7 + k % 16 * 3) % 5 != 0).count();
    assert_eq!(seen.iter().filter(|s| **s).count(), solid);
}
