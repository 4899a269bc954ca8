use voxelith::block::BlockState;
use voxelith::registry::{face_texture, kind, name, renders_against, BlockKind, Face, GRASS, LEAVES, STONE, WATER};

#[test]
fn kinds() {
    assert_eq!(kind(BlockState(0)), BlockKind::Air);
    assert_eq!(kind(BlockState(STONE)), BlockKind::Solid);
    assert_eq!(kind(BlockState(WATER)), BlockKind::Liquid);
    assert_eq!(kind(BlockState(LEAVES)), BlockKind::Solid);
    assert_eq!(kind(BlockState(500)), BlockKind::Solid);
}

#[test]
fn face_from_normal() {
    assert_eq!(Face::from_normal(1), Face::Top);
    assert_eq!(Face::from_normal(-1), Face::Bottom);
    assert_eq!(Face::from_normal(0), Face::Side);
    assert_eq!(Face::from_normal(2), Face::Side);
}

#[test]
fn grass_has_three_textures() {
    assert_eq!(face_texture(BlockState(GRASS), Face::Top), 2);
    assert_eq!(face_texture(BlockState(GRASS), Face::Bottom), 1);
    assert_eq!(face_texture(BlockState(GRASS), Face::Side), 3);
}

#[test]
fn other_textures() {
    let expected = [(1u16, 0u32), (2, 1), (4, 4), (5, 5), (6, 6), (7, 7), (8, 8), (9, 9)];
    for (id, layer) in expected {
        for f in [Face::Top, Face::Bottom, Face::Side] {
            assert_eq!(face_texture(BlockState(id), f), layer);
        }
    }
    assert_eq!(face_texture(BlockState(42), Face::Top), 0);
    assert_eq!(face_texture(BlockState(0), Face::Side), 0);
}

#[test]
fn names() {
    let expected = ["air", "stone", "dirt", "grass", "sand", "snow", "water", "gravel", "wood", "leaves"];
    for (id, n) in expected.iter().enumerate() {
        assert_eq!(name(BlockState(id as u16)), *n);
    }
    assert_eq!(name(BlockState(10)), "?");
    assert_eq!(name(BlockState(u16::MAX)), "?");
}

#[test]
fn visibility_rule() {
    let air = BlockState(0);
    let stone = BlockState(STONE);
    let water = BlockState(WATER);
    assert!(renders_against(stone, air));
    assert!(renders_against(stone, water));
    assert!(!renders_against(stone, stone));
    assert!(renders_against(water, air));
    assert!(!renders_against(water, water));
    assert!(!renders_against(water, stone));
    assert!(!renders_against(air, stone));
    assert!(!renders_against(air, air));
}

#[test]
fn one_face_per_pair() {
    for a in 0u16..12 {
        for b in 0u16..12 {
            assert!(!(renders_against(BlockState(a), BlockState(b)) && renders_against(BlockState(b), BlockState(a))));
        }
    }
}
