use voxelith::biome::{biomes, BIOME_COUNT};
use voxelith::block::BlockState;

#[test]
fn biome_table() {
    let b = biomes();
    assert_eq!(b.len(), BIOME_COUNT);
    let names: Vec<&str> = b.iter().map(|x| x.name).collect();
    assert_eq!(names, vec!["plains", "forest", "savanna", "desert", "snowy", "taiga"]);
    assert_eq!(b[0].surface, BlockState(3));
    assert_eq!(b[0].filler, BlockState(2));
    assert_eq!(b[0].grass_tint, [120, 184, 88]);
    assert_eq!(b[3].surface, BlockState(4));
    assert_eq!(b[3].filler, BlockState(4));
    assert_eq!(b[4].surface, BlockState(5));
    assert_eq!(b[5].grass_tint, [96, 150, 110]);
}
