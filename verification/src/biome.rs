//! Biome table: surface and filler blocks plus grass tint of each overworld biome.
//! Choosing a biome from the climate is done by the caller from the climate noise.

use vstd::prelude::*;
use crate::block::BlockState;
use crate::registry::{DIRT, GRASS, SAND, SNOW};

verus! {

/// Overworld biome: surface/filler blocks and grass tint.
#[derive(Debug, Clone, Copy)]
pub struct Biome {
    pub name: &'static str,
    pub surface: BlockState,
    pub filler: BlockState,
    pub grass_tint: [u8; 3],
}

/// Number of biomes in the table.
pub const BIOME_COUNT: usize = 6;

/// Name, surface id, filler id and tint of table entry `i`.
pub open spec fn biome_entry(i: int) -> (Seq<char>, u16, u16, Seq<u8>) {
    if i == 0 {
        ("plains"@, GRASS, DIRT, seq![120u8, 184u8, 88u8])
    } else if i == 1 {
        ("forest"@, GRASS, DIRT, seq![86u8, 156u8, 64u8])
    } else if i == 2 {
        ("savanna"@, GRASS, DIRT, seq![186u8, 178u8, 96u8])
    } else if i == 3 {
        ("desert"@, SAND, SAND, seq![200u8, 190u8, 120u8])
    } else if i == 4 {
        ("snowy"@, SNOW, DIRT, seq![158u8, 196u8, 176u8])
    } else {
        ("taiga"@, GRASS, DIRT, seq![96u8, 150u8, 110u8])
    }
}

/// `true` when `b` is table entry `i`.
pub open spec fn is_biome_entry(b: Biome, i: int) -> bool {
    let e = biome_entry(i);
    &&& b.name@ == e.0
    &&& b.surface == BlockState(e.1)
    &&& b.filler == BlockState(e.2)
    &&& b.grass_tint@ == e.3
}

fn entry(name: &'static str, surface: u16, filler: u16, r: u8, g: u8, b: u8) -> (e: Biome)
    ensures
        e.name == name,
        e.surface == BlockState(surface),
        e.filler == BlockState(filler),
        e.grass_tint@ == seq![r, g, b],
{
    let e = Biome { name, surface: BlockState(surface), filler: BlockState(filler), grass_tint: [r, g, b] };
    assert(e.grass_tint@ =~= seq![r, g, b]);
    e
}

/// The biome table (plains, forest, savanna, desert, snowy, taiga).
pub fn biomes() -> (r: Vec<Biome>)
    ensures
        r@.len() == BIOME_COUNT,
        forall|i: int| 0 <= i < BIOME_COUNT ==> is_biome_entry(#[trigger] r@[i], i),
{
    let mut v: Vec<Biome> = Vec::new();
    v.push(entry("plains", GRASS, DIRT, 120, 184, 88));
    v.push(entry("forest", GRASS, DIRT, 86, 156, 64));
    v.push(entry("savanna", GRASS, DIRT, 186, 178, 96));
    v.push(entry("desert", SAND, SAND, 200, 190, 120));
    v.push(entry("snowy", SNOW, DIRT, 158, 196, 176));
    v.push(entry("taiga", GRASS, DIRT, 96, 150, 110));
    v
}

/// Surface and filler of the biome table: desert is sand all the way down, snowy
/// is topped with snow over dirt, and plains, forest, savanna and taiga are grass
/// over dirt.
pub proof fn law_biome_layers(b: Biome, i: int)
    requires
        0 <= i < BIOME_COUNT,
        is_biome_entry(b, i),
    ensures
        i == 3 ==> b.surface == BlockState(4) && b.filler == BlockState(4),
        i == 4 ==> b.surface == BlockState(5) && b.filler == BlockState(2),
        i != 3 && i != 4 ==> b.surface == BlockState(3) && b.filler == BlockState(2),
{
}

} // verus!
