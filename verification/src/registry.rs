//! Block registry: identifiers, render category and per-face textures. Keeps the
//! logical grid (`BlockState`) apart from how a block looks.

use vstd::prelude::*;
use crate::block::BlockState;
use crate::texture::{TEX_STONE, TEX_DIRT, TEX_GRASS_TOP, TEX_GRASS_SIDE, TEX_SAND, TEX_SNOW, TEX_WATER, TEX_GRAVEL, TEX_WOOD, TEX_LEAVES};

verus! {

pub const AIR: u16 = 0;
pub const STONE: u16 = 1;
pub const DIRT: u16 = 2;
pub const GRASS: u16 = 3;
pub const SAND: u16 = 4;
pub const SNOW: u16 = 5;
pub const WATER: u16 = 6;
pub const GRAVEL: u16 = 7;
pub const WOOD: u16 = 8;
pub const LEAVES: u16 = 9;

/// Render category of a block: drives the face visibility rule.
#[derive(Debug, Clone, Copy, PartialEq, Eq, Structural)]
pub enum BlockKind {
    Air,
    Solid,
    Liquid,
}

/// Face of a block, for texture selection (derived from the normal).
#[derive(Debug, Clone, Copy, PartialEq, Eq, Structural)]
pub enum Face {
    Top,
    Bottom,
    Side,
}

/// Face for a normal whose vertical component is `ny`.
pub open spec fn face_of(ny: int) -> Face {
    if ny == 1 {
        Face::Top
    } else if ny == -1 {
        Face::Bottom
    } else {
        Face::Side
    }
}

impl Face {
    /// Face from the normal offset (only the Y component matters).
    pub fn from_normal(ny: i32) -> (r: Self)
        ensures
            r == face_of(ny as int),
    {
        match ny {
            1 => Face::Top,
            -1 => Face::Bottom,
            _ => Face::Side,
        }
    }
}

/// Render category: air is air, water is liquid, everything else is solid.
pub open spec fn kind_of(b: BlockState) -> BlockKind {
    if b.0 == AIR {
        BlockKind::Air
    } else if b.0 == WATER {
        BlockKind::Liquid
    } else {
        BlockKind::Solid
    }
}

/// Render category of a block.
pub fn kind(b: BlockState) -> (r: BlockKind)
    ensures
        r == kind_of(b),
{
    if b.0 == AIR {
        BlockKind::Air
    } else if b.0 == WATER {
        BlockKind::Liquid
    } else {
        BlockKind::Solid
    }
}

/// Texture layer of one face of a block; unknown blocks look like stone.
pub open spec fn texture_of(b: BlockState, face: Face) -> u32 {
    let id = b.0;
    if id == DIRT {
        TEX_DIRT
    } else if id == GRASS {
        match face {
            Face::Top => TEX_GRASS_TOP,
            Face::Bottom => TEX_DIRT,
            Face::Side => TEX_GRASS_SIDE,
        }
    } else if id == SAND {
        TEX_SAND
    } else if id == SNOW {
        TEX_SNOW
    } else if id == WATER {
        TEX_WATER
    } else if id == GRAVEL {
        TEX_GRAVEL
    } else if id == WOOD {
        TEX_WOOD
    } else if id == LEAVES {
        TEX_LEAVES
    } else {
        TEX_STONE
    }
}

/// Texture layer for a given face of a block.
pub fn face_texture(b: BlockState, face: Face) -> (r: u32)
    ensures
        r == texture_of(b, face),
        r < 10,
{
    let id = b.0;
    if id == STONE {
        TEX_STONE
    } else if id == DIRT {
        TEX_DIRT
    } else if id == GRASS {
        match face {
            Face::Top => TEX_GRASS_TOP,
            Face::Bottom => TEX_DIRT,
            Face::Side => TEX_GRASS_SIDE,
        }
    } else if id == SAND {
        TEX_SAND
    } else if id == SNOW {
        TEX_SNOW
    } else if id == WATER {
        TEX_WATER
    } else if id == GRAVEL {
        TEX_GRAVEL
    } else if id == WOOD {
        TEX_WOOD
    } else if id == LEAVES {
        TEX_LEAVES
    } else {
        TEX_STONE
    }
}

/// Readable name of a block id ("?" for an unknown one).
pub open spec fn name_of(id: u16) -> Seq<char> {
    if id == AIR {
        "air"@
    } else if id == STONE {
        "stone"@
    } else if id == DIRT {
        "dirt"@
    } else if id == GRASS {
        "grass"@
    } else if id == SAND {
        "sand"@
    } else if id == SNOW {
        "snow"@
    } else if id == WATER {
        "water"@
    } else if id == GRAVEL {
        "gravel"@
    } else if id == WOOD {
        "wood"@
    } else if id == LEAVES {
        "leaves"@
    } else {
        "?"@
    }
}

/// Readable name of a block (HUD, chat).
pub fn name(b: BlockState) -> (r: &'static str)
    ensures
        r@ == name_of(b.0),
{
    let id = b.0;
    if id == AIR {
        "air"
    } else if id == STONE {
        "stone"
    } else if id == DIRT {
        "dirt"
    } else if id == GRASS {
        "grass"
    } else if id == SAND {
        "sand"
    } else if id == SNOW {
        "snow"
    } else if id == WATER {
        "water"
    } else if id == GRAVEL {
        "gravel"
    } else if id == WOOD {
        "wood"
    } else if id == LEAVES {
        "leaves"
    } else {
        "?"
    }
}

/// Face visibility rule: a solid face shows against air or liquid; a liquid face
/// shows only against air (the surface); air has no faces.
pub open spec fn visible_against(current: BlockState, neighbor: BlockState) -> bool {
    match kind_of(current) {
        BlockKind::Air => false,
        BlockKind::Solid => kind_of(neighbor) != BlockKind::Solid,
        BlockKind::Liquid => kind_of(neighbor) == BlockKind::Air,
    }
}

/// `true` if a face of `current` must be drawn against the neighbor `neighbor`.
pub fn renders_against(current: BlockState, neighbor: BlockState) -> (r: bool)
    ensures
        r == visible_against(current, neighbor),
{
    match kind(current) {
        BlockKind::Air => false,
        BlockKind::Solid => kind(neighbor) != BlockKind::Solid,
        BlockKind::Liquid => kind(neighbor) == BlockKind::Air,
    }
}

/// At most one of two touching blocks shows its face to the other.
pub proof fn law_one_face_per_pair(a: BlockState, b: BlockState)
    ensures
        !(visible_against(a, b) && visible_against(b, a)),
{
}

/// Render categories: air (id 0) is air, water (id 6) is the only liquid, and every
/// other id (stone, dirt, grass, sand, snow, gravel, wood, leaves, unknown ids) is a
/// solid block that collides and hides the faces next to it.
pub proof fn law_kinds(b: BlockState)
    ensures
        b.0 == 0 ==> kind_of(b) == BlockKind::Air,
        b.0 == 6 ==> kind_of(b) == BlockKind::Liquid,
        b.0 != 0 && b.0 != 6 ==> kind_of(b) == BlockKind::Solid,
        b.0 != 0 && b.0 != 6 ==> visible_against(BlockState(1), b) == false && visible_against(b, BlockState(0)),
{
}

} // verus!
