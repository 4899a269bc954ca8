//! The first terrain generator: a smooth height map (computed by the caller) and
//! grass / dirt / stone layering below each column's surface.

use vstd::prelude::*;
use crate::block::{BlockState, ChunkPos, origin_fits};
use crate::chunk::{Chunk, MeshState, column_box, in_column};
use crate::registry::{DIRT, GRASS, STONE};

verus! {

/// Block `y` blocks up a column whose surface is `surface` blocks high: grass on
/// top, three blocks of dirt below, stone under that.
pub open spec fn depth_block(y: int, surface: int) -> BlockState {
    if y + 1 == surface {
        BlockState(GRASS)
    } else if y + 4 >= surface {
        BlockState(DIRT)
    } else {
        BlockState(STONE)
    }
}

/// Block chosen by depth below the surface.
pub fn block_at(y: usize, surface: usize) -> (r: BlockState)
    requires
        y + 4 <= usize::MAX,
    ensures
        r == depth_block(y as int, surface as int),
{
    if y + 1 == surface {
        BlockState(GRASS)
    } else if y + 4 >= surface {
        BlockState(DIRT)
    } else {
        BlockState(STONE)
    }
}

/// Block at local height `y` of a column `height` blocks high (air above it).
pub open spec fn height_map_block(y: int, height: int) -> BlockState {
    if y < height { depth_block(y, height) } else { BlockState(0) }
}

/// Terrain chunk at `pos`: each column `heights[x + 16 z]` blocks high (clipped to
/// the world's 384), layered by depth.
pub fn generate_chunk(pos: ChunkPos, heights: &[usize]) -> (r: Chunk)
    requires
        origin_fits(pos),
        heights@.len() == 256,
    ensures
        r.wf(),
        r.pos == pos,
        r.aabb == column_box(pos),
        r.mesh_state == MeshState::Dirty,
        forall|x: int, y: int, z: int| #![trigger r.block(x, y, z)] in_column(x, y, z) ==> r.block(x, y, z)
            == height_map_block(y, heights@[x + 16 * z] as int),
{
    let mut chunk = Chunk::empty(pos);
    let mut lx: usize = 0;
    while lx < 16
        invariant
            lx <= 16,
            heights@.len() == 256,
            chunk.wf(),
            chunk.pos == pos,
            chunk.aabb == column_box(pos),
            chunk.mesh_state == MeshState::Dirty,
            forall|x: int, y: int, z: int| #![trigger chunk.block(x, y, z)] in_column(x, y, z) ==> chunk.block(x, y, z)
                == (if x < lx { height_map_block(y, heights@[x + 16 * z] as int) } else { BlockState(0) }),
        decreases 16 - lx,
    {
        let mut lz: usize = 0;
        while lz < 16
            invariant
                lx < 16,
                lz <= 16,
                heights@.len() == 256,
                chunk.wf(),
                chunk.pos == pos,
                chunk.aabb == column_box(pos),
                chunk.mesh_state == MeshState::Dirty,
                forall|x: int, y: int, z: int| #![trigger chunk.block(x, y, z)] in_column(x, y, z) ==> chunk.block(x, y, z)
                    == (if x < lx || (x == lx && z < lz) {
                        height_map_block(y, heights@[x + 16 * z] as int)
                    } else {
                        BlockState(0)
                    }),
            decreases 16 - lz,
        {
            let height = heights[lx + 16 * lz];
            let top: usize = if height < 384 { height } else { 384 };
            let mut ly: usize = 0;
            while ly < top
                invariant
                    lx < 16,
                    lz < 16,
                    ly <= top,
                    top <= 384,
                    top <= height,
                    top == 384 || top == height,
                    height == heights@[lx + 16 * lz],
                    heights@.len() == 256,
                    chunk.wf(),
                    chunk.pos == pos,
                    chunk.aabb == column_box(pos),
                    chunk.mesh_state == MeshState::Dirty,
                    forall|x: int, y: int, z: int| #![trigger chunk.block(x, y, z)] in_column(x, y, z) ==> chunk.block(x, y, z)
                        == (if x < lx || (x == lx && z < lz) || (x == lx && z == lz && y < ly) {
                            height_map_block(y, heights@[x + 16 * z] as int)
                        } else {
                            BlockState(0)
                        }),
                decreases top - ly,
            {
                chunk.set(lx, ly, lz, block_at(ly, height));
                ly = ly + 1;
            }
            lz = lz + 1;
        }
        lx = lx + 1;
    }
    chunk
}

} // verus!
