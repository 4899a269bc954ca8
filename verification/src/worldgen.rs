//! Column layering of the procedural terrain: given a column's surface height and
//! biome (computed by the caller from the fractal noise), which block sits at each
//! height, and the content of a whole chunk built from its 16 × 16 columns.

use vstd::prelude::*;
use crate::biome::Biome;
use crate::block::{BlockState, ChunkPos, origin_fits};
use crate::chunk::{Chunk, MeshState, column_box, in_column};
use crate::registry::{AIR, SAND, STONE, WATER};

verus! {

/// Sea level in blocks.
pub const SEA_LEVEL: i32 = 62;

/// Block at height `y` of a column whose surface is at `h`, in biome `biome`:
/// water or air above the surface, sand or the biome surface at it, the biome
/// filler three blocks down, stone below.
pub open spec fn layer_block(y: int, h: int, biome: Biome) -> BlockState {
    if y > h {
        if y <= SEA_LEVEL { BlockState(WATER) } else { BlockState(AIR) }
    } else if y == h {
        if h <= SEA_LEVEL { BlockState(SAND) } else { biome.surface }
    } else if y >= h - 3 {
        biome.filler
    } else {
        BlockState(STONE)
    }
}

/// Block at height `y` of a column of surface `h` in `biome`.
pub fn block_for(y: i32, h: i32, biome: &Biome) -> (r: BlockState)
    requires
        h >= i32::MIN + 3,
    ensures
        r == layer_block(y as int, h as int, *biome),
{
    if y > h {
        return if y <= SEA_LEVEL { BlockState(WATER) } else { BlockState(AIR) };
    }
    if y == h {
        return if h <= SEA_LEVEL { BlockState(SAND) } else { biome.surface };
    }
    if y >= h - 3 {
        return biome.filler;
    }
    BlockState(STONE)
}

/// Block at world height `wy` of a column of surface `h` in `biome`, as a probe
/// of the generator sees it: stone below the world, the layering elsewhere.
pub open spec fn probe_block(wy: int, h: int, biome: Biome) -> BlockState {
    if wy < 0 { BlockState(STONE) } else { layer_block(wy, h, biome) }
}

/// Block at world height `wy` of a column of surface `h` in `biome`: stone below
/// the world, the column layering elsewhere.
pub fn block_at(wy: i32, h: i32, biome: &Biome) -> (r: BlockState)
    requires
        h >= i32::MIN + 3,
    ensures
        r == probe_block(wy as int, h as int, *biome),
{
    if wy < 0 {
        return BlockState(STONE);
    }
    block_for(wy, h, biome)
}

/// Surface height and biome of one column of a chunk.
#[derive(Debug, Clone, Copy)]
pub struct Column {
    pub height: i32,
    pub biome: Biome,
}

/// `true` when every block of `c` is the layering of its column in `columns`
/// (`columns[x + 16 z]` for local (x, z)).
pub open spec fn layered(c: Chunk, columns: Seq<Column>) -> bool {
    forall|x: int, y: int, z: int| #![trigger c.block(x, y, z)] in_column(x, y, z) ==> c.block(x, y, z)
        == layer_block(y, columns[x + 16 * z].height as int, columns[x + 16 * z].biome)
}

/// Full voxel content of the chunk at `pos`; `columns[x + 16 z]` is the column at
/// local (x, z). Heights must stay below the top of the world.
pub fn generate_chunk(pos: ChunkPos, columns: &[Column]) -> (r: Chunk)
    requires
        origin_fits(pos),
        columns@.len() == 256,
        forall|i: int| 0 <= i < 256 ==> (#[trigger] columns@[i]).height < 384 && columns@[i].height
            >= i32::MIN + 3,
    ensures
        r.wf(),
        r.pos == pos,
        r.aabb == column_box(pos),
        r.mesh_state == MeshState::Dirty,
        layered(r, columns@),
{
    let mut chunk = Chunk::empty(pos);
    let mut lz: usize = 0;
    while lz < 16
        invariant
            lz <= 16,
            columns@.len() == 256,
            forall|i: int| 0 <= i < 256 ==> (#[trigger] columns@[i]).height < 384 && columns@[i].height
                >= i32::MIN + 3,
            chunk.wf(),
            chunk.pos == pos,
            chunk.aabb == column_box(pos),
            chunk.mesh_state == MeshState::Dirty,
            forall|x: int, y: int, z: int| #![trigger chunk.block(x, y, z)] in_column(x, y, z) ==> chunk.block(x, y, z)
                == (if z < lz { layer_block(y, columns@[x + 16 * z].height as int, columns@[x + 16 * z].biome) } else { BlockState(0) }),
        decreases 16 - lz,
    {
        let mut lx: usize = 0;
        while lx < 16
            invariant
                lz < 16,
                lx <= 16,
                columns@.len() == 256,
                forall|i: int| 0 <= i < 256 ==> (#[trigger] columns@[i]).height < 384 && columns@[i].height
                    >= i32::MIN + 3,
                chunk.wf(),
                chunk.pos == pos,
                chunk.aabb == column_box(pos),
                chunk.mesh_state == MeshState::Dirty,
                forall|x: int, y: int, z: int| #![trigger chunk.block(x, y, z)] in_column(x, y, z) ==> chunk.block(x, y, z)
                    == (if z < lz || (z == lz && x < lx) {
                        layer_block(y, columns@[x + 16 * z].height as int, columns@[x + 16 * z].biome)
                    } else {
                        BlockState(0)
                    }),
            decreases 16 - lx,
        {
            let col = columns[lx + 16 * lz];
            let h = col.height;
            let top: i32 = if h > SEA_LEVEL { h } else { SEA_LEVEL };
            let mut y: i32 = 0;
            while y <= top
                invariant
                    lz < 16,
                    lx < 16,
                    0 <= y <= top + 1,
                    top < 384,
                    top >= SEA_LEVEL,
                    top >= h,
                    col == columns@[lx + 16 * lz],
                    h == col.height,
                    h >= i32::MIN + 3,
                    columns@.len() == 256,
                    chunk.wf(),
                    chunk.pos == pos,
                    chunk.aabb == column_box(pos),
                    chunk.mesh_state == MeshState::Dirty,
                    forall|x: int, yy: int, z: int| #![trigger chunk.block(x, yy, z)] in_column(x, yy, z) ==> chunk.block(x, yy, z)
                        == (if z < lz || (z == lz && x < lx) || (z == lz && x == lx && yy < y) {
                            layer_block(yy, columns@[x + 16 * z].height as int, columns@[x + 16 * z].biome)
                        } else {
                            BlockState(0)
                        }),
                decreases top + 1 - y,
            {
                let block = block_for(y, h, &col.biome);
                if !block.is_air() {
                    chunk.set(lx, y as usize, lz, block);
                }
                y = y + 1;
            }
            proof {
                // above the loop's top every layer is air
                assert forall|x: int, yy: int, z: int| #![trigger chunk.block(x, yy, z)]
                    in_column(x, yy, z) && z == lz && x == lx && yy >= y implies
                    layer_block(yy, columns@[x + 16 * z].height as int, columns@[x + 16 * z].biome) == BlockState(0) by {}
            }
            lx = lx + 1;
        }
        lz = lz + 1;
    }
    chunk
}

/// The generator is stateless: probing a block of a column gives the block the
/// generated chunk holds there, so meshers may probe neighbours they do not hold.
pub proof fn law_probe_matches_chunk(c: Chunk, columns: Seq<Column>, x: int, y: int, z: int)
    requires
        layered(c, columns),
        in_column(x, y, z),
    ensures
        c.block(x, y, z) == probe_block(y, columns[x + 16 * z].height as int, columns[x + 16 * z].biome),
{
}

} // verus!
