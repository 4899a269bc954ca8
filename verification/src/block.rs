//! Block states and the spatial coordinates of the voxel grid.

use vstd::prelude::*;

verus! {

/// Edge length of a sub-chunk (16³ voxels).
pub const SUBCHUNK_SIZE: usize = 16;

/// Number of voxels in a sub-chunk.
pub const SUBCHUNK_VOLUME: usize = 4096;

/// Number of sub-chunks stacked in a chunk column (height 384).
pub const SUBCHUNKS_PER_CHUNK: usize = 24;

/// State of a block: identifier and properties packed in 16 bits; `0` is air.
#[derive(Debug, Clone, Copy, PartialEq, Eq, Structural, Hash)]
pub struct BlockState(pub u16);

impl BlockState {
    /// `true` for air.
    pub fn is_air(self) -> (r: bool)
        ensures
            r == (self.0 == 0),
    {
        self.0 == 0
    }

    /// A full opaque block: everything that is not air.
    pub fn is_solid(self) -> (r: bool)
        ensures
            r == (self.0 != 0),
    {
        !self.is_air()
    }
}

/// Position of a chunk in the horizontal grid of the world (streaming key).
#[derive(Debug, Clone, Copy, PartialEq, Eq, Structural, Hash)]
pub struct ChunkPos {
    pub x: i32,
    pub z: i32,
}

/// World coordinate, in blocks, of the (0, 0) corner of the chunk at chunk coordinate `c`.
pub open spec fn origin_of(c: int) -> int {
    c * 16
}

/// `true` when every block of the chunk has world coordinates that fit in an `i32`
/// (its corner at `origin_of`, its last block 15 further).
pub open spec fn origin_fits(p: ChunkPos) -> bool {
    &&& i32::MIN <= origin_of(p.x as int)
    &&& origin_of(p.x as int) + 15 <= i32::MAX
    &&& i32::MIN <= origin_of(p.z as int)
    &&& origin_of(p.z as int) + 15 <= i32::MAX
}

impl ChunkPos {
    pub fn new(x: i32, z: i32) -> (r: Self)
        ensures
            r.x == x,
            r.z == z,
    {
        ChunkPos { x, z }
    }

    /// World coordinate of the chunk's (0, 0) corner, in blocks.
    pub fn world_origin(self) -> (r: (i32, i32))
        requires
            i32::MIN <= self.x * 16 <= i32::MAX,
            i32::MIN <= self.z * 16 <= i32::MAX,
        ensures
            r.0 == origin_of(self.x as int),
            r.1 == origin_of(self.z as int),
    {
        (self.x * 16, self.z * 16)
    }
}

/// Linear offset of local voxel `(x, y, z)` within a sub-chunk.
pub open spec fn spec_local_index(x: int, y: int, z: int) -> int {
    (y * 16 + z) * 16 + x
}

/// Local `(x, y, z)` → linear offset within a sub-chunk.
pub fn local_index(x: usize, y: usize, z: usize) -> (r: usize)
    requires
        spec_local_index(x as int, y as int, z as int) <= usize::MAX,
    ensures
        r == spec_local_index(x as int, y as int, z as int),
{
    (y * 16 + z) * 16 + x
}

} // verus!
