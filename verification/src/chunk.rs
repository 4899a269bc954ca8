//! Chunk column (16 × 384 × 16): a stack of sub-chunks, its meshing state and the
//! axis-aligned box used to cull it.

use vstd::prelude::*;
use crate::block::{BlockState, ChunkPos, origin_of, origin_fits, spec_local_index};
use crate::palette::SubChunk;

verus! {

/// Height of the world in blocks (24 sub-chunks of 16).
pub const WORLD_HEIGHT: i32 = 384;

/// Axis-aligned box in world coordinates; chunk boxes have whole-block corners
/// (the far corner of the last chunk row lies one past the `i32` range).
#[derive(Debug, Clone, Copy)]
pub struct Aabb {
    pub min: [i64; 3],
    pub max: [i64; 3],
}

/// Mesh state of a chunk in the asynchronous streaming pipeline.
#[derive(Debug, Clone, Copy, PartialEq, Eq, Structural)]
pub enum MeshState {
    /// Voxel data changed: the mesh must be (re)built.
    Dirty,
    /// Meshing in progress on the thread pool.
    Building,
    /// Mesh ready for the given level of detail.
    Ready(u8),
}

/// Chunk column: a vertical stack of 16³ sub-chunks.
#[derive(Debug, Clone)]
pub struct Chunk {
    pub pos: ChunkPos,
    pub subchunks: Vec<SubChunk>,
    pub mesh_state: MeshState,
    pub aabb: Aabb,
}

/// `true` for local coordinates inside a chunk column.
pub open spec fn in_column(x: int, y: int, z: int) -> bool {
    0 <= x < 16 && 0 <= y < 384 && 0 <= z < 16
}

/// The box of the column at `pos`: its 16 × 16 footprint, from y = 0 to y = 384.
pub open spec fn column_box(pos: ChunkPos) -> Aabb {
    Aabb {
        min: [origin_of(pos.x as int) as i64, 0, origin_of(pos.z as int) as i64],
        max: [(origin_of(pos.x as int) + 16) as i64, 384, (origin_of(pos.z as int) + 16) as i64],
    }
}

impl Chunk {
    /// 24 well-formed sub-chunks.
    pub open spec fn wf(&self) -> bool {
        &&& self.subchunks@.len() == 24
        &&& forall|k: int| 0 <= k < 24 ==> (#[trigger] self.subchunks@[k]).wf()
    }

    /// State at local `(x, y, z)`, `y` over the whole column height.
    pub open spec fn block(&self, x: int, y: int, z: int) -> BlockState {
        self.subchunks@[y / 16]@[spec_local_index(x, y % 16, z)]
    }

    /// Empty (all-air) chunk, ready for procedural generation.
    pub fn empty(pos: ChunkPos) -> (r: Self)
        requires
            origin_fits(pos),
        ensures
            r.wf(),
            r.pos == pos,
            r.mesh_state == MeshState::Dirty,
            r.aabb == column_box(pos),
            forall|x: int, y: int, z: int| in_column(x, y, z) ==> #[trigger] r.block(x, y, z) == BlockState(0),
    {
        let (ox, oz) = pos.world_origin();
        let mut subchunks: Vec<SubChunk> = Vec::new();
        let mut k: usize = 0;
        while k < 24
            invariant
                k <= 24,
                subchunks@.len() == k,
                forall|j: int| 0 <= j < k ==> (#[trigger] subchunks@[j]).wf() && subchunks@[j]@
                    == Seq::new(4096, |i: int| BlockState(0)),
            decreases 24 - k,
        {
            subchunks.push(SubChunk::empty());
            k = k + 1;
        }
        let r = Chunk {
            pos,
            subchunks,
            mesh_state: MeshState::Dirty,
            aabb: Aabb { min: [ox as i64, 0, oz as i64], max: [ox as i64 + 16, 384, oz as i64 + 16] },
        };
        assert forall|x: int, y: int, z: int| in_column(x, y, z) implies #[trigger] r.block(x, y, z) == BlockState(0) by {
            assert(0 <= spec_local_index(x, y % 16, z) < 4096) by (nonlinear_arith)
                requires 0 <= x < 16, 0 <= y % 16 < 16, 0 <= z < 16;
        }
        r
    }

    /// State at local `(x, y, z)` of the chunk.
    pub fn get(&self, x: usize, y: usize, z: usize) -> (r: BlockState)
        requires
            self.wf(),
            in_column(x as int, y as int, z as int),
        ensures
            r == self.block(x as int, y as int, z as int),
    {
        let sub = y / 16;
        proof { Self::lemma_index_bounds(x as int, y as int, z as int); }
        self.subchunks[sub].get(crate::block::local_index(x, y % 16, z))
    }

    /// Writes a state at local `(x, y, z)` and marks the chunk for re-meshing.
    pub fn set(&mut self, x: usize, y: usize, z: usize, state: BlockState)
        requires
            old(self).wf(),
            in_column(x as int, y as int, z as int),
        ensures
            final(self).wf(),
            final(self).pos == old(self).pos,
            final(self).aabb == old(self).aabb,
            final(self).mesh_state == MeshState::Dirty,
            final(self).block(x as int, y as int, z as int) == state,
            forall|a: int, b: int, c: int|
                in_column(a, b, c) && !(a == x && b == y && c == z) ==> #[trigger] final(self).block(a, b, c)
                    == old(self).block(a, b, c),
    {
        let sub = y / 16;
        proof { Self::lemma_index_bounds(x as int, y as int, z as int); }
        let li = crate::block::local_index(x, y % 16, z);
        let ghost before = old(self).subchunks@;
        proof { before[sub as int].lemma_view_in_palette(); }
        self.subchunks[sub].set(li, state);
        self.mesh_state = MeshState::Dirty;
        assert(self.subchunks@.len() == 24);
        assert(self.subchunks@[sub as int]@ == before[sub as int]@.update(li as int, state));
        assert(forall|k: int| 0 <= k < 24 && k != sub ==> self.subchunks@[k] == before[k]);
        assert(self.block(x as int, y as int, z as int) == state);
        assert forall|a: int, b: int, c: int|
            in_column(a, b, c) && !(a == x && b == y && c == z) implies #[trigger] self.block(a, b, c)
                == old(self).block(a, b, c) by {
            Self::lemma_index_bounds(a, b, c);
            if b / 16 == y / 16 && spec_local_index(a, b % 16, c) == spec_local_index(x as int, (y % 16) as int, z as int) {
                Self::lemma_index_injective(a, b, c, x as int, y as int, z as int);
            }
        }
    }

    /// Local coordinates inside the column name a valid sub-chunk and voxel.
    pub proof fn lemma_index_bounds(x: int, y: int, z: int)
        requires
            in_column(x, y, z),
        ensures
            0 <= y / 16 < 24,
            0 <= y % 16 < 16,
            0 <= spec_local_index(x, y % 16, z) < 4096,
    {
        assert(0 <= spec_local_index(x, y % 16, z) < 4096) by (nonlinear_arith)
            requires 0 <= x < 16, 0 <= y % 16 < 16, 0 <= z < 16;
    }

    /// Distinct cells of one sub-chunk have distinct linear offsets.
    pub proof fn lemma_index_injective(a: int, b: int, c: int, x: int, y: int, z: int)
        requires
            in_column(a, b, c),
            in_column(x, y, z),
            b / 16 == y / 16,
            spec_local_index(a, b % 16, c) == spec_local_index(x, y % 16, z),
        ensures
            a == x && b == y && c == z,
    {
        assert(a == x && b % 16 == y % 16 && c == z) by (nonlinear_arith)
            requires
                0 <= a < 16, 0 <= c < 16, 0 <= x < 16, 0 <= z < 16,
                0 <= b % 16 < 16, 0 <= y % 16 < 16,
                (b % 16 * 16 + c) * 16 + a == (y % 16 * 16 + z) * 16 + x;
        assert(b == 16 * (b / 16) + b % 16);
        assert(y == 16 * (y / 16) + y % 16);
    }
}

} // verus!
