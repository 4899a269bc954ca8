//! Face-culling mesher: a face of a solid block is emitted only when the
//! neighbouring voxel is not solid, neighbours in other chunks included (read
//! through the world).

use vstd::prelude::*;
use crate::block::{BlockState, ChunkPos, origin_of, origin_fits};
use crate::chunk::{Chunk, in_column};
use crate::world::{World, world_block};

verus! {

/// One visible face of a block, in world coordinates. `face` indexes the six
/// directions +x, −x, +y, −y, +z, −z in that order.
#[derive(Debug, Clone, Copy, PartialEq, Eq, Structural)]
pub struct CullFace {
    pub x: i32,
    pub y: i32,
    pub z: i32,
    pub face: u8,
    pub block: BlockState,
}

/// Offset to the neighbour behind face `f`.
pub open spec fn offset(f: int) -> (int, int, int) {
    if f == 0 { (1, 0, 0) }
    else if f == 1 { (-1, 0, 0) }
    else if f == 2 { (0, 1, 0) }
    else if f == 3 { (0, -1, 0) }
    else if f == 4 { (0, 0, 1) }
    else { (0, 0, -1) }
}

/// `true` when face `f` of local block (x, y, z) of `c` is drawn: the block is
/// solid and the world block behind the face is not.
pub open spec fn face_shown(c: Chunk, w: Map<ChunkPos, Chunk>, x: int, y: int, z: int, f: int) -> bool {
    let o = offset(f);
    &&& c.block(x, y, z).0 != 0
    &&& world_block(w, origin_of(c.pos.x as int) + x + o.0, y + o.1, origin_of(c.pos.z as int) + z + o.2).0 == 0
}

/// Position of block (x, y, z) in the meshing order (y, then z, then x).
pub open spec fn column_index(x: int, y: int, z: int) -> int {
    (y * 16 + z) * 16 + x
}

/// Position of face `f` of local block (x, y, z) in emission order.
pub open spec fn cull_key(x: int, y: int, z: int, f: int) -> int {
    column_index(x, y, z) * 6 + f
}

/// The face record of face `f` of local block (x, y, z) of `c`.
pub open spec fn face_of(c: Chunk, x: int, y: int, z: int, f: int) -> CullFace {
    CullFace {
        x: (origin_of(c.pos.x as int) + x) as i32,
        y: y as i32,
        z: (origin_of(c.pos.z as int) + z) as i32,
        face: f as u8,
        block: c.block(x, y, z),
    }
}

/// Emission key of a face record of chunk `c`.
pub open spec fn key_of(c: Chunk, q: CullFace) -> int {
    cull_key(q.x - origin_of(c.pos.x as int), q.y as int, q.z - origin_of(c.pos.z as int), q.face as int)
}

/// `true` when `r` lists, in emission order and each once, exactly the drawn
/// faces of `c` whose key is below `upto`.
pub open spec fn culled(r: Seq<CullFace>, c: Chunk, w: Map<ChunkPos, Chunk>, upto: int) -> bool {
    &&& forall|k: int| 0 <= k < r.len() ==> {
        let q = #[trigger] r[k];
        let x = q.x - origin_of(c.pos.x as int);
        let z = q.z - origin_of(c.pos.z as int);
        &&& in_column(x, q.y as int, z)
        &&& q.face < 6
        &&& q == face_of(c, x, q.y as int, z, q.face as int)
        &&& face_shown(c, w, x, q.y as int, z, q.face as int)
        &&& key_of(c, q) < upto
    }
    &&& forall|k1: int, k2: int| 0 <= k1 < k2 < r.len() ==> key_of(c, #[trigger] r[k1]) < key_of(c, #[trigger] r[k2])
    &&& forall|x: int, y: int, z: int, f: int| in_column(x, y, z) && 0 <= f < 6 && cull_key(x, y, z, f) < upto
        && #[trigger] face_shown(c, w, x, y, z, f) ==> r.contains(face_of(c, x, y, z, f))
}

/// The block of meshing position `idx`, and the faces keyed around it.
proof fn lemma_decode(idx: int)
    requires
        0 <= idx < 98304,
    ensures
        in_column(idx % 16, idx / 256, (idx / 16) % 16),
        column_index(idx % 16, idx / 256, (idx / 16) % 16) == idx,
{
    assert(0 <= idx / 256 < 384);
    assert(idx == 16 * (idx / 16) + idx % 16);
    assert(idx / 16 == 16 * (idx / 256) + (idx / 16) % 16) by {
        vstd::arithmetic::div_mod::lemma_div_denominator(idx, 16, 16);
        vstd::arithmetic::div_mod::lemma_fundamental_div_mod(idx / 16, 16);
    }
}

/// A face key determines the block and face it keys.
proof fn lemma_key(x: int, y: int, z: int, f: int, idx: int)
    requires
        in_column(x, y, z),
        0 <= f < 6,
        idx * 6 <= cull_key(x, y, z, f) < idx * 6 + 6,
    ensures
        column_index(x, y, z) == idx,
        cull_key(x, y, z, f) == idx * 6 + f,
{
    let ci = column_index(x, y, z);
    assert(ci == idx) by (nonlinear_arith)
        requires idx * 6 <= ci * 6 + f < idx * 6 + 6, 0 <= f < 6;
}

/// Distinct blocks of a column have distinct meshing positions.
proof fn lemma_index_injective(a: int, b: int, c: int, x: int, y: int, z: int)
    requires
        in_column(a, b, c),
        in_column(x, y, z),
        column_index(a, b, c) == column_index(x, y, z),
    ensures
        a == x && b == y && c == z,
{
    assert(a == x && b == y && c == z) by (nonlinear_arith)
        requires
            0 <= a < 16, 0 <= c < 16, 0 <= x < 16, 0 <= z < 16, 0 <= b, 0 <= y,
            (b * 16 + c) * 16 + a == (y * 16 + z) * 16 + x;
}

/// Offset to the neighbour behind face `f`.
fn face_offset(f: u8) -> (r: (i32, i32, i32))
    requires
        f < 6,
    ensures
        r.0 == offset(f as int).0,
        r.1 == offset(f as int).1,
        r.2 == offset(f as int).2,
{
    if f == 0 { (1, 0, 0) }
    else if f == 1 { (-1, 0, 0) }
    else if f == 2 { (0, 1, 0) }
    else if f == 3 { (0, -1, 0) }
    else if f == 4 { (0, 0, 1) }
    else { (0, 0, -1) }
}

/// Face-culled mesh of a chunk: every face of a solid block whose neighbour
/// (read through `world`, across chunk borders too) is not solid, in meshing
/// order (y, then z, then x; faces +x, −x, +y, −y, +z, −z), each once. The
/// neighbours one block past the chunk must have `i32` coordinates.
pub fn mesh_chunk(chunk: &Chunk, world: &World) -> (r: Vec<CullFace>)
    requires
        chunk.wf(),
        world.wf(),
        origin_fits(chunk.pos),
        i32::MIN < origin_of(chunk.pos.x as int),
        i32::MIN < origin_of(chunk.pos.z as int),
        origin_of(chunk.pos.x as int) + 16 <= i32::MAX,
        origin_of(chunk.pos.z as int) + 16 <= i32::MAX,
    ensures
        culled(r@, *chunk, world@, 589824),
{
    let (ox, oz) = chunk.pos.world_origin();
    let mut out: Vec<CullFace> = Vec::new();
    let mut idx: usize = 0;
    while idx < 98304
        invariant
            idx <= 98304,
            chunk.wf(),
            world.wf(),
            ox == origin_of(chunk.pos.x as int),
            oz == origin_of(chunk.pos.z as int),
            i32::MIN < ox,
            ox + 16 <= i32::MAX,
            i32::MIN < oz,
            oz + 16 <= i32::MAX,
            culled(out@, *chunk, world@, idx * 6),
        decreases 98304 - idx,
    {
        let y = idx / 256;
        let z = (idx / 16) % 16;
        let x = idx % 16;
        proof { lemma_decode(idx as int); }
        let block = chunk.get(x, y, z);
        let ghost c = *chunk;
        let ghost w = world@;
        if block.is_air() {
            proof {
                assert forall|a: int, b: int, cc: int, f: int| in_column(a, b, cc) && 0 <= f < 6 && cull_key(a, b, cc, f) < idx * 6 + 6
                    && #[trigger] face_shown(c, w, a, b, cc, f) implies out@.contains(face_of(c, a, b, cc, f)) by {
                    if cull_key(a, b, cc, f) >= idx * 6 {
                        lemma_key(a, b, cc, f, idx as int);
                        lemma_index_injective(a, b, cc, x as int, y as int, z as int);
                    }
                }
            }
        } else {
            let wx: i32 = ox + x as i32;
            let wy: i32 = y as i32;
            let wz: i32 = oz + z as i32;
            let mut f: u8 = 0;
            while f < 6
                invariant
                    f <= 6,
                    idx < 98304,
                    chunk.wf(),
                    world.wf(),
                    c == *chunk,
                    w == world@,
                    in_column(x as int, y as int, z as int),
                    column_index(x as int, y as int, z as int) == idx,
                    block == c.block(x as int, y as int, z as int),
                    block.0 != 0,
                    wx == ox + x,
                    wy == y,
                    wz == oz + z,
                    ox == origin_of(chunk.pos.x as int),
                    oz == origin_of(chunk.pos.z as int),
                    i32::MIN < ox,
                    ox + 16 <= i32::MAX,
                    i32::MIN < oz,
                    oz + 16 <= i32::MAX,
                    culled(out@, c, w, idx * 6 + f),
                decreases 6 - f,
            {
                let (dx, dy, dz) = face_offset(f);
                let ghost prev = out@;
                let nb = world.block_at(wx + dx, wy + dy, wz + dz);
                let shown = !nb.is_solid();
                if shown {
                    out.push(CullFace { x: wx, y: wy, z: wz, face: f, block });
                }
                proof {
                    let fi = f as int;
                    let cur = face_of(c, x as int, y as int, z as int, fi);
                    assert(shown == face_shown(c, w, x as int, y as int, z as int, fi));
                    if shown {
                        assert(out@ == prev.push(cur));
                        assert(key_of(c, cur) == idx * 6 + fi);
                        assert forall|k: int| 0 <= k < out@.len() implies {
                            let q = #[trigger] out@[k];
                            let qx = q.x - origin_of(c.pos.x as int);
                            let qz = q.z - origin_of(c.pos.z as int);
                            &&& in_column(qx, q.y as int, qz)
                            &&& q.face < 6
                            &&& q == face_of(c, qx, q.y as int, qz, q.face as int)
                            &&& face_shown(c, w, qx, q.y as int, qz, q.face as int)
                            &&& key_of(c, q) < idx * 6 + fi + 1
                        } by {
                            if k < prev.len() {
                                assert(out@[k] == prev[k]);
                            }
                        }
                        assert forall|k1: int, k2: int| 0 <= k1 < k2 < out@.len() implies key_of(c, #[trigger] out@[k1])
                            < key_of(c, #[trigger] out@[k2]) by {
                            assert(out@[k1] == prev[k1]);
                            if k2 < prev.len() {
                                assert(out@[k2] == prev[k2]);
                            }
                        }
                    }
                    assert forall|a: int, b: int, cc: int, g: int| in_column(a, b, cc) && 0 <= g < 6 && cull_key(a, b, cc, g) < idx * 6 + fi + 1
                        && #[trigger] face_shown(c, w, a, b, cc, g) implies out@.contains(face_of(c, a, b, cc, g)) by {
                        if cull_key(a, b, cc, g) < idx * 6 + fi {
                            let k = choose|k: int| 0 <= k < prev.len() && prev[k] == face_of(c, a, b, cc, g);
                            assert(out@[k] == prev[k]);
                        } else {
                            lemma_key(a, b, cc, g, idx as int);
                            lemma_index_injective(a, b, cc, x as int, y as int, z as int);
                            assert(g == fi);
                            assert(out@[out@.len() - 1] == cur);
                        }
                    }
                }
                f = f + 1;
            }
        }
        idx = idx + 1;
    }
    out
}

} // verus!
