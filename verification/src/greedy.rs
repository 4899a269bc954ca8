//! Greedy meshing: merges coplanar faces of identical appearance into rectangles
//! (far fewer triangles than one quad per face). Faces on the chunk's borders are
//! decided against the neighbouring blocks supplied by the caller.

use vstd::prelude::*;
use crate::block::BlockState;
use crate::chunk::{Chunk, in_column};
use crate::registry::{face_of, face_texture, renders_against, texture_of, visible_against, Face, GRASS, LEAVES};

verus! {

/// Grass tint (RGB) of a face.
#[derive(Debug, Clone, Copy, PartialEq, Eq, Structural)]
pub struct Tint {
    pub r: u8,
    pub g: u8,
    pub b: u8,
}

/// Appearance of a face: two faces merge only if their appearance is identical.
#[derive(Debug, Clone, Copy, PartialEq, Eq, Structural)]
pub struct Mask {
    pub layer: u32,
    pub tint: Tint,
    pub positive: bool,
}

/// A merged rectangle of faces on plane `plane` across axis `axis`, covering cells
/// `[i, i + w) × [j, j + h)` of that plane (in the plane's (u, v) axes).
#[derive(Debug, Clone, Copy)]
pub struct Quad {
    pub axis: usize,
    pub plane: i32,
    pub i: usize,
    pub j: usize,
    pub w: usize,
    pub h: usize,
    pub mask: Mask,
}

/// `true` when cell (a, b) of its plane lies in the quad.
pub open spec fn in_rect(q: Quad, a: int, b: int) -> bool {
    q.i <= a < q.i + q.w && q.j <= b < q.j + q.h
}

/// `true` when the quad is non-empty and inside a `du × dv` plane.
pub open spec fn quad_fits(q: Quad, du: int, dv: int) -> bool {
    &&& q.w >= 1
    &&& q.h >= 1
    &&& q.i + q.w <= du
    &&& q.j + q.h <= dv
}

/// `true` when every cell of the quad has the quad's appearance in plane mask `m`.
pub open spec fn quad_uniform(q: Quad, m: spec_fn(int, int) -> Option<Mask>) -> bool {
    forall|a: int, b: int| #[trigger] in_rect(q, a, b) ==> m(a, b) == Some(q.mask)
}

/// `true` when some quad of `qs` covers cell (a, b).
pub open spec fn covered(qs: Seq<Quad>, a: int, b: int) -> bool {
    exists|k: int| 0 <= k < qs.len() && #[trigger] in_rect(qs[k], a, b)
}

/// `true` when no cell lies in two quads of `qs`.
pub open spec fn disjoint(qs: Seq<Quad>) -> bool {
    forall|k1: int, k2: int, a: int, b: int|
        0 <= k1 < k2 < qs.len() ==> !(#[trigger] in_rect(qs[k1], a, b) && #[trigger] in_rect(qs[k2], a, b))
}

/// `true` when `m` is a `du × dv` plane mask (rows indexed by v).
pub open spec fn mask_shape(m: Seq<Vec<Option<Mask>>>, du: int, dv: int) -> bool {
    &&& m.len() == dv
    &&& forall|b: int| 0 <= b < dv ==> (#[trigger] m[b])@.len() == du
}

/// Plane mask of a vector of rows.
pub open spec fn mask_fn(m: Seq<Vec<Option<Mask>>>) -> spec_fn(int, int) -> Option<Mask> {
    |a: int, b: int| m[b]@[a]
}

/// `true` when `qs` tiles the faces of plane mask `m` exactly: every quad lies in
/// the plane on cells of its own appearance, no cell twice, every face covered.
pub open spec fn tiles(qs: Seq<Quad>, m: spec_fn(int, int) -> Option<Mask>, du: int, dv: int) -> bool {
    &&& forall|k: int| 0 <= k < qs.len() ==> quad_fits(#[trigger] qs[k], du, dv) && quad_uniform(qs[k], m)
    &&& disjoint(qs)
    &&& forall|a: int, b: int| 0 <= a < du && 0 <= b < dv && (#[trigger] m(a, b)) is Some ==> covered(qs, a, b)
}

/// Height of the tallest rectangle of width `w` at (i, j) whose cells all equal `Some(m)`.
fn rect_height(mask: &Vec<Vec<Option<Mask>>>, du: usize, dv: usize, i: usize, j: usize, w: usize, m: Mask) -> (h: usize)
    requires
        mask_shape(mask@, du as int, dv as int),
        j < dv,
        w >= 1,
        i + w <= du,
        forall|a: int| i <= a < i + w ==> mask@[j as int]@[a] == Some(m),
    ensures
        1 <= h,
        j + h <= dv,
        forall|a: int, b: int| i <= a < i + w && j <= b < j + h ==> mask@[b]@[a] == Some(m),
        j + h < dv ==> exists|a: int| i <= a < i + w && #[trigger] mask@[j + h]@[a] != Some(m),
{
    let mut h: usize = 1;
    while j + h < dv
        invariant
            1 <= h,
            j + h <= dv,
            i + w <= du,
            mask_shape(mask@, du as int, dv as int),
            forall|a: int, b: int| i <= a < i + w && j <= b < j + h ==> mask@[b]@[a] == Some(m),
        ensures
            1 <= h,
            j + h <= dv,
            forall|a: int, b: int| i <= a < i + w && j <= b < j + h ==> mask@[b]@[a] == Some(m),
            j + h < dv ==> exists|a: int| i <= a < i + w && #[trigger] mask@[j + h]@[a] != Some(m),
        decreases dv - h,
    {
        let row = &mask[j + h];
        assert(row@.len() == du);
        let mut k: usize = 0;
        let mut same = true;
        while k < w
            invariant
                k <= w,
                i + w <= du,
                row@.len() == du,
                same ==> forall|a: int| i <= a < i + k ==> row@[a] == Some(m),
                !same ==> exists|a: int| i <= a < i + w && #[trigger] row@[a] != Some(m),
            decreases w - k,
        {
            if row[i + k] != Some(m) {
                same = false;
                assert(row@[i + k] != Some(m));
            }
            k = k + 1;
        }
        if !same {
            break;
        }
        h = h + 1;
    }
    h
}

/// Cell (a, b) of a plane mask after some quads were cut out of it: cleared when
/// covered, otherwise as in the initial mask `m0`.
pub open spec fn mask_after(qs: Seq<Quad>, m0: spec_fn(int, int) -> Option<Mask>, a: int, b: int) -> Option<Mask> {
    if covered(qs, a, b) { None } else { m0(a, b) }
}

/// `true` when cell (a, b) comes before cell (i, j) in row-major scan order.
pub open spec fn scanned_before(a: int, b: int, i: int, j: int) -> bool {
    b < j || (b == j && a < i)
}

/// `true` when `q` is the greedy choice once quads `prev` were cut out of plane mask
/// `m0` (`du × dv`): it starts at the first remaining face in scan order, is as wide
/// as the run of identical faces there, and as tall as that run repeats below.
pub open spec fn greedy_choice(prev: Seq<Quad>, q: Quad, m0: spec_fn(int, int) -> Option<Mask>, du: int, dv: int) -> bool {
    &&& forall|a: int, b: int| 0 <= a < du && 0 <= b < dv && scanned_before(a, b, q.i as int, q.j as int)
        ==> (#[trigger] mask_after(prev, m0, a, b)) is None
    &&& q.i + q.w < du ==> mask_after(prev, m0, q.i + q.w, q.j as int) != Some(q.mask)
    &&& q.j + q.h < dv ==> exists|a: int| q.i <= a < q.i + q.w && #[trigger] mask_after(prev, m0, a, q.j + q.h) != Some(q.mask)
}

/// `true` when every quad of `qs` is the greedy choice after the ones before it.
pub open spec fn greedy(qs: Seq<Quad>, m0: spec_fn(int, int) -> Option<Mask>, du: int, dv: int) -> bool {
    forall|k: int| 0 <= k < qs.len() ==> greedy_choice(qs.take(k), #[trigger] qs[k], m0, du, dv)
}

/// Clears the cells of rectangle `[i, i + w) × [j, j + h)` of the mask.
fn clear_rect(mask: &mut Vec<Vec<Option<Mask>>>, du: usize, dv: usize, i: usize, j: usize, w: usize, h: usize)
    requires
        mask_shape(old(mask)@, du as int, dv as int),
        i + w <= du,
        j + h <= dv,
    ensures
        mask_shape(final(mask)@, du as int, dv as int),
        forall|a: int, b: int| 0 <= a < du && 0 <= b < dv ==> #[trigger] final(mask)@[b]@[a] == (if i <= a < i + w && j <= b < j + h {
            None
        } else {
            old(mask)@[b]@[a]
        }),
{
    let mut hh: usize = 0;
    while hh < h
        invariant
            hh <= h,
            i + w <= du,
            j + h <= dv,
            mask_shape(mask@, du as int, dv as int),
            forall|a: int, b: int| 0 <= a < du && 0 <= b < dv ==> #[trigger] mask@[b]@[a] == (if i <= a < i + w && j <= b < j + hh {
                None
            } else {
                old(mask)@[b]@[a]
            }),
        decreases h - hh,
    {
        let mut ww: usize = 0;
        while ww < w
            invariant
                hh < h,
                ww <= w,
                i + w <= du,
                j + h <= dv,
                mask_shape(mask@, du as int, dv as int),
                forall|a: int, b: int| 0 <= a < du && 0 <= b < dv ==> #[trigger] mask@[b]@[a] == (if (i <= a < i + w && j <= b < j + hh) || (b == j + hh && i <= a < i + ww) {
                    None
                } else {
                    old(mask)@[b]@[a]
                }),
            decreases w - ww,
        {
            let ghost before = mask@;
            mask[j + hh].set(i + ww, None);
            proof {
                assert forall|b: int| 0 <= b < dv && b != j + hh implies mask@[b] == before[b] by {}
            }
            ww = ww + 1;
        }
        hh = hh + 1;
    }
}

/// Cuts plane mask `mask` (`du` wide, `dv` high) into maximal rectangles of
/// identical faces, appending them to `quads` as quads of axis `d` at `plane`.
fn greedy_merge(mask: &mut Vec<Vec<Option<Mask>>>, du: usize, dv: usize, d: usize, plane: i32, quads: &mut Vec<Quad>)
    requires
        mask_shape(old(mask)@, du as int, dv as int),
    ensures
        mask_shape(final(mask)@, du as int, dv as int),
        final(quads)@.len() >= old(quads)@.len(),
        final(quads)@.take(old(quads)@.len() as int) == old(quads)@,
        tiles(final(quads)@.skip(old(quads)@.len() as int), mask_fn(old(mask)@), du as int, dv as int),
        greedy(final(quads)@.skip(old(quads)@.len() as int), mask_fn(old(mask)@), du as int, dv as int),
        forall|k: int| old(quads)@.len() <= k < final(quads)@.len() ==> (#[trigger] final(quads)@[k]).axis == d
            && final(quads)@[k].plane == plane,
        forall|a: int, b: int| 0 <= a < du && 0 <= b < dv ==> (#[trigger] final(mask)@[b]@[a]) is None,
{
    let ghost m0 = mask_fn(mask@);
    let ghost start = quads@;
    let ghost mut new: Seq<Quad> = Seq::empty();
    let mut j: usize = 0;
    while j < dv
        invariant
            j <= dv,
            mask_shape(mask@, du as int, dv as int),
            quads@ == start + new,
            forall|k: int| 0 <= k < new.len() ==> quad_fits(#[trigger] new[k], du as int, dv as int)
                && quad_uniform(new[k], m0) && new[k].axis == d && new[k].plane == plane,
            disjoint(new),
            greedy(new, m0, du as int, dv as int),
            forall|a: int, b: int| 0 <= a < du && 0 <= b < dv ==> #[trigger] mask@[b]@[a] == mask_after(new, m0, a, b),
            forall|a: int, b: int| 0 <= a < du && 0 <= b < j ==> (#[trigger] mask@[b]@[a]) is None,
        decreases dv - j,
    {
        let mut i: usize = 0;
        while i < du
            invariant
                j < dv,
                i <= du,
                mask_shape(mask@, du as int, dv as int),
                quads@ == start + new,
                forall|k: int| 0 <= k < new.len() ==> quad_fits(#[trigger] new[k], du as int, dv as int)
                    && quad_uniform(new[k], m0) && new[k].axis == d && new[k].plane == plane,
                disjoint(new),
                greedy(new, m0, du as int, dv as int),
                forall|a: int, b: int| 0 <= a < du && 0 <= b < dv ==> #[trigger] mask@[b]@[a] == mask_after(new, m0, a, b),
                forall|a: int, b: int| 0 <= a < du && 0 <= b < j ==> (#[trigger] mask@[b]@[a]) is None,
                forall|a: int| 0 <= a < i ==> (#[trigger] mask@[j as int]@[a]) is None,
            decreases du - i,
        {
            let cell = mask[j][i];
            match cell {
                None => {
                    i = i + 1;
                },
                Some(m) => {
                    let mut w: usize = 1;
                    while i + w < du && mask[j][i + w] == Some(m)
                        invariant
                            j < dv,
                            i < du,
                            1 <= w,
                            i + w <= du,
                            mask_shape(mask@, du as int, dv as int),
                            forall|a: int| i <= a < i + w ==> #[trigger] mask@[j as int]@[a] == Some(m),
                        decreases du - w,
                    {
                        w = w + 1;
                    }
                    let h = rect_height(mask, du, dv, i, j, w, m);
                    let q = Quad { axis: d, plane, i, j, w, h, mask: m };
                    quads.push(q);
                    let ghost pre = mask@;
                    proof {
                        assert forall|a: int, b: int| 0 <= a < du && 0 <= b < dv && scanned_before(a, b, q.i as int, q.j as int)
                            implies (#[trigger] mask_after(new, m0, a, b)) is None by {
                            assert(pre[b]@[a] is None);
                        }
                        if q.i + q.w < du {
                            assert(pre[j as int]@[i + w] != Some(m));
                        }
                        if q.j + q.h < dv {
                            let a = choose|a: int| i <= a < i + w && #[trigger] pre[j + h]@[a] != Some(m);
                            assert(mask_after(new, m0, a, q.j + q.h) != Some(q.mask));
                        }
                        assert(greedy_choice(new, q, m0, du as int, dv as int));
                    }
                    clear_rect(mask, du, dv, i, j, w, h);
                    proof {
                        let old_new = new;
                        new = new.push(q);
                        assert forall|k: int| 0 <= k < new.len() implies greedy_choice(new.take(k), #[trigger] new[k], m0, du as int, dv as int) by {
                            if k < old_new.len() {
                                assert(new.take(k) =~= old_new.take(k));
                            } else {
                                assert(new.take(k) =~= old_new);
                            }
                        }
                        assert forall|a: int, b: int| #[trigger] in_rect(q, a, b) implies m0(a, b) == Some(m) by {
                            assert(pre[b]@[a] == Some(m));
                            if covered(old_new, a, b) {
                                assert(mask_after(old_new, m0, a, b) is None);
                            }
                        }
                        assert forall|a: int, b: int| #![auto] 0 <= a < du && 0 <= b < dv implies
                            covered(new, a, b) == (covered(old_new, a, b) || in_rect(q, a, b)) by {
                            if covered(new, a, b) {
                                let k = choose|k: int| 0 <= k < new.len() && #[trigger] in_rect(new[k], a, b);
                                if k < old_new.len() {
                                    assert(in_rect(old_new[k], a, b));
                                }
                            }
                            if covered(old_new, a, b) {
                                let k = choose|k: int| 0 <= k < old_new.len() && #[trigger] in_rect(old_new[k], a, b);
                                assert(in_rect(new[k], a, b));
                            }
                            if in_rect(q, a, b) {
                                assert(in_rect(new[old_new.len() as int], a, b));
                            }
                        }
                        assert forall|a: int, b: int| 0 <= a < du && 0 <= b < dv implies #[trigger] mask@[b]@[a]
                            == mask_after(new, m0, a, b) by {
                            assert(covered(new, a, b) == (covered(old_new, a, b) || in_rect(q, a, b)));
                        }
                        assert forall|k1: int, k2: int, a: int, b: int| 0 <= k1 < k2 < new.len() implies
                            !(#[trigger] in_rect(new[k1], a, b) && #[trigger] in_rect(new[k2], a, b)) by {
                            if k2 == old_new.len() && in_rect(new[k1], a, b) && in_rect(q, a, b) {
                                assert(in_rect(old_new[k1], a, b));
                                assert(covered(old_new, a, b));
                                assert(pre[b]@[a] == Some(m));
                            } else if k2 < old_new.len() {
                                assert(new[k1] == old_new[k1] && new[k2] == old_new[k2]);
                            }
                        }
                        assert forall|k: int| 0 <= k < new.len() implies quad_fits(#[trigger] new[k], du as int, dv as int)
                            && quad_uniform(new[k], m0) && new[k].axis == d && new[k].plane == plane by {
                            if k < old_new.len() {
                                assert(new[k] == old_new[k]);
                            }
                        }
                        assert(quads@ == start + new);
                    }
                    i = i + w;
                },
            }
        }
        j = j + 1;
    }
    proof {
        assert(quads@.take(start.len() as int) =~= start);
        assert(quads@.skip(start.len() as int) =~= new);
        assert forall|a: int, b: int| 0 <= a < du && 0 <= b < dv && (#[trigger] m0(a, b)) is Some implies covered(new, a, b) by {
            assert(mask@[b]@[a] is None);
        }
    }
}

/// The blocks around a chunk that its border faces are decided against, and the
/// grass tint of the columns whose faces it may draw.
pub struct Border {
    /// Column x = -1, index `y * 16 + z`.
    pub west: Vec<BlockState>,
    /// Column x = 16, index `y * 16 + z`.
    pub east: Vec<BlockState>,
    /// Row z = -1, index `y * 16 + x`.
    pub north: Vec<BlockState>,
    /// Row z = 16, index `y * 16 + x`.
    pub south: Vec<BlockState>,
    /// Layer y = -1, index `z * 16 + x`.
    pub below: Vec<BlockState>,
    /// Layer y = 384, index `z * 16 + x`.
    pub above: Vec<BlockState>,
    /// Grass tint of column (x, z) for -1 <= x, z <= 16, index `(z + 1) * 18 + (x + 1)`.
    pub tints: Vec<Tint>,
}

impl Border {
    /// Every side has its full size.
    pub open spec fn wf(&self) -> bool {
        &&& self.west@.len() == 6144
        &&& self.east@.len() == 6144
        &&& self.north@.len() == 6144
        &&& self.south@.len() == 6144
        &&& self.below@.len() == 256
        &&& self.above@.len() == 256
        &&& self.tints@.len() == 324
    }
}

/// Block at local (x, y, z): inside the chunk from the chunk, one step outside it
/// from the border; air elsewhere (never asked).
pub open spec fn sample(c: Chunk, bd: Border, x: int, y: int, z: int) -> BlockState {
    if in_column(x, y, z) {
        c.block(x, y, z)
    } else if x == -1 && 0 <= y < 384 && 0 <= z < 16 {
        bd.west@[y * 16 + z]
    } else if x == 16 && 0 <= y < 384 && 0 <= z < 16 {
        bd.east@[y * 16 + z]
    } else if z == -1 && 0 <= y < 384 && 0 <= x < 16 {
        bd.north@[y * 16 + x]
    } else if z == 16 && 0 <= y < 384 && 0 <= x < 16 {
        bd.south@[y * 16 + x]
    } else if y == -1 && 0 <= x < 16 && 0 <= z < 16 {
        bd.below@[z * 16 + x]
    } else if y == 384 && 0 <= x < 16 && 0 <= z < 16 {
        bd.above@[z * 16 + x]
    } else {
        BlockState(0)
    }
}

/// Number of slices across axis `d` (x: 16, y: 384, z: 16).
pub open spec fn depth(d: int) -> int {
    if d == 1 { 384 } else { 16 }
}

/// Width of a slice across axis `d` (its u axis is (d + 1) mod 3).
pub open spec fn width(d: int) -> int {
    if d == 0 { 384 } else { 16 }
}

/// Height of a slice across axis `d` (its v axis is (d + 2) mod 3).
pub open spec fn height(d: int) -> int {
    if d == 2 { 384 } else { 16 }
}

/// Local coordinates of cell (i, j) at position `s` along axis `d`.
pub open spec fn coords(d: int, s: int, i: int, j: int) -> (int, int, int) {
    if d == 0 {
        (s, i, j)
    } else if d == 1 {
        (j, s, i)
    } else {
        (i, j, s)
    }
}

/// Untinted faces.
pub open spec fn white() -> Tint {
    Tint { r: 255, g: 255, b: 255 }
}

/// Tint of a face of `block` owned by column (x, z): the column's grass tint for
/// grass and leaves, white otherwise.
pub open spec fn tint_for(block: BlockState, x: int, z: int, bd: Border) -> Tint {
    if block.0 == GRASS || block.0 == LEAVES {
        bd.tints@[(z + 1) * 18 + (x + 1)]
    } else {
        white()
    }
}

/// Vertical component of the normal of a face across axis `d`.
pub open spec fn normal_y(d: int, positive: bool) -> int {
    if d == 1 {
        if positive { 1 } else { -1 }
    } else {
        0
    }
}

/// The face between the cell at slice position `s` and its neighbour at `s + 1`
/// across axis `d`: owned by whichever block shows its face to the other.
pub open spec fn face_at(c: Chunk, bd: Border, d: int, s: int, i: int, j: int) -> Option<Mask> {
    let p = coords(d, s, i, j);
    let q = coords(d, s + 1, i, j);
    let a = sample(c, bd, p.0, p.1, p.2);
    let b = sample(c, bd, q.0, q.1, q.2);
    if visible_against(a, b) {
        Some(Mask { layer: texture_of(a, face_of(normal_y(d, true))), tint: tint_for(a, p.0, p.2, bd), positive: true })
    } else if visible_against(b, a) {
        Some(Mask { layer: texture_of(b, face_of(normal_y(d, false))), tint: tint_for(b, q.0, q.2, bd), positive: false })
    } else {
        None
    }
}

/// Faces of slice `s` across axis `d`, as a plane mask.
pub open spec fn face_fn(c: Chunk, bd: Border, d: int, s: int) -> spec_fn(int, int) -> Option<Mask> {
    |a: int, b: int| face_at(c, bd, d, s, a, b)
}

/// `true` when slice `s` of axis `d` is one the mesher visits.
pub open spec fn slice_in_range(d: int, s: int) -> bool {
    0 <= d < 3 && -1 <= s < depth(d)
}

/// `true` when `quads` is the mesh of `c` for the slices `done` accepts: each quad
/// lies on a visited slice, inside it, on faces of its own appearance; quads of one
/// slice never share a cell; every face of a slice in `done` is covered.
pub open spec fn meshes(quads: Seq<Quad>, c: Chunk, bd: Border, done: spec_fn(int, int) -> bool) -> bool {
    &&& forall|k: int| 0 <= k < quads.len() ==> {
        let q = #[trigger] quads[k];
        &&& slice_in_range(q.axis as int, q.plane - 1)
        &&& done(q.axis as int, q.plane - 1)
        &&& quad_fits(q, width(q.axis as int), height(q.axis as int))
        &&& quad_uniform(q, face_fn(c, bd, q.axis as int, q.plane - 1))
    }
    &&& forall|k1: int, k2: int, a: int, b: int| 0 <= k1 < k2 < quads.len() && quads[k1].axis == quads[k2].axis
        && quads[k1].plane == quads[k2].plane ==> !(#[trigger] in_rect(quads[k1], a, b) && #[trigger] in_rect(quads[k2], a, b))
    &&& forall|d: int, s: int, a: int, b: int| slice_in_range(d, s) && done(d, s) && 0 <= a < width(d) && 0 <= b < height(d)
        && (#[trigger] face_at(c, bd, d, s, a, b)) is Some ==> exists|k: int| 0 <= k < quads.len() && quads[k].axis == d
        && quads[k].plane == s + 1 && #[trigger] in_rect(quads[k], a, b)
}

/// The quads of slice `s` across axis `d`, in emission order.
pub open spec fn slice_quads(quads: Seq<Quad>, d: int, s: int) -> Seq<Quad> {
    quads.filter(|q: Quad| q.axis == d && q.plane == s + 1)
}

/// `true` when the quads of every slice `done` accepts are, in order, the greedy
/// cut of that slice's faces.
pub open spec fn greedy_slices(quads: Seq<Quad>, c: Chunk, bd: Border, done: spec_fn(int, int) -> bool) -> bool {
    forall|d: int, s: int| slice_in_range(d, s) && #[trigger] done(d, s) ==> greedy(slice_quads(quads, d, s),
        face_fn(c, bd, d, s), width(d), height(d))
}

/// `true` when the quads come slice after slice: by axis, then by plane.
pub open spec fn slice_ordered(quads: Seq<Quad>) -> bool {
    forall|k1: int, k2: int| 0 <= k1 < k2 < quads.len() ==> (#[trigger] quads[k1]).axis < (#[trigger] quads[k2]).axis
        || (quads[k1].axis == quads[k2].axis && quads[k1].plane <= quads[k2].plane)
}

/// Every slice.
pub open spec fn all_slices() -> spec_fn(int, int) -> bool {
    |d: int, s: int| true
}

/// Block at local (x, y, z), inside the chunk or one step outside it.
fn sample_at(c: &Chunk, bd: &Border, x: i32, y: i32, z: i32) -> (r: BlockState)
    requires
        c.wf(),
        bd.wf(),
        -1 <= x <= 16,
        -1 <= y <= 384,
        -1 <= z <= 16,
    ensures
        r == sample(*c, *bd, x as int, y as int, z as int),
{
    if 0 <= x && x < 16 && 0 <= y && y < 384 && 0 <= z && z < 16 {
        c.get(x as usize, y as usize, z as usize)
    } else if x == -1 && 0 <= y && y < 384 && 0 <= z && z < 16 {
        bd.west[(y * 16 + z) as usize]
    } else if x == 16 && 0 <= y && y < 384 && 0 <= z && z < 16 {
        bd.east[(y * 16 + z) as usize]
    } else if z == -1 && 0 <= y && y < 384 && 0 <= x && x < 16 {
        bd.north[(y * 16 + x) as usize]
    } else if z == 16 && 0 <= y && y < 384 && 0 <= x && x < 16 {
        bd.south[(y * 16 + x) as usize]
    } else if y == -1 && 0 <= x && x < 16 && 0 <= z && z < 16 {
        bd.below[(z * 16 + x) as usize]
    } else if y == 384 && 0 <= x && x < 16 && 0 <= z && z < 16 {
        bd.above[(z * 16 + x) as usize]
    } else {
        BlockState(0)
    }
}

/// Local coordinates of cell (i, j) at slice position `s` across axis `d`.
fn coords_of(d: usize, s: i32, i: usize, j: usize) -> (r: (i32, i32, i32))
    requires
        d < 3,
        -1 <= s <= depth(d as int),
        i < width(d as int),
        j < height(d as int),
    ensures
        (r.0 as int, r.1 as int, r.2 as int) == coords(d as int, s as int, i as int, j as int),
        -1 <= r.0 <= 16,
        -1 <= r.1 <= 384,
        -1 <= r.2 <= 16,
{
    if d == 0 {
        (s, i as i32, j as i32)
    } else if d == 1 {
        (j as i32, s, i as i32)
    } else {
        (i as i32, j as i32, s)
    }
}

/// Tint of a face of `block` owned by column (x, z).
fn tint_of(block: BlockState, x: i32, z: i32, bd: &Border) -> (r: Tint)
    requires
        bd.wf(),
        -1 <= x <= 16,
        -1 <= z <= 16,
    ensures
        r == tint_for(block, x as int, z as int, *bd),
{
    if block.0 == GRASS || block.0 == LEAVES {
        bd.tints[((z + 1) * 18 + (x + 1)) as usize]
    } else {
        Tint { r: 255, g: 255, b: 255 }
    }
}

/// The face between the cell at slice `s` and its neighbour at `s + 1` across axis `d`.
fn face(c: &Chunk, bd: &Border, d: usize, s: i32, i: usize, j: usize) -> (r: Option<Mask>)
    requires
        c.wf(),
        bd.wf(),
        d < 3,
        -1 <= s < depth(d as int),
        i < width(d as int),
        j < height(d as int),
    ensures
        r == face_at(*c, *bd, d as int, s as int, i as int, j as int),
{
    let p = coords_of(d, s, i, j);
    let q = coords_of(d, s + 1, i, j);
    let a = sample_at(c, bd, p.0, p.1, p.2);
    let b = sample_at(c, bd, q.0, q.1, q.2);
    if renders_against(a, b) {
        let ny: i32 = if d == 1 { 1 } else { 0 };
        Some(Mask { layer: face_texture(a, Face::from_normal(ny)), tint: tint_of(a, p.0, p.2, bd), positive: true })
    } else if renders_against(b, a) {
        let ny: i32 = if d == 1 { -1 } else { 0 };
        Some(Mask { layer: face_texture(b, Face::from_normal(ny)), tint: tint_of(b, q.0, q.2, bd), positive: false })
    } else {
        None
    }
}

/// A tiling of one plane mask is a tiling of any mask that agrees with it on the plane.
proof fn lemma_tiles_ext(qs: Seq<Quad>, m1: spec_fn(int, int) -> Option<Mask>, m2: spec_fn(int, int) -> Option<Mask>, du: int, dv: int)
    requires
        tiles(qs, m1, du, dv),
        forall|a: int, b: int| 0 <= a < du && 0 <= b < dv ==> #[trigger] m1(a, b) == #[trigger] m2(a, b),
    ensures
        tiles(qs, m2, du, dv),
{
    assert forall|k: int| 0 <= k < qs.len() implies quad_fits(#[trigger] qs[k], du, dv) && quad_uniform(qs[k], m2) by {
        assert forall|a: int, b: int| #[trigger] in_rect(qs[k], a, b) implies m2(a, b) == Some(qs[k].mask) by {
            assert(m1(a, b) == Some(qs[k].mask));
        }
    }
    assert forall|a: int, b: int| 0 <= a < du && 0 <= b < dv && (#[trigger] m2(a, b)) is Some implies covered(qs, a, b) by {
        assert(m1(a, b) is Some);
    }
}

/// Fills the plane mask with the faces of slice `s` across axis `d`.
fn fill_mask(c: &Chunk, bd: &Border, d: usize, s: i32, mask: &mut Vec<Vec<Option<Mask>>>)
    requires
        c.wf(),
        bd.wf(),
        d < 3,
        -1 <= s < depth(d as int),
        mask_shape(old(mask)@, width(d as int), height(d as int)),
    ensures
        mask_shape(final(mask)@, width(d as int), height(d as int)),
        forall|a: int, b: int| 0 <= a < width(d as int) && 0 <= b < height(d as int) ==> #[trigger] final(mask)@[b]@[a]
            == face_at(*c, *bd, d as int, s as int, a, b),
{
    let du: usize = if d == 0 { 384 } else { 16 };
    let dv: usize = if d == 2 { 384 } else { 16 };
    let mut j: usize = 0;
    while j < dv
        invariant
            du == width(d as int),
            dv == height(d as int),
            c.wf(),
            bd.wf(),
            d < 3,
            -1 <= s < depth(d as int),
            j <= dv,
            mask_shape(mask@, du as int, dv as int),
            forall|a: int, b: int| 0 <= a < du && 0 <= b < j ==> #[trigger] mask@[b]@[a]
                == face_at(*c, *bd, d as int, s as int, a, b),
        decreases dv - j,
    {
        let mut i: usize = 0;
        while i < du
            invariant
                du == width(d as int),
                dv == height(d as int),
                c.wf(),
                bd.wf(),
                d < 3,
                -1 <= s < depth(d as int),
                j < dv,
                i <= du,
                mask_shape(mask@, du as int, dv as int),
                forall|a: int, b: int| 0 <= a < du && 0 <= b < dv && (b < j || (b == j && a < i)) ==> #[trigger] mask@[b]@[a]
                    == face_at(*c, *bd, d as int, s as int, a, b),
            decreases du - i,
        {
            let f = face(c, bd, d, s, i, j);
            let ghost before = mask@;
            mask[j].set(i, f);
            proof {
                assert forall|b: int| 0 <= b < dv && b != j implies mask@[b] == before[b] by {}
            }
            i = i + 1;
        }
        j = j + 1;
    }
}

/// An empty `du × dv` plane mask.
fn new_mask(du: usize, dv: usize) -> (mask: Vec<Vec<Option<Mask>>>)
    ensures
        mask_shape(mask@, du as int, dv as int),
{
    let mut mask: Vec<Vec<Option<Mask>>> = Vec::new();
    let mut j: usize = 0;
    while j < dv
        invariant
            j <= dv,
            mask@.len() == j,
            forall|b: int| 0 <= b < j ==> (#[trigger] mask@[b])@.len() == du,
        decreases dv - j,
    {
        let mut row: Vec<Option<Mask>> = Vec::new();
        let mut i: usize = 0;
        while i < du
            invariant
                i <= du,
                row@.len() == i,
            decreases du - i,
        {
            row.push(None);
            i = i + 1;
        }
        mask.push(row);
        j = j + 1;
    }
    mask
}

/// Slices strictly before slice (d, s) in meshing order.
pub open spec fn before_slice(d: int, s: int) -> spec_fn(int, int) -> bool {
    |d2: int, s2: int| d2 < d || (d2 == d && s2 < s)
}

/// Keeping the quads that satisfy `p`, when all of them do, keeps them all.
proof fn lemma_filter_all(s: Seq<Quad>, p: spec_fn(Quad) -> bool)
    requires
        forall|k: int| 0 <= k < s.len() ==> p(#[trigger] s[k]),
    ensures
        s.filter(p) == s,
    decreases s.len(),
{
    reveal(Seq::filter);
    if s.len() > 0 {
        lemma_filter_all(s.drop_last(), p);
        assert(s.drop_last().push(s.last()) =~= s);
    }
}

/// Keeping the quads that satisfy `p`, when none does, keeps nothing.
proof fn lemma_filter_none(s: Seq<Quad>, p: spec_fn(Quad) -> bool)
    requires
        forall|k: int| 0 <= k < s.len() ==> !p(#[trigger] s[k]),
    ensures
        s.filter(p) == Seq::<Quad>::empty(),
    decreases s.len(),
{
    reveal(Seq::filter);
    if s.len() > 0 {
        lemma_filter_none(s.drop_last(), p);
    }
    assert(s.filter(p) =~= Seq::<Quad>::empty());
}

/// A greedy cut of one plane mask is a greedy cut of any mask that agrees with it on the plane.
proof fn lemma_greedy_ext(qs: Seq<Quad>, m1: spec_fn(int, int) -> Option<Mask>, m2: spec_fn(int, int) -> Option<Mask>, du: int, dv: int)
    requires
        greedy(qs, m1, du, dv),
        forall|k: int| 0 <= k < qs.len() ==> quad_fits(#[trigger] qs[k], du, dv),
        forall|a: int, b: int| 0 <= a < du && 0 <= b < dv ==> #[trigger] m1(a, b) == #[trigger] m2(a, b),
    ensures
        greedy(qs, m2, du, dv),
{
    assert forall|k: int| 0 <= k < qs.len() implies greedy_choice(qs.take(k), #[trigger] qs[k], m2, du, dv) by {
        let prev = qs.take(k);
        let q = qs[k];
        assert(greedy_choice(prev, q, m1, du, dv));
        assert(quad_fits(q, du, dv));
        assert forall|a: int, b: int| 0 <= a < du && 0 <= b < dv implies #[trigger] mask_after(prev, m2, a, b) == mask_after(prev, m1, a, b) by {
            assert(m1(a, b) == m2(a, b));
        }
        if q.j + q.h < dv {
            let a = choose|a: int| q.i <= a < q.i + q.w && #[trigger] mask_after(prev, m1, a, q.j + q.h) != Some(q.mask);
            assert(mask_after(prev, m2, a, q.j + q.h) != Some(q.mask));
        }
    }
}

/// Greedy meshing of every slice across axis `d`, appended to `quads`.
fn mesh_axis(c: &Chunk, bd: &Border, d: usize, quads: &mut Vec<Quad>)
    requires
        c.wf(),
        bd.wf(),
        d < 3,
        meshes(old(quads)@, *c, *bd, before_slice(d as int, -1)),
        greedy_slices(old(quads)@, *c, *bd, before_slice(d as int, -1)),
        slice_ordered(old(quads)@),
    ensures
        meshes(final(quads)@, *c, *bd, before_slice(d as int + 1, -1)),
        greedy_slices(final(quads)@, *c, *bd, before_slice(d as int + 1, -1)),
        slice_ordered(final(quads)@),
{
    let du: usize = if d == 0 { 384 } else { 16 };
    let dv: usize = if d == 2 { 384 } else { 16 };
    let dd: i32 = if d == 1 { 384 } else { 16 };
    let mut mask = new_mask(du, dv);
    let mut s: i32 = -1;
    while s < dd
        invariant
            du == width(d as int),
            dv == height(d as int),
            dd == depth(d as int),
            c.wf(),
            bd.wf(),
            d < 3,
            -1 <= s <= dd,
            mask_shape(mask@, du as int, dv as int),
            meshes(quads@, *c, *bd, before_slice(d as int, s as int)),
            greedy_slices(quads@, *c, *bd, before_slice(d as int, s as int)),
            slice_ordered(quads@),
        decreases dd - s,
    {
        fill_mask(c, bd, d, s, &mut mask);
        let ghost m = mask@;
        let ghost prev = quads@;
        greedy_merge(&mut mask, du, dv, d, s + 1, quads);
        proof {
            let n = prev.len();
            let blk = quads@.skip(n as int);
            let ff = face_fn(*c, *bd, d as int, s as int);
            lemma_tiles_ext(blk, mask_fn(m), ff, du as int, dv as int);
            lemma_greedy_ext(blk, mask_fn(m), ff, du as int, dv as int);
            assert(quads@ =~= prev + blk);
            assert forall|d2: int, s2: int| slice_in_range(d2, s2) && #[trigger] before_slice(d as int, s + 1)(d2, s2) implies greedy(
                slice_quads(quads@, d2, s2), face_fn(*c, *bd, d2, s2), width(d2), height(d2)) by {
                let pred = |q: Quad| q.axis == d2 && q.plane == s2 + 1;
                Seq::filter_distributes_over_add(prev, blk, pred);
                if d2 == d && s2 == s {
                    lemma_filter_none(prev, pred);
                    lemma_filter_all(blk, pred);
                    assert(slice_quads(quads@, d2, s2) =~= blk);
                } else {
                    assert(before_slice(d as int, s as int)(d2, s2));
                    assert forall|k: int| 0 <= k < blk.len() implies !pred(#[trigger] blk[k]) by {
                        assert(quads@[n + k] == blk[k]);
                    }
                    lemma_filter_none(blk, pred);
                    assert(slice_quads(quads@, d2, s2) =~= slice_quads(prev, d2, s2));
                }
            }
            let done = before_slice(d as int, s as int);
            let done2 = before_slice(d as int, s + 1);
            assert forall|k: int| 0 <= k < quads@.len() implies {
                let q = #[trigger] quads@[k];
                &&& slice_in_range(q.axis as int, q.plane - 1)
                &&& done2(q.axis as int, q.plane - 1)
                &&& quad_fits(q, width(q.axis as int), height(q.axis as int))
                &&& quad_uniform(q, face_fn(*c, *bd, q.axis as int, q.plane - 1))
            } by {
                if k < n {
                    assert(quads@[k] == prev[k]);
                } else {
                    assert(quads@[k] == blk[k - n]);
                    assert(quad_fits(blk[k - n], du as int, dv as int));
                }
            }
            assert forall|k1: int, k2: int, a: int, b: int| 0 <= k1 < k2 < quads@.len() && quads@[k1].axis == quads@[k2].axis
                && quads@[k1].plane == quads@[k2].plane implies !(#[trigger] in_rect(quads@[k1], a, b) && #[trigger] in_rect(quads@[k2], a, b)) by {
                if k2 < n {
                    assert(quads@[k1] == prev[k1] && quads@[k2] == prev[k2]);
                } else if k1 < n {
                    assert(quads@[k1] == prev[k1]);
                    assert(done(prev[k1].axis as int, prev[k1].plane - 1));
                } else {
                    assert(quads@[k1] == blk[k1 - n] && quads@[k2] == blk[k2 - n]);
                }
            }
            assert forall|k1: int, k2: int| 0 <= k1 < k2 < quads@.len() implies (#[trigger] quads@[k1]).axis < (#[trigger] quads@[k2]).axis
                || (quads@[k1].axis == quads@[k2].axis && quads@[k1].plane <= quads@[k2].plane) by {
                if k2 < n {
                    assert(quads@[k1] == prev[k1] && quads@[k2] == prev[k2]);
                } else if k1 < n {
                    assert(quads@[k1] == prev[k1]);
                    assert(done(prev[k1].axis as int, prev[k1].plane - 1));
                    assert(quads@[k2] == blk[k2 - n]);
                } else {
                    assert(quads@[k1] == blk[k1 - n] && quads@[k2] == blk[k2 - n]);
                }
            }
            assert forall|d2: int, s2: int, a: int, b: int| slice_in_range(d2, s2) && done2(d2, s2) && 0 <= a < width(d2) && 0 <= b < height(d2)
                && (#[trigger] face_at(*c, *bd, d2, s2, a, b)) is Some implies exists|k: int| 0 <= k < quads@.len() && quads@[k].axis == d2
                && quads@[k].plane == s2 + 1 && #[trigger] in_rect(quads@[k], a, b) by {
                if done(d2, s2) {
                    let k = choose|k: int| 0 <= k < prev.len() && prev[k].axis == d2 && prev[k].plane == s2 + 1 && #[trigger] in_rect(prev[k], a, b);
                    assert(quads@[k] == prev[k]);
                } else {
                    assert(d2 == d && s2 == s);
                    assert(ff(a, b) is Some);
                    assert(covered(blk, a, b));
                    let k = choose|k: int| 0 <= k < blk.len() && #[trigger] in_rect(blk[k], a, b);
                    assert(quads@[n + k] == blk[k]);
                }
            }
        }
        s = s + 1;
    }
    proof {
        let done = before_slice(d as int, dd as int);
        assert forall|d2: int, s2: int| slice_in_range(d2, s2) && #[trigger] before_slice(d as int + 1, -1)(d2, s2) implies greedy(
            slice_quads(quads@, d2, s2), face_fn(*c, *bd, d2, s2), width(d2), height(d2)) by {
            assert(done(d2, s2));
        }
        assert forall|d2: int, s2: int, a: int, b: int| slice_in_range(d2, s2) && before_slice(d as int + 1, -1)(d2, s2)
            && 0 <= a < width(d2) && 0 <= b < height(d2)
            && (#[trigger] face_at(*c, *bd, d2, s2, a, b)) is Some implies exists|k: int| 0 <= k < quads@.len() && quads@[k].axis == d2
            && quads@[k].plane == s2 + 1 && #[trigger] in_rect(quads@[k], a, b) by {
            assert(done(d2, s2));
        }
    }
}

/// Greedy mesh of a chunk: merged quads for the three axes, border faces decided
/// against `bd`. Every visible face of the chunk (and every face its border
/// blocks show towards it) is drawn exactly once, with its texture and tint. Quads
/// come axis by axis, slice by slice, each slice cut greedily in scan order.
pub fn mesh_chunk(c: &Chunk, bd: &Border) -> (quads: Vec<Quad>)
    requires
        c.wf(),
        bd.wf(),
    ensures
        meshes(quads@, *c, *bd, all_slices()),
        greedy_slices(quads@, *c, *bd, all_slices()),
        slice_ordered(quads@),
{
    let mut quads: Vec<Quad> = Vec::new();
    let mut d: usize = 0;
    while d < 3
        invariant
            c.wf(),
            bd.wf(),
            d <= 3,
            meshes(quads@, *c, *bd, before_slice(d as int, -1)),
            greedy_slices(quads@, *c, *bd, before_slice(d as int, -1)),
            slice_ordered(quads@),
        decreases 3 - d,
    {
        mesh_axis(c, bd, d, &mut quads);
        d = d + 1;
    }
    proof {
        assert forall|d2: int, s2: int, a: int, b: int| slice_in_range(d2, s2) && 0 <= a < width(d2) && 0 <= b < height(d2)
            && (#[trigger] face_at(*c, *bd, d2, s2, a, b)) is Some implies exists|k: int| 0 <= k < quads@.len() && quads@[k].axis == d2
            && quads@[k].plane == s2 + 1 && #[trigger] in_rect(quads@[k], a, b) by {
            assert(before_slice(3, -1)(d2, s2));
        }
        assert forall|d2: int, s2: int| slice_in_range(d2, s2) && #[trigger] all_slices()(d2, s2) implies greedy(
            slice_quads(quads@, d2, s2), face_fn(*c, *bd, d2, s2), width(d2), height(d2)) by {
            assert(before_slice(3, -1)(d2, s2));
        }
    }
    quads
}

/// Faces on the chunk's border are decided against the matching side of `bd`:
/// across x against `west` (x = -1) and `east` (x = 16), across y against `below`
/// and `above`, across z against `north` (z = -1) and `south` (z = 16). A face is
/// owned by the border block (positive at the low side, negative at the high side)
/// exactly when that block shows its face to the chunk's block, and by the chunk's
/// block when the converse holds.
pub proof fn law_border_faces(c: Chunk, bd: Border, i: int, j: int)
    requires
        c.wf(),
        bd.wf(),
    ensures
        0 <= i < 384 && 0 <= j < 16 ==> {
            let w = bd.west@[i * 16 + j];
            let e = bd.east@[i * 16 + j];
            &&& (face_at(c, bd, 0, -1, i, j) matches Some(m) && m.positive) == visible_against(w, c.block(0, i, j))
            &&& (face_at(c, bd, 0, -1, i, j) matches Some(m) && !m.positive) == (!visible_against(w, c.block(0, i, j))
                && visible_against(c.block(0, i, j), w))
            &&& (face_at(c, bd, 0, 15, i, j) matches Some(m) && !m.positive) == (!visible_against(c.block(15, i, j), e)
                && visible_against(e, c.block(15, i, j)))
            &&& (face_at(c, bd, 0, 15, i, j) matches Some(m) && m.positive) == visible_against(c.block(15, i, j), e)
        },
        0 <= i < 16 && 0 <= j < 16 ==> {
            let lo = bd.below@[i * 16 + j];
            let hi = bd.above@[i * 16 + j];
            &&& (face_at(c, bd, 1, -1, i, j) matches Some(m) && m.positive) == visible_against(lo, c.block(j, 0, i))
            &&& (face_at(c, bd, 1, -1, i, j) matches Some(m) && !m.positive) == (!visible_against(lo, c.block(j, 0, i))
                && visible_against(c.block(j, 0, i), lo))
            &&& (face_at(c, bd, 1, 383, i, j) matches Some(m) && !m.positive) == (!visible_against(c.block(j, 383, i), hi)
                && visible_against(hi, c.block(j, 383, i)))
            &&& (face_at(c, bd, 1, 383, i, j) matches Some(m) && m.positive) == visible_against(c.block(j, 383, i), hi)
        },
        0 <= i < 16 && 0 <= j < 384 ==> {
            let n = bd.north@[j * 16 + i];
            let s = bd.south@[j * 16 + i];
            &&& (face_at(c, bd, 2, -1, i, j) matches Some(m) && m.positive) == visible_against(n, c.block(i, j, 0))
            &&& (face_at(c, bd, 2, -1, i, j) matches Some(m) && !m.positive) == (!visible_against(n, c.block(i, j, 0))
                && visible_against(c.block(i, j, 0), n))
            &&& (face_at(c, bd, 2, 15, i, j) matches Some(m) && !m.positive) == (!visible_against(c.block(i, j, 15), s)
                && visible_against(s, c.block(i, j, 15)))
            &&& (face_at(c, bd, 2, 15, i, j) matches Some(m) && m.positive) == visible_against(c.block(i, j, 15), s)
        },
{
}

} // verus!
