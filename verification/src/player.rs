//! Game mode of the player, and the block a moving player stops against.

use vstd::prelude::*;

verus! {

/// Game mode: survival (gravity) or creative (free flight).
#[derive(Debug, Clone, Copy, PartialEq, Eq, Structural)]
pub enum GameMode {
    Survival,
    Creative,
}

impl GameMode {
    /// Lower-case name of the mode.
    pub fn label(self) -> (r: &'static str)
        ensures
            r@ == (match self {
                GameMode::Survival => "survival"@,
                GameMode::Creative => "creative"@,
            }),
    {
        match self {
            GameMode::Survival => "survival",
            GameMode::Creative => "creative",
        }
    }
}

/// Number of cells of the block box [min, max] (both corners included).
pub open spec fn box_volume(min: (i32, i32, i32), max: (i32, i32, i32)) -> int {
    (max.0 - min.0 + 1) * (max.1 - min.1 + 1) * (max.2 - min.2 + 1)
}

/// Cell `k` of the block box [min, max], cells listed by y, then x, then z.
pub open spec fn box_cell(min: (i32, i32, i32), max: (i32, i32, i32), k: int) -> (int, int, int) {
    let nx = max.0 - min.0 + 1;
    let nz = max.2 - min.2 + 1;
    (min.0 + (k / nz) % nx, min.1 + k / (nx * nz), min.2 + k % nz)
}

/// Coordinate of `c` along `axis` (0: x, 1: y, 2: z).
pub open spec fn axis_coord(c: (int, int, int), axis: int) -> int {
    if axis == 0 { c.0 } else if axis == 1 { c.1 } else { c.2 }
}

/// Block coordinate, along `axis`, of the solid block a box moving along that axis
/// stops against: among the solid cells of the box [min, max] (`solid[k]` tells
/// whether cell `k`, in y, x, z order, is solid), the lowest coordinate when
/// moving forward, the highest when moving back; `None` when no cell is solid.
pub fn collision_bound(min: (i32, i32, i32), max: (i32, i32, i32), axis: usize, forward: bool, solid: &[bool]) -> (r: Option<i32>)
    requires
        axis < 3,
        min.0 <= max.0,
        min.1 <= max.1,
        min.2 <= max.2,
        solid@.len() == box_volume(min, max),
    ensures
        r is None <==> forall|k: int| 0 <= k < solid@.len() ==> !solid@[k],
        r matches Some(b) ==> exists|k: int| 0 <= k < solid@.len() && solid@[k] && axis_coord(box_cell(min, max, k), axis as int) == b,
        r matches Some(b) ==> forall|k: int| 0 <= k < solid@.len() && solid@[k] ==> (if forward {
            b <= axis_coord(box_cell(min, max, k), axis as int)
        } else {
            b >= axis_coord(box_cell(min, max, k), axis as int)
        }),
{
    let ghost nxi: int = max.0 - min.0 + 1;
    let ghost nyi: int = max.1 - min.1 + 1;
    let ghost nzi: int = max.2 - min.2 + 1;
    let n = solid.len();
    assert(nxi * nzi <= nxi * nyi * nzi && nxi <= nxi * nzi && nzi <= nxi * nzi) by (nonlinear_arith)
        requires nxi >= 1, nyi >= 1, nzi >= 1;
    let nx: usize = (max.0 as i64 - min.0 as i64 + 1) as usize;
    let nz: usize = (max.2 as i64 - min.2 as i64 + 1) as usize;
    assert(nxi * nzi >= 1) by (nonlinear_arith)
        requires nxi >= 1, nzi >= 1;
    let nxz: usize = nx * nz;
    let mut best: Option<i32> = None;
    let mut k: usize = 0;
    while k < n
        invariant
            axis < 3,
            k <= n,
            n == solid@.len(),
            n == nxi * nyi * nzi,
            nx == nxi,
            nz == nzi,
            nxz == nxi * nzi,
            nxi >= 1,
            nzi >= 1,
            nxz >= 1,
            nxi == max.0 - min.0 + 1,
            nyi == max.1 - min.1 + 1,
            nzi == max.2 - min.2 + 1,
            best is None <==> forall|j: int| 0 <= j < k ==> !solid@[j],
            best matches Some(b) ==> exists|j: int| 0 <= j < k && solid@[j] && axis_coord(box_cell(min, max, j), axis as int) == b,
            best matches Some(b) ==> forall|j: int| 0 <= j < k && solid@[j] ==> (if forward {
                b <= axis_coord(box_cell(min, max, j), axis as int)
            } else {
                b >= axis_coord(box_cell(min, max, j), axis as int)
            }),
        decreases n - k,
    {
        if solid[k] {
            let coord: i32 = if axis == 0 {
                proof {
                    vstd::arithmetic::div_mod::lemma_div_pos_is_pos(k as int, nz as int);
                    vstd::arithmetic::div_mod::lemma_mod_pos_bound((k / nz) as int, nx as int);
                }
                let off = (k / nz) % nx;
                (min.0 as i64 + off as i64) as i32
            } else if axis == 1 {
                proof {
                    assert(n == nxz * nyi) by (nonlinear_arith)
                        requires n == nxi * nyi * nzi, nxz == nxi * nzi;
                    vstd::arithmetic::div_mod::lemma_multiply_divide_lt(k as int, nxz as int, nyi);
                }
                let off = k / nxz;
                (min.1 as i64 + off as i64) as i32
            } else {
                proof {
                    vstd::arithmetic::div_mod::lemma_mod_pos_bound(k as int, nz as int);
                }
                let off = k % nz;
                (min.2 as i64 + off as i64) as i32
            };
            assert(coord == axis_coord(box_cell(min, max, k as int), axis as int));
            let next = match best {
                None => coord,
                Some(b) => if forward { if coord < b { coord } else { b } } else { if coord > b { coord } else { b } },
            };
            best = Some(next);
        }
        k = k + 1;
    }
    best
}

} // verus!
