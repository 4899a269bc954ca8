//! Bitmap glyphs of the UI font: 5 columns × 7 rows, one byte per row with the
//! leftmost column in bit 4. Which cells of a glyph are lit, in drawing order.

use vstd::prelude::*;

verus! {

/// Columns of a glyph.
pub const GLYPH_W: usize = 5;

/// Rows of a glyph.
pub const GLYPH_H: usize = 7;

/// `true` when cell (row, col) of the glyph with rows `rows` is lit.
pub open spec fn lit(rows: Seq<u8>, row: int, col: int) -> bool {
    rows[row] & (1u8 << ((4 - col) as u8)) != 0
}

/// Drawing position of cell (row, col): rows top to bottom, columns left to right.
pub open spec fn cell_order(c: (usize, usize)) -> int {
    c.0 * 5 + c.1
}

/// `true` when `cells` lists exactly the lit cells of `rows` among the first
/// `upto` cells in drawing order, each once, in that order.
pub open spec fn lists_lit(cells: Seq<(usize, usize)>, rows: Seq<u8>, upto: int) -> bool {
    &&& forall|k: int| 0 <= k < cells.len() ==> {
        let c = #[trigger] cells[k];
        &&& c.0 < 7
        &&& c.1 < 5
        &&& lit(rows, c.0 as int, c.1 as int)
        &&& cell_order(c) < upto
    }
    &&& forall|k1: int, k2: int| 0 <= k1 < k2 < cells.len() ==> cell_order(#[trigger] cells[k1]) < cell_order(#[trigger] cells[k2])
    &&& forall|r: int, c: int| 0 <= r < 7 && 0 <= c < 5 && r * 5 + c < upto && #[trigger] lit(rows, r, c)
        ==> cells.contains((r as usize, c as usize))
}

/// The lit cells (row, column) of a glyph, row by row, left to right.
pub fn lit_cells(rows: &[u8; 7]) -> (cells: Vec<(usize, usize)>)
    ensures
        lists_lit(cells@, rows@, 35),
{
    let mut cells: Vec<(usize, usize)> = Vec::new();
    let mut row: usize = 0;
    while row < GLYPH_H
        invariant
            row <= 7,
            rows@.len() == 7,
            lists_lit(cells@, rows@, (row * 5) as int),
        decreases 7 - row,
    {
        let mask = rows[row];
        let mut col: usize = 0;
        while col < GLYPH_W
            invariant
                row < 7,
                col <= 5,
                rows@.len() == 7,
                mask == rows@[row as int],
                lists_lit(cells@, rows@, (row * 5 + col) as int),
            decreases 5 - col,
        {
            let shift: u8 = (GLYPH_W - 1 - col) as u8;
            let on = mask & (1u8 << shift) != 0;
            let ghost prev = cells@;
            if on {
                cells.push((row, col));
            }
            proof {
                let here = row * 5 + col;
                assert(on == lit(rows@, row as int, col as int));
                if on {
                    assert(cells@ == prev.push((row, col)));
                    assert forall|k: int| 0 <= k < cells@.len() implies {
                        let c = #[trigger] cells@[k];
                        &&& c.0 < 7
                        &&& c.1 < 5
                        &&& lit(rows@, c.0 as int, c.1 as int)
                        &&& cell_order(c) < here + 1
                    } by {
                        if k < prev.len() {
                            assert(cells@[k] == prev[k]);
                        }
                    }
                    assert forall|k1: int, k2: int| 0 <= k1 < k2 < cells@.len() implies cell_order(#[trigger] cells@[k1])
                        < cell_order(#[trigger] cells@[k2]) by {
                        assert(cells@[k1] == prev[k1]);
                        if k2 < prev.len() {
                            assert(cells@[k2] == prev[k2]);
                        }
                    }
                }
                assert forall|r: int, c: int| 0 <= r < 7 && 0 <= c < 5 && r * 5 + c < here + 1 && #[trigger] lit(rows@, r, c)
                    implies cells@.contains((r as usize, c as usize)) by {
                    if r * 5 + c < here {
                        let k = choose|k: int| 0 <= k < prev.len() && prev[k] == (r as usize, c as usize);
                        assert(cells@[k] == prev[k]);
                    } else {
                        assert(r == row && c == col);
                        assert(cells@[cells@.len() - 1] == (row, col));
                    }
                }
            }
            col = col + 1;
        }
        row = row + 1;
    }
    cells
}

} // verus!
