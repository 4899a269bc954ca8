use voxelith::glyph::{lit_cells, GLYPH_H, GLYPH_W};

#[test]
fn blank_glyph_has_no_cells() {
    assert!(lit_cells(&[0; 7]).is_empty());
    assert_eq!((GLYPH_W, GLYPH_H), (5, 7));
}

#[test]
fn bit_four_is_the_leftmost_column() {
    let rows = [0x10, 0x01, 0, 0, 0, 0, 0x11];
    assert_eq!(lit_cells(&rows), vec![(0, 0), (1, 4), (6, 0), (6, 4)]);
}

#[test]
fn full_glyph_lists_every_cell_in_order() {
    let cells = lit_cells(&[0x1F; 7]);
    assert_eq!(cells.len(), 35);
    for (k, (r, c)) in cells.iter().enumerate() {
        assert_eq!(r * 5 + c, k);
    }
}

#[test]
fn high_bits_are_ignored() {
    assert_eq!(lit_cells(&[0xE0, 0, 0, 0, 0, 0, 0x24]), vec![(6, 2)]);
}

#[test]
fn letter_a() {
    let a = [0x0E, 0x11, 0x11, 0x11, 0x1F, 0x11, 0x11];
    let cells = lit_cells(&a);
    assert_eq!(cells.len(), 3 + 2 * 3 + 5 + 2 * 2);
    assert_eq!(&cells[..3], &[(0, 1), (0, 2), (0, 3)]);
}
