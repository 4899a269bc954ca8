use voxelith::texture::{hash_bits, textures, TexKind, TEX_COUNT, TEX_GRASS_SIDE, TEX_LEAVES, TEX_SIZE, TEX_STONE};

#[test]
fn catalogue_in_layer_order() {
    let t = textures();
    assert_eq!(t.len(), TEX_COUNT);
    let names: Vec<&str> = t.iter().map(|d| d.name).collect();
    assert_eq!(names, vec!["stone", "dirt", "grass_top", "grass_side", "sand", "snow", "water", "gravel", "wood", "leaves"]);
    assert_eq!(t[TEX_STONE as usize].rgb, [122, 122, 128]);
    assert_eq!(t[TEX_GRASS_SIDE as usize].kind, TexKind::GrassSide);
    assert_eq!(t[TEX_LEAVES as usize].kind, TexKind::GrassTop);
    assert_eq!(t[6].kind, TexKind::Smooth);
    assert_eq!(t[8].kind, TexKind::Strata);
    assert_eq!(t[3].rgb, t[1].rgb);
    assert_eq!(TEX_SIZE, 16);
}

#[test]
fn hash_exact_values() {
    assert_eq!(hash_bits(0, 0, 0), 0);
    assert_eq!(hash_bits(1, 2, 7), 3592312600);
    assert_eq!(hash_bits(15, 15, 11), 2075155825);
    assert_eq!(hash_bits(3, 0, 9), 1825403621);
    assert_eq!(hash_bits(u32::MAX, 1, 5), 2625389222);
}

#[test]
fn hash_depends_on_every_input() {
    let h = hash_bits(4, 5, 6);
    assert_ne!(h, hash_bits(5, 5, 6));
    assert_ne!(h, hash_bits(4, 6, 6));
    assert_ne!(h, hash_bits(4, 5, 7));
    assert_eq!(h, hash_bits(4, 5, 6));
}
