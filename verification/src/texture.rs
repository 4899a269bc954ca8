//! Ordered catalogue of block textures: the single source of truth shared by the
//! registry (layer indices) and the texture-array generator. The index in the
//! catalogue is the layer in the GPU texture array.

use vstd::prelude::*;

verus! {

/// Procedural pattern applied to a texture's base colour.
#[derive(Debug, Clone, Copy, PartialEq, Eq, Structural)]
pub enum TexKind {
    /// Light uniform noise (stone, dirt, sand).
    Grain,
    /// Vertical grass tufts, seen from the top.
    GrassTop,
    /// Dirt band below, grass fringe above (side of a grass block).
    GrassSide,
    /// Horizontal stripes (logs, strata).
    Strata,
    /// Smooth, lightly noisy surface (water).
    Smooth,
}

/// Definition of a texture: name, base RGB colour, procedural pattern.
#[derive(Debug, Clone, Copy)]
pub struct TexDef {
    pub name: &'static str,
    pub rgb: [u8; 3],
    pub kind: TexKind,
}

pub const TEX_STONE: u32 = 0;
pub const TEX_DIRT: u32 = 1;
pub const TEX_GRASS_TOP: u32 = 2;
pub const TEX_GRASS_SIDE: u32 = 3;
pub const TEX_SAND: u32 = 4;
pub const TEX_SNOW: u32 = 5;
pub const TEX_WATER: u32 = 6;
pub const TEX_GRAVEL: u32 = 7;
pub const TEX_WOOD: u32 = 8;
pub const TEX_LEAVES: u32 = 9;

/// Resolution of a texture (16 × 16).
pub const TEX_SIZE: u32 = 16;

/// Number of textures in the catalogue.
pub const TEX_COUNT: usize = 10;

/// Name of catalogue entry `layer`.
pub open spec fn tex_name(layer: int) -> Seq<char> {
    if layer == 0 {
        "stone"@
    } else if layer == 1 {
        "dirt"@
    } else if layer == 2 {
        "grass_top"@
    } else if layer == 3 {
        "grass_side"@
    } else if layer == 4 {
        "sand"@
    } else if layer == 5 {
        "snow"@
    } else if layer == 6 {
        "water"@
    } else if layer == 7 {
        "gravel"@
    } else if layer == 8 {
        "wood"@
    } else {
        "leaves"@
    }
}

/// Base colour of catalogue entry `layer`.
pub open spec fn tex_rgb(layer: int) -> Seq<u8> {
    if layer == 0 {
        seq![122u8, 122u8, 128u8]
    } else if layer == 1 {
        seq![110u8, 78u8, 50u8]
    } else if layer == 2 {
        seq![88u8, 148u8, 66u8]
    } else if layer == 3 {
        seq![110u8, 78u8, 50u8]
    } else if layer == 4 {
        seq![216u8, 204u8, 152u8]
    } else if layer == 5 {
        seq![236u8, 240u8, 246u8]
    } else if layer == 6 {
        seq![54u8, 96u8, 178u8]
    } else if layer == 7 {
        seq![128u8, 122u8, 120u8]
    } else if layer == 8 {
        seq![104u8, 80u8, 48u8]
    } else {
        seq![62u8, 112u8, 50u8]
    }
}

/// Pattern of catalogue entry `layer`.
pub open spec fn tex_kind(layer: int) -> TexKind {
    if layer == 2 || layer == 9 {
        TexKind::GrassTop
    } else if layer == 3 {
        TexKind::GrassSide
    } else if layer == 6 {
        TexKind::Smooth
    } else if layer == 8 {
        TexKind::Strata
    } else {
        TexKind::Grain
    }
}

/// `true` when `d` is catalogue entry `layer`.
pub open spec fn is_catalogue_entry(d: TexDef, layer: int) -> bool {
    &&& d.name@ == tex_name(layer)
    &&& d.rgb@ == tex_rgb(layer)
    &&& d.kind == tex_kind(layer)
}

fn def(name: &'static str, r: u8, g: u8, b: u8, kind: TexKind) -> (d: TexDef)
    ensures
        d.name == name,
        d.rgb@ == seq![r, g, b],
        d.kind == kind,
{
    let d = TexDef { name, rgb: [r, g, b], kind };
    assert(d.rgb@ =~= seq![r, g, b]);
    d
}

/// The texture catalogue, in layer order.
pub fn textures() -> (r: Vec<TexDef>)
    ensures
        r@.len() == TEX_COUNT,
        forall|i: int| 0 <= i < TEX_COUNT ==> is_catalogue_entry(#[trigger] r@[i], i),
{
    let mut v: Vec<TexDef> = Vec::new();
    v.push(def("stone", 122, 122, 128, TexKind::Grain));
    v.push(def("dirt", 110, 78, 50, TexKind::Grain));
    v.push(def("grass_top", 88, 148, 66, TexKind::GrassTop));
    v.push(def("grass_side", 110, 78, 50, TexKind::GrassSide));
    v.push(def("sand", 216, 204, 152, TexKind::Grain));
    v.push(def("snow", 236, 240, 246, TexKind::Grain));
    v.push(def("water", 54, 96, 178, TexKind::Smooth));
    v.push(def("gravel", 128, 122, 120, TexKind::Grain));
    v.push(def("wood", 104, 80, 48, TexKind::Strata));
    v.push(def("leaves", 62, 112, 50, TexKind::GrassTop));
    v
}

/// First mixing step of the texel hash: a weighted sum of the inputs, modulo 2³².
pub open spec fn hash_mix(x: u32, y: u32, seed: u32) -> u32 {
    ((x as int * 374761393 + y as int * 668265263 + seed as int * 2246822519) % 0x1_0000_0000) as u32
}

/// Deterministic texel hash of (x, y, seed) as 32 bits: the weighted sum, then
/// xor-shift by 13, multiplication by 1274126177 modulo 2³², xor-shift by 16.
pub open spec fn hash_spec(x: u32, y: u32, seed: u32) -> u32 {
    let h1 = hash_mix(x, y, seed) ^ (hash_mix(x, y, seed) >> 13u32);
    let h2 = ((h1 as int * 1274126177) % 0x1_0000_0000) as u32;
    h2 ^ (h2 >> 16u32)
}

proof fn lemma_wrapping_add(a: u32, b: u32)
    ensures
        vstd::wrapping::u32_specs::wrapping_add(a, b) as int == (a as int + b as int) % 0x1_0000_0000,
{
    if a as int + b as int > u32::MAX {
        vstd::arithmetic::div_mod::lemma_fundamental_div_mod_converse(a as int + b as int, 0x1_0000_0000, 1, a as int + b as int - 0x1_0000_0000);
    } else {
        vstd::arithmetic::div_mod::lemma_small_mod((a as int + b as int) as nat, 0x1_0000_0000);
    }
}

/// Texel hash of (x, y, seed), as 32 bits; the caller scales it to [0, 1].
pub fn hash_bits(x: u32, y: u32, seed: u32) -> (r: u32)
    ensures
        r == hash_spec(x, y, seed),
{
    let a = x.wrapping_mul(374761393);
    let b = y.wrapping_mul(668265263);
    let c = seed.wrapping_mul(2246822519);
    let ab = a.wrapping_add(b);
    let mut h = ab.wrapping_add(c);
    proof {
        let m: int = 0x1_0000_0000;
        lemma_wrapping_add(a, b);
        lemma_wrapping_add(ab, c);
        vstd::arithmetic::div_mod::lemma_add_mod_noop(x as int * 374761393, y as int * 668265263, m);
        vstd::arithmetic::div_mod::lemma_add_mod_noop(x as int * 374761393 + y as int * 668265263, seed as int * 2246822519, m);
        vstd::arithmetic::div_mod::lemma_mod_twice(x as int * 374761393 + y as int * 668265263, m);
        vstd::arithmetic::div_mod::lemma_add_mod_noop(ab as int, c as int, m);
        assert(h == hash_mix(x, y, seed));
    }
    h = h ^ (h >> 13);
    h = h.wrapping_mul(1274126177);
    h = h ^ (h >> 16);
    h
}

} // verus!
