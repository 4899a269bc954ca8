//! Which chunks must be re-meshed after a block edit: the chunk holding the block,
//! plus the neighbours it borders.

use vstd::prelude::*;
use crate::block::ChunkPos;

verus! {

/// Chunks to re-mesh after an edit at world column (wx, wz): the chunk containing
/// it, then the west, east, north and south neighbours it touches, in that order.
pub open spec fn touched(wx: int, wz: int) -> Seq<ChunkPos> {
    let cx = (wx / 16) as i32;
    let cz = (wz / 16) as i32;
    let lx = wx % 16;
    let lz = wz % 16;
    let s0 = seq![ChunkPos { x: cx, z: cz }];
    let s1 = if lx == 0 { s0.push(ChunkPos { x: (cx - 1) as i32, z: cz }) } else { s0 };
    let s2 = if lx == 15 { s1.push(ChunkPos { x: (cx + 1) as i32, z: cz }) } else { s1 };
    let s3 = if lz == 0 { s2.push(ChunkPos { x: cx, z: (cz - 1) as i32 }) } else { s2 };
    if lz == 15 { s3.push(ChunkPos { x: cx, z: (cz + 1) as i32 }) } else { s3 }
}

/// Euclidean quotient and remainder of `w` by 16.
pub(crate) fn div_rem_16(w: i32) -> (r: (i32, i32))
    ensures
        r.0 == w as int / 16,
        r.1 == w as int % 16,
{
    let u: u64 = (w as i64 + 0x8000_0000) as u64;
    let q = u / 16;
    let rem = u % 16;
    proof {
        let wi = w as int;
        assert(u as int == wi + 0x8000_0000);
        vstd::arithmetic::div_mod::lemma_fundamental_div_mod(u as int, 16);
        vstd::arithmetic::div_mod::lemma_fundamental_div_mod_converse(wi, 16, q as int - 0x800_0000, rem as int);
    }
    ((q as i64 - 0x800_0000) as i32, rem as i32)
}

/// Chunks to re-mesh after an edit at (wx, wz): its chunk plus the neighbours on
/// the borders it lies on.
pub fn touched_chunks(wx: i32, wz: i32) -> (r: Vec<ChunkPos>)
    ensures
        r@ == touched(wx as int, wz as int),
{
    let (cx, lx) = div_rem_16(wx);
    let (cz, lz) = div_rem_16(wz);
    let mut chunks: Vec<ChunkPos> = Vec::new();
    chunks.push(ChunkPos::new(cx, cz));
    if lx == 0 {
        chunks.push(ChunkPos::new(cx - 1, cz));
    }
    if lx == 15 {
        chunks.push(ChunkPos::new(cx + 1, cz));
    }
    if lz == 0 {
        chunks.push(ChunkPos::new(cx, cz - 1));
    }
    if lz == 15 {
        chunks.push(ChunkPos::new(cx, cz + 1));
    }
    assert(chunks@ =~= touched(wx as int, wz as int));
    chunks
}

/// Chunk holding world column (x, z).
pub open spec fn chunk_of(x: int, z: int) -> ChunkPos {
    ChunkPos { x: (x / 16) as i32, z: (z / 16) as i32 }
}

/// An edit changes what the chunks around it see one block across their borders:
/// the chunk of the edited column and the chunk of each of its four horizontal
/// neighbours are all in the list.
pub proof fn law_touched_covers_neighbours(wx: i32, wz: i32)
    ensures
        touched(wx as int, wz as int).contains(chunk_of(wx as int, wz as int)),
        touched(wx as int, wz as int).contains(chunk_of(wx - 1, wz as int)),
        touched(wx as int, wz as int).contains(chunk_of(wx + 1, wz as int)),
        touched(wx as int, wz as int).contains(chunk_of(wx as int, wz - 1)),
        touched(wx as int, wz as int).contains(chunk_of(wx as int, wz + 1)),
{
    let t = touched(wx as int, wz as int);
    let cx = wx as int / 16;
    let cz = wz as int / 16;
    let lx = wx as int % 16;
    let lz = wz as int % 16;
    vstd::arithmetic::div_mod::lemma_fundamental_div_mod(wx as int, 16);
    vstd::arithmetic::div_mod::lemma_fundamental_div_mod(wz as int, 16);
    assert(t[0] == chunk_of(wx as int, wz as int));
    if lx == 0 {
        vstd::arithmetic::div_mod::lemma_fundamental_div_mod_converse(wx - 1, 16, cx - 1, 15);
    } else {
        vstd::arithmetic::div_mod::lemma_fundamental_div_mod_converse(wx - 1, 16, cx, lx - 1);
    }
    if lx == 15 {
        vstd::arithmetic::div_mod::lemma_fundamental_div_mod_converse(wx + 1, 16, cx + 1, 0);
    } else {
        vstd::arithmetic::div_mod::lemma_fundamental_div_mod_converse(wx + 1, 16, cx, lx + 1);
    }
    if lz == 0 {
        vstd::arithmetic::div_mod::lemma_fundamental_div_mod_converse(wz - 1, 16, cz - 1, 15);
    } else {
        vstd::arithmetic::div_mod::lemma_fundamental_div_mod_converse(wz - 1, 16, cz, lz - 1);
    }
    if lz == 15 {
        vstd::arithmetic::div_mod::lemma_fundamental_div_mod_converse(wz + 1, 16, cz + 1, 0);
    } else {
        vstd::arithmetic::div_mod::lemma_fundamental_div_mod_converse(wz + 1, 16, cz, lz + 1);
    }
    assert(i32::MIN as int / 16 <= cx <= i32::MAX as int / 16);
    assert(i32::MIN as int / 16 <= cz <= i32::MAX as int / 16);
    let k: int = if lx == 0 || lx == 15 { 2 } else { 1 };
    if lx == 0 {
        assert(t[1] == chunk_of(wx - 1, wz as int));
    } else {
        assert(t[0] == chunk_of(wx - 1, wz as int));
    }
    if lx == 15 {
        assert(t[1] == chunk_of(wx + 1, wz as int));
    } else {
        assert(t[0] == chunk_of(wx + 1, wz as int));
    }
    if lz == 0 {
        assert(t[k] == chunk_of(wx as int, wz - 1));
    } else {
        assert(t[0] == chunk_of(wx as int, wz - 1));
    }
    if lz == 15 {
        assert(t[k] == chunk_of(wx as int, wz + 1));
    } else {
        assert(t[0] == chunk_of(wx as int, wz + 1));
    }
}

} // verus!
