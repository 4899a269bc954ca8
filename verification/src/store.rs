//! The playable world's edits: blocks broken or placed by the player live in a
//! table of overrides that is consulted before the deterministic terrain
//! generator. The table feeds meshing, collision, raycasts and saves.

use vstd::prelude::*;
use vstd::std_specs::hash::group_hash_axioms;
use vstd::std_specs::iter::IteratorSpec;
use std::collections::HashMap;
use crate::block::{BlockState, ChunkPos, origin_of, origin_fits};
use crate::chunk::{Chunk, MeshState, in_column};
use crate::registry::{kind, kind_of, BlockKind};

verus! {

broadcast use group_hash_axioms;

/// A world position in blocks.
pub type BlockPos = (i32, i32, i32);

/// Integer key of a world position: the three coordinates, each shifted to be
/// non-negative, as base-2³² digits.
pub open spec fn pos_key(p: BlockPos) -> int {
    ((p.0 + 0x8000_0000) * 0x1_0000_0000 + (p.1 + 0x8000_0000)) * 0x1_0000_0000 + (p.2 + 0x8000_0000)
}

/// World position stored under key `k`.
pub open spec fn key_pos(k: int) -> BlockPos {
    (
        (k / 0x1_0000_0000 / 0x1_0000_0000 - 0x8000_0000) as i32,
        (k / 0x1_0000_0000 % 0x1_0000_0000 - 0x8000_0000) as i32,
        (k % 0x1_0000_0000 - 0x8000_0000) as i32,
    )
}

/// Decoding a key gives back the position; keys lie in `u128`.
pub proof fn lemma_key_roundtrip(p: BlockPos)
    ensures
        key_pos(pos_key(p)) == p,
        0 <= pos_key(p) < 0x1_0000_0000_0000_0000_0000_0000,
{
    let m: int = 0x1_0000_0000;
    let a = p.0 + 0x8000_0000;
    let b = p.1 + 0x8000_0000;
    let c = p.2 + 0x8000_0000;
    let ab = a * m + b;
    let k = ab * m + c;
    assert(0 <= ab < m * m) by (nonlinear_arith)
        requires 0 <= a < m, 0 <= b < m, m == 0x1_0000_0000int, ab == a * m + b;
    assert(0 <= k < m * m * m) by (nonlinear_arith)
        requires 0 <= ab < m * m, 0 <= c < m, m == 0x1_0000_0000int, k == ab * m + c;
    vstd::arithmetic::div_mod::lemma_fundamental_div_mod_converse(k, m, ab, c);
    vstd::arithmetic::div_mod::lemma_fundamental_div_mod_converse(ab, m, a, b);
}

/// Distinct positions have distinct keys.
pub proof fn lemma_key_injective(p: BlockPos, q: BlockPos)
    requires
        pos_key(p) == pos_key(q),
    ensures
        p == q,
{
    lemma_key_roundtrip(p);
    lemma_key_roundtrip(q);
}

fn key_of(x: i32, y: i32, z: i32) -> (k: u128)
    ensures
        k as int == pos_key((x, y, z)),
{
    proof { lemma_key_roundtrip((x, y, z)); }
    let a = (x as i64 + 0x8000_0000) as u128;
    let b = (y as i64 + 0x8000_0000) as u128;
    let c = (z as i64 + 0x8000_0000) as u128;
    assert(a * 0x1_0000_0000 + b < 0x1_0000_0000_0000_0000) by (nonlinear_arith)
        requires a < 0x1_0000_0000, b < 0x1_0000_0000;
    (a * 0x1_0000_0000 + b) * 0x1_0000_0000 + c
}

fn pos_of(k: u128) -> (p: BlockPos)
    requires
        k < 0x1_0000_0000_0000_0000_0000_0000,
    ensures
        p == key_pos(k as int),
{
    let hi = k / 0x1_0000_0000 / 0x1_0000_0000;
    let mid = k / 0x1_0000_0000 % 0x1_0000_0000;
    let lo = k % 0x1_0000_0000;
    assert(hi < 0x1_0000_0000) by (nonlinear_arith)
        requires k < 0x1_0000_0000_0000_0000_0000_0000, hi == k / 0x1_0000_0000 / 0x1_0000_0000;
    ((hi as i64 - 0x8000_0000) as i32, (mid as i64 - 0x8000_0000) as i32, (lo as i64 - 0x8000_0000) as i32)
}

/// Edits of a world: overrides of the generated terrain, keyed by position.
pub struct WorldStore {
    seed: u32,
    overrides: HashMap<u128, BlockState>,
}

/// Applies `data` in order to `m`: each entry overrides its position, later entries win.
pub open spec fn imported(m: Map<BlockPos, BlockState>, data: Seq<(i32, i32, i32, u16)>) -> Map<BlockPos, BlockState>
    decreases data.len(),
{
    if data.len() == 0 {
        m
    } else {
        let last = data.last();
        imported(m, data.drop_last()).insert((last.0, last.1, last.2), BlockState(last.3))
    }
}

/// `true` when `out` lists exactly the edits of `m` as (x, y, z, id), each once.
pub open spec fn lists_edits(out: Seq<(i32, i32, i32, u16)>, m: Map<BlockPos, BlockState>) -> bool {
    &&& out.len() == m.dom().len()
    &&& forall|i: int| 0 <= i < out.len() ==> {
        let e = #[trigger] out[i];
        m.contains_key((e.0, e.1, e.2)) && m[(e.0, e.1, e.2)] == BlockState(e.3)
    }
    &&& forall|i: int, j: int| 0 <= i < j < out.len() ==> {
        let a = #[trigger] out[i];
        let b = #[trigger] out[j];
        (a.0, a.1, a.2) != (b.0, b.1, b.2)
    }
    &&& forall|p: BlockPos| #[trigger] m.contains_key(p) ==> exists|i: int| 0 <= i < out.len() && {
        let e = #[trigger] out[i];
        (e.0, e.1, e.2) == p
    }
}

/// World position of local cell (x, y, z) of the column at `pos`.
pub open spec fn column_pos(pos: ChunkPos, x: int, y: int, z: int) -> BlockPos {
    ((origin_of(pos.x as int) + x) as i32, y as i32, (origin_of(pos.z as int) + z) as i32)
}

/// `true` when world position `p` lies in the column at `pos` (0 <= y < 384).
pub open spec fn in_chunk_column(p: BlockPos, pos: ChunkPos) -> bool {
    &&& origin_of(pos.x as int) <= p.0 < origin_of(pos.x as int) + 16
    &&& origin_of(pos.z as int) <= p.2 < origin_of(pos.z as int) + 16
    &&& 0 <= p.1 < 384
}

/// `true` when some edit lies in the column at `pos`.
pub open spec fn has_column_edit(m: Map<BlockPos, BlockState>, pos: ChunkPos) -> bool {
    exists|q: BlockPos| m.contains_key(q) && in_chunk_column(q, pos)
}

/// State of a block: the edit at that position if any, else the generated one.
pub open spec fn edited_or(m: Map<BlockPos, BlockState>, p: BlockPos, generated: BlockState) -> BlockState {
    if m.contains_key(p) {
        m[p]
    } else {
        generated
    }
}

impl WorldStore {
    /// The edits, by position.
    pub closed spec fn edits(&self) -> Map<BlockPos, BlockState> {
        Map::new(
            |p: BlockPos| self.overrides@.contains_key(pos_key(p) as u128),
            |p: BlockPos| self.overrides@[pos_key(p) as u128],
        )
    }

    pub closed spec fn spec_seed(&self) -> u32 {
        self.seed
    }

    /// Every stored key is the key of a position.
    pub closed spec fn wf(&self) -> bool {
        forall|k: u128| #[trigger] self.overrides@.contains_key(k) ==> pos_key(key_pos(k as int)) == k as int
    }

    /// A world for a seed, with no edits.
    pub fn new(seed: u32) -> (r: Self)
        ensures
            r.wf(),
            r.spec_seed() == seed,
            r.edits() == Map::<BlockPos, BlockState>::empty(),
    {
        let r = WorldStore { seed, overrides: HashMap::new() };
        assert(r.edits() =~= Map::<BlockPos, BlockState>::empty());
        r
    }

    pub fn seed(&self) -> (r: u32)
        ensures
            r == self.spec_seed(),
    {
        self.seed
    }

    /// The edit at (x, y, z), if any.
    pub fn edited_block(&self, wx: i32, wy: i32, wz: i32) -> (r: Option<BlockState>)
        ensures
            r == (if self.edits().contains_key((wx, wy, wz)) {
                Some(self.edits()[(wx, wy, wz)])
            } else {
                None
            }),
    {
        let k = key_of(wx, wy, wz);
        match self.overrides.get(&k) {
            Some(b) => Some(*b),
            None => None,
        }
    }

    /// State of the block: the edit if present, else `generated` (the terrain
    /// generator's block at that position).
    pub fn block_at(&self, wx: i32, wy: i32, wz: i32, generated: BlockState) -> (r: BlockState)
        ensures
            r == edited_or(self.edits(), (wx, wy, wz), generated),
    {
        match self.edited_block(wx, wy, wz) {
            Some(b) => b,
            None => generated,
        }
    }

    /// `true` if the block at (x, y, z) is solid (collision), `generated` being
    /// the terrain generator's block there.
    pub fn is_solid(&self, wx: i32, wy: i32, wz: i32, generated: BlockState) -> (r: bool)
        ensures
            r == (kind_of(edited_or(self.edits(), (wx, wy, wz), generated)) == BlockKind::Solid),
    {
        kind(self.block_at(wx, wy, wz, generated)) == BlockKind::Solid
    }

    /// Places or breaks a block (an edit kept in memory).
    pub fn set_block(&mut self, wx: i32, wy: i32, wz: i32, block: BlockState)
        requires
            old(self).wf(),
        ensures
            final(self).wf(),
            final(self).spec_seed() == old(self).spec_seed(),
            final(self).edits() == old(self).edits().insert((wx, wy, wz), block),
    {
        let k = key_of(wx, wy, wz);
        self.overrides.insert(k, block);
        proof {
            lemma_key_roundtrip((wx, wy, wz));
            assert forall|p: BlockPos| #![auto] true implies
                self.edits().contains_key(p) == old(self).edits().insert((wx, wy, wz), block).contains_key(p)
                && (self.edits().contains_key(p) ==> self.edits()[p] == old(self).edits().insert((wx, wy, wz), block)[p]) by {
                if pos_key(p) == pos_key((wx, wy, wz)) {
                    lemma_key_injective(p, (wx, wy, wz));
                } else {
                    lemma_key_roundtrip(p);
                    assert(pos_key(p) as u128 != k);
                }
            }
            assert(self.edits() =~= old(self).edits().insert((wx, wy, wz), block));
        }
    }

    /// The edits for saving: (x, y, z, block id), each position once.
    pub fn export_overrides(&self) -> (r: Vec<(i32, i32, i32, u16)>)
        requires
            self.wf(),
        ensures
            lists_edits(r@, self.edits()),
    {
        let mut out: Vec<(i32, i32, i32, u16)> = Vec::new();
        let ghost m = self.overrides@;
        let ghost s = vstd::std_specs::hash::spec_hash_map_iter(&self.overrides).remaining();
        for (k, b) in it: self.overrides.iter()
            invariant
                m == self.overrides@,
                it.seq() == s,
                self.wf(),
                out@.len() == it.index(),
                it.seq().len() == m.dom().len(),
                it.seq().no_duplicates(),
                forall|i: int| 0 <= i < it.seq().len() ==> m.contains_key(*(#[trigger] it.seq()[i]).0)
                    && m[*it.seq()[i].0] == *it.seq()[i].1,
                forall|kk: u128| #[trigger] m.contains_key(kk) ==> it.seq().contains((&kk, &m[kk])),
                forall|i: int| 0 <= i < out@.len() ==> {
                    let e = #[trigger] out@[i];
                    (e.0, e.1, e.2) == key_pos(*it.seq()[i].0 as int) && e.3 == (*it.seq()[i].1).0
                },
        {
            let p = pos_of(*k);
            out.push((p.0, p.1, p.2, b.0));
        }
        proof {
            // keys along the iteration are distinct
            assert forall|i: int, j: int| 0 <= i < j < s.len() implies *s[i].0 != *s[j].0 by {
                if *s[i].0 == *s[j].0 {
                    assert(m[*s[i].0] == *s[i].1);
                    assert(m[*s[j].0] == *s[j].1);
                    assert(s[i] == s[j]);
                }
            }
            let e = self.edits();
            assert forall|i: int| 0 <= i < out@.len() implies {
                let t = #[trigger] out@[i];
                e.contains_key((t.0, t.1, t.2)) && e[(t.0, t.1, t.2)] == BlockState(t.3)
            } by {
                let kk = *s[i].0;
                assert(m.contains_key(kk));
                assert(pos_key(key_pos(kk as int)) == kk as int);
            }
            assert forall|i: int, j: int| 0 <= i < j < out@.len() implies {
                let a = #[trigger] out@[i];
                let b = #[trigger] out@[j];
                (a.0, a.1, a.2) != (b.0, b.1, b.2)
            } by {
                let ki = *s[i].0;
                let kj = *s[j].0;
                assert(m.contains_key(ki) && m.contains_key(kj));
                assert(pos_key(key_pos(ki as int)) == ki as int);
                assert(pos_key(key_pos(kj as int)) == kj as int);
            }
            assert forall|p: BlockPos| #[trigger] e.contains_key(p) implies exists|i: int| 0 <= i < out@.len() && {
                let t = #[trigger] out@[i];
                (t.0, t.1, t.2) == p
            } by {
                let kk = pos_key(p) as u128;
                lemma_key_roundtrip(p);
                assert(m.contains_key(kk));
                assert(s.contains((&kk, &m[kk])));
                let i = choose|i: int| 0 <= i < s.len() && s[i] == (&kk, &m[kk]);
                assert((out@[i].0, out@[i].1, out@[i].2) == p);
            }
            // as many entries as edits
            let keys = s.map_values(|t: (&u128, &BlockState)| *t.0);
            assert(keys.no_duplicates());
            keys.unique_seq_to_set();
            assert forall|kk: u128| #![auto] keys.to_set().contains(kk) == m.dom().contains(kk) by {
                if m.dom().contains(kk) {
                    assert(s.contains((&kk, &m[kk])));
                    let i = choose|i: int| 0 <= i < s.len() && s[i] == (&kk, &m[kk]);
                    assert(keys[i] == kk);
                }
                if keys.to_set().contains(kk) {
                    let i = choose|i: int| 0 <= i < keys.len() && keys[i] == kk;
                    assert(m.contains_key(*s[i].0));
                }
            }
            assert(keys.to_set() =~= m.dom());
            // edits' domain is in bijection with the stored keys
            assert(e.dom() =~= m.dom().map(|kk: u128| key_pos(kk as int))) by {
                assert forall|p: BlockPos| e.dom().contains(p) implies m.dom().map(|kk: u128| key_pos(kk as int)).contains(p) by {
                    lemma_key_roundtrip(p);
                    assert(m.dom().contains(pos_key(p) as u128));
                }
                assert forall|p: BlockPos| m.dom().map(|kk: u128| key_pos(kk as int)).contains(p) implies e.dom().contains(p) by {
                    let kk = choose|kk: u128| m.dom().contains(kk) && key_pos(kk as int) == p;
                    assert(pos_key(key_pos(kk as int)) == kk as int);
                }
            }
            vstd::set_lib::lemma_map_size(m.dom(), e.dom(), |kk: u128| key_pos(kk as int));
        }
        out
    }

    /// Loads edits from a save; entries apply in order, later ones win.
    pub fn import_overrides(&mut self, data: &[(i32, i32, i32, u16)])
        requires
            old(self).wf(),
        ensures
            final(self).wf(),
            final(self).spec_seed() == old(self).spec_seed(),
            final(self).edits() == imported(old(self).edits(), data@),
    {
        let n = data.len();
        let mut i: usize = 0;
        while i < n
            invariant
                n == data@.len(),
                i <= n,
                self.wf(),
                self.spec_seed() == old(self).spec_seed(),
                self.edits() == imported(old(self).edits(), data@.take(i as int)),
            decreases n - i,
        {
            let (x, y, z, id) = data[i];
            self.set_block(x, y, z, BlockState(id));
            assert(data@.take(i + 1).drop_last() =~= data@.take(i as int));
            i = i + 1;
        }
        assert(data@.take(n as int) =~= data@);
    }

    /// The generated chunk with the edits that fall in its column applied on top.
    /// `generated` is the terrain generator's chunk for that position.
    pub fn generate_chunk(&self, generated: Chunk) -> (r: Chunk)
        requires
            self.wf(),
            generated.wf(),
            origin_fits(generated.pos),
        ensures
            r.wf(),
            r.pos == generated.pos,
            r.aabb == generated.aabb,
            forall|x: int, y: int, z: int| #![trigger r.block(x, y, z)] in_column(x, y, z) ==> r.block(x, y, z)
                == edited_or(self.edits(), column_pos(generated.pos, x, y, z), generated.block(x, y, z)),
            r.mesh_state == (if has_column_edit(self.edits(), generated.pos) {
                MeshState::Dirty
            } else {
                generated.mesh_state
            }),
    {
        let mut chunk = generated;
        let (ox, oz) = chunk.pos.world_origin();
        let ghost m = self.overrides@;
        let ghost e = self.edits();
        let ghost s = vstd::std_specs::hash::spec_hash_map_iter(&self.overrides).remaining();
        let ghost g = generated;
        for (k, b) in it: self.overrides.iter()
            invariant
                m == self.overrides@,
                e == self.edits(),
                self.wf(),
                it.seq() == s,
                it.seq().len() == m.dom().len(),
                forall|i: int| 0 <= i < it.seq().len() ==> m.contains_key(*(#[trigger] it.seq()[i]).0)
                    && m[*it.seq()[i].0] == *it.seq()[i].1,
                forall|kk: u128| #[trigger] m.contains_key(kk) ==> it.seq().contains((&kk, &m[kk])),
                ox == origin_of(g.pos.x as int),
                oz == origin_of(g.pos.z as int),
                origin_fits(g.pos),
                chunk.wf(),
                chunk.pos == g.pos,
                chunk.aabb == g.aabb,
                forall|x: int, y: int, z: int| #![trigger chunk.block(x, y, z)] in_column(x, y, z) ==> chunk.block(x, y, z)
                    == (if exists|i: int| 0 <= i < it.index() && *(#[trigger] s[i]).0 as int == pos_key(column_pos(g.pos, x, y, z)) {
                        e[column_pos(g.pos, x, y, z)]
                    } else {
                        g.block(x, y, z)
                    }),
                chunk.mesh_state == (if exists|i: int| 0 <= i < it.index() && in_chunk_column(key_pos(*(#[trigger] s[i]).0 as int), g.pos) {
                        MeshState::Dirty
                    } else {
                        g.mesh_state
                    }),
        {
            let ghost idx = it.index();
            let p = pos_of(*k);
            let (wx, wy, wz) = p;
            proof {
                assert(m.contains_key(*k));
                assert(pos_key(key_pos(*k as int)) == *k as int);
            }
            if wx >= ox && (wx as i64) < ox as i64 + 16 && wz >= oz && (wz as i64) < oz as i64 + 16 && wy >= 0 && wy < 384 {
                let lx = (wx - ox) as usize;
                let lz = (wz - oz) as usize;
                let ly = wy as usize;
                let ghost before = chunk;
                chunk.set(lx, ly, lz, *b);
                proof {
                    assert(column_pos(g.pos, lx as int, ly as int, lz as int) == p);
                    assert forall|x: int, y: int, z: int| #![trigger chunk.block(x, y, z)] in_column(x, y, z) implies chunk.block(x, y, z)
                        == (if exists|i: int| 0 <= i < idx + 1 && *(#[trigger] s[i]).0 as int == pos_key(column_pos(g.pos, x, y, z)) {
                            e[column_pos(g.pos, x, y, z)]
                        } else {
                            g.block(x, y, z)
                        }) by {
                        let q = column_pos(g.pos, x, y, z);
                        if x == lx && y == ly && z == lz {
                            assert(*s[idx].0 as int == pos_key(q));
                            assert(e.contains_key(q));
                        } else {
                            if *s[idx].0 as int == pos_key(q) {
                                lemma_key_injective(q, p);
                            }
                            if exists|i: int| 0 <= i < idx + 1 && *(#[trigger] s[i]).0 as int == pos_key(q) {
                                let i = choose|i: int| 0 <= i < idx + 1 && *(#[trigger] s[i]).0 as int == pos_key(q);
                                assert(i < idx);
                            }
                        }
                    }
                    assert(in_chunk_column(key_pos(*s[idx].0 as int), g.pos));
                }
            } else {
                proof {
                    assert(!in_chunk_column(key_pos(*s[idx].0 as int), g.pos));
                    assert forall|x: int, y: int, z: int| #![trigger chunk.block(x, y, z)] in_column(x, y, z) implies
                        !(*s[idx].0 as int == pos_key(column_pos(g.pos, x, y, z))) by {
                        if *s[idx].0 as int == pos_key(column_pos(g.pos, x, y, z)) {
                            lemma_key_roundtrip(column_pos(g.pos, x, y, z));
                        }
                    }
                }
            }
        }
        proof {
            assert forall|x: int, y: int, z: int| #![trigger chunk.block(x, y, z)] in_column(x, y, z) implies chunk.block(x, y, z)
                == edited_or(e, column_pos(g.pos, x, y, z), g.block(x, y, z)) by {
                let q = column_pos(g.pos, x, y, z);
                lemma_key_roundtrip(q);
                if e.contains_key(q) {
                    let kk = pos_key(q) as u128;
                    assert(s.contains((&kk, &m[kk])));
                    let i = choose|i: int| 0 <= i < s.len() && s[i] == (&kk, &m[kk]);
                    assert(*s[i].0 as int == pos_key(q));
                } else {
                    assert forall|i: int| 0 <= i < s.len() implies *(#[trigger] s[i]).0 as int != pos_key(q) by {
                        assert(m.contains_key(*s[i].0));
                    }
                }
            }
            if has_column_edit(e, g.pos) {
                let q = choose|q: BlockPos| e.contains_key(q) && in_chunk_column(q, g.pos);
                let kk = pos_key(q) as u128;
                lemma_key_roundtrip(q);
                assert(s.contains((&kk, &m[kk])));
                let i = choose|i: int| 0 <= i < s.len() && s[i] == (&kk, &m[kk]);
                assert(in_chunk_column(key_pos(*s[i].0 as int), g.pos));
            }
            assert forall|i: int| 0 <= i < s.len() && in_chunk_column(key_pos(*(#[trigger] s[i]).0 as int), g.pos)
                implies has_column_edit(e, g.pos) by {
                let kk = *s[i].0;
                assert(m.contains_key(kk));
                assert(pos_key(key_pos(kk as int)) == kk as int);
                assert(e.contains_key(key_pos(kk as int)));
            }
        }
        chunk
    }
}

/// Reading a position after an edit there gives the edited block, whatever the
/// generator says; other positions read as before.
pub proof fn law_edit_then_read(m: Map<BlockPos, BlockState>, p: BlockPos, b: BlockState, q: BlockPos, generated: BlockState)
    ensures
        edited_or(m.insert(p, b), p, generated) == b,
        q != p ==> edited_or(m.insert(p, b), q, generated) == edited_or(m, q, generated),
{
}

/// Positions and blocks set by importing `data` on top of `m`.
proof fn lemma_imported(m: Map<BlockPos, BlockState>, data: Seq<(i32, i32, i32, u16)>, p: BlockPos)
    ensures
        imported(m, data).contains_key(p) <==> m.contains_key(p) || exists|i: int| 0 <= i < data.len()
            && (#[trigger] data[i].0, data[i].1, data[i].2) == p,
        (exists|i: int| 0 <= i < data.len() && (#[trigger] data[i].0, data[i].1, data[i].2) == p) ==> exists|i: int|
            0 <= i < data.len() && (#[trigger] data[i].0, data[i].1, data[i].2) == p && imported(m, data)[p] == BlockState(data[i].3),
        !(exists|i: int| 0 <= i < data.len() && (#[trigger] data[i].0, data[i].1, data[i].2) == p) && m.contains_key(p)
            ==> imported(m, data)[p] == m[p],
    decreases data.len(),
{
    if data.len() > 0 {
        let init = data.drop_last();
        lemma_imported(m, init, p);
        let last = data.last();
        if (last.0, last.1, last.2) != p {
            if exists|i: int| 0 <= i < init.len() && (#[trigger] init[i].0, init[i].1, init[i].2) == p {
                let i = choose|i: int| 0 <= i < init.len() && (#[trigger] init[i].0, init[i].1, init[i].2) == p && imported(m, init)[p] == BlockState(init[i].3);
                assert(data[i] == init[i]);
            }
            if exists|i: int| 0 <= i < data.len() && (#[trigger] data[i].0, data[i].1, data[i].2) == p {
                let i = choose|i: int| 0 <= i < data.len() && (#[trigger] data[i].0, data[i].1, data[i].2) == p;
                assert(i < data.len() - 1);
                assert(init[i] == data[i]);
            }
        } else {
            assert((data[data.len() - 1].0, data[data.len() - 1].1, data[data.len() - 1].2) == p);
        }
    }
}

/// Saving then loading: importing the exported edits into a world without edits
/// reproduces exactly the edits that were exported.
pub proof fn law_export_import(out: Seq<(i32, i32, i32, u16)>, m: Map<BlockPos, BlockState>)
    requires
        lists_edits(out, m),
    ensures
        imported(Map::<BlockPos, BlockState>::empty(), out) == m,
{
    let e = Map::<BlockPos, BlockState>::empty();
    let r = imported(e, out);
    assert forall|p: BlockPos| #[trigger] r.contains_key(p) == m.contains_key(p) && (m.contains_key(p) ==> r[p] == m[p]) by {
        lemma_imported(e, out, p);
        if m.contains_key(p) {
            let i = choose|i: int| 0 <= i < out.len() && (#[trigger] out[i].0, out[i].1, out[i].2) == p;
            assert((out[i].0, out[i].1, out[i].2) == p);
            let j = choose|j: int| 0 <= j < out.len() && (#[trigger] out[j].0, out[j].1, out[j].2) == p && r[p] == BlockState(out[j].3);
            let ej = out[j];
            assert(m.contains_key((ej.0, ej.1, ej.2)) && m[(ej.0, ej.1, ej.2)] == BlockState(ej.3));
        }
        if r.contains_key(p) {
            let i = choose|i: int| 0 <= i < out.len() && (#[trigger] out[i].0, out[i].1, out[i].2) == p;
            let ei = out[i];
            assert(m.contains_key((ei.0, ei.1, ei.2)));
        }
    }
    assert(r.dom() =~= m.dom());
    assert forall|p: BlockPos| #[trigger] r.dom().contains(p) implies r[p] == m[p] by {
        assert(r.contains_key(p));
    }
    assert(r =~= m);
}

} // verus!
