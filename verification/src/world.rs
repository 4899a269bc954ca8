//! Container of the overworld's static terrain: loaded chunks indexed by position.

use vstd::prelude::*;
use vstd::std_specs::hash::group_hash_axioms;
use vstd::std_specs::iter::IteratorSpec;
use std::collections::HashMap;
use std::collections::hash_map::Entry;
use crate::block::{ChunkPos, origin_of};
use crate::block::BlockState;
use crate::chunk::{Chunk, in_column};
use crate::edit::div_rem_16;

verus! {

broadcast use group_hash_axioms;

/// Integer key of a chunk position: both coordinates shifted to be
/// non-negative, as base-2³² digits.
pub open spec fn chunk_key(p: ChunkPos) -> int {
    (p.x + 0x8000_0000) * 0x1_0000_0000 + (p.z + 0x8000_0000)
}

/// Chunk position stored under key `k`.
pub open spec fn key_chunk(k: int) -> ChunkPos {
    ChunkPos { x: (k / 0x1_0000_0000 - 0x8000_0000) as i32, z: (k % 0x1_0000_0000 - 0x8000_0000) as i32 }
}

/// Keys round-trip and lie in `u64`.
pub proof fn lemma_chunk_key(p: ChunkPos)
    ensures
        key_chunk(chunk_key(p)) == p,
        0 <= chunk_key(p) < 0x1_0000_0000_0000_0000,
{
    let m: int = 0x1_0000_0000;
    let a = p.x + 0x8000_0000;
    let c = p.z + 0x8000_0000;
    let k = a * m + c;
    assert(0 <= k < m * m) by (nonlinear_arith)
        requires 0 <= a < m, 0 <= c < m, m == 0x1_0000_0000int, k == a * m + c;
    vstd::arithmetic::div_mod::lemma_fundamental_div_mod_converse(k, m, a, c);
}

/// Every `u64` is the key of exactly the position it decodes to.
pub proof fn lemma_key_chunk(k: u64)
    ensures
        chunk_key(key_chunk(k as int)) == k as int,
{
    let m: int = 0x1_0000_0000;
    let kk: int = k as int;
    let q = kk / m;
    let r = kk % m;
    assert(0 <= q < m) by (nonlinear_arith)
        requires 0 <= kk < 0x1_0000_0000_0000_0000int, m == 0x1_0000_0000int, q == kk / m;
    assert(kk == q * m + r) by (nonlinear_arith)
        requires m == 0x1_0000_0000int, q == kk / m, r == kk % m;
}

/// Key of a chunk position.
pub fn chunk_key_of(p: ChunkPos) -> (k: u64)
    ensures
        k as int == chunk_key(p),
{
    proof { lemma_chunk_key(p); }
    let a = (p.x as i64 + 0x8000_0000) as u64;
    let c = (p.z as i64 + 0x8000_0000) as u64;
    a * 0x1_0000_0000 + c
}

/// Chunk position of a key.
pub fn chunk_of_key(k: u64) -> (p: ChunkPos)
    ensures
        p == key_chunk(k as int),
{
    let hi = k / 0x1_0000_0000;
    let lo = k % 0x1_0000_0000;
    ChunkPos { x: (hi as i64 - 0x8000_0000) as i32, z: (lo as i64 - 0x8000_0000) as i32 }
}

/// State of world block (x, y, z) in the loaded chunks `w`: air above and below
/// the world, and in columns that are not loaded.
pub open spec fn world_block(w: Map<ChunkPos, Chunk>, x: int, y: int, z: int) -> BlockState {
    let p = ChunkPos { x: (x / 16) as i32, z: (z / 16) as i32 };
    if 0 <= y < 384 && w.contains_key(p) {
        w[p].block(x % 16, y, z % 16)
    } else {
        BlockState(0)
    }
}

/// Reading the world inside a loaded chunk gives back that chunk's block: once
/// chunk `c` is inserted, world block (corner + x, y, corner + z) is its block (x, y, z).
pub proof fn law_world_reads_inserted_chunk(m: Map<ChunkPos, Chunk>, c: Chunk, x: int, y: int, z: int)
    requires
        in_column(x, y, z),
    ensures
        world_block(m.insert(c.pos, c), origin_of(c.pos.x as int) + x, y, origin_of(c.pos.z as int) + z) == c.block(x, y, z),
{
    vstd::arithmetic::div_mod::lemma_fundamental_div_mod_converse(origin_of(c.pos.x as int) + x, 16, c.pos.x as int, x);
    vstd::arithmetic::div_mod::lemma_fundamental_div_mod_converse(origin_of(c.pos.z as int) + z, 16, c.pos.z as int, z);
    let p = ChunkPos { x: ((origin_of(c.pos.x as int) + x) / 16) as i32, z: ((origin_of(c.pos.z as int) + z) / 16) as i32 };
    assert(p == c.pos);
}

/// `true` when `r` holds the chunks of `m`, each once: there is an order of the
/// loaded positions, each listed once, whose chunks are `r`.
pub open spec fn lists_chunks(r: Seq<Chunk>, m: Map<ChunkPos, Chunk>) -> bool {
    exists|ks: Seq<ChunkPos>| {
        &&& ks.len() == r.len()
        &&& ks.no_duplicates()
        &&& forall|i: int| 0 <= i < ks.len() ==> m.contains_key(#[trigger] ks[i]) && r[i] == m[ks[i]]
        &&& forall|p: ChunkPos| #[trigger] m.contains_key(p) ==> ks.contains(p)
    }
}

/// Voxel world: the chunks loaded around the player.
#[derive(Debug)]
pub struct World {
    chunks: HashMap<u64, Chunk>,
}

impl View for World {
    type V = Map<ChunkPos, Chunk>;

    /// The loaded chunks by position.
    closed spec fn view(&self) -> Map<ChunkPos, Chunk> {
        Map::new(
            |p: ChunkPos| self.chunks@.contains_key(chunk_key(p) as u64),
            |p: ChunkPos| self.chunks@[chunk_key(p) as u64],
        )
    }
}

impl World {
    proof fn lemma_view_dom(&self)
        ensures
            self@.dom() == self.chunks@.dom().map(|k: u64| key_chunk(k as int)),
    {
        assert forall|p: ChunkPos| self@.dom().contains(p) implies self.chunks@.dom().map(|k: u64| key_chunk(k as int)).contains(p) by {
            lemma_chunk_key(p);
            assert(self.chunks@.dom().contains(chunk_key(p) as u64));
        }
        assert forall|p: ChunkPos| self.chunks@.dom().map(|k: u64| key_chunk(k as int)).contains(p) implies self@.dom().contains(p) by {
            let k = choose|k: u64| self.chunks@.dom().contains(k) && key_chunk(k as int) == p;
            lemma_key_chunk(k);
        }
        assert(self@.dom() =~= self.chunks@.dom().map(|k: u64| key_chunk(k as int)));
    }

    /// Every loaded chunk is well formed.
    pub open spec fn wf(&self) -> bool {
        forall|p: ChunkPos| #[trigger] self@.contains_key(p) ==> self@[p].wf()
    }

    /// State of the world block (wx, wy, wz); air outside the world's height and
    /// in columns that are not loaded.
    pub fn block_at(&self, wx: i32, wy: i32, wz: i32) -> (r: BlockState)
        requires
            self.wf(),
        ensures
            r == world_block(self@, wx as int, wy as int, wz as int),
    {
        if wy < 0 || wy >= 384 {
            return BlockState(0);
        }
        let (cx, lx) = div_rem_16(wx);
        let (cz, lz) = div_rem_16(wz);
        match self.get(ChunkPos { x: cx, z: cz }) {
            Some(c) => c.get(lx as usize, wy as usize, lz as usize),
            None => BlockState(0),
        }
    }

    /// An empty world.
    pub fn new() -> (r: Self)
        ensures
            r@ == Map::<ChunkPos, Chunk>::empty(),
    {
        let r = World { chunks: HashMap::new() };
        assert(r@ =~= Map::<ChunkPos, Chunk>::empty());
        r
    }

    /// Inserts (or replaces) the chunk at its own position.
    pub fn insert(&mut self, chunk: Chunk)
        ensures
            final(self)@ == old(self)@.insert(chunk.pos, chunk),
    {
        let ghost c = chunk;
        let k = chunk_key_of(chunk.pos);
        self.chunks.insert(k, chunk);
        proof {
            lemma_chunk_key(c.pos);
            assert forall|p: ChunkPos| #![auto] self@.contains_key(p) == old(self)@.insert(c.pos, c).contains_key(p)
                && (self@.contains_key(p) ==> self@[p] == old(self)@.insert(c.pos, c)[p]) by {
                lemma_chunk_key(p);
            }
            assert(self@ =~= old(self)@.insert(c.pos, c));
        }
    }

    /// The chunk at `pos`, if loaded.
    pub fn get(&self, pos: ChunkPos) -> (r: Option<&Chunk>)
        ensures
            r == (if self@.contains_key(pos) { Some(&self@[pos]) } else { None }),
    {
        let k = chunk_key_of(pos);
        self.chunks.get(&k)
    }

    /// Mutable access to the chunk at `pos`, if loaded.
    pub fn get_mut(&mut self, pos: ChunkPos) -> (r: Option<&mut Chunk>)
        ensures
            match r {
                Some(c) => old(self)@.contains_key(pos) && *c == old(self)@[pos] && final(self)@ == old(self)@.insert(pos, *final(c)),
                None => !old(self)@.contains_key(pos) && final(self)@ == old(self)@,
            },
    {
        let k = chunk_key_of(pos);
        proof { lemma_chunk_key(pos); }
        match self.chunks.entry(k) {
            Entry::Occupied(e) => {
                let c = e.into_mut();
                Some(c)
            },
            Entry::Vacant(_) => None,
        }
    }

    /// Number of loaded chunks.
    pub fn loaded_count(&self) -> (r: usize)
        ensures
            r == self@.dom().len(),
    {
        proof {
            self.lemma_view_dom();
            vstd::set_lib::lemma_map_size(self.chunks@.dom(), self@.dom(), |k: u64| key_chunk(k as int));
        }
        self.chunks.len()
    }

    /// The loaded chunks, each once, in no particular order.
    pub fn iter(&self) -> (r: Vec<&Chunk>)
        ensures
            lists_chunks(r@.map_values(|c: &Chunk| *c), self@),
    {
        let mut out: Vec<&Chunk> = Vec::new();
        let ghost m = self.chunks@;
        let ghost s = vstd::std_specs::hash::spec_hash_map_iter(&self.chunks).remaining();
        for (k, c) in it: self.chunks.iter()
            invariant
                m == self.chunks@,
                it.seq() == s,
                it.seq().len() == m.dom().len(),
                it.seq().no_duplicates(),
                forall|i: int| 0 <= i < it.seq().len() ==> m.contains_key(*(#[trigger] it.seq()[i]).0)
                    && m[*it.seq()[i].0] == *it.seq()[i].1,
                forall|kk: u64| #[trigger] m.contains_key(kk) ==> it.seq().contains((&kk, &m[kk])),
                out@.len() == it.index(),
                forall|i: int| 0 <= i < out@.len() ==> *(#[trigger] out@[i]) == *it.seq()[i].1,
        {
            out.push(c);
        }
        proof {
            let ks = s.map_values(|t: (&u64, &Chunk)| key_chunk(*t.0 as int));
            let vs = out@.map_values(|c: &Chunk| *c);
            assert forall|i: int, j: int| 0 <= i < j < s.len() implies *s[i].0 != *s[j].0 by {
                if *s[i].0 == *s[j].0 {
                    assert(m[*s[i].0] == *s[i].1);
                    assert(m[*s[j].0] == *s[j].1);
                    assert(s[i] == s[j]);
                }
            }
            assert forall|i: int| 0 <= i < ks.len() implies self@.contains_key(#[trigger] ks[i]) && vs[i] == self@[ks[i]] by {
                lemma_key_chunk(*s[i].0);
                assert(m.contains_key(*s[i].0));
            }
            assert forall|i: int, j: int| 0 <= i < j < ks.len() implies ks[i] != ks[j] by {
                lemma_key_chunk(*s[i].0);
                lemma_key_chunk(*s[j].0);
            }
            assert forall|p: ChunkPos| #[trigger] self@.contains_key(p) implies ks.contains(p) by {
                lemma_chunk_key(p);
                let kk = chunk_key(p) as u64;
                assert(m.contains_key(kk));
                assert(s.contains((&kk, &m[kk])));
                let i = choose|i: int| 0 <= i < s.len() && s[i] == (&kk, &m[kk]);
                assert(ks[i] == p);
            }
            assert(ks.len() == vs.len());
        }
        out
    }
}

} // verus!
