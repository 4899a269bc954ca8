//! Compressed storage of a 16³ sub-chunk: a palette of the distinct states plus
//! one palette index per voxel. O(1) edits; memory grows with the distinct states.

use vstd::prelude::*;
use vstd::set_lib::{set_int_range, lemma_int_range, lemma_len_subset};
use crate::block::BlockState;

verus! {

/// A 16³ sub-chunk: palette of distinct states + one palette index per voxel.
#[derive(Debug, Clone)]
pub struct SubChunk {
    palette: Vec<BlockState>,
    indices: Vec<u16>,
}

/// Ids of a sequence of states, as integers.
pub open spec fn state_ids(s: Seq<BlockState>) -> Seq<int> {
    s.map_values(|b: BlockState| b.0 as int)
}

impl View for SubChunk {
    type V = Seq<BlockState>;

    /// The 4096 voxel states, in linear order (see `local_index`).
    closed spec fn view(&self) -> Seq<BlockState> {
        Seq::new(4096, |i: int| self.palette@[self.indices@[i] as int])
    }
}

impl SubChunk {
    /// The palette: the distinct states that were ever written, in first-write order.
    pub closed spec fn spec_palette(&self) -> Seq<BlockState> {
        self.palette@
    }

    /// Internal consistency: 4096 indices, each naming a palette entry; the palette
    /// starts with air and holds no state twice.
    pub closed spec fn wf(&self) -> bool {
        &&& self.indices@.len() == 4096
        &&& 1 <= self.palette@.len() <= 65536
        &&& self.palette@[0] == BlockState(0)
        &&& self.palette@.no_duplicates()
        &&& forall|i: int| 0 <= i < 4096 ==> (#[trigger] self.indices@[i] as int) < self.palette@.len()
    }

    /// Every voxel's state appears in the palette, and the palette starts with air.
    pub proof fn lemma_view_in_palette(&self)
        requires
            self.wf(),
        ensures
            self@.len() == 4096,
            self.spec_palette().len() >= 1,
            self.spec_palette()[0] == BlockState(0),
            self.spec_palette().no_duplicates(),
            forall|i: int| 0 <= i < 4096 ==> self.spec_palette().contains(#[trigger] self@[i]),
    {
        assert forall|i: int| 0 <= i < 4096 implies self.spec_palette().contains(#[trigger] self@[i]) by {
            let k = self.indices@[i] as int;
            assert(self.palette@[k] == self@[i]);
        }
    }

    /// A sub-chunk full of air (palette = [air]).
    pub fn empty() -> (r: Self)
        ensures
            r.wf(),
            r@ == Seq::new(4096, |i: int| BlockState(0)),
            r.spec_palette() == seq![BlockState(0)],
    {
        let mut palette: Vec<BlockState> = Vec::new();
        palette.push(BlockState(0));
        let mut indices: Vec<u16> = Vec::new();
        let mut k: usize = 0;
        while k < 4096
            invariant
                k <= 4096,
                indices@.len() == k,
                forall|i: int| 0 <= i < k ==> indices@[i] == 0u16,
            decreases 4096 - k,
        {
            indices.push(0);
            k = k + 1;
        }
        let r = SubChunk { palette, indices };
        assert(r@ =~= Seq::new(4096, |i: int| BlockState(0)));
        assert(r.palette@ =~= seq![BlockState(0)]);
        r
    }

    /// `true` if the sub-chunk holds nothing but air (meshing can skip it).
    pub fn is_empty(&self) -> (r: bool)
        requires
            self.wf(),
        ensures
            r == (forall|i: int| 0 <= i < 4096 ==> (#[trigger] self@[i]).0 == 0),
    {
        if self.palette.len() == 1 {
            assert forall|i: int| 0 <= i < 4096 implies (#[trigger] self@[i]).0 == 0 by {
                assert(self.indices@[i] == 0);
            }
            return true;
        }
        let mut k: usize = 0;
        while k < 4096
            invariant
                self.wf(),
                k <= 4096,
                forall|i: int| 0 <= i < k ==> (#[trigger] self@[i]).0 == 0,
            decreases 4096 - k,
        {
            let idx = self.indices[k] as usize;
            if !self.palette[idx].is_air() {
                assert(self@[k as int].0 != 0);
                return false;
            }
            k = k + 1;
        }
        true
    }

    /// State of linear voxel `i`.
    pub fn get(&self, i: usize) -> (r: BlockState)
        requires
            self.wf(),
            i < 4096,
        ensures
            r == self@[i as int],
    {
        self.palette[self.indices[i] as usize]
    }

    /// Writes a state at linear voxel `i`, growing the palette when the state is new.
    pub fn set(&mut self, i: usize, state: BlockState)
        requires
            old(self).wf(),
            i < 4096,
        ensures
            final(self).wf(),
            final(self)@ == old(self)@.update(i as int, state),
            old(self).spec_palette().contains(state) ==> final(self).spec_palette()
                == old(self).spec_palette(),
            !old(self).spec_palette().contains(state) ==> final(self).spec_palette()
                == old(self).spec_palette().push(state),
    {
        let idx = self.palette_index(state);
        self.indices.set(i, idx);
        assert(self@ =~= old(self)@.update(i as int, state));
    }

    /// Index of `state` in the palette, appending it when absent.
    fn palette_index(&mut self, state: BlockState) -> (r: u16)
        requires
            old(self).wf(),
        ensures
            final(self).wf(),
            final(self).indices == old(self).indices,
            (r as int) < final(self).palette@.len(),
            final(self).palette@[r as int] == state,
            old(self).palette@.contains(state) ==> final(self).palette@ == old(self).palette@,
            !old(self).palette@.contains(state) ==> final(self).palette@ == old(self).palette@.push(state),
            final(self)@ == old(self)@,
    {
        let n = self.palette.len();
        let mut k: usize = 0;
        while k < n
            invariant
                n == self.palette@.len(),
                self.wf(),
                forall|j: int| 0 <= j < k ==> self.palette@[j] != state,
            decreases n - k,
        {
            if self.palette[k] == state {
                return k as u16;
            }
            k = k + 1;
        }
        proof {
            Self::lemma_palette_room(self.palette@, state);
        }
        self.palette.push(state);
        assert(self@ =~= old(self)@);
        (self.palette.len() - 1) as u16
    }

    /// A duplicate-free palette that lacks `state` has fewer than 65536 entries.
    proof fn lemma_palette_room(p: Seq<BlockState>, state: BlockState)
        requires
            p.no_duplicates(),
            !p.contains(state),
        ensures
            p.len() < 65536,
    {
        let ids = state_ids(p);
        let f = |b: BlockState| b.0 as int;
        assert(vstd::relations::injective(f)) by {
            assert forall|a: BlockState, b: BlockState| #[trigger] f(a) == #[trigger] f(b) implies a == b by {}
        }
        p.lemma_no_duplicates_injective(f);
        ids.unique_seq_to_set();
        let range = set_int_range(0, 65536).remove(state.0 as int);
        lemma_int_range(0, 65536);
        assert forall|v: int| ids.to_set().contains(v) implies range.contains(v) by {
            let k = choose|k: int| 0 <= k < ids.len() && ids[k] == v;
            assert(p[k].0 as int == v);
            if v == state.0 as int {
                assert(p[k] == state);
            }
        }
        assert(ids.to_set().subset_of(range));
        lemma_len_subset(ids.to_set(), range);
    }

    /// The palette: distinct states in first-write order.
    pub fn palette(&self) -> (r: &[BlockState])
        ensures
            r@ == self.spec_palette(),
    {
        self.palette.as_slice()
    }
}

} // verus!
