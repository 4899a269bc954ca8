//! Streaming decisions: which chunks to generate around the player (closest
//! first) and which to drop once the player has moved away. The caller runs the
//! generation jobs and feeds back the player's chunk.

use vstd::prelude::*;
use vstd::std_specs::hash::group_hash_axioms;
use vstd::std_specs::iter::IteratorSpec;
use std::collections::HashSet;
use crate::block::ChunkPos;
use crate::world::{chunk_key, key_chunk, chunk_key_of, chunk_of_key, lemma_chunk_key, lemma_key_chunk};

verus! {

broadcast use group_hash_axioms;

/// Squared chunk distance between `p` and `c`.
pub open spec fn dist2_spec(p: ChunkPos, c: ChunkPos) -> int {
    (p.x - c.x) * (p.x - c.x) + (p.z - c.z) * (p.z - c.z)
}

/// Squared chunk distance (loading priority).
pub fn dist2(p: ChunkPos, c: ChunkPos) -> (r: i32)
    requires
        i32::MIN <= p.x - c.x <= i32::MAX,
        i32::MIN <= p.z - c.z <= i32::MAX,
        dist2_spec(p, c) <= i32::MAX,
    ensures
        r == dist2_spec(p, c),
{
    let dx = p.x - c.x;
    let dz = p.z - c.z;
    assert(0 <= dx * dx && 0 <= dz * dz) by (nonlinear_arith);
    dx * dx + dz * dz
}

/// `true` for chunk positions inside the view disk of radius `r` around `c`.
pub open spec fn in_view(p: ChunkPos, c: ChunkPos, r: int) -> bool {
    &&& -r <= p.x - c.x <= r
    &&& -r <= p.z - c.z <= r
    &&& dist2_spec(p, c) <= r * r
}

/// `true` for chunk positions beyond the unload square (radius `r` plus a margin of 2).
pub open spec fn far(p: ChunkPos, c: ChunkPos, r: int) -> bool {
    ||| p.x - c.x > r + 2
    ||| c.x - p.x > r + 2
    ||| p.z - c.z > r + 2
    ||| c.z - p.z > r + 2
}

/// Loading order: closer first; equally close chunks by z, then by x.
pub open spec fn loads_before(a: ChunkPos, b: ChunkPos, c: ChunkPos) -> bool {
    ||| dist2_spec(a, c) < dist2_spec(b, c)
    ||| dist2_spec(a, c) == dist2_spec(b, c) && (a.z < b.z || (a.z == b.z && a.x < b.x))
}

/// `true` when `s` is strictly increasing in loading order.
pub open spec fn load_sorted(s: Seq<ChunkPos>, c: ChunkPos) -> bool {
    forall|i: int, j: int| 0 <= i < j < s.len() ==> loads_before(#[trigger] s[i], #[trigger] s[j], c)
}

/// `true` when `a` comes strictly before `b` in the (z, x) scan order.
pub open spec fn scan_before(a: ChunkPos, b: ChunkPos) -> bool {
    a.z < b.z || (a.z == b.z && a.x < b.x)
}

/// Chunks to generate and chunks to drop after a move of the player.
pub struct StreamStep {
    pub load: Vec<ChunkPos>,
    pub unload: Vec<ChunkPos>,
}

/// Streaming state: view distance, the chunks already handled (requested and not
/// dropped) and the chunk the player was last seen in.
pub struct StreamState {
    view_distance: i32,
    handled: HashSet<u64>,
    center: ChunkPos,
}

impl StreamState {
    /// The handled chunks.
    pub closed spec fn handled_set(&self) -> Set<ChunkPos> {
        Set::new(|p: ChunkPos| self.handled@.contains(chunk_key(p) as u64))
    }

    pub closed spec fn spec_center(&self) -> ChunkPos {
        self.center
    }

    pub closed spec fn spec_view_distance(&self) -> i32 {
        self.view_distance
    }

    /// The view distance keeps squared distances within `i32`.
    pub closed spec fn wf(&self) -> bool {
        i32::MIN < self.view_distance <= 32767
    }

    proof fn lemma_handled(&self, p: ChunkPos)
        ensures
            self.handled_set().contains(p) == self.handled@.contains(chunk_key(p) as u64),
    {
    }

    /// State for a view distance (in chunks); nothing handled, no position yet.
    pub fn new(view_distance: i32) -> (r: Self)
        requires
            i32::MIN < view_distance <= 32767,
        ensures
            r.wf(),
            r.spec_view_distance() == view_distance,
            r.handled_set() == Set::<ChunkPos>::empty(),
            r.spec_center() == (ChunkPos { x: i32::MAX, z: i32::MAX }),
    {
        let r = StreamState { view_distance, handled: HashSet::new(), center: ChunkPos::new(i32::MAX, i32::MAX) };
        assert(r.handled_set() =~= Set::<ChunkPos>::empty());
        r
    }

    /// `true` if the chunk is still wanted (requested and not dropped): finished
    /// generation results for other chunks are discarded.
    pub fn is_handled(&self, pos: ChunkPos) -> (r: bool)
        ensures
            r == self.handled_set().contains(pos),
    {
        let k = chunk_key_of(pos);
        self.handled.contains(&k)
    }

    /// Updates the loaded set for the player's chunk `center`: returns the chunks
    /// to generate (closest first) and those to drop. Nothing changes while the
    /// player stays in the same chunk.
    pub fn update(&mut self, center: ChunkPos) -> (step: StreamStep)
        requires
            old(self).wf(),
            old(self).spec_view_distance() >= 0 ==> i32::MIN <= center.x - old(self).spec_view_distance()
                && center.x + old(self).spec_view_distance() <= i32::MAX && i32::MIN <= center.z
                - old(self).spec_view_distance() && center.z + old(self).spec_view_distance() <= i32::MAX,
        ensures
            final(self).wf(),
            final(self).spec_view_distance() == old(self).spec_view_distance(),
            final(self).spec_center() == center,
            center == old(self).spec_center() ==> step.load@.len() == 0 && step.unload@.len() == 0
                && final(self).handled_set() == old(self).handled_set(),
            center != old(self).spec_center() ==> {
                let r = old(self).spec_view_distance() as int;
                let loaded = step.load@.to_set();
                &&& load_sorted(step.load@, center)
                &&& forall|p: ChunkPos| #[trigger] loaded.contains(p) <==> in_view(p, center, r)
                    && !old(self).handled_set().contains(p)
                &&& step.unload@.no_duplicates()
                &&& forall|p: ChunkPos| #[trigger] step.unload@.contains(p) <==> old(self).handled_set().contains(p)
                    && far(p, center, r)
                &&& final(self).handled_set() == old(self).handled_set().union(loaded).difference(step.unload@.to_set())
            },
            center != old(self).spec_center() ==> forall|p: ChunkPos| in_view(p, center, old(self).spec_view_distance() as int)
                ==> #[trigger] final(self).handled_set().contains(p),
            center != old(self).spec_center() ==> forall|p: ChunkPos| #[trigger] final(self).handled_set().contains(p)
                ==> !far(p, center, old(self).spec_view_distance() as int),
    {
        if center == self.center {
            return StreamStep { load: Vec::new(), unload: Vec::new() };
        }
        self.center = center;
        let load = self.spawn_missing(center);
        let unload = self.collect_unloads(center);
        proof {
            let r = old(self).spec_view_distance() as int;
            assert forall|p: ChunkPos| #[trigger] unload@.contains(p) implies old(self).handled_set().contains(p) by {
                if load@.to_set().contains(p) {
                    assert(in_view(p, center, r));
                    assert(false);
                }
            }
            assert forall|p: ChunkPos| old(self).handled_set().contains(p) && far(p, center, r) implies #[trigger] unload@.contains(p) by {}
            assert forall|p: ChunkPos| in_view(p, center, r) implies #[trigger] self.handled_set().contains(p) by {
                assert(!far(p, center, r));
                if !old(self).handled_set().contains(p) {
                    assert(load@.to_set().contains(p));
                }
                assert(!unload@.contains(p));
                assert(!unload@.to_set().contains(p));
            }
            assert forall|p: ChunkPos| #[trigger] self.handled_set().contains(p) implies !far(p, center, r) by {
                if far(p, center, r) {
                    if old(self).handled_set().contains(p) {
                        assert(unload@.contains(p));
                        assert(unload@.to_set().contains(p));
                    } else {
                        assert(load@.to_set().contains(p));
                        assert(in_view(p, center, r));
                    }
                }
            }
        }
        StreamStep { load, unload }
    }

    /// Marks every missing chunk of the view disk as handled and returns them,
    /// closest first.
    fn spawn_missing(&mut self, center: ChunkPos) -> (wanted: Vec<ChunkPos>)
        requires
            old(self).wf(),
            old(self).view_distance >= 0 ==> i32::MIN <= center.x - old(self).view_distance && center.x
                + old(self).view_distance <= i32::MAX && i32::MIN <= center.z - old(self).view_distance
                && center.z + old(self).view_distance <= i32::MAX,
        ensures
            final(self).wf(),
            final(self).view_distance == old(self).view_distance,
            final(self).center == old(self).center,
            load_sorted(wanted@, center),
            forall|p: ChunkPos| #[trigger] wanted@.to_set().contains(p) <==> in_view(p, center, old(self).view_distance as int)
                && !old(self).handled_set().contains(p),
            final(self).handled_set() == old(self).handled_set().union(wanted@.to_set()),
    {
        let r = self.view_distance;
        let ghost rr = r as int;
        let mut wanted: Vec<ChunkPos> = Vec::new();
        if r >= 0 {
            let mut dz: i32 = -r;
            while dz <= r
                invariant
                    0 <= r <= 32767,
                    rr == r,
                    -r <= dz <= r + 1,
                    i32::MIN <= center.x - r,
                    center.x + r <= i32::MAX,
                    i32::MIN <= center.z - r,
                    center.z + r <= i32::MAX,
                    self == old(self),
                    load_sorted(wanted@, center),
                    forall|q: ChunkPos| #[trigger] wanted@.contains(q) ==> q.z - center.z < dz && in_view(q, center, rr),
                    forall|p: ChunkPos| #[trigger] wanted@.to_set().contains(p) <==> in_view(p, center, rr)
                        && !old(self).handled_set().contains(p) && p.z - center.z < dz,
                decreases r + 1 - dz,
            {
                let mut dx: i32 = -r;
                while dx <= r
                    invariant
                        0 <= r <= 32767,
                        rr == r,
                        -r <= dz <= r,
                        -r <= dx <= r + 1,
                        i32::MIN <= center.x - r,
                        center.x + r <= i32::MAX,
                        i32::MIN <= center.z - r,
                        center.z + r <= i32::MAX,
                        self == old(self),
                        load_sorted(wanted@, center),
                        forall|q: ChunkPos| #[trigger] wanted@.contains(q) ==> (q.z - center.z < dz
                            || (q.z - center.z == dz && q.x - center.x < dx)) && in_view(q, center, rr),
                        forall|p: ChunkPos| #[trigger] wanted@.to_set().contains(p) <==> in_view(p, center, rr)
                            && !old(self).handled_set().contains(p) && (p.z - center.z < dz || (p.z
                            - center.z == dz && p.x - center.x < dx)),
                    decreases r + 1 - dx,
                {
                    let pos = ChunkPos::new(center.x + dx, center.z + dz);
                    assert(0 <= dx * dx <= r * r && 0 <= dz * dz <= r * r) by (nonlinear_arith)
                        requires -r <= dx <= r, -r <= dz <= r;
                    assert(r * r <= 32767 * 32767) by (nonlinear_arith) requires 0 <= r <= 32767;
                    let inside = dx * dx + dz * dz <= r * r;
                    let k = chunk_key_of(pos);
                    proof { self.lemma_handled(pos); }
                    let ghost prev = wanted@;
                    proof {
                        assert(dist2_spec(pos, center) == dx * dx + dz * dz);
                        assert forall|q: ChunkPos| #[trigger] prev.contains(q) implies dist2_spec(q, center) <= i32::MAX
                            && i32::MIN <= q.x - center.x <= i32::MAX && i32::MIN <= q.z - center.z <= i32::MAX by {
                            assert(in_view(q, center, rr));
                        }
                    }
                    if inside && !self.handled.contains(&k) {
                        insert_sorted(&mut wanted, pos, center);
                    }
                    proof {
                        assert forall|q: ChunkPos| #[trigger] wanted@.contains(q) implies (q.z - center.z < dz
                            || (q.z - center.z == dz && q.x - center.x < dx + 1)) && in_view(q, center, rr) by {
                            assert(wanted@.to_set().contains(q));
                            if q != pos {
                                assert(prev.to_set().contains(q));
                                assert(prev.contains(q));
                            }
                        }
                        assert(dist2_spec(pos, center) == dx * dx + dz * dz);
                        assert forall|p: ChunkPos| #[trigger] wanted@.to_set().contains(p) <==> in_view(p, center, rr)
                            && !old(self).handled_set().contains(p) && (p.z - center.z < dz || (p.z
                            - center.z == dz && p.x - center.x < dx + 1)) by {
                            if p.z - center.z == dz && p.x - center.x == dx {
                                assert(p == pos);
                            }
                        }
                    }
                    dx = dx + 1;
                }
                dz = dz + 1;
            }
        } else {
            proof {
                assert forall|p: ChunkPos| !#[trigger] in_view(p, center, rr) by {}
                assert(wanted@.to_set() =~= Set::<ChunkPos>::empty());
            }
        }
        let n = wanted.len();
        let mut i: usize = 0;
        while i < n
            invariant
                n == wanted@.len(),
                i <= n,
                self.view_distance == old(self).view_distance,
                self.center == old(self).center,
                self.handled_set() == old(self).handled_set().union(wanted@.take(i as int).to_set()),
            decreases n - i,
        {
            let k = chunk_key_of(wanted[i]);
            let ghost prev = self.handled@;
            let ghost prev_set = self.handled_set();
            self.handled.insert(k);
            proof {
                let p = wanted@[i as int];
                assert(self.handled@ == prev.insert(k));
                assert(wanted@.take(i + 1) =~= wanted@.take(i as int).push(p));
                wanted@.take(i as int).lemma_push_to_set_commute(p);
                assert forall|q: ChunkPos| #![auto] self.handled_set().contains(q) == old(self).handled_set().union(wanted@.take(i + 1).to_set()).contains(q) by {
                    lemma_chunk_key(q);
                    lemma_chunk_key(p);
                    if chunk_key(q) == chunk_key(p) {
                        assert(q == p);
                    }
                    assert(self.handled_set().contains(q) == (prev.contains(chunk_key(q) as u64) || chunk_key(q) as u64 == k));
                    assert(prev_set.contains(q) == prev.contains(chunk_key(q) as u64));
                    assert(wanted@.take(i + 1).to_set() == wanted@.take(i as int).to_set().insert(p));
                }
                assert(self.handled_set() =~= old(self).handled_set().union(wanted@.take(i + 1).to_set()));
            }
            i = i + 1;
        }
        assert(wanted@.take(n as int) =~= wanted@);
        wanted
    }

    /// Drops and returns the handled chunks beyond the unload square.
    fn collect_unloads(&mut self, center: ChunkPos) -> (dropped: Vec<ChunkPos>)
        requires
            old(self).wf(),
        ensures
            final(self).wf(),
            final(self).view_distance == old(self).view_distance,
            final(self).center == old(self).center,
            dropped@.no_duplicates(),
            forall|p: ChunkPos| #[trigger] dropped@.contains(p) <==> old(self).handled_set().contains(p)
                && far(p, center, old(self).view_distance as int),
            final(self).handled_set() == old(self).handled_set().difference(dropped@.to_set()),
    {
        let limit: i64 = self.view_distance as i64 + 2;
        let mut dropped: Vec<ChunkPos> = Vec::new();
        let ghost h = self.handled@;
        let ghost s = vstd::std_specs::hash::spec_hash_keys_iter(&self.handled).remaining();
        for k in it: self.handled.iter()
            invariant
                it.seq() == s,
                h == self.handled@,
                s.unref().to_set() == h,
                s.no_duplicates(),
                limit == self.view_distance + 2,
                self == old(self),
                dropped@.len() <= it.index(),
                forall|i: int, j: int| 0 <= i < j < dropped@.len() ==> dropped@[i] != dropped@[j],
                forall|p: ChunkPos| #[trigger] dropped@.contains(p) <==> (exists|i: int| 0 <= i < it.index()
                    && *s[i] == chunk_key(p) as u64) && far(p, center, self.view_distance as int),
        {
            let ghost prev = dropped@;
            let p = chunk_of_key(*k);
            let dx: i64 = p.x as i64 - center.x as i64;
            let dz: i64 = p.z as i64 - center.z as i64;
            let adx: i64 = if dx < 0 { -dx } else { dx };
            let adz: i64 = if dz < 0 { -dz } else { dz };
            proof {
                lemma_key_chunk(*k);
                lemma_chunk_key(p);
            }
            if adx > limit || adz > limit {
                proof {
                    assert forall|i: int| 0 <= i < dropped@.len() implies dropped@[i] != p by {
                        let q = dropped@[i];
                        assert(dropped@.contains(q));
                        let j = choose|j: int| 0 <= j < it.index() && *s[j] == chunk_key(q) as u64;
                        lemma_chunk_key(q);
                        if q == p {
                            assert(s[j] == s[it.index()]);
                        }
                    }
                }
                dropped.push(p);
            }
            proof {
                let idx = it.index();
                assert forall|q: ChunkPos| #[trigger] dropped@.contains(q) <==> (exists|i: int| 0 <= i < idx + 1
                    && *s[i] == chunk_key(q) as u64) && far(q, center, self.view_distance as int) by {
                    lemma_chunk_key(q);
                    assert(*k == *s[idx]);
                    assert(far(p, center, self.view_distance as int) == (adx > limit || adz > limit));
                    if *s[idx] == chunk_key(q) as u64 {
                        assert(q == p);
                    }
                    if q != p {
                        assert((exists|i: int| 0 <= i < idx + 1 && *s[i] == chunk_key(q) as u64) ==
                            (exists|i: int| 0 <= i < idx && *s[i] == chunk_key(q) as u64)) by {
                            if exists|i: int| 0 <= i < idx + 1 && *s[i] == chunk_key(q) as u64 {
                                let i = choose|i: int| 0 <= i < idx + 1 && *s[i] == chunk_key(q) as u64;
                                assert(i < idx);
                            }
                        }
                        assert(prev.contains(q) == dropped@.contains(q)) by {
                            if dropped@.contains(q) {
                                let j = choose|j: int| 0 <= j < dropped@.len() && dropped@[j] == q;
                                assert(prev[j] == q);
                            }
                            if prev.contains(q) {
                                let j = choose|j: int| 0 <= j < prev.len() && prev[j] == q;
                                assert(dropped@[j] == q);
                            }
                        }
                    } else {
                        assert(*s[idx] == chunk_key(q) as u64);
                        if !(adx > limit || adz > limit) {
                            assert(dropped@ == prev);
                            if prev.contains(q) {
                                assert((exists|i: int| 0 <= i < idx && *s[i] == chunk_key(q) as u64));
                                let i = choose|i: int| 0 <= i < idx && *s[i] == chunk_key(q) as u64;
                                assert(s[i] == s[idx]);
                            }
                        } else {
                            assert(dropped@[dropped@.len() - 1] == p);
                        }
                    }
                }
            }
        }
        proof {
            assert forall|p: ChunkPos| #[trigger] dropped@.contains(p) <==> old(self).handled_set().contains(p)
                && far(p, center, old(self).view_distance as int) by {
                lemma_chunk_key(p);
                let kk = chunk_key(p) as u64;
                if h.contains(kk) {
                    assert(s.unref().to_set().contains(kk));
                    let i = choose|i: int| 0 <= i < s.unref().len() && s.unref()[i] == kk;
                    assert(*s[i] == kk);
                }
                if exists|i: int| 0 <= i < s.len() && *s[i] == kk {
                    let i = choose|i: int| 0 <= i < s.len() && *s[i] == kk;
                    assert(s.unref()[i] == kk);
                    assert(s.unref().to_set().contains(kk));
                }
            }
        }
        let n = dropped.len();
        let mut i: usize = 0;
        while i < n
            invariant
                n == dropped@.len(),
                i <= n,
                self.view_distance == old(self).view_distance,
                self.center == old(self).center,
                self.handled_set() == old(self).handled_set().difference(dropped@.take(i as int).to_set()),
            decreases n - i,
        {
            let k = chunk_key_of(dropped[i]);
            let ghost prev = self.handled@;
            let ghost prev_set = self.handled_set();
            self.handled.remove(&k);
            proof {
                let p = dropped@[i as int];
                assert(self.handled@ == prev.remove(k));
                assert(dropped@.take(i + 1) =~= dropped@.take(i as int).push(p));
                dropped@.take(i as int).lemma_push_to_set_commute(p);
                assert forall|q: ChunkPos| #![auto] self.handled_set().contains(q) == old(self).handled_set().difference(dropped@.take(i + 1).to_set()).contains(q) by {
                    lemma_chunk_key(q);
                    lemma_chunk_key(p);
                    if chunk_key(q) == chunk_key(p) {
                        assert(q == p);
                    }
                    assert(self.handled_set().contains(q) == (prev.contains(chunk_key(q) as u64) && chunk_key(q) as u64 != k));
                    assert(prev_set.contains(q) == prev.contains(chunk_key(q) as u64));
                    assert(dropped@.take(i + 1).to_set() == dropped@.take(i as int).to_set().insert(p));
                }
                assert(self.handled_set() =~= old(self).handled_set().difference(dropped@.take(i + 1).to_set()));
            }
            i = i + 1;
        }
        assert(dropped@.take(n as int) =~= dropped@);
        dropped
    }
}

/// Inserts `pos` into a list sorted in loading order, after every entry that is
/// no farther; `pos` comes after all entries in scan order.
fn insert_sorted(v: &mut Vec<ChunkPos>, pos: ChunkPos, c: ChunkPos)
    requires
        load_sorted(old(v)@, c),
        forall|q: ChunkPos| #[trigger] old(v)@.contains(q) ==> scan_before(q, pos),
        dist2_spec(pos, c) <= i32::MAX,
        forall|q: ChunkPos| #[trigger] old(v)@.contains(q) ==> dist2_spec(q, c) <= i32::MAX && i32::MIN <= q.x - c.x <= i32::MAX && i32::MIN <= q.z - c.z <= i32::MAX,
        i32::MIN <= pos.x - c.x <= i32::MAX,
        i32::MIN <= pos.z - c.z <= i32::MAX,
    ensures
        load_sorted(final(v)@, c),
        final(v)@.to_set() == old(v)@.to_set().insert(pos),
        forall|q: ChunkPos| #[trigger] final(v)@.contains(q) ==> dist2_spec(q, c) <= i32::MAX && i32::MIN <= q.x - c.x <= i32::MAX && i32::MIN <= q.z - c.z <= i32::MAX,
{
    let d = dist2(pos, c);
    let n = v.len();
    let mut i: usize = 0;
    while i < n
        invariant
            n == v@.len(),
            v@ == old(v)@,
            i <= n,
            d == dist2_spec(pos, c),
            forall|q: ChunkPos| #[trigger] v@.contains(q) ==> dist2_spec(q, c) <= i32::MAX && i32::MIN <= q.x - c.x <= i32::MAX && i32::MIN <= q.z - c.z <= i32::MAX,
            forall|j: int| 0 <= j < i ==> dist2_spec(#[trigger] v@[j], c) <= d,
        ensures
            i <= n,
            v@ == old(v)@,
            forall|j: int| 0 <= j < i ==> dist2_spec(#[trigger] v@[j], c) <= d,
            i < n ==> dist2_spec(v@[i as int], c) > d,
        decreases n - i,
    {
        assert(v@.contains(v@[i as int]));
        if dist2(v[i], c) > d {
            break;
        }
        i = i + 1;
    }
    let ghost before = v@;
    v.insert(i, pos);
    proof {
        assert(v@ == before.insert(i as int, pos));
        assert forall|a: int, b: int| 0 <= a < b < v@.len() implies loads_before(#[trigger] v@[a], #[trigger] v@[b], c) by {
            if a < i && b == i {
                assert(before.contains(before[a]));
                assert(scan_before(before[a], pos));
            } else if a == i && b > i {
                assert(before.contains(before[b - 1]));
                if i < n {
                    assert(dist2_spec(before[i as int], c) > d);
                    if b - 1 > i {
                        assert(loads_before(before[i as int], before[b - 1], c));
                    }
                }
            } else if a < i && b > i {
                assert(loads_before(before[a], before[b - 1], c));
            } else if a > i {
                assert(loads_before(before[a - 1], before[b - 1], c));
            }
        }
        assert forall|q: ChunkPos| v@.to_set().contains(q) <==> before.to_set().insert(pos).contains(q) by {
            if v@.contains(q) {
                let j = choose|j: int| 0 <= j < v@.len() && v@[j] == q;
                if j < i { assert(before[j] == q); } else if j > i { assert(before[j - 1] == q); }
            }
            if before.contains(q) {
                let j = choose|j: int| 0 <= j < before.len() && before[j] == q;
                if j < i { assert(v@[j] == q); } else { assert(v@[j + 1] == q); }
            }
            if q == pos { assert(v@[i as int] == pos); }
        }
        assert(v@.to_set() =~= before.to_set().insert(pos));
        assert forall|q: ChunkPos| #[trigger] v@.contains(q) implies dist2_spec(q, c) <= i32::MAX && i32::MIN <= q.x - c.x <= i32::MAX && i32::MIN <= q.z - c.z <= i32::MAX by {
            let j = choose|j: int| 0 <= j < v@.len() && v@[j] == q;
            if j < i { assert(before.contains(before[j])); } else if j > i { assert(before.contains(before[j - 1])); }
        }
    }
}

/// The unload rule treats both horizontal axes alike: a chunk more than the view
/// distance plus 2 away along x, or along z, is beyond the unload square, and
/// swapping x and z of the chunk and the centre does not change the answer. A
/// chunk within that margin on both axes is kept.
pub proof fn law_unload_square(p: ChunkPos, c: ChunkPos, r: int)
    ensures
        (p.x - c.x > r + 2 || c.x - p.x > r + 2) ==> far(p, c, r),
        (p.z - c.z > r + 2 || c.z - p.z > r + 2) ==> far(p, c, r),
        far(p, c, r) == far(ChunkPos { x: p.z, z: p.x }, ChunkPos { x: c.z, z: c.x }, r),
        (-(r + 2) <= p.x - c.x <= r + 2 && -(r + 2) <= p.z - c.z <= r + 2) ==> !far(p, c, r),
{
}

} // verus!
