//! The world: territories over a grid of chunks, each chunk owned by at most
//! one territory.

use vstd::prelude::*;
use crate::coloring::{NUM_COLORS, color_around, degenerate, graph_6_coloring, is_graph, least_color, rows_of};
use crate::geometry::Point;
use crate::territory::{Territory, flat_chunks, dir_dx, dir_dy, has_point, holds, lemma_push_contains, step};

verus! {

/// The `m`-th chunk of a flat `[x0, y0, x1, y1, ...]` buffer.
pub open spec fn pair_at(buf: Seq<i32>, m: int) -> Point<i32> {
    Point { x: buf[2 * m], y: buf[2 * m + 1] }
}

/// The first `k` chunks of a flat buffer.
pub open spec fn pairs_upto(buf: Seq<i32>, k: int) -> Set<Point<i32>> {
    Set::new(|p: Point<i32>| exists|m: int| 0 <= m < k && #[trigger] pair_at(buf, m) == p)
}

/// The chunks named by a flat `[x0, y0, x1, y1, ...]` buffer; a trailing
/// odd value names nothing.
pub open spec fn pairs(buf: Seq<i32>) -> Set<Point<i32>> {
    pairs_upto(buf, (buf.len() / 2) as int)
}

/// `after` is `before` where territory `id` gained the chunks of `buf` that no
/// territory owned.
pub open spec fn coords_added(before: Seq<Territory>, after: Seq<Territory>, id: u32, buf: Seq<i32>) -> bool {
    &&& after.len() == before.len()
    &&& forall|i: int| 0 <= i < before.len() ==> same_but_chunks(#[trigger] after[i], before[i])
    &&& forall|i: int| 0 <= i < before.len() ==> #[trigger] after[i].chunks() == if before[i].id == id {
        before[i].chunks().union(pairs(buf).difference(Set::new(|p: Point<i32>| occupied_in(before, p))))
    } else {
        before[i].chunks()
    }
}

/// `after` is `before` with the chunks of `buf` taken from their owners.
pub open spec fn coords_removed(before: Seq<Territory>, after: Seq<Territory>, buf: Seq<i32>) -> bool {
    &&& after.len() == before.len()
    &&& forall|i: int| 0 <= i < before.len() ==> same_but_chunks(#[trigger] after[i], before[i])
    &&& forall|i: int| 0 <= i < before.len() ==> #[trigger] after[i].chunks() == before[i].chunks().difference(pairs(buf))
}

/// The same territory record but for its chunks.
pub open spec fn same_but_chunks(a: Territory, b: Territory) -> bool {
    a.id == b.id && a.neighbors == b.neighbors && a.color == b.color && a.is_at_edge == b.is_at_edge
}

/// No chunk belongs to two territories.
pub open spec fn disjoint(ts: Seq<Territory>) -> bool {
    forall|i: int, j: int, p: Point<i32>|
        0 <= i < ts.len() && 0 <= j < ts.len() && i != j && #[trigger] ts[i].coords@.contains(p)
            ==> !#[trigger] ts[j].coords@.contains(p)
}

/// Territory ids are unique.
pub open spec fn unique_ids(ts: Seq<Territory>) -> bool {
    forall|i: int, j: int| 0 <= i < ts.len() && 0 <= j < ts.len() && i != j ==> #[trigger] ts[i].id != #[trigger] ts[j].id
}

/// Some territory holds chunk `p`.
pub open spec fn occupied_in(ts: Seq<Territory>, p: Point<i32>) -> bool {
    exists|i: int| 0 <= i < ts.len() && #[trigger] ts[i].coords@.contains(p)
}

/// A world of territories over integer chunks.
pub struct World {
    /// The territories, in order of creation.
    pub territories: Vec<Territory>,
    /// World units per chunk.
    pub grid_scale: i32,
    /// The next id that the world issues.
    pub territory_id_counter: u32,
}

impl World {
    /// Every territory is well formed, ids are unique and no chunk has two owners.
    pub open spec fn wf(&self) -> bool {
        &&& forall|i: int| 0 <= i < self.territories@.len() ==> #[trigger] self.territories@[i].wf()
        &&& unique_ids(self.territories@)
        &&& disjoint(self.territories@)
    }

    /// A live territory has id `id`.
    pub open spec fn has_id(&self, id: u32) -> bool {
        exists|i: int| 0 <= i < self.territories@.len() && #[trigger] self.territories@[i].id == id
    }

    /// The set of all chunks owned by some territory.
    pub open spec fn occupied(&self) -> Set<Point<i32>> {
        Set::new(|p: Point<i32>| occupied_in(self.territories@, p))
    }

    pub fn new(grid_scale: i32) -> (w: Option<World>)
        ensures
            w.is_some(),
            w.unwrap().wf(),
            w.unwrap().territories@.len() == 0,
            w.unwrap().grid_scale == grid_scale,
            w.unwrap().territory_id_counter == 0,
    {
        Some(World { territories: Vec::new(), grid_scale, territory_id_counter: 0 })
    }

    /// Removes every territory.
    pub fn clear(&mut self)
        ensures
            final(self).wf(),
            final(self).territories@.len() == 0,
            final(self).grid_scale == old(self).grid_scale,
            final(self).territory_id_counter == old(self).territory_id_counter,
    {
        self.territories = Vec::new();
    }

    pub fn get_territory_id_counter(&self) -> (c: u32)
        ensures
            c == self.territory_id_counter,
    {
        self.territory_id_counter
    }

    pub fn set_territory_id_counter(&mut self, count: u32)
        ensures
            final(self).territory_id_counter == count,
            final(self).territories == old(self).territories,
            final(self).grid_scale == old(self).grid_scale,
    {
        self.territory_id_counter = count;
    }

    /// Issues the counter's value as a new id and advances the counter.
    pub fn get_new_territory_id(&mut self) -> (id: u32)
        requires
            old(self).territory_id_counter < u32::MAX,
        ensures
            id == old(self).territory_id_counter,
            final(self).territory_id_counter == old(self).territory_id_counter + 1,
            final(self).territories == old(self).territories,
            final(self).grid_scale == old(self).grid_scale,
    {
        let id = self.territory_id_counter;
        self.territory_id_counter = self.territory_id_counter + 1;
        id
    }

    /// The index of the territory with id `id`.
    pub fn find_index(&self, id: u32) -> (r: Option<usize>)
        requires
            self.wf(),
        ensures
            match r {
                Some(i) => i < self.territories@.len() && self.territories@[i as int].id == id,
                None => !self.has_id(id),
            },
            r.is_some() == self.has_id(id),
    {
        let mut i: usize = 0;
        while i < self.territories.len()
            invariant
                i <= self.territories@.len(),
                forall|j: int| 0 <= j < i ==> #[trigger] self.territories@[j].id != id,
            decreases self.territories.len() - i,
        {
            if self.territories[i].id == id {
                return Some(i);
            }
            i = i + 1;
        }
        None
    }

    /// Whether a territory with id `id` exists.
    pub fn has_territory(&self, id: u32) -> (r: bool)
        requires
            self.wf(),
        ensures
            r == self.has_id(id),
    {
        self.find_index(id).is_some()
    }

    /// The territory with id `id`.
    pub fn territory(&self, id: u32) -> (r: Option<&Territory>)
        requires
            self.wf(),
        ensures
            r.is_some() == self.has_id(id),
            r.is_some() ==> r.unwrap().id == id && exists|i: int| 0 <= i < self.territories@.len() && self.territories@[i] == *r.unwrap(),
    {
        match self.find_index(id) {
            Some(i) => Some(&self.territories[i]),
            None => None,
        }
    }

    /// The index of the territory that owns chunk `p`.
    pub fn owner_index(&self, p: Point<i32>) -> (r: Option<usize>)
        ensures
            match r {
                Some(i) => i < self.territories@.len() && self.territories@[i as int].coords@.contains(p),
                None => !occupied_in(self.territories@, p),
            },
    {
        let mut i: usize = 0;
        while i < self.territories.len()
            invariant
                i <= self.territories@.len(),
                forall|j: int| 0 <= j < i ==> !(#[trigger] self.territories@[j]).coords@.contains(p),
            decreases self.territories.len() - i,
        {
            if has_point(&self.territories[i].coords, p) {
                return Some(i);
            }
            i = i + 1;
        }
        None
    }

    /// Creates an empty territory with the given id, or with the counter's
    /// id (advancing the counter) when none is given, and returns the id.
    pub fn create_territory(&mut self, id: Option<u32>) -> (r: u32)
        requires
            old(self).wf(),
            match id {
                Some(x) => !old(self).has_id(x),
                None => old(self).territory_id_counter < u32::MAX && !old(self).has_id(old(self).territory_id_counter),
            },
        ensures
            final(self).wf(),
            r == match id {
                Some(x) => x,
                None => old(self).territory_id_counter,
            },
            final(self).territory_id_counter == match id {
                Some(x) => old(self).territory_id_counter,
                None => (old(self).territory_id_counter + 1) as u32,
            },
            final(self).grid_scale == old(self).grid_scale,
            final(self).territories@.len() == old(self).territories@.len() + 1,
            forall|i: int| 0 <= i < old(self).territories@.len() ==> #[trigger] final(self).territories@[i] == old(self).territories@[i],
            final(self).territories@.last().id == r,
            final(self).territories@.last().coords@.len() == 0,
            final(self).territories@.last().neighbors@.len() == 0,
            final(self).territories@.last().color.is_none(),
            !final(self).territories@.last().is_at_edge,
    {
        let id = match id {
            Some(x) => x,
            None => {
                let x = self.territory_id_counter;
                self.territory_id_counter = self.territory_id_counter + 1;
                x
            },
        };
        let ghost t0 = self.territories@;
        self.territories.push(Territory::new(id));
        proof {
            assert forall|i: int, j: int| 0 <= i < self.territories@.len() && 0 <= j < self.territories@.len() && i != j implies #[trigger] self.territories@[i].id != #[trigger] self.territories@[j].id by {
                if i < t0.len() && j < t0.len() {
                    assert(t0[i].id != t0[j].id);
                } else if i < t0.len() {
                    assert(self.territories@[i] == t0[i]);
                } else {
                    assert(self.territories@[j] == t0[j]);
                }
            }
            assert forall|i: int, j: int, p: Point<i32>| 0 <= i < self.territories@.len() && 0 <= j < self.territories@.len() && i != j && #[trigger] self.territories@[i].coords@.contains(p) implies !#[trigger] self.territories@[j].coords@.contains(p) by {
                if i < t0.len() && j < t0.len() {
                    assert(self.territories@[i] == t0[i]);
                    assert(self.territories@[j] == t0[j]);
                }
            }
        }
        id
    }

    /// Deletes the territory with id `id` and frees its chunks.
    pub fn delete_territory(&mut self, id: u32)
        requires
            old(self).wf(),
        ensures
            final(self).wf(),
            !final(self).has_id(id),
            final(self).territories@ == old(self).territories@.filter(|t: Territory| t.id != id),
            final(self).grid_scale == old(self).grid_scale,
            final(self).territory_id_counter == old(self).territory_id_counter,
    {
        if let Some(i) = self.find_index(id) {
            let _ = self.remove_at(i);
        } else {
            proof {
                lemma_filter_keeps_all(self.territories@, id);
            }
        }
    }

    /// Removes and returns the territory at index `i`.
    fn remove_at(&mut self, i: usize) -> (t: Territory)
        requires
            old(self).wf(),
            i < old(self).territories@.len(),
        ensures
            final(self).wf(),
            t == old(self).territories@[i as int],
            final(self).territories@ == old(self).territories@.remove(i as int),
            final(self).territories@ == old(self).territories@.filter(|u: Territory| u.id != t.id),
            !final(self).has_id(t.id),
            final(self).grid_scale == old(self).grid_scale,
            final(self).territory_id_counter == old(self).territory_id_counter,
    {
        let ghost t0 = self.territories@;
        let t = self.territories.remove(i);
        proof {
            let t1 = self.territories@;
            assert forall|a: int| 0 <= a < t1.len() implies #[trigger] t1[a] == t0[if a < i { a } else { a + 1 }] by {}
            assert forall|a: int, b: int| 0 <= a < t1.len() && 0 <= b < t1.len() && a != b implies #[trigger] t1[a].id != #[trigger] t1[b].id by {
                let ia = if a < i { a } else { a + 1 };
                let ib = if b < i { b } else { b + 1 };
                assert(t1[a] == t0[ia] && t1[b] == t0[ib]);
            }
            assert forall|a: int, b: int, p: Point<i32>| 0 <= a < t1.len() && 0 <= b < t1.len() && a != b && #[trigger] t1[a].coords@.contains(p) implies !#[trigger] t1[b].coords@.contains(p) by {
                let ia = if a < i { a } else { a + 1 };
                let ib = if b < i { b } else { b + 1 };
                assert(t1[a] == t0[ia] && t1[b] == t0[ib]);
            }
            assert forall|a: int| 0 <= a < t1.len() implies (#[trigger] t1[a]).wf() by {
                let ia = if a < i { a } else { a + 1 };
                assert(t1[a] == t0[ia]);
            }
            assert forall|a: int| 0 <= a < t1.len() implies #[trigger] t1[a].id != t.id by {
                let ia = if a < i { a } else { a + 1 };
                assert(t1[a] == t0[ia]);
            }
            lemma_filter_removes_one(t0, i as int);
        }
        t
    }
}

/// Filtering out an id that no territory has keeps the list.
proof fn lemma_filter_keeps_all(ts: Seq<Territory>, id: u32)
    requires
        forall|i: int| 0 <= i < ts.len() ==> #[trigger] ts[i].id != id,
    ensures
        ts.filter(|t: Territory| t.id != id) == ts,
    decreases ts.len(),
{
    reveal(Seq::filter);
    if ts.len() > 0 {
        lemma_filter_keeps_all(ts.drop_last(), id);
        assert(ts.drop_last().push(ts.last()) =~= ts);
    }
}

/// With unique ids, filtering out the id at `i` removes exactly index `i`.
proof fn lemma_filter_removes_one(ts: Seq<Territory>, i: int)
    requires
        unique_ids(ts),
        0 <= i < ts.len(),
    ensures
        ts.filter(|t: Territory| t.id != ts[i].id) == ts.remove(i),
    decreases ts.len(),
{
    reveal(Seq::filter);
    let id = ts[i].id;
    let dl = ts.drop_last();
    if i == ts.len() - 1 {
        assert forall|a: int| 0 <= a < dl.len() implies #[trigger] dl[a].id != id by {
            assert(ts[a].id != ts[i].id);
        }
        lemma_filter_keeps_all(dl, id);
        assert(ts.remove(i) =~= dl);
    } else {
        assert(unique_ids(dl)) by {
            assert forall|a: int, b: int| 0 <= a < dl.len() && 0 <= b < dl.len() && a != b implies #[trigger] dl[a].id != #[trigger] dl[b].id by {
                assert(ts[a].id != ts[b].id);
            }
        }
        assert(dl[i] == ts[i]);
        lemma_filter_removes_one(dl, i);
        assert(ts.last().id != id);
        assert(ts.remove(i) =~= dl.remove(i).push(ts.last()));
    }
}

impl World {
    /// Gives unowned chunk `p` to the territory at index `i`.
    fn add_chunk_at(&mut self, i: usize, p: Point<i32>)
        requires
            old(self).wf(),
            i < old(self).territories@.len(),
            !occupied_in(old(self).territories@, p),
        ensures
            final(self).wf(),
            final(self).territories@.len() == old(self).territories@.len(),
            final(self).territories@[i as int].coords@ == old(self).territories@[i as int].coords@.push(p),
            same_but_chunks(final(self).territories@[i as int], old(self).territories@[i as int]),
            forall|j: int| 0 <= j < final(self).territories@.len() && j != i ==> #[trigger] final(self).territories@[j] == old(self).territories@[j],
            final(self).grid_scale == old(self).grid_scale,
            final(self).territory_id_counter == old(self).territory_id_counter,
    {
        let ghost t0 = self.territories@;
        let mut t = Territory::new(0);
        std::mem::swap(&mut t, &mut self.territories[i]);
        proof {
            assert(t == t0[i as int]);
            assert(!t.coords@.contains(p));
            lemma_push_contains(t.coords@, p);
        }
        t.coords.push(p);
        self.territories.set(i, t);
        proof {
            let t1 = self.territories@;
            assert forall|a: int, b: int, q: Point<i32>| 0 <= a < t1.len() && 0 <= b < t1.len() && a != b && #[trigger] t1[a].coords@.contains(q) implies !#[trigger] t1[b].coords@.contains(q) by {
                if a == i {
                    assert(t1[b] == t0[b]);
                    if q != p {
                        assert(t0[a].coords@.contains(q));
                    }
                } else if b == i {
                    assert(t1[a] == t0[a]);
                    if q != p {
                        assert(!t0[b].coords@.contains(q));
                    }
                } else {
                    assert(t1[a] == t0[a] && t1[b] == t0[b]);
                }
            }
            assert forall|a: int, b: int| 0 <= a < t1.len() && 0 <= b < t1.len() && a != b implies #[trigger] t1[a].id != #[trigger] t1[b].id by {
                assert(t0[a].id != t0[b].id);
            }
            assert forall|a: int| 0 <= a < t1.len() implies (#[trigger] t1[a]).wf() by {
                if a != i {
                    assert(t1[a] == t0[a]);
                } else {
                    assert(t0[a].wf());
                }
            }
        }
    }

    /// Takes chunk `p` from the territory at index `i`, which owns it.
    fn remove_chunk_at(&mut self, i: usize, p: Point<i32>)
        requires
            old(self).wf(),
            i < old(self).territories@.len(),
        ensures
            final(self).wf(),
            final(self).territories@.len() == old(self).territories@.len(),
            final(self).territories@[i as int].chunks() == old(self).territories@[i as int].chunks().remove(p),
            same_but_chunks(final(self).territories@[i as int], old(self).territories@[i as int]),
            forall|j: int| 0 <= j < final(self).territories@.len() && j != i ==> #[trigger] final(self).territories@[j] == old(self).territories@[j],
            final(self).grid_scale == old(self).grid_scale,
            final(self).territory_id_counter == old(self).territory_id_counter,
    {
        let ghost t0 = self.territories@;
        let mut t = Territory::new(0);
        std::mem::swap(&mut t, &mut self.territories[i]);
        assert(t == t0[i as int]);
        let mut gone: Vec<Point<i32>> = Vec::new();
        gone.push(p);
        proof {
            lemma_push_contains(Seq::<Point<i32>>::empty(), p);
            assert(gone@ =~= Seq::<Point<i32>>::empty().push(p));
        }
        t.remove_coords(&gone);
        proof {
            assert(gone@.to_set() =~= set![p]);
            assert(t.chunks() =~= t0[i as int].chunks().remove(p));
        }
        self.territories.set(i, t);
        proof {
            let t1 = self.territories@;
            assert forall|q: Point<i32>| #[trigger] t1[i as int].coords@.contains(q) implies t0[i as int].coords@.contains(q) by {
                assert(t1[i as int].chunks().contains(q));
            }
            assert forall|a: int, b: int, q: Point<i32>| 0 <= a < t1.len() && 0 <= b < t1.len() && a != b && #[trigger] t1[a].coords@.contains(q) implies !#[trigger] t1[b].coords@.contains(q) by {
                if a == i {
                    assert(t1[b] == t0[b]);
                    assert(t0[a].coords@.contains(q));
                } else if b == i {
                    assert(t1[a] == t0[a]);
                    if t1[b].coords@.contains(q) {
                        assert(t0[b].coords@.contains(q));
                    }
                } else {
                    assert(t1[a] == t0[a] && t1[b] == t0[b]);
                }
            }
            assert forall|a: int, b: int| 0 <= a < t1.len() && 0 <= b < t1.len() && a != b implies #[trigger] t1[a].id != #[trigger] t1[b].id by {
                assert(t0[a].id != t0[b].id);
            }
            assert forall|a: int| 0 <= a < t1.len() implies (#[trigger] t1[a]).wf() by {
                if a != i {
                    assert(t1[a] == t0[a]);
                }
            }
        }
    }

    /// Gives each chunk of the flat buffer `coords` that no territory owns
    /// to territory `id`; chunks already owned are skipped. Returns whether
    /// the territory exists; when it does not, nothing changes.
    pub fn add_coords_to_territory(&mut self, id: u32, coords: Vec<i32>) -> (r: bool)
        requires
            old(self).wf(),
        ensures
            r == old(self).has_id(id),
            !r ==> *final(self) == *old(self),
            final(self).wf(),
            final(self).territories@.len() == old(self).territories@.len(),
            final(self).grid_scale == old(self).grid_scale,
            final(self).territory_id_counter == old(self).territory_id_counter,
            coords_added(old(self).territories@, final(self).territories@, id, coords@),
    {
        let ti = match self.find_index(id) {
            Some(i) => i,
            None => {
                return false;
            },
        };
        let ghost t0 = self.territories@;
        let ghost occ0 = self.occupied();
        let len = coords.len();
        let npairs = len / 2;
        let mut k: usize = 0;
        while k < npairs
            invariant
                len == coords@.len(),
                k <= npairs,
                npairs == coords@.len() / 2,
                ti < t0.len(),
                t0[ti as int].id == id,
                occ0 == Set::new(|p: Point<i32>| occupied_in(t0, p)),
                self.wf(),
                self.territories@.len() == t0.len(),
                self.grid_scale == old(self).grid_scale,
                self.territory_id_counter == old(self).territory_id_counter,
                forall|i: int| 0 <= i < t0.len() ==> same_but_chunks(#[trigger] self.territories@[i], t0[i]),
                forall|i: int| 0 <= i < t0.len() && i != ti ==> #[trigger] self.territories@[i] == t0[i],
                self.territories@[ti as int].chunks() == t0[ti as int].chunks().union(pairs_upto(coords@, k as int).difference(occ0)),
            decreases npairs - k,
        {
            assert(2 * k + 1 < coords@.len()) by (nonlinear_arith)
                requires
                    k < npairs,
                    npairs == coords@.len() / 2,
            ;
            let j: usize = k + k;
            let p = Point { x: coords[j], y: coords[j + 1] };
            let ghost t1 = self.territories@;
            let owner = self.owner_index(p);
            if owner.is_none() {
                self.add_chunk_at(ti, p);
                proof {
                    t1[ti as int].coords@.lemma_push_to_set_commute(p);
                }
            }
            proof {
                assert(pair_at(coords@, k as int) == p);
                let now = self.territories@[ti as int].chunks();
                let want = t0[ti as int].chunks().union(pairs_upto(coords@, k + 1).difference(occ0));
                assert forall|q: Point<i32>| now.contains(q) <==> want.contains(q) by {
                    if q == p && owner.is_some() && !occ0.contains(p) {
                        let oi = owner.unwrap() as int;
                        if oi != ti {
                            assert(t1[oi] == t0[oi]);
                            assert(occupied_in(t0, p));
                        }
                    }
                    if pairs_upto(coords@, k + 1).contains(q) && q != p {
                        let m = choose|m: int| 0 <= m < k + 1 && #[trigger] pair_at(coords@, m) == q;
                        assert(pairs_upto(coords@, k as int).contains(q));
                    }
                    if q == p && owner.is_none() {
                        assert(!occupied_in(t0, p)) by {
                            if occupied_in(t0, p) {
                                let j = choose|j: int| 0 <= j < t0.len() && #[trigger] t0[j].coords@.contains(p);
                                if j == ti {
                                    assert(t1[ti as int].chunks().contains(p));
                                } else {
                                    assert(t1[j] == t0[j]);
                                }
                            }
                        }
                    }
                }
                assert(now =~= want);
            }
            k = k + 1;
        }
        proof {
            assert(occ0 =~= old(self).occupied());
        }
        true
    }
}

/// Chunk `p` lies strictly within distance `r` of `(cx, cy)`.
pub open spec fn in_disc(p: Point<i32>, cx: int, cy: int, r: int) -> bool {
    (p.x - cx) * (p.x - cx) + (p.y - cy) * (p.y - cy) < r * r
}

/// The chunks strictly within distance `r` of `(cx, cy)`.
pub open spec fn disc(cx: int, cy: int, r: int) -> Set<Point<i32>> {
    Set::new(|p: Point<i32>| in_disc(p, cx, cy, r))
}

/// The chunks of the disc that a row-by-row scan has passed before offset `(dx, dy)`.
pub open spec fn disc_before(cx: int, cy: int, r: int, dx: int, dy: int) -> Set<Point<i32>> {
    Set::new(|p: Point<i32>| in_disc(p, cx, cy, r) && (p.x - cx < dx || (p.x - cx == dx && p.y - cy < dy)))
}

/// A chunk of the disc is less than `r` away along each axis.
proof fn lemma_disc_bounds(p: Point<i32>, cx: int, cy: int, r: int)
    requires
        r > 0,
        in_disc(p, cx, cy, r),
    ensures
        -r < p.x - cx < r,
        -r < p.y - cy < r,
{
    let dx = p.x - cx;
    let dy = p.y - cy;
    assert(dx * dx < r * r) by (nonlinear_arith)
        requires
            dx * dx + dy * dy < r * r,
    ;
    assert(dy * dy < r * r) by (nonlinear_arith)
        requires
            dx * dx + dy * dy < r * r,
    ;
    assert(-r < dx < r) by (nonlinear_arith)
        requires
            dx * dx < r * r,
            r > 0,
    ;
    assert(-r < dy < r) by (nonlinear_arith)
        requires
            dy * dy < r * r,
            r > 0,
    ;
}

/// The chunk at offset `(dx, dy)` from `(cx, cy)`, when it exists and lies in the disc.
fn disc_point(cx: i32, cy: i32, r: i32, dx: i64, dy: i64) -> (q: Option<Point<i32>>)
    requires
        r > 0,
        -r <= dx <= r,
        -r <= dy <= r,
    ensures
        match q {
            Some(p) => p.x == cx + dx && p.y == cy + dy && in_disc(p, cx as int, cy as int, r as int),
            None => forall|p: Point<i32>| p.x == cx + dx && p.y == cy + dy ==> !#[trigger] in_disc(p, cx as int, cy as int, r as int),
        },
{
    let x: i64 = cx as i64 + dx;
    let y: i64 = cy as i64 + dy;
    if x < i32::MIN as i64 || x > i32::MAX as i64 || y < i32::MIN as i64 || y > i32::MAX as i64 {
        return None;
    }
    assert(r * r <= 0x4000_0000_0000_0000) by (nonlinear_arith)
        requires
            0 < r <= 0x7fff_ffff,
    ;
    let r2: i64 = r as i64 * r as i64;
    assert(dx * dx <= r * r) by (nonlinear_arith)
        requires
            -r <= dx <= r,
    ;
    assert(dy * dy <= r * r) by (nonlinear_arith)
        requires
            -r <= dy <= r,
    ;
    assert(r * r <= 0x4000_0000_0000_0000) by (nonlinear_arith)
        requires
            0 < r <= 0x7fff_ffff,
    ;
    assert(0 <= dx * dx) by (nonlinear_arith);
    assert(0 <= dy * dy) by (nonlinear_arith);
    let d2: i128 = dx as i128 * dx as i128 + dy as i128 * dy as i128;
    if d2 < r2 as i128 {
        Some(Point { x: x as i32, y: y as i32 })
    } else {
        None
    }
}

impl World {
    /// Takes each chunk of the flat buffer `coords` from whichever territory owns it.
    pub fn remove_coords(&mut self, coords: Vec<i32>)
        requires
            old(self).wf(),
        ensures
            final(self).wf(),
            final(self).territories@.len() == old(self).territories@.len(),
            final(self).grid_scale == old(self).grid_scale,
            final(self).territory_id_counter == old(self).territory_id_counter,
            coords_removed(old(self).territories@, final(self).territories@, coords@),
    {
        let ghost t0 = self.territories@;
        let len = coords.len();
        let npairs = len / 2;
        let mut k: usize = 0;
        while k < npairs
            invariant
                len == coords@.len(),
                k <= npairs,
                npairs == coords@.len() / 2,
                self.wf(),
                self.territories@.len() == t0.len(),
                self.grid_scale == old(self).grid_scale,
                self.territory_id_counter == old(self).territory_id_counter,
                forall|i: int| 0 <= i < t0.len() ==> same_but_chunks(#[trigger] self.territories@[i], t0[i]),
                forall|i: int| 0 <= i < t0.len() ==> #[trigger] self.territories@[i].chunks() == t0[i].chunks().difference(pairs_upto(coords@, k as int)),
            decreases npairs - k,
        {
            assert(2 * k + 1 < coords@.len()) by (nonlinear_arith)
                requires
                    k < npairs,
                    npairs == coords@.len() / 2,
            ;
            let j: usize = k + k;
            let p = Point { x: coords[j], y: coords[j + 1] };
            let ghost t1 = self.territories@;
            let owner = self.owner_index(p);
            if let Some(oi) = owner {
                self.remove_chunk_at(oi, p);
            }
            proof {
                assert(pair_at(coords@, k as int) == p);
                assert forall|i: int| 0 <= i < t0.len() implies #[trigger] self.territories@[i].chunks() == t0[i].chunks().difference(pairs_upto(coords@, k + 1)) by {
                    let now = self.territories@[i].chunks();
                    let want = t0[i].chunks().difference(pairs_upto(coords@, k + 1));
                    assert forall|q: Point<i32>| now.contains(q) <==> want.contains(q) by {
                        if pairs_upto(coords@, k + 1).contains(q) && q != p {
                            let m = choose|m: int| 0 <= m < k + 1 && #[trigger] pair_at(coords@, m) == q;
                            assert(pairs_upto(coords@, k as int).contains(q));
                        }
                        if q == p {
                            if owner.is_some() && owner.unwrap() as int != i {
                                assert(t1[owner.unwrap() as int].coords@.contains(p));
                                assert(!t1[i].coords@.contains(p));
                                assert(self.territories@[i] == t1[i]);
                            }
                            if owner.is_none() {
                                assert(!t1[i].coords@.contains(p));
                                assert(self.territories@[i] == t1[i]);
                            }
                        }
                        if q != p {
                            if owner.is_some() && owner.unwrap() as int != i {
                                assert(self.territories@[i] == t1[i]);
                            }
                            if owner.is_none() {
                                assert(self.territories@[i] == t1[i]);
                            }
                        }
                    }
                    assert(now =~= want);
                }
            }
            k = k + 1;
        }
    }

    /// Gives territory `id` every chunk strictly within distance `radius` of
    /// `(cx, cy)` that no territory owns. Returns whether any chunk was added;
    /// nothing changes for a radius below one or an unknown id.
    pub fn add_circle_to_territory(&mut self, id: u32, cx: i32, cy: i32, radius: i32) -> (r: bool)
        requires
            old(self).wf(),
        ensures
            r == (radius > 0 && old(self).has_id(id) && !disc(cx as int, cy as int, radius as int).difference(old(self).occupied()).is_empty()),
            final(self).wf(),
            final(self).territories@.len() == old(self).territories@.len(),
            final(self).grid_scale == old(self).grid_scale,
            final(self).territory_id_counter == old(self).territory_id_counter,
            forall|i: int| 0 <= i < old(self).territories@.len() ==> same_but_chunks(#[trigger] final(self).territories@[i], old(self).territories@[i]),
            forall|i: int| 0 <= i < old(self).territories@.len() ==> #[trigger] final(self).territories@[i].chunks() == if old(self).territories@[i].id == id && radius > 0 {
                old(self).territories@[i].chunks().union(disc(cx as int, cy as int, radius as int).difference(old(self).occupied()))
            } else {
                old(self).territories@[i].chunks()
            },
    {
        if radius <= 0 {
            return false;
        }
        let ti = match self.find_index(id) {
            Some(i) => i,
            None => {
                return false;
            },
        };
        let ghost t0 = self.territories@;
        let ghost occ0 = self.occupied();
        let ghost (gcx, gcy, gr) = (cx as int, cy as int, radius as int);
        let mut added = false;
        let mut dx: i64 = -(radius as i64);
        proof {
            assert(disc_before(gcx, gcy, gr, -gr, -gr) =~= Set::empty()) by {
                assert forall|q: Point<i32>| !#[trigger] disc_before(gcx, gcy, gr, -gr, -gr).contains(q) by {
                    if in_disc(q, gcx, gcy, gr) {
                        lemma_disc_bounds(q, gcx, gcy, gr);
                    }
                }
            }
            assert(t0[ti as int].chunks().union(Set::empty().difference(occ0)) =~= t0[ti as int].chunks());
        }
        while dx <= radius as i64
            invariant
                radius > 0,
                gcx == cx,
                gcy == cy,
                gr == radius,
                -radius <= dx <= radius + 1,
                ti < t0.len(),
                t0[ti as int].id == id,
                occ0 == Set::new(|p: Point<i32>| occupied_in(t0, p)),
                self.wf(),
                self.territories@.len() == t0.len(),
                self.grid_scale == old(self).grid_scale,
                self.territory_id_counter == old(self).territory_id_counter,
                forall|i: int| 0 <= i < t0.len() ==> same_but_chunks(#[trigger] self.territories@[i], t0[i]),
                forall|i: int| 0 <= i < t0.len() && i != ti ==> #[trigger] self.territories@[i] == t0[i],
                self.territories@[ti as int].chunks() == t0[ti as int].chunks().union(disc_before(gcx, gcy, gr, dx as int, -gr).difference(occ0)),
                added == !disc_before(gcx, gcy, gr, dx as int, -gr).difference(occ0).is_empty(),
            decreases radius + 1 - dx,
        {
            let mut dy: i64 = -(radius as i64);
            while dy <= radius as i64
                invariant
                    radius > 0,
                    gcx == cx,
                    gcy == cy,
                    gr == radius,
                    -radius <= dx <= radius,
                    -radius <= dy <= radius + 1,
                    ti < t0.len(),
                    t0[ti as int].id == id,
                    occ0 == Set::new(|p: Point<i32>| occupied_in(t0, p)),
                    self.wf(),
                    self.territories@.len() == t0.len(),
                    self.grid_scale == old(self).grid_scale,
                    self.territory_id_counter == old(self).territory_id_counter,
                    forall|i: int| 0 <= i < t0.len() ==> same_but_chunks(#[trigger] self.territories@[i], t0[i]),
                    forall|i: int| 0 <= i < t0.len() && i != ti ==> #[trigger] self.territories@[i] == t0[i],
                    self.territories@[ti as int].chunks() == t0[ti as int].chunks().union(disc_before(gcx, gcy, gr, dx as int, dy as int).difference(occ0)),
                    added == !disc_before(gcx, gcy, gr, dx as int, dy as int).difference(occ0).is_empty(),
                decreases radius + 1 - dy,
            {
                let ghost t1 = self.territories@;
                let ghost before = disc_before(gcx, gcy, gr, dx as int, dy as int);
                let ghost after = disc_before(gcx, gcy, gr, dx as int, dy + 1);
                let cand = disc_point(cx, cy, radius, dx, dy);
                let mut fresh = false;
                if let Some(p) = cand {
                    if self.owner_index(p).is_none() {
                        self.add_chunk_at(ti, p);
                        fresh = true;
                        proof {
                            t1[ti as int].coords@.lemma_push_to_set_commute(p);
                        }
                    }
                }
                proof {
                    assert forall|q: Point<i32>| #[trigger] after.contains(q) <==> (before.contains(q) || (cand.is_some() && q == cand.unwrap())) by {
                        if after.contains(q) && !before.contains(q) {
                            assert(q.x == cx + dx && q.y == cy + dy);
                        }
                    }
                    if let Some(p) = cand {
                        assert(!before.contains(p));
                        assert(occ0.contains(p) <==> occupied_in(t1, p)) by {
                            if occupied_in(t1, p) {
                                let j = choose|j: int| 0 <= j < t1.len() && #[trigger] t1[j].coords@.contains(p);
                                if j != ti {
                                    assert(t1[j] == t0[j]);
                                } else if !t0[ti as int].coords@.contains(p) {
                                    assert(t1[ti as int].chunks().contains(p));
                                    assert(before.difference(occ0).contains(p));
                                }
                            }
                            if occupied_in(t0, p) {
                                let j = choose|j: int| 0 <= j < t0.len() && #[trigger] t0[j].coords@.contains(p);
                                if j != ti {
                                    assert(t1[j] == t0[j]);
                                } else {
                                    assert(t1[ti as int].chunks().contains(p));
                                }
                            }
                        }
                    }
                    let now = self.territories@[ti as int].chunks();
                    let want = t0[ti as int].chunks().union(after.difference(occ0));
                    assert(now =~= want);
                    if added || fresh {
                        if added {
                            let w = before.difference(occ0).choose();
                            assert(after.difference(occ0).contains(w));
                        } else {
                            assert(after.difference(occ0).contains(cand.unwrap()));
                        }
                    } else {
                        assert(after.difference(occ0) =~= Set::empty()) by {
                            assert(before.difference(occ0) =~= Set::empty());
                        }
                    }
                }
                added = added || fresh;
                dy = dy + 1;
            }
            proof {
                assert(disc_before(gcx, gcy, gr, dx as int, gr + 1) =~= disc_before(gcx, gcy, gr, dx + 1, -gr)) by {
                    assert forall|q: Point<i32>| in_disc(q, gcx, gcy, gr) implies -gr < q.x - gcx < gr && -gr < q.y - gcy < gr by {
                        lemma_disc_bounds(q, gcx, gcy, gr);
                    }
                }
            }
            dx = dx + 1;
        }
        proof {
            assert(disc_before(gcx, gcy, gr, gr + 1, -gr) =~= disc(gcx, gcy, gr)) by {
                assert forall|q: Point<i32>| in_disc(q, gcx, gcy, gr) implies -gr < q.x - gcx < gr && -gr < q.y - gcy < gr by {
                    lemma_disc_bounds(q, gcx, gcy, gr);
                }
            }
            assert(occ0 =~= old(self).occupied());
        }
        added
    }
}

impl World {
    /// Takes from territory `id` every chunk it owns strictly within distance
    /// `radius` of `(cx, cy)`. Returns whether any chunk was taken; nothing
    /// changes for a radius below one or an unknown id.
    pub fn remove_circle_to_territory(&mut self, id: u32, cx: i32, cy: i32, radius: i32) -> (r: bool)
        requires
            old(self).wf(),
        ensures
            r == (radius > 0 && old(self).has_id(id) && exists|i: int| 0 <= i < old(self).territories@.len() && old(self).territories@[i].id == id
                && !(#[trigger] old(self).territories@[i].chunks()).intersect(disc(cx as int, cy as int, radius as int)).is_empty()),
            final(self).wf(),
            final(self).territories@.len() == old(self).territories@.len(),
            final(self).grid_scale == old(self).grid_scale,
            final(self).territory_id_counter == old(self).territory_id_counter,
            forall|i: int| 0 <= i < old(self).territories@.len() ==> same_but_chunks(#[trigger] final(self).territories@[i], old(self).territories@[i]),
            forall|i: int| 0 <= i < old(self).territories@.len() ==> #[trigger] final(self).territories@[i].chunks() == if old(self).territories@[i].id == id && radius > 0 {
                old(self).territories@[i].chunks().difference(disc(cx as int, cy as int, radius as int))
            } else {
                old(self).territories@[i].chunks()
            },
    {
        if radius <= 0 {
            return false;
        }
        let ti = match self.find_index(id) {
            Some(i) => i,
            None => {
                return false;
            },
        };
        let ghost t0 = self.territories@;
        let ghost (gcx, gcy, gr) = (cx as int, cy as int, radius as int);
        let mut removed = false;
        let mut dx: i64 = -(radius as i64);
        proof {
            assert(disc_before(gcx, gcy, gr, -gr, -gr) =~= Set::empty()) by {
                assert forall|q: Point<i32>| !#[trigger] disc_before(gcx, gcy, gr, -gr, -gr).contains(q) by {
                    if in_disc(q, gcx, gcy, gr) {
                        lemma_disc_bounds(q, gcx, gcy, gr);
                    }
                }
            }
            assert(t0[ti as int].chunks().difference(Set::empty()) =~= t0[ti as int].chunks());
            assert(t0[ti as int].chunks().intersect(Set::empty()) =~= Set::empty());
        }
        while dx <= radius as i64
            invariant
                radius > 0,
                gcx == cx,
                gcy == cy,
                gr == radius,
                -radius <= dx <= radius + 1,
                ti < t0.len(),
                t0[ti as int].id == id,
                self.wf(),
                self.territories@.len() == t0.len(),
                self.grid_scale == old(self).grid_scale,
                self.territory_id_counter == old(self).territory_id_counter,
                forall|i: int| 0 <= i < t0.len() ==> same_but_chunks(#[trigger] self.territories@[i], t0[i]),
                forall|i: int| 0 <= i < t0.len() && i != ti ==> #[trigger] self.territories@[i] == t0[i],
                self.territories@[ti as int].chunks() == t0[ti as int].chunks().difference(disc_before(gcx, gcy, gr, dx as int, -gr)),
                removed == !t0[ti as int].chunks().intersect(disc_before(gcx, gcy, gr, dx as int, -gr)).is_empty(),
            decreases radius + 1 - dx,
        {
            let mut dy: i64 = -(radius as i64);
            while dy <= radius as i64
                invariant
                    radius > 0,
                    gcx == cx,
                    gcy == cy,
                    gr == radius,
                    -radius <= dx <= radius,
                    -radius <= dy <= radius + 1,
                    ti < t0.len(),
                    t0[ti as int].id == id,
                    self.wf(),
                    self.territories@.len() == t0.len(),
                    self.grid_scale == old(self).grid_scale,
                    self.territory_id_counter == old(self).territory_id_counter,
                    forall|i: int| 0 <= i < t0.len() ==> same_but_chunks(#[trigger] self.territories@[i], t0[i]),
                    forall|i: int| 0 <= i < t0.len() && i != ti ==> #[trigger] self.territories@[i] == t0[i],
                    self.territories@[ti as int].chunks() == t0[ti as int].chunks().difference(disc_before(gcx, gcy, gr, dx as int, dy as int)),
                    removed == !t0[ti as int].chunks().intersect(disc_before(gcx, gcy, gr, dx as int, dy as int)).is_empty(),
                decreases radius + 1 - dy,
            {
                let ghost t1 = self.territories@;
                let ghost before = disc_before(gcx, gcy, gr, dx as int, dy as int);
                let ghost after = disc_before(gcx, gcy, gr, dx as int, dy + 1);
                let cand = disc_point(cx, cy, radius, dx, dy);
                let mut hit = false;
                if let Some(p) = cand {
                    if self.territories[ti].has_chunk(p) {
                        self.remove_chunk_at(ti, p);
                        hit = true;
                    }
                }
                proof {
                    assert forall|q: Point<i32>| #[trigger] after.contains(q) <==> (before.contains(q) || (cand.is_some() && q == cand.unwrap())) by {
                        if after.contains(q) && !before.contains(q) {
                            assert(q.x == cx + dx && q.y == cy + dy);
                        }
                    }
                    let c0 = t0[ti as int].chunks();
                    if let Some(p) = cand {
                        assert(!before.contains(p));
                        assert(t1[ti as int].chunks().contains(p) == c0.contains(p));
                    }
                    let now = self.territories@[ti as int].chunks();
                    assert(now =~= c0.difference(after));
                    if removed || hit {
                        if removed {
                            let w = c0.intersect(before).choose();
                            assert(c0.intersect(after).contains(w));
                        } else {
                            assert(c0.intersect(after).contains(cand.unwrap()));
                        }
                    } else {
                        assert(c0.intersect(after) =~= Set::empty()) by {
                            assert(c0.intersect(before) =~= Set::empty());
                        }
                    }
                }
                removed = removed || hit;
                dy = dy + 1;
            }
            proof {
                assert(disc_before(gcx, gcy, gr, dx as int, gr + 1) =~= disc_before(gcx, gcy, gr, dx + 1, -gr)) by {
                    assert forall|q: Point<i32>| in_disc(q, gcx, gcy, gr) implies -gr < q.x - gcx < gr && -gr < q.y - gcy < gr by {
                        lemma_disc_bounds(q, gcx, gcy, gr);
                    }
                }
            }
            dx = dx + 1;
        }
        proof {
            assert(disc_before(gcx, gcy, gr, gr + 1, -gr) =~= disc(gcx, gcy, gr)) by {
                assert forall|q: Point<i32>| in_disc(q, gcx, gcy, gr) implies -gr < q.x - gcx < gr && -gr < q.y - gcy < gr by {
                    lemma_disc_bounds(q, gcx, gcy, gr);
                }
            }
            if removed {
                assert(!t0[ti as int].chunks().intersect(disc(gcx, gcy, gr)).is_empty());
            } else {
                assert forall|i: int| 0 <= i < t0.len() && t0[i].id == id implies (#[trigger] t0[i].chunks()).intersect(disc(gcx, gcy, gr)).is_empty() by {
                    assert(i == ti);
                }
            }
        }
        removed
    }

    /// The number of chunks of territory `id`.
    pub fn get_territory_size(&self, id: u32) -> (r: Option<u32>)
        requires
            self.wf(),
        ensures
            r.is_some() == self.has_id(id),
            forall|i: int| 0 <= i < self.territories@.len() && #[trigger] self.territories@[i].id == id ==> r == Some(self.territories@[i].coords@.len() as u32),
    {
        match self.find_index(id) {
            Some(i) => Some(self.territories[i].coords.len() as u32),
            None => None,
        }
    }

    /// The chunks of territory `id` as a flat buffer; empty for an unknown id.
    pub fn get_territory_chunks_buffer(&self, id: u32) -> (r: Vec<i32>)
        requires
            self.wf(),
        ensures
            !self.has_id(id) ==> r@.len() == 0,
            forall|i: int| 0 <= i < self.territories@.len() && #[trigger] self.territories@[i].id == id ==> flat_chunks(r@, self.territories@[i].coords@),
    {
        match self.find_index(id) {
            Some(fi) => {
                let r = self.territories[fi].to_buffer();
                proof {
                    assert forall|i: int| 0 <= i < self.territories@.len() && #[trigger] self.territories@[i].id == id implies i == fi by {
                        if i != fi {
                            assert(self.territories@[i].id != self.territories@[fi as int].id);
                        }
                    }
                }
                r
            },
            None => Vec::new(),
        }
    }

    /// The neighbor ids of territory `id`; empty for an unknown id.
    pub fn get_territory_neighbors(&self, id: u32) -> (r: Vec<i32>)
        requires
            self.wf(),
        ensures
            !self.has_id(id) ==> r@.len() == 0,
            forall|i: int| 0 <= i < self.territories@.len() && #[trigger] self.territories@[i].id == id ==> {
                &&& r@.len() == self.territories@[i].neighbors@.len()
                &&& forall|k: int| 0 <= k < r@.len() ==> r@[k] == #[trigger] self.territories@[i].neighbors@[k] as i32
            },
    {
        match self.find_index(id) {
            Some(i) => {
                let t = &self.territories[i];
                let mut r: Vec<i32> = Vec::new();
                let mut k: usize = 0;
                while k < t.neighbors.len()
                    invariant
                        k <= t.neighbors@.len(),
                        r@.len() == k,
                        forall|m: int| 0 <= m < k ==> r@[m] == #[trigger] t.neighbors@[m] as i32,
                    decreases t.neighbors.len() - k,
                {
                    r.push(t.neighbors[k] as i32);
                    k = k + 1;
                }
                r
            },
            None => Vec::new(),
        }
    }

    /// The color of territory `id`, if assigned.
    pub fn get_territory_color(&self, id: u32) -> (r: Option<u8>)
        requires
            self.wf(),
        ensures
            !self.has_id(id) ==> r.is_none(),
            forall|i: int| 0 <= i < self.territories@.len() && #[trigger] self.territories@[i].id == id ==> r == self.territories@[i].color,
    {
        match self.find_index(id) {
            Some(i) => self.territories[i].color,
            None => None,
        }
    }

    /// Whether territory `id` touches unowned chunks.
    pub fn get_territory_is_edge(&self, id: u32) -> (r: Option<bool>)
        requires
            self.wf(),
        ensures
            r.is_some() == self.has_id(id),
            forall|i: int| 0 <= i < self.territories@.len() && #[trigger] self.territories@[i].id == id ==> r == Some(self.territories@[i].is_at_edge),
    {
        match self.find_index(id) {
            Some(i) => Some(self.territories[i].is_at_edge),
            None => None,
        }
    }

    /// The ids of the territories with a chunk inside the box
    /// `[xmin, xmax] x [ymin, ymax]`, in territory order.
    pub fn get_territories_in_aabb(&self, xmin: i32, ymin: i32, xmax: i32, ymax: i32) -> (r: Vec<u32>)
        ensures
            forall|id: u32| #[trigger] r@.contains(id) <==> exists|i: int| 0 <= i < self.territories@.len() && self.territories@[i].id == id
                && exists|k: int| 0 <= k < self.territories@[i].coords@.len() && in_box(#[trigger] self.territories@[i].coords@[k], xmin, ymin, xmax, ymax),
    {
        let mut r: Vec<u32> = Vec::new();
        let mut i: usize = 0;
        while i < self.territories.len()
            invariant
                i <= self.territories@.len(),
                forall|id: u32| #[trigger] r@.contains(id) <==> exists|j: int| 0 <= j < i && self.territories@[j].id == id
                    && exists|k: int| 0 <= k < self.territories@[j].coords@.len() && in_box(#[trigger] self.territories@[j].coords@[k], xmin, ymin, xmax, ymax),
            decreases self.territories.len() - i,
        {
            let t = &self.territories[i];
            let mut found = false;
            let mut k: usize = 0;
            while k < t.coords.len()
                invariant
                    k <= t.coords@.len(),
                    found == exists|m: int| 0 <= m < k && in_box(#[trigger] t.coords@[m], xmin, ymin, xmax, ymax),
                decreases t.coords.len() - k,
            {
                let p = t.coords[k];
                if !found && p.x >= xmin && p.x <= xmax && p.y >= ymin && p.y <= ymax {
                    found = true;
                }
                k = k + 1;
            }
            let ghost r0 = r@;
            if found {
                r.push(t.id);
            }
            proof {
                lemma_push_contains(r0, t.id);
                assert forall|id: u32| #[trigger] r@.contains(id) <==> exists|j: int| 0 <= j < i + 1 && self.territories@[j].id == id
                    && exists|k: int| 0 <= k < self.territories@[j].coords@.len() && in_box(#[trigger] self.territories@[j].coords@[k], xmin, ymin, xmax, ymax) by {
                    if exists|j: int| 0 <= j < i + 1 && self.territories@[j].id == id
                        && exists|k: int| 0 <= k < self.territories@[j].coords@.len() && in_box(#[trigger] self.territories@[j].coords@[k], xmin, ymin, xmax, ymax) {
                        let j = choose|j: int| 0 <= j < i + 1 && self.territories@[j].id == id
                            && exists|k: int| 0 <= k < self.territories@[j].coords@.len() && in_box(#[trigger] self.territories@[j].coords@[k], xmin, ymin, xmax, ymax);
                        if j == i {
                            let k = choose|k: int| 0 <= k < self.territories@[j].coords@.len() && in_box(#[trigger] self.territories@[j].coords@[k], xmin, ymin, xmax, ymax);
                            assert(found);
                        }
                    }
                }
            }
            i = i + 1;
        }
        r
    }
}

/// Chunk `p` lies in the box `[xmin, xmax] x [ymin, ymax]`.
pub open spec fn in_box(p: Point<i32>, xmin: i32, ymin: i32, xmax: i32, ymax: i32) -> bool {
    xmin <= p.x <= xmax && ymin <= p.y <= ymax
}

/// Chunk `i` of territory `k`, moved one step in direction `d`, is a chunk of territory `j`.
pub open spec fn touches_at(ts: Seq<Territory>, k: int, j: int, i: int, d: int) -> bool {
    holds(ts[j].coords@, ts[k].coords@[i].x + dir_dx(d), ts[k].coords@[i].y + dir_dy(d))
}

/// Whether the pair (chunk `i`, direction `d`) comes before `(n, e)` in a scan.
pub open spec fn scanned(i: int, d: int, n: int, e: int) -> bool {
    i < n || (i == n && d < e)
}

/// The ids of the other territories that touch territory `k` through the
/// scanned chunk sides.
pub open spec fn neighbor_ids_upto(ts: Seq<Territory>, k: int, n: int, e: int) -> Set<u32> {
    Set::new(
        |id: u32|
            exists|j: int, i: int, d: int|
                0 <= j < ts.len() && j != k && ts[j].id == id && 0 <= i < ts[k].coords@.len() && 0 <= d < 4
                    && scanned(i, d, n, e) && #[trigger] touches_at(ts, k, j, i, d),
    )
}

/// The ids of the other territories that hold a 4-neighbor of a chunk of territory `k`.
pub open spec fn neighbor_ids(ts: Seq<Territory>, k: int) -> Set<u32> {
    Set::new(
        |id: u32|
            exists|j: int, i: int, d: int|
                0 <= j < ts.len() && j != k && ts[j].id == id && 0 <= i < ts[k].coords@.len() && 0 <= d < 4
                    && #[trigger] touches_at(ts, k, j, i, d),
    )
}

/// No territory holds the chunk position `(x, y)`.
pub open spec fn free_at(ts: Seq<Territory>, x: int, y: int) -> bool {
    forall|j: int| 0 <= j < ts.len() ==> !holds(#[trigger] ts[j].coords@, x, y)
}

/// Some scanned chunk side of territory `k` faces a position no territory holds.
pub open spec fn at_edge_upto(ts: Seq<Territory>, k: int, n: int, e: int) -> bool {
    exists|i: int, d: int|
        0 <= i < ts[k].coords@.len() && 0 <= d < 4 && scanned(i, d, n, e) && #[trigger] free_at(
            ts,
            ts[k].coords@[i].x + dir_dx(d),
            ts[k].coords@[i].y + dir_dy(d),
        )
}

/// Some chunk of territory `k` has a 4-neighbor that no territory owns.
pub open spec fn at_edge(ts: Seq<Territory>, k: int) -> bool {
    exists|i: int, d: int|
        0 <= i < ts[k].coords@.len() && 0 <= d < 4 && #[trigger] free_at(
            ts,
            ts[k].coords@[i].x + dir_dx(d),
            ts[k].coords@[i].y + dir_dy(d),
        )
}

/// `after` is `before` with the neighbor data of every territory recomputed.
pub open spec fn neighbors_recomputed(before: Seq<Territory>, after: Seq<Territory>) -> bool {
    &&& after.len() == before.len()
    &&& forall|k: int| 0 <= k < before.len() ==> {
        &&& #[trigger] after[k].id == before[k].id
        &&& after[k].coords == before[k].coords
        &&& after[k].color == before[k].color
        &&& after[k].neighbors@.to_set() == neighbor_ids(before, k)
        &&& after[k].is_at_edge == at_edge(before, k)
    }
}

/// Territory `t` holds the neighbor data of territory `k` of `ts`.
pub open spec fn neighbor_data_of(t: Territory, ts: Seq<Territory>, k: int) -> bool {
    t.neighbors@.to_set() == neighbor_ids(ts, k) && t.is_at_edge == at_edge(ts, k)
}

/// The neighbor data of every territory is current.
pub open spec fn neighbors_current(ts: Seq<Territory>) -> bool {
    forall|k: int| 0 <= k < ts.len() ==> (#[trigger] ts[k].neighbors@.to_set() == neighbor_ids(ts, k) && ts[k].is_at_edge == at_edge(ts, k))
}

impl World {
    /// The neighbor ids and the edge flag of the territory at index `k`.
    fn neighbors_of(&self, k: usize) -> (r: (Vec<u32>, bool))
        requires
            self.wf(),
            k < self.territories@.len(),
        ensures
            r.0@.no_duplicates(),
            r.0@.to_set() == neighbor_ids(self.territories@, k as int),
            r.1 == at_edge(self.territories@, k as int),
    {
        let ghost ts = self.territories@;
        let t = &self.territories[k];
        let mut ids: Vec<u32> = Vec::new();
        let mut edge = false;
        let mut i: usize = 0;
        proof {
            assert(ids@.to_set() =~= neighbor_ids_upto(ts, k as int, 0, 0));
        }
        while i < t.coords.len()
            invariant
                ts == self.territories@,
                self.wf(),
                k < ts.len(),
                *t == ts[k as int],
                i <= t.coords@.len(),
                ids@.no_duplicates(),
                ids@.to_set() == neighbor_ids_upto(ts, k as int, i as int, 0),
                edge == at_edge_upto(ts, k as int, i as int, 0),
            decreases t.coords.len() - i,
        {
            let p = t.coords[i];
            let mut d: u8 = 0;
            while d < 4
                invariant
                    ts == self.territories@,
                    self.wf(),
                    k < ts.len(),
                    *t == ts[k as int],
                    i < t.coords@.len(),
                    p == t.coords@[i as int],
                    d <= 4,
                    ids@.no_duplicates(),
                    ids@.to_set() == neighbor_ids_upto(ts, k as int, i as int, d as int),
                    edge == at_edge_upto(ts, k as int, i as int, d as int),
                decreases 4 - d,
            {
                let ghost ids0 = ids@;
                let ghost edge0 = edge;
                let q = step(p, d);
                let mut owner_j: Option<usize> = None;
                match q {
                    None => {
                        edge = true;
                    },
                    Some(q) => {
                        match self.owner_index(q) {
                            None => {
                                edge = true;
                            },
                            Some(j) => {
                                owner_j = Some(j);
                                if j != k && !has_id_in(&ids, self.territories[j].id) {
                                    ids.push(self.territories[j].id);
                                }
                            },
                        }
                    },
                }
                proof {
                    let gi = i as int;
                    let gd = d as int;
                    let x = p.x + dir_dx(gd);
                    let y = p.y + dir_dy(gd);
                    let lo = neighbor_ids_upto(ts, k as int, gi, gd);
                    let hi = neighbor_ids_upto(ts, k as int, gi, gd + 1);
                    // what the new side adds
                    assert forall|id: u32| #[trigger] hi.contains(id) <==> (lo.contains(id) || (owner_j.is_some() && owner_j.unwrap() != k && ts[owner_j.unwrap() as int].id == id)) by {
                        if hi.contains(id) && !lo.contains(id) {
                            let (j, i2, d2) = choose|j: int, i2: int, d2: int|
                                0 <= j < ts.len() && j != k && ts[j].id == id && 0 <= i2 < ts[k as int].coords@.len() && 0 <= d2 < 4
                                    && scanned(i2, d2, gi, gd + 1) && #[trigger] touches_at(ts, k as int, j, i2, d2);
                            assert(i2 == gi && d2 == gd);
                            assert(q.is_some());
                            let qq = q.unwrap();
                            assert(ts[j].coords@.contains(qq));
                            let oj = owner_j.unwrap() as int;
                            assert(ts[oj].coords@.contains(qq));
                            assert(j == oj);
                        }
                        if owner_j.is_some() && owner_j.unwrap() != k && ts[owner_j.unwrap() as int].id == id {
                            let oj = owner_j.unwrap() as int;
                            assert(touches_at(ts, k as int, oj, gi, gd));
                        }
                        if lo.contains(id) {
                            let (j, i2, d2) = choose|j: int, i2: int, d2: int|
                                0 <= j < ts.len() && j != k && ts[j].id == id && 0 <= i2 < ts[k as int].coords@.len() && 0 <= d2 < 4
                                    && scanned(i2, d2, gi, gd) && #[trigger] touches_at(ts, k as int, j, i2, d2);
                            assert(scanned(i2, d2, gi, gd + 1));
                        }
                    }
                    lemma_push_contains(ids0, if owner_j.is_some() { ts[owner_j.unwrap() as int].id } else { 0 });
                    assert(ids@.to_set() =~= hi);
                    let free = free_at(ts, x, y);
                    assert(free == (q.is_none() || owner_j.is_none() && q.is_some())) by {
                        if q.is_some() {
                            let qq = q.unwrap();
                            if owner_j.is_some() {
                                let oj = owner_j.unwrap() as int;
                                assert(holds(ts[oj].coords@, x, y));
                            } else if q.is_some() && owner_j.is_none() {
                                assert forall|j: int| 0 <= j < ts.len() implies !holds(#[trigger] ts[j].coords@, x, y) by {
                                    assert(Point { x: x as i32, y: y as i32 } == qq);
                                }
                            }
                        }
                    }
                    assert(edge == at_edge_upto(ts, k as int, gi, gd + 1)) by {
                        if edge0 {
                            let (i2, d2) = choose|i2: int, d2: int|
                                0 <= i2 < ts[k as int].coords@.len() && 0 <= d2 < 4 && scanned(i2, d2, gi, gd) && #[trigger] free_at(
                                    ts, ts[k as int].coords@[i2].x + dir_dx(d2), ts[k as int].coords@[i2].y + dir_dy(d2));
                            assert(scanned(i2, d2, gi, gd + 1));
                        }
                        if at_edge_upto(ts, k as int, gi, gd + 1) && !edge0 {
                            let (i2, d2) = choose|i2: int, d2: int|
                                0 <= i2 < ts[k as int].coords@.len() && 0 <= d2 < 4 && scanned(i2, d2, gi, gd + 1) && #[trigger] free_at(
                                    ts, ts[k as int].coords@[i2].x + dir_dx(d2), ts[k as int].coords@[i2].y + dir_dy(d2));
                            assert(i2 == gi && d2 == gd);
                        }
                        if edge && !edge0 {
                            assert(free_at(ts, ts[k as int].coords@[gi].x + dir_dx(gd), ts[k as int].coords@[gi].y + dir_dy(gd)));
                        }
                    }
                }
                d = d + 1;
            }
            proof {
                let gi = i as int;
                assert(neighbor_ids_upto(ts, k as int, gi, 4) =~= neighbor_ids_upto(ts, k as int, gi + 1, 0));
                assert(at_edge_upto(ts, k as int, gi, 4) == at_edge_upto(ts, k as int, gi + 1, 0)) by {
                    if at_edge_upto(ts, k as int, gi + 1, 0) {
                        let (i2, d2) = choose|i2: int, d2: int|
                            0 <= i2 < ts[k as int].coords@.len() && 0 <= d2 < 4 && scanned(i2, d2, gi + 1, 0) && #[trigger] free_at(
                                ts, ts[k as int].coords@[i2].x + dir_dx(d2), ts[k as int].coords@[i2].y + dir_dy(d2));
                        assert(scanned(i2, d2, gi, 4));
                    }
                    if at_edge_upto(ts, k as int, gi, 4) {
                        let (i2, d2) = choose|i2: int, d2: int|
                            0 <= i2 < ts[k as int].coords@.len() && 0 <= d2 < 4 && scanned(i2, d2, gi, 4) && #[trigger] free_at(
                                ts, ts[k as int].coords@[i2].x + dir_dx(d2), ts[k as int].coords@[i2].y + dir_dy(d2));
                        assert(scanned(i2, d2, gi + 1, 0));
                    }
                }
            }
            i = i + 1;
        }
        proof {
            let n = t.coords@.len() as int;
            assert(neighbor_ids_upto(ts, k as int, n, 0) =~= neighbor_ids(ts, k as int)) by {
                assert forall|id: u32| neighbor_ids(ts, k as int).contains(id) implies #[trigger] neighbor_ids_upto(ts, k as int, n, 0).contains(id) by {
                    let (j, i2, d2) = choose|j: int, i2: int, d2: int|
                        0 <= j < ts.len() && j != k && ts[j].id == id && 0 <= i2 < ts[k as int].coords@.len() && 0 <= d2 < 4
                            && #[trigger] touches_at(ts, k as int, j, i2, d2);
                    assert(scanned(i2, d2, n, 0));
                }
            }
            if at_edge(ts, k as int) {
                let (i2, d2) = choose|i2: int, d2: int|
                    0 <= i2 < ts[k as int].coords@.len() && 0 <= d2 < 4 && #[trigger] free_at(
                        ts, ts[k as int].coords@[i2].x + dir_dx(d2), ts[k as int].coords@[i2].y + dir_dy(d2));
                assert(scanned(i2, d2, n, 0));
            }
        }
        (ids, edge)
    }

    /// Recomputes, for every territory, the ids of the territories that share
    /// a chunk edge with it and whether it touches an unowned chunk.
    pub fn calculate_neighbors(&mut self)
        requires
            old(self).wf(),
        ensures
            final(self).wf(),
            final(self).territories@.len() == old(self).territories@.len(),
            final(self).grid_scale == old(self).grid_scale,
            final(self).territory_id_counter == old(self).territory_id_counter,
            neighbors_recomputed(old(self).territories@, final(self).territories@),
            neighbors_current(final(self).territories@),
    {
        let ghost t0 = self.territories@;
        let n = self.territories.len();
        let mut k: usize = 0;
        while k < n
            invariant
                n == t0.len(),
                k <= n,
                self.wf(),
                self.territories@.len() == n,
                self.grid_scale == old(self).grid_scale,
                self.territory_id_counter == old(self).territory_id_counter,
                forall|m: int| 0 <= m < n ==> {
                    &&& #[trigger] self.territories@[m].id == t0[m].id
                    &&& self.territories@[m].coords == t0[m].coords
                    &&& self.territories@[m].color == t0[m].color
                },
                forall|m: int| 0 <= m < k ==> neighbor_data_of(#[trigger] self.territories@[m], t0, m),
            decreases n - k,
        {
            proof {
                assert forall|m: int| 0 <= m < n implies (#[trigger] self.territories@[m]).coords == t0[m].coords && self.territories@[m].id == t0[m].id by {
                    assert(self.territories@[m].id == t0[m].id);
                }
                lemma_same_coords(self.territories@, t0);
            }
            let (ids, edge) = self.neighbors_of(k);
            let ghost t1 = self.territories@;
            assert(neighbor_ids(t1, k as int) == neighbor_ids(t0, k as int));
            assert(at_edge(t1, k as int) == at_edge(t0, k as int));
            let mut t = Territory::new(0);
            std::mem::swap(&mut t, &mut self.territories[k]);
            t.neighbors = ids;
            t.is_at_edge = edge;
            self.territories.set(k, t);
            proof {
                let t2 = self.territories@;
                assert forall|a: int| 0 <= a < n implies (#[trigger] t2[a]).wf() by {
                    assert(t1[a].wf());
                    if a != k {
                        assert(t2[a] == t1[a]);
                    }
                }
                assert forall|a: int, b: int| 0 <= a < n && 0 <= b < n && a != b implies #[trigger] t2[a].id != #[trigger] t2[b].id by {
                    assert(t1[a].id != t1[b].id);
                }
                assert forall|a: int, b: int, q: Point<i32>| 0 <= a < n && 0 <= b < n && a != b && #[trigger] t2[a].coords@.contains(q) implies !#[trigger] t2[b].coords@.contains(q) by {
                    assert(t2[a].coords == t1[a].coords && t2[b].coords == t1[b].coords);
                }
                assert forall|m: int| 0 <= m < k + 1 implies neighbor_data_of(#[trigger] t2[m], t0, m) by {
                    if m != k {
                        assert(t2[m] == t1[m]);
                    } else {
                        assert(t2[m].neighbors@ == ids@);
                        assert(t2[m].is_at_edge == edge);
                    }
                }
            }
            k = k + 1;
        }
        proof {
            assert forall|m: int| 0 <= m < n implies (#[trigger] self.territories@[m]).coords == t0[m].coords && self.territories@[m].id == t0[m].id by {
                assert(self.territories@[m].id == t0[m].id);
            }
            lemma_same_coords(self.territories@, t0);
        }
    }
}

/// Territory lists with the same chunks give the same neighbor data.
proof fn lemma_same_coords(a: Seq<Territory>, b: Seq<Territory>)
    requires
        a.len() == b.len(),
        forall|m: int| 0 <= m < a.len() ==> (#[trigger] a[m]).coords == b[m].coords && a[m].id == b[m].id,
    ensures
        forall|m: int|
            #![trigger neighbor_ids(a, m)]
            #![trigger at_edge(a, m)]
            0 <= m < a.len() ==> neighbor_ids(a, m) == neighbor_ids(b, m) && at_edge(a, m) == at_edge(b, m),
{
    assert forall|m: int|
        #![trigger neighbor_ids(a, m)]
        #![trigger at_edge(a, m)]
        0 <= m < a.len() implies neighbor_ids(a, m) == neighbor_ids(b, m) && at_edge(a, m) == at_edge(b, m) by {
        assert(a[m].coords == b[m].coords);
        let la = a[m].coords@.len() as int;
        assert forall|id: u32| neighbor_ids(a, m).contains(id) == #[trigger] neighbor_ids(b, m).contains(id) by {
            if neighbor_ids(a, m).contains(id) {
                let (j, i, d) = choose|j: int, i: int, d: int|
                    0 <= j < a.len() && j != m && a[j].id == id && 0 <= i < a[m].coords@.len() && 0 <= d < 4
                        && #[trigger] touches_at(a, m, j, i, d);
                assert(a[j].coords == b[j].coords);
                assert(touches_at(b, m, j, i, d));
            }
            if neighbor_ids(b, m).contains(id) {
                let (j, i, d) = choose|j: int, i: int, d: int|
                    0 <= j < b.len() && j != m && b[j].id == id && 0 <= i < b[m].coords@.len() && 0 <= d < 4
                        && #[trigger] touches_at(b, m, j, i, d);
                assert(a[j].coords == b[j].coords);
                assert(touches_at(a, m, j, i, d));
            }
        }
        assert forall|x: int, y: int| free_at(a, x, y) == #[trigger] free_at(b, x, y) by {
            if !free_at(a, x, y) {
                let j = choose|j: int| 0 <= j < a.len() && holds(#[trigger] a[j].coords@, x, y);
                assert(a[j].coords == b[j].coords);
            }
            if !free_at(b, x, y) {
                let j = choose|j: int| 0 <= j < b.len() && holds(#[trigger] b[j].coords@, x, y);
                assert(a[j].coords == b[j].coords);
            }
        }
        assert(neighbor_ids(a, m) =~= neighbor_ids(b, m));
        if at_edge(a, m) {
            let (i, d) = choose|i: int, d: int|
                0 <= i < a[m].coords@.len() && 0 <= d < 4 && #[trigger] free_at(
                    a, a[m].coords@[i].x + dir_dx(d), a[m].coords@[i].y + dir_dy(d));
            assert(free_at(b, b[m].coords@[i].x + dir_dx(d), b[m].coords@[i].y + dir_dy(d)));
        }
        if at_edge(b, m) {
            let (i, d) = choose|i: int, d: int|
                0 <= i < b[m].coords@.len() && 0 <= d < 4 && #[trigger] free_at(
                    b, b[m].coords@[i].x + dir_dx(d), b[m].coords@[i].y + dir_dy(d));
            assert(free_at(a, a[m].coords@[i].x + dir_dx(d), a[m].coords@[i].y + dir_dy(d)));
        }
    }
}

/// Whether `v` holds `id`.
fn has_id_in(v: &Vec<u32>, id: u32) -> (r: bool)
    ensures
        r == v@.contains(id),
{
    let mut k: usize = 0;
    while k < v.len()
        invariant
            k <= v@.len(),
            forall|j: int| 0 <= j < k ==> v@[j] != id,
        decreases v.len() - k,
    {
        if v[k] == id {
            return true;
        }
        k = k + 1;
    }
    false
}

/// In a well-formed world no chunk has two owners, and the occupied set is
/// exactly the union of the territories' chunks.
pub proof fn lemma_chunks_disjoint(w: World)
    requires
        w.wf(),
    ensures
        forall|i: int, j: int, p: Point<i32>|
            0 <= i < w.territories@.len() && 0 <= j < w.territories@.len() && i != j
                && #[trigger] w.territories@[i].chunks().contains(p) ==> !#[trigger] w.territories@[j].chunks().contains(p),
        forall|p: Point<i32>| #[trigger] w.occupied().contains(p) <==> exists|i: int| 0 <= i < w.territories@.len() && #[trigger] w.territories@[i].chunks().contains(p),
{
    let ts = w.territories@;
    assert forall|i: int, j: int, p: Point<i32>|
        0 <= i < ts.len() && 0 <= j < ts.len() && i != j && #[trigger] ts[i].chunks().contains(p) implies !#[trigger] ts[j].chunks().contains(p) by {
        assert(ts[i].coords@.contains(p));
    }
    assert forall|p: Point<i32>| #[trigger] w.occupied().contains(p) <==> exists|i: int| 0 <= i < ts.len() && #[trigger] ts[i].chunks().contains(p) by {
        if w.occupied().contains(p) {
            let i = choose|i: int| 0 <= i < ts.len() && #[trigger] ts[i].coords@.contains(p);
            assert(ts[i].chunks().contains(p));
        }
        if exists|i: int| 0 <= i < ts.len() && #[trigger] ts[i].chunks().contains(p) {
            let i = choose|i: int| 0 <= i < ts.len() && #[trigger] ts[i].chunks().contains(p);
            assert(ts[i].coords@.contains(p));
        }
    }
}

/// The opposite of direction `d`.
pub open spec fn opposite(d: int) -> int {
    if d == 0 {
        1
    } else if d == 1 {
        0
    } else if d == 2 {
        3
    } else {
        2
    }
}

/// Adjacency is symmetric: after neighbors are computed, `b` is a neighbor
/// of `a` exactly when `a` is a neighbor of `b`.
pub proof fn lemma_neighbors_symmetric(w: World)
    requires
        w.wf(),
        neighbors_current(w.territories@),
    ensures
        forall|a: int, b: int|
            0 <= a < w.territories@.len() && 0 <= b < w.territories@.len() ==> (#[trigger] w.territories@[a].neighbors@.contains(
                #[trigger] w.territories@[b].id,
            ) <==> w.territories@[b].neighbors@.contains(w.territories@[a].id)),
{
    let ts = w.territories@;
    assert forall|a: int, b: int| 0 <= a < ts.len() && 0 <= b < ts.len() && #[trigger] ts[a].neighbors@.contains(#[trigger] ts[b].id)
        implies ts[b].neighbors@.contains(ts[a].id) by {
        lemma_touch_flip(w, a, b);
    }
}

/// One direction of the symmetry of adjacency.
proof fn lemma_touch_flip(w: World, a: int, b: int)
    requires
        w.wf(),
        neighbors_current(w.territories@),
        0 <= a < w.territories@.len(),
        0 <= b < w.territories@.len(),
        w.territories@[a].neighbors@.contains(w.territories@[b].id),
    ensures
        w.territories@[b].neighbors@.contains(w.territories@[a].id),
{
    let ts = w.territories@;
    assert(ts[a].neighbors@.to_set() == neighbor_ids(ts, a));
    assert(ts[b].neighbors@.to_set() == neighbor_ids(ts, b));
    assert(ts[a].neighbors@.to_set().contains(ts[b].id));
    let la = ts[a].coords@.len() as int;
    let (j, i, d) = choose|j: int, i: int, d: int|
        0 <= j < ts.len() && j != a && ts[j].id == ts[b].id && 0 <= i < ts[a].coords@.len() && 0 <= d < 4
            && #[trigger] touches_at(ts, a, j, i, d);
    assert(j == b) by {
        if j != b {
            assert(ts[j].id != ts[b].id);
        }
    }
    let p = ts[a].coords@[i];
    let q = Point { x: (p.x + dir_dx(d)) as i32, y: (p.y + dir_dy(d)) as i32 };
    assert(ts[b].coords@.contains(q));
    let i2 = choose|i2: int| 0 <= i2 < ts[b].coords@.len() && ts[b].coords@[i2] == q;
    let d2 = opposite(d);
    assert(ts[a].coords@.contains(p));
    assert(touches_at(ts, b, a, i2, d2));
    assert(neighbor_ids(ts, b).contains(ts[a].id));
}

/// Recomputing neighbors a second time changes nothing: the chunks stay and
/// the neighbor sets and edge flags come out the same.
pub proof fn lemma_neighbors_idempotent(t0: Seq<Territory>, t1: Seq<Territory>, t2: Seq<Territory>)
    requires
        neighbors_recomputed(t0, t1),
        neighbors_recomputed(t1, t2),
    ensures
        t2.len() == t1.len(),
        forall|k: int| 0 <= k < t1.len() ==> {
            &&& #[trigger] t2[k].id == t1[k].id
            &&& t2[k].coords == t1[k].coords
            &&& t2[k].color == t1[k].color
            &&& t2[k].neighbors@.to_set() == t1[k].neighbors@.to_set()
            &&& t2[k].is_at_edge == t1[k].is_at_edge
        },
{
    assert forall|m: int| 0 <= m < t1.len() implies (#[trigger] t1[m]).coords == t0[m].coords && t1[m].id == t0[m].id by {
        assert(t1[m].id == t0[m].id);
    }
    lemma_same_coords(t1, t0);
    assert forall|k: int| 0 <= k < t1.len() implies {
        &&& #[trigger] t2[k].id == t1[k].id
        &&& t2[k].coords == t1[k].coords
        &&& t2[k].color == t1[k].color
        &&& t2[k].neighbors@.to_set() == t1[k].neighbors@.to_set()
        &&& t2[k].is_at_edge == t1[k].is_at_edge
    } by {
        assert(t2[k].id == t1[k].id);
        assert(t1[k].id == t0[k].id);
        assert(neighbor_ids(t1, k) == neighbor_ids(t0, k));
    }
}

/// Adding chunks to a territory and then removing the same chunks gives
/// back every territory's prior chunks, provided no territory owned any of
/// those chunks before.
pub proof fn lemma_add_remove_round_trip(t0: Seq<Territory>, t1: Seq<Territory>, t2: Seq<Territory>, id: u32, buf: Seq<i32>)
    requires
        coords_added(t0, t1, id, buf),
        coords_removed(t1, t2, buf),
        forall|p: Point<i32>| #[trigger] pairs(buf).contains(p) ==> !occupied_in(t0, p),
    ensures
        t2.len() == t0.len(),
        forall|i: int| 0 <= i < t0.len() ==> #[trigger] t2[i].chunks() == t0[i].chunks() && same_but_chunks(t2[i], t0[i]),
        forall|p: Point<i32>| #[trigger] pairs(buf).contains(p) ==> !occupied_in(t2, p),
{
    assert forall|p: Point<i32>| #[trigger] pairs(buf).contains(p) implies !occupied_in(t2, p) by {
        if occupied_in(t2, p) {
            let i = choose|i: int| 0 <= i < t2.len() && #[trigger] t2[i].coords@.contains(p);
            assert(t2[i].chunks().contains(p));
        }
    }
    assert forall|i: int| 0 <= i < t0.len() implies #[trigger] t2[i].chunks() == t0[i].chunks() && same_but_chunks(t2[i], t0[i]) by {
        assert(same_but_chunks(t1[i], t0[i]));
        assert(same_but_chunks(t2[i], t1[i]));
        assert forall|p: Point<i32>| t0[i].chunks().contains(p) implies !pairs(buf).contains(p) by {
            assert(t0[i].coords@.contains(p));
        }
        assert(t2[i].chunks() =~= t0[i].chunks());
    }
}

/// The same territory record but for its color.
pub open spec fn same_but_color(a: Territory, b: Territory) -> bool {
    a.id == b.id && a.coords == b.coords && a.neighbors == b.neighbors && a.is_at_edge == b.is_at_edge
}

/// Territories `i` and `j` are joined in the neighbor graph: either lists the other.
pub open spec fn linked(ts: Seq<Territory>, i: int, j: int) -> bool {
    i != j && (ts[i].neighbors@.contains(ts[j].id) || ts[j].neighbors@.contains(ts[i].id))
}

/// The colors form a valid coloring of the neighbor graph: slots in `0..6`,
/// no linked pair shares a color, and a territory is left without color only
/// when its linked territories hold all six slots.
pub open spec fn colors_valid(ts: Seq<Territory>) -> bool {
    &&& forall|i: int| 0 <= i < ts.len() && #[trigger] ts[i].color.is_some() ==> ts[i].color.unwrap() < NUM_COLORS
    &&& forall|i: int, j: int|
        0 <= i < ts.len() && 0 <= j < ts.len() && #[trigger] linked(ts, i, j) && ts[i].color.is_some() ==> ts[i].color != ts[j].color
    &&& forall|i: int| 0 <= i < ts.len() && #[trigger] ts[i].color.is_none() ==> forall|c: u8| c < NUM_COLORS ==> #[trigger] color_linked(ts, i, c)
}

/// The indices below `m` linked to territory `i`, in increasing order.
pub open spec fn linked_upto(ts: Seq<Territory>, i: int, m: int) -> Seq<usize>
    decreases m,
{
    if m <= 0 {
        Seq::empty()
    } else if linked(ts, i, m - 1) {
        linked_upto(ts, i, m - 1).push((m - 1) as usize)
    } else {
        linked_upto(ts, i, m - 1)
    }
}

/// The neighbor graph of the territories as adjacency rows over indices.
pub open spec fn link_rows(ts: Seq<Territory>) -> Seq<Seq<usize>> {
    Seq::new(ts.len(), |i: int| linked_upto(ts, i, ts.len() as int))
}

/// Territory lists that link the same pairs give the same rows.
proof fn lemma_linked_upto_same(a: Seq<Territory>, b: Seq<Territory>, i: int, m: int)
    requires
        a.len() == b.len(),
        0 <= i < a.len(),
        m <= a.len(),
        forall|x: int, y: int| 0 <= x < a.len() && 0 <= y < a.len() ==> #[trigger] linked(a, x, y) == linked(b, x, y),
    ensures
        linked_upto(a, i, m) == linked_upto(b, i, m),
    decreases m,
{
    if m > 0 {
        lemma_linked_upto_same(a, b, i, m - 1);
        assert(linked(a, i, m - 1) == linked(b, i, m - 1));
    }
}

/// Territory `i` holds the least color that no linked territory holds below it.
pub open spec fn least_linked_color(ts: Seq<Territory>, i: int) -> bool {
    forall|d: u8| d < ts[i].color.unwrap() ==> #[trigger] color_linked(ts, i, d)
}

/// Some territory linked to territory `i` has color `c`.
pub open spec fn color_linked(ts: Seq<Territory>, i: int, c: u8) -> bool {
    exists|j: int| 0 <= j < ts.len() && #[trigger] linked(ts, i, j) && ts[j].color == Some(c)
}

impl World {
    /// The neighbor graph over territory indices.
    fn neighbor_graph(&self) -> (adj: Vec<Vec<usize>>)
        ensures
            adj@.len() == self.territories@.len(),
            is_graph(adj@),
            forall|i: int, k: int| 0 <= i < adj@.len() && 0 <= k < adj@[i]@.len() ==> linked(self.territories@, i, #[trigger] adj@[i]@[k] as int),
            forall|i: int, j: int| 0 <= i < adj@.len() && 0 <= j < adj@.len() && #[trigger] linked(self.territories@, i, j) ==> adj@[i]@.contains(j as usize),
            rows_of(adj@) == link_rows(self.territories@),
    {
        let ghost ts = self.territories@;
        let n = self.territories.len();
        let mut adj: Vec<Vec<usize>> = Vec::new();
        let mut i: usize = 0;
        while i < n
            invariant
                n == ts.len(),
                ts == self.territories@,
                i <= n,
                adj@.len() == i,
                forall|a: int, k: int| 0 <= a < i && 0 <= k < adj@[a]@.len() ==> #[trigger] adj@[a]@[k] < n && linked(ts, a, adj@[a]@[k] as int),
                forall|a: int, j: int| 0 <= a < i && 0 <= j < n && #[trigger] linked(ts, a, j) ==> adj@[a]@.contains(j as usize),
                forall|a: int| 0 <= a < i ==> #[trigger] adj@[a]@ == linked_upto(ts, a, n as int),
            decreases n - i,
        {
            let mut row: Vec<usize> = Vec::new();
            let mut j: usize = 0;
            while j < n
                invariant
                    n == ts.len(),
                    ts == self.territories@,
                    i < n,
                    j <= n,
                    forall|k: int| 0 <= k < row@.len() ==> #[trigger] row@[k] < n && linked(ts, i as int, row@[k] as int),
                    forall|b: int| 0 <= b < j && #[trigger] linked(ts, i as int, b) ==> row@.contains(b as usize),
                    row@ == linked_upto(ts, i as int, j as int),
                decreases n - j,
            {
                proof {
                    assert(linked(ts, i as int, j as int) == (j != i && (ts[i as int].neighbors@.contains(ts[j as int].id) || ts[j as int].neighbors@.contains(ts[i as int].id))));
                }
                if j != i && (has_id_in(&self.territories[i].neighbors, self.territories[j].id)
                    || has_id_in(&self.territories[j].neighbors, self.territories[i].id)) {
                    let ghost r0 = row@;
                    row.push(j);
                    proof {
                        lemma_push_contains(r0, j);
                    }
                }
                j = j + 1;
            }
            let ghost a0 = adj@;
            adj.push(row);
            proof {
                assert forall|a: int| 0 <= a < i + 1 implies #[trigger] adj@[a]@ == linked_upto(ts, a, n as int) by {
                    if a < i {
                        assert(adj@[a] == a0[a]);
                    }
                }
            }
            i = i + 1;
        }
        proof {
            assert(rows_of(adj@) =~= link_rows(ts));
            assert forall|v: int, k: int| 0 <= v < adj@.len() && 0 <= k < adj@[v]@.len() implies adj@[#[trigger] adj@[v]@[k] as int]@.contains(v as usize) by {
                let u = adj@[v]@[k] as int;
                assert(linked(ts, v, u));
                assert(linked(ts, u, v));
            }
        }
        adj
    }

    /// Colors the territories so that no two linked in the neighbor graph
    /// share a color, by six-coloring in smallest-last order.
    pub fn generate_colors(&mut self)
        requires
            old(self).wf(),
        ensures
            final(self).wf(),
            final(self).territories@.len() == old(self).territories@.len(),
            final(self).grid_scale == old(self).grid_scale,
            final(self).territory_id_counter == old(self).territory_id_counter,
            forall|i: int| 0 <= i < old(self).territories@.len() ==> same_but_color(#[trigger] final(self).territories@[i], old(self).territories@[i]),
            colors_valid(final(self).territories@),
            forall|i: int|
                0 <= i < final(self).territories@.len() && #[trigger] final(self).territories@[i].color.is_some() ==> least_linked_color(final(self).territories@, i),
            forall|k: nat|
                k <= 5 && #[trigger] degenerate(link_rows(final(self).territories@), k) ==> forall|i: int|
                    0 <= i < final(self).territories@.len() ==> (#[trigger] final(self).territories@[i].color).is_some()
                        && final(self).territories@[i].color.unwrap() <= k,
    {
        let ghost t0 = self.territories@;
        let adj = self.neighbor_graph();
        let colors = graph_6_coloring(&adj);
        let n = self.territories.len();
        let mut i: usize = 0;
        while i < n
            invariant
                n == t0.len(),
                i <= n,
                colors@.len() == n,
                self.wf(),
                self.territories@.len() == n,
                self.grid_scale == old(self).grid_scale,
                self.territory_id_counter == old(self).territory_id_counter,
                forall|m: int| 0 <= m < n ==> same_but_color(#[trigger] self.territories@[m], t0[m]),
                forall|m: int| 0 <= m < i ==> #[trigger] self.territories@[m].color == colors@[m],
            decreases n - i,
        {
            let ghost t1 = self.territories@;
            let mut t = Territory::new(0);
            std::mem::swap(&mut t, &mut self.territories[i]);
            t.color = colors[i];
            self.territories.set(i, t);
            proof {
                let t2 = self.territories@;
                assert forall|a: int| 0 <= a < n implies (#[trigger] t2[a]).wf() by {
                    assert(t1[a].wf());
                    if a != i {
                        assert(t2[a] == t1[a]);
                    }
                }
                assert forall|a: int, b: int| 0 <= a < n && 0 <= b < n && a != b implies #[trigger] t2[a].id != #[trigger] t2[b].id by {
                    assert(t1[a].id != t1[b].id);
                }
                assert forall|a: int, b: int, q: Point<i32>| 0 <= a < n && 0 <= b < n && a != b && #[trigger] t2[a].coords@.contains(q) implies !#[trigger] t2[b].coords@.contains(q) by {
                    assert(t2[a].coords == t1[a].coords && t2[b].coords == t1[b].coords);
                }
                assert forall|m: int| 0 <= m < i + 1 implies #[trigger] t2[m].color == colors@[m] by {
                    if m != i {
                        assert(t2[m] == t1[m]);
                    }
                }
                assert forall|m: int| 0 <= m < n implies same_but_color(#[trigger] t2[m], t0[m]) by {
                    assert(same_but_color(t1[m], t0[m]));
                    if m != i {
                        assert(t2[m] == t1[m]);
                    }
                }
            }
            i = i + 1;
        }
        proof {
            let ts = self.territories@;
            assert forall|a: int, b: int| 0 <= a < n && 0 <= b < n implies #[trigger] linked(ts, a, b) == linked(t0, a, b) by {
                assert(same_but_color(ts[a], t0[a]) && same_but_color(ts[b], t0[b]));
            }
            assert forall|a: int| 0 <= a < n && #[trigger] ts[a].color.is_some() implies ts[a].color.unwrap() < NUM_COLORS by {
                assert(ts[a].color == colors@[a]);
            }
            assert forall|a: int, b: int| 0 <= a < n && 0 <= b < n && #[trigger] linked(ts, a, b) && ts[a].color.is_some() implies ts[a].color != ts[b].color by {
                assert(same_but_color(ts[a], t0[a]) && same_but_color(ts[b], t0[b]));
                assert(linked(t0, a, b));
                assert(adj@[a]@.contains(b as usize));
                let k = choose|k: int| 0 <= k < adj@[a]@.len() && adj@[a]@[k] == b as usize;
                assert(colors@[adj@[a]@[k] as int] != colors@[a]);
                assert(ts[a].color == colors@[a] && ts[b].color == colors@[b]);
            }
            assert forall|a: int| 0 <= a < n && #[trigger] ts[a].color.is_none() implies forall|c: u8| c < NUM_COLORS ==> #[trigger] color_linked(ts, a, c) by {
                assert(ts[a].color == colors@[a]);
                assert forall|c: u8| c < NUM_COLORS implies #[trigger] color_linked(ts, a, c) by {
                    assert(crate::coloring::color_around(adj@, colors@, a, c));
                    let k = choose|k: int| 0 <= k < adj@[a]@.len() && colors@[#[trigger] adj@[a]@[k] as int] == Some(c);
                    let j = adj@[a]@[k] as int;
                    assert(linked(t0, a, j));
                    assert(same_but_color(ts[a], t0[a]) && same_but_color(ts[j], t0[j]));
                    assert(linked(ts, a, j));
                    assert(ts[j].color == colors@[j]);
                }
            }
            assert forall|a: int, b: int| 0 <= a < n && 0 <= b < n implies #[trigger] linked(ts, a, b) == linked(t0, a, b) by {
                assert(same_but_color(ts[a], t0[a]) && same_but_color(ts[b], t0[b]));
            }
            assert forall|a: int| 0 <= a < n implies #[trigger] linked_upto(ts, a, n as int) == linked_upto(t0, a, n as int) by {
                lemma_linked_upto_same(ts, t0, a, n as int);
            }
            assert(link_rows(ts) =~= link_rows(t0));
            assert forall|a: int| 0 <= a < n && #[trigger] ts[a].color.is_some() implies least_linked_color(ts, a) by {
                assert(ts[a].color == colors@[a]);
                assert(least_color(adj@, colors@, a));
                assert forall|d: u8| d < ts[a].color.unwrap() implies #[trigger] color_linked(ts, a, d) by {
                    assert(color_around(adj@, colors@, a, d));
                    let k = choose|k: int| 0 <= k < adj@[a]@.len() && colors@[#[trigger] adj@[a]@[k] as int] == Some(d);
                    let j = adj@[a]@[k] as int;
                    assert(linked(t0, a, j));
                    assert(linked(ts, a, j));
                    assert(ts[j].color == colors@[j]);
                }
            }
            assert forall|k: nat| k <= 5 && #[trigger] degenerate(link_rows(ts), k) implies forall|a: int|
                0 <= a < n ==> (#[trigger] ts[a].color).is_some() && ts[a].color.unwrap() <= k by {
                assert(degenerate(rows_of(adj@), k));
                assert forall|a: int| 0 <= a < n implies (#[trigger] ts[a].color).is_some() && ts[a].color.unwrap() <= k by {
                    assert(ts[a].color == colors@[a]);
                    assert(colors@[a].is_some());
                }
            }
        }
    }
}

/// The chunks of the territory with id `id`; empty when there is none.
pub open spec fn chunks_of(ts: Seq<Territory>, id: u32) -> Set<Point<i32>> {
    Set::new(|p: Point<i32>| exists|i: int| 0 <= i < ts.len() && #[trigger] ts[i].id == id && ts[i].coords@.contains(p))
}

/// Some territory has id `id`.
pub open spec fn has_id_in_seq(ts: Seq<Territory>, id: u32) -> bool {
    exists|i: int| 0 <= i < ts.len() && #[trigger] ts[i].id == id
}

/// With unique ids, the chunks of an id are those of the territory that has it.
proof fn lemma_chunks_of_index(ts: Seq<Territory>, i: int)
    requires
        unique_ids(ts),
        0 <= i < ts.len(),
    ensures
        chunks_of(ts, ts[i].id) == ts[i].chunks(),
{
    assert forall|p: Point<i32>| #[trigger] chunks_of(ts, ts[i].id).contains(p) <==> ts[i].chunks().contains(p) by {
        if chunks_of(ts, ts[i].id).contains(p) {
            let j = choose|j: int| 0 <= j < ts.len() && #[trigger] ts[j].id == ts[i].id && ts[j].coords@.contains(p);
            assert(j == i);
        }
    }
    assert(chunks_of(ts, ts[i].id) =~= ts[i].chunks());
}

/// Removing the territory at `j` drops its id and keeps every other id's chunks.
proof fn lemma_remove_at_ids(ts: Seq<Territory>, j: int)
    requires
        unique_ids(ts),
        0 <= j < ts.len(),
    ensures
        forall|x: u32| #[trigger] has_id_in_seq(ts.remove(j), x) <==> (has_id_in_seq(ts, x) && x != ts[j].id),
        forall|x: u32| x != ts[j].id ==> #[trigger] chunks_of(ts.remove(j), x) == chunks_of(ts, x),
{
    let r = ts.remove(j);
    assert forall|a: int| 0 <= a < r.len() implies #[trigger] r[a] == ts[if a < j { a } else { a + 1 }] by {}
    assert forall|x: u32| #[trigger] has_id_in_seq(r, x) <==> (has_id_in_seq(ts, x) && x != ts[j].id) by {
        if has_id_in_seq(r, x) {
            let a = choose|a: int| 0 <= a < r.len() && #[trigger] r[a].id == x;
            let b = if a < j { a } else { a + 1 };
            assert(ts[b].id == x);
            assert(b != j);
        }
        if has_id_in_seq(ts, x) && x != ts[j].id {
            let b = choose|b: int| 0 <= b < ts.len() && #[trigger] ts[b].id == x;
            let a = if b < j { b } else { b - 1 };
            assert(r[a].id == x);
        }
    }
    assert forall|x: u32| x != ts[j].id implies #[trigger] chunks_of(r, x) == chunks_of(ts, x) by {
        assert forall|p: Point<i32>| chunks_of(r, x).contains(p) <==> #[trigger] chunks_of(ts, x).contains(p) by {
            if chunks_of(r, x).contains(p) {
                let a = choose|a: int| 0 <= a < r.len() && #[trigger] r[a].id == x && r[a].coords@.contains(p);
                let b = if a < j { a } else { a + 1 };
                assert(ts[b].id == x && ts[b].coords@.contains(p));
            }
            if chunks_of(ts, x).contains(p) {
                let b = choose|b: int| 0 <= b < ts.len() && #[trigger] ts[b].id == x && ts[b].coords@.contains(p);
                let a = if b < j { b } else { b - 1 };
                assert(r[a].id == x && r[a].coords@.contains(p));
            }
        }
        assert(chunks_of(r, x) =~= chunks_of(ts, x));
    }
}

impl World {
    /// Gives the territory at index `mi` all chunks of `t`, none of which
    /// any territory of the world owns.
    fn absorb(&mut self, mi: usize, t: &Territory)
        requires
            old(self).wf(),
            mi < old(self).territories@.len(),
            t.wf(),
            forall|p: Point<i32>| #[trigger] t.coords@.contains(p) ==> !occupied_in(old(self).territories@, p),
        ensures
            final(self).wf(),
            final(self).territories@.len() == old(self).territories@.len(),
            final(self).territories@[mi as int].chunks() == old(self).territories@[mi as int].chunks().union(t.chunks()),
            same_but_chunks(final(self).territories@[mi as int], old(self).territories@[mi as int]),
            forall|j: int| 0 <= j < final(self).territories@.len() && j != mi ==> #[trigger] final(self).territories@[j] == old(self).territories@[j],
            final(self).grid_scale == old(self).grid_scale,
            final(self).territory_id_counter == old(self).territory_id_counter,
    {
        let ghost t0 = self.territories@;
        let mut m: usize = 0;
        proof {
            assert forall|k: int| 0 <= k < t.coords@.len() implies !occupied_in(self.territories@, #[trigger] t.coords@[k]) by {
                assert(t.coords@.contains(t.coords@[k]));
            }
            assert(t.coords@.subrange(0, 0).to_set() =~= Set::empty());
            assert(t0[mi as int].chunks().union(Set::empty()) =~= t0[mi as int].chunks());
        }
        while m < t.coords.len()
            invariant
                m <= t.coords@.len(),
                t.wf(),
                mi < t0.len(),
                self.wf(),
                self.territories@.len() == t0.len(),
                self.territories@[mi as int].chunks() == t0[mi as int].chunks().union(t.coords@.subrange(0, m as int).to_set()),
                same_but_chunks(self.territories@[mi as int], t0[mi as int]),
                forall|j: int| 0 <= j < t0.len() && j != mi ==> #[trigger] self.territories@[j] == t0[j],
                forall|k: int| m <= k < t.coords@.len() ==> !occupied_in(self.territories@, #[trigger] t.coords@[k]),
                self.grid_scale == old(self).grid_scale,
                self.territory_id_counter == old(self).territory_id_counter,
            decreases t.coords.len() - m,
        {
            let p = t.coords[m];
            let ghost t1 = self.territories@;
            self.add_chunk_at(mi, p);
            proof {
                t1[mi as int].coords@.lemma_push_to_set_commute(p);
                assert(t.coords@.subrange(0, m + 1) =~= t.coords@.subrange(0, m as int).push(p));
                t.coords@.subrange(0, m as int).lemma_push_to_set_commute(p);
                assert(self.territories@[mi as int].chunks() =~= t0[mi as int].chunks().union(t.coords@.subrange(0, m + 1).to_set()));
                assert forall|k: int| m + 1 <= k < t.coords@.len() implies !occupied_in(self.territories@, #[trigger] t.coords@[k]) by {
                    assert(!occupied_in(t1, t.coords@[k]));
                    assert(t.coords@[k] != p);
                    if occupied_in(self.territories@, t.coords@[k]) {
                        let j = choose|j: int| 0 <= j < self.territories@.len() && #[trigger] self.territories@[j].coords@.contains(t.coords@[k]);
                        if j == mi {
                            lemma_push_contains(t1[mi as int].coords@, p);
                        } else {
                            assert(self.territories@[j] == t1[j]);
                        }
                    }
                }
            }
            m = m + 1;
        }
        proof {
            assert(t.coords@.subrange(0, t.coords@.len() as int) =~= t.coords@);
        }
    }

    /// Moves every chunk of the territories `ids[1..]` into territory
    /// `ids[0]` and deletes them; returns `ids[0]`. Nothing changes and
    /// `None` comes back when `ids` is empty or names an unknown id; a single
    /// known id comes back unchanged.
    pub fn merge_territories(&mut self, ids: Vec<u32>) -> (r: Option<u32>)
        requires
            old(self).wf(),
        ensures
            r == if ids@.len() >= 1 && forall|k: int| 0 <= k < ids@.len() ==> old(self).has_id(#[trigger] ids@[k]) {
                Some(ids@[0])
            } else {
                None
            },
            r.is_none() || ids@.len() == 1 ==> *final(self) == *old(self),
            final(self).wf(),
            final(self).grid_scale == old(self).grid_scale,
            final(self).territory_id_counter == old(self).territory_id_counter,
            r.is_some() ==> {
                &&& forall|x: u32| #[trigger] has_id_in_seq(final(self).territories@, x) <==> (old(self).has_id(x) && (x == ids@[0] || !ids@.contains(x)))
                &&& chunks_of(final(self).territories@, ids@[0]) == Set::new(|p: Point<i32>| exists|k: int| 0 <= k < ids@.len() && #[trigger] chunks_of(old(self).territories@, ids@[k]).contains(p))
                &&& forall|x: u32| !ids@.contains(x) ==> #[trigger] chunks_of(final(self).territories@, x) == chunks_of(old(self).territories@, x)
                &&& forall|i: int| 0 <= i < old(self).territories@.len() && !ids@.contains(#[trigger] old(self).territories@[i].id)
                    ==> final(self).territories@.contains(old(self).territories@[i])
            },
    {
        if ids.len() == 0 {
            return None;
        }
        if ids.len() == 1 {
            if self.has_territory(ids[0]) {
                return Some(ids[0]);
            } else {
                return None;
            }
        }
        let mut k: usize = 0;
        while k < ids.len()
            invariant
                k <= ids@.len(),
                self.wf(),
                forall|m: int| 0 <= m < k ==> self.has_id(#[trigger] ids@[m]),
            decreases ids.len() - k,
        {
            if !self.has_territory(ids[k]) {
                return None;
            }
            k = k + 1;
        }
        let ghost t0 = self.territories@;
        let merged = ids[0];
        let ghost merged_set = Set::new(|p: Point<i32>| exists|m: int| 0 <= m < ids@.len() && #[trigger] chunks_of(t0, ids@[m]).contains(p));
        proof {
            assert forall|x: u32| #[trigger] has_id_in_seq(t0, x) == old(self).has_id(x) by {}
            assert(chunks_of(t0, merged) =~= Set::new(|p: Point<i32>| exists|m: int| 0 <= m < 1 && #[trigger] chunks_of(t0, ids@[m]).contains(p)));
        }
        proof {
            assert forall|i: int| 0 <= i < t0.len() && !ids@.contains(#[trigger] t0[i].id) implies self.territories@.contains(t0[i]) by {
                assert(self.territories@[i] == t0[i]);
            }
        }
        let mut k: usize = 1;
        while k < ids.len()
            invariant
                1 <= k <= ids@.len(),
                merged == ids@[0],
                self.wf(),
                self.grid_scale == old(self).grid_scale,
                self.territory_id_counter == old(self).territory_id_counter,
                t0 == old(self).territories@,
                forall|m: int| 0 <= m < ids@.len() ==> has_id_in_seq(t0, #[trigger] ids@[m]),
                forall|x: u32| #[trigger] has_id_in_seq(self.territories@, x) <==> (has_id_in_seq(t0, x) && (x == merged || !ids@.subrange(1, k as int).contains(x))),
                chunks_of(self.territories@, merged) == Set::new(|p: Point<i32>| exists|m: int| 0 <= m < k && #[trigger] chunks_of(t0, ids@[m]).contains(p)),
                forall|x: u32| x != merged && has_id_in_seq(self.territories@, x) ==> #[trigger] chunks_of(self.territories@, x) == chunks_of(t0, x),
                forall|x: u32| !ids@.contains(x) ==> #[trigger] chunks_of(self.territories@, x) == chunks_of(t0, x),
                forall|i: int| 0 <= i < t0.len() && !ids@.contains(#[trigger] t0[i].id) ==> self.territories@.contains(t0[i]),
            decreases ids.len() - k,
        {
            let id = ids[k];
            let ghost t1 = self.territories@;
            let ghost before = Set::new(|p: Point<i32>| exists|m: int| 0 <= m < k && #[trigger] chunks_of(t0, ids@[m]).contains(p));
            let ghost after = Set::new(|p: Point<i32>| exists|m: int| 0 <= m < k + 1 && #[trigger] chunks_of(t0, ids@[m]).contains(p));
            proof {
                assert(ids@.subrange(1, k + 1) =~= ids@.subrange(1, k as int).push(id));
                lemma_push_contains(ids@.subrange(1, k as int), id);
            }
            if id != merged {
                if let Some(j) = self.find_index(id) {
                    let t = self.remove_at(j);
                    proof {
                        lemma_remove_at_ids(t1, j as int);
                        lemma_chunks_of_index(t1, j as int);
                        assert forall|p: Point<i32>| #[trigger] t.coords@.contains(p) implies !occupied_in(self.territories@, p) by {
                            if occupied_in(self.territories@, p) {
                                let a = choose|a: int| 0 <= a < self.territories@.len() && #[trigger] self.territories@[a].coords@.contains(p);
                                let b = if a < j { a } else { a + 1 };
                                assert(self.territories@[a] == t1[b]);
                                assert(t1[j as int].coords@.contains(p));
                            }
                        }
                        assert(has_id_in_seq(self.territories@, merged));
                    }
                    let mi = self.find_index(merged).unwrap();
                    let ghost t2 = self.territories@;
                    self.absorb(mi, &t);
                    proof {
                        let t3 = self.territories@;
                        assert forall|i: int| 0 <= i < t0.len() && !ids@.contains(#[trigger] t0[i].id) implies t3.contains(t0[i]) by {
                            assert(t1.contains(t0[i]));
                            let a = choose|a: int| 0 <= a < t1.len() && t1[a] == t0[i];
                            assert(ids@[k as int] == id);
                            assert(a != j);
                            let b = if a < j { a } else { a - 1 };
                            assert(t2[b] == t1[a]);
                            assert(ids@[0] == merged);
                            assert(b != mi);
                            assert(t3[b] == t2[b]);
                        }
                        lemma_chunks_of_index(t2, mi as int);
                        lemma_chunks_of_index(t3, mi as int);
                        assert forall|x: u32| #[trigger] has_id_in_seq(t3, x) == has_id_in_seq(t2, x) by {
                            if has_id_in_seq(t3, x) {
                                let a = choose|a: int| 0 <= a < t3.len() && #[trigger] t3[a].id == x;
                                assert(t2[a].id == x);
                            }
                            if has_id_in_seq(t2, x) {
                                let a = choose|a: int| 0 <= a < t2.len() && #[trigger] t2[a].id == x;
                                assert(t3[a].id == x);
                            }
                        }
                        assert forall|x: u32| x != merged implies #[trigger] chunks_of(t3, x) == chunks_of(t2, x) by {
                            assert forall|p: Point<i32>| #[trigger] chunks_of(t3, x).contains(p) == chunks_of(t2, x).contains(p) by {
                                if chunks_of(t3, x).contains(p) {
                                    let a = choose|a: int| 0 <= a < t3.len() && #[trigger] t3[a].id == x && t3[a].coords@.contains(p);
                                    assert(a != mi);
                                    assert(t3[a] == t2[a]);
                                }
                                if chunks_of(t2, x).contains(p) {
                                    let a = choose|a: int| 0 <= a < t2.len() && #[trigger] t2[a].id == x && t2[a].coords@.contains(p);
                                    assert(a != mi);
                                    assert(t3[a] == t2[a]);
                                }
                            }
                            assert(chunks_of(t3, x) =~= chunks_of(t2, x));
                        }
                        assert(chunks_of(t1, id) == chunks_of(t0, id));
                        assert forall|p: Point<i32>| #[trigger] after.contains(p) == (before.contains(p) || chunks_of(t0, id).contains(p)) by {
                            if after.contains(p) && !before.contains(p) {
                                let m = choose|m: int| 0 <= m < k + 1 && #[trigger] chunks_of(t0, ids@[m]).contains(p);
                                assert(m == k);
                            }
                            if chunks_of(t0, id).contains(p) {
                                assert(chunks_of(t0, ids@[k as int]).contains(p));
                            }
                            if before.contains(p) {
                                let m = choose|m: int| 0 <= m < k && #[trigger] chunks_of(t0, ids@[m]).contains(p);
                                assert(0 <= m < k + 1);
                            }
                        }
                        assert(chunks_of(t3, merged) =~= after);
                        assert forall|x: u32| !ids@.contains(x) implies #[trigger] chunks_of(t3, x) == chunks_of(t0, x) by {
                            assert(ids@[0] == merged);
                            assert(ids@[k as int] == id);
                        }
                    }
                } else {
                    proof {
                        assert(!has_id_in_seq(t1, id));
                        assert(after =~= before) by {
                            assert forall|p: Point<i32>| #[trigger] after.contains(p) implies before.contains(p) by {
                                let m = choose|m: int| 0 <= m < k + 1 && #[trigger] chunks_of(t0, ids@[m]).contains(p);
                                if m == k {
                                    assert(ids@.subrange(1, k as int).contains(id));
                                    let m2 = choose|m2: int| 0 <= m2 < k - 1 && ids@.subrange(1, k as int)[m2] == id;
                                    assert(ids@[m2 + 1] == id);
                                    assert(0 <= m2 + 1 < k);
                                }
                            }
                        }
                    }
                }
            } else {
                proof {
                    assert(after =~= before) by {
                        assert forall|p: Point<i32>| #[trigger] after.contains(p) implies before.contains(p) by {
                            let m = choose|m: int| 0 <= m < k + 1 && #[trigger] chunks_of(t0, ids@[m]).contains(p);
                            if m == k {
                                assert(ids@[0] == id);
                            }
                        }
                    }
                }
            }
            k = k + 1;
        }
        proof {
            assert(ids@.subrange(1, ids@.len() as int) =~= ids@.drop_first());
            assert forall|x: u32| #[trigger] has_id_in_seq(self.territories@, x) <==> (old(self).has_id(x) && (x == ids@[0] || !ids@.contains(x))) by {
                if ids@.contains(x) && x != ids@[0] {
                    let m = choose|m: int| 0 <= m < ids@.len() && ids@[m] == x;
                    assert(ids@.drop_first()[m - 1] == x);
                }
                if ids@.drop_first().contains(x) {
                    let m = choose|m: int| 0 <= m < ids@.len() - 1 && ids@.drop_first()[m] == x;
                    assert(ids@[m + 1] == x);
                }
            }
        }
        Some(merged)
    }
}

/// No territory id lies in `c .. c + n`.
pub open spec fn ids_free(ts: Seq<Territory>, c: int, n: int) -> bool {
    forall|i: int| 0 <= i < ts.len() ==> !(c <= #[trigger] ts[i].id < c + n)
}

impl World {
    /// Inserts a territory whose id is new and whose chunks no territory owns.
    pub fn add_territory(&mut self, terr: Territory)
        requires
            old(self).wf(),
            terr.wf(),
            !old(self).has_id(terr.id),
            forall|p: Point<i32>| #[trigger] terr.coords@.contains(p) ==> !occupied_in(old(self).territories@, p),
        ensures
            final(self).wf(),
            final(self).territories@ == old(self).territories@.push(terr),
            final(self).grid_scale == old(self).grid_scale,
            final(self).territory_id_counter == old(self).territory_id_counter,
    {
        let ghost t0 = self.territories@;
        let ghost tt = terr;
        self.territories.push(terr);
        proof {
            let t1 = self.territories@;
            assert(t1[t0.len() as int] == tt);
            assert forall|a: int, b: int| 0 <= a < t1.len() && 0 <= b < t1.len() && a != b implies #[trigger] t1[a].id != #[trigger] t1[b].id by {
                if a < t0.len() && b < t0.len() {
                    assert(t0[a].id != t0[b].id);
                } else if a < t0.len() {
                    assert(t1[a] == t0[a]);
                } else {
                    assert(t1[b] == t0[b]);
                }
            }
            assert forall|a: int, b: int, q: Point<i32>| 0 <= a < t1.len() && 0 <= b < t1.len() && a != b && #[trigger] t1[a].coords@.contains(q) implies !#[trigger] t1[b].coords@.contains(q) by {
                if a < t0.len() && b < t0.len() {
                    assert(t1[a] == t0[a] && t1[b] == t0[b]);
                } else if a < t0.len() {
                    assert(t1[a] == t0[a]);
                    assert(occupied_in(t0, q));
                } else {
                    assert(t1[b] == t0[b]);
                }
            }
            assert forall|a: int| 0 <= a < t1.len() implies (#[trigger] t1[a]).wf() by {
                if a < t0.len() {
                    assert(t1[a] == t0[a]);
                }
            }
        }
    }

    /// Removes and returns the territory with id `id`, freeing its chunks.
    pub fn remove_territory(&mut self, id: u32) -> (r: Option<Territory>)
        requires
            old(self).wf(),
        ensures
            final(self).wf(),
            r.is_some() == old(self).has_id(id),
            r.is_some() ==> r.unwrap().id == id && old(self).territories@.contains(r.unwrap()),
            !final(self).has_id(id),
            final(self).territories@ == old(self).territories@.filter(|t: Territory| t.id != id),
            final(self).grid_scale == old(self).grid_scale,
            final(self).territory_id_counter == old(self).territory_id_counter,
    {
        match self.find_index(id) {
            Some(i) => {
                let t = self.remove_at(i);
                proof {
                    assert(old(self).territories@[i as int] == t);
                }
                Some(t)
            },
            None => {
                proof {
                    lemma_filter_keeps_all(self.territories@, id);
                }
                None
            },
        }
    }

    /// Gives territory `id` each of `coords` that no territory owns; returns
    /// whether the territory exists.
    pub fn add_points_to_territory(&mut self, id: u32, coords: Vec<Point<i32>>) -> (r: bool)
        requires
            old(self).wf(),
        ensures
            r == old(self).has_id(id),
            final(self).wf(),
            final(self).territories@.len() == old(self).territories@.len(),
            final(self).grid_scale == old(self).grid_scale,
            final(self).territory_id_counter == old(self).territory_id_counter,
            forall|i: int| 0 <= i < old(self).territories@.len() ==> same_but_chunks(#[trigger] final(self).territories@[i], old(self).territories@[i]),
            forall|i: int| 0 <= i < old(self).territories@.len() ==> #[trigger] final(self).territories@[i].chunks() == if old(self).territories@[i].id == id {
                old(self).territories@[i].chunks().union(coords@.to_set().difference(old(self).occupied()))
            } else {
                old(self).territories@[i].chunks()
            },
    {
        let ti = match self.find_index(id) {
            Some(i) => i,
            None => {
                return false;
            },
        };
        let ghost t0 = self.territories@;
        let ghost occ0 = self.occupied();
        let mut k: usize = 0;
        proof {
            assert(coords@.subrange(0, 0).to_set() =~= Set::empty());
            assert(t0[ti as int].chunks().union(Set::empty().difference(occ0)) =~= t0[ti as int].chunks());
        }
        while k < coords.len()
            invariant
                k <= coords@.len(),
                ti < t0.len(),
                t0[ti as int].id == id,
                occ0 == Set::new(|p: Point<i32>| occupied_in(t0, p)),
                self.wf(),
                self.territories@.len() == t0.len(),
                self.grid_scale == old(self).grid_scale,
                self.territory_id_counter == old(self).territory_id_counter,
                forall|i: int| 0 <= i < t0.len() ==> same_but_chunks(#[trigger] self.territories@[i], t0[i]),
                forall|i: int| 0 <= i < t0.len() && i != ti ==> #[trigger] self.territories@[i] == t0[i],
                self.territories@[ti as int].chunks() == t0[ti as int].chunks().union(coords@.subrange(0, k as int).to_set().difference(occ0)),
            decreases coords.len() - k,
        {
            let p = coords[k];
            let ghost t1 = self.territories@;
            let owner = self.owner_index(p);
            if owner.is_none() {
                self.add_chunk_at(ti, p);
                proof {
                    t1[ti as int].coords@.lemma_push_to_set_commute(p);
                }
            }
            proof {
                assert(coords@.subrange(0, k + 1) =~= coords@.subrange(0, k as int).push(p));
                coords@.subrange(0, k as int).lemma_push_to_set_commute(p);
                let now = self.territories@[ti as int].chunks();
                let want = t0[ti as int].chunks().union(coords@.subrange(0, k + 1).to_set().difference(occ0));
                assert forall|q: Point<i32>| now.contains(q) <==> want.contains(q) by {
                    if q == p && owner.is_some() && !occ0.contains(p) {
                        let oi = owner.unwrap() as int;
                        if oi != ti {
                            assert(t1[oi] == t0[oi]);
                            assert(occupied_in(t0, p));
                        }
                    }
                    if q == p && owner.is_none() {
                        assert(!occupied_in(t0, p)) by {
                            if occupied_in(t0, p) {
                                let j = choose|j: int| 0 <= j < t0.len() && #[trigger] t0[j].coords@.contains(p);
                                if j == ti {
                                    assert(t1[ti as int].chunks().contains(p));
                                } else {
                                    assert(t1[j] == t0[j]);
                                }
                            }
                        }
                    }
                }
                assert(now =~= want);
            }
            k = k + 1;
        }
        proof {
            assert(coords@.subrange(0, coords@.len() as int) =~= coords@);
            assert(occ0 =~= old(self).occupied());
        }
        true
    }

    /// Whether the counter can issue `count` more ids, none of them live.
    pub fn has_room_for(&self, count: usize) -> (r: bool)
        ensures
            r == (self.territory_id_counter + count <= u32::MAX && ids_free(self.territories@, self.territory_id_counter as int, count as int)),
    {
        if count as u64 > u32::MAX as u64 - self.territory_id_counter as u64 {
            return false;
        }
        let lo = self.territory_id_counter as u64;
        let hi = lo + count as u64;
        let mut i: usize = 0;
        while i < self.territories.len()
            invariant
                i <= self.territories@.len(),
                lo == self.territory_id_counter,
                hi == lo + count,
                forall|j: int| 0 <= j < i ==> !(lo <= #[trigger] self.territories@[j].id < hi),
            decreases self.territories.len() - i,
        {
            let x = self.territories[i].id as u64;
            if lo <= x && x < hi {
                return false;
            }
            i = i + 1;
        }
        true
    }
}

/// How a subdivision may change the world: territories other than `id` stay,
/// new ids start at `counter0`, and no chunk appears that was not owned before.
pub open spec fn subdivision_step(before: Seq<Territory>, after: Seq<Territory>, id: u32, counter0: int) -> bool {
    &&& forall|x: u32| has_id_in_seq(before, x) && x != id ==> #[trigger] has_id_in_seq(after, x)
    &&& forall|x: u32| #[trigger] has_id_in_seq(after, x) ==> (has_id_in_seq(before, x) && x != id) || x >= counter0
    &&& forall|p: Point<i32>| #[trigger] occupied_in(after, p) ==> occupied_in(before, p)
}

/// The chunks of `src` that `cell_of` assigns to cell `c`.
pub open spec fn cell_chunks(src: Seq<Point<i32>>, cell_of: Seq<Option<usize>>, c: usize) -> Set<Point<i32>> {
    Set::new(|p: Point<i32>| exists|k: int| 0 <= k < src.len() && src[k] == p && #[trigger] cell_of[k] == Some(c))
}

/// Cell `c` becomes a territory: it has chunks, and not fewer than
/// `delete` when that is positive.
pub open spec fn kept_cell(src: Seq<Point<i32>>, cell_of: Seq<Option<usize>>, c: usize, delete: u32) -> bool {
    let n = cell_chunks(src, cell_of, c).len();
    n > 0 && !(delete > 0 && n < delete)
}

/// `ids` are territories of `ts` made from the kept cells below `num_cells`,
/// one each and in cell order (`cells`), each with exactly its cell's chunks,
/// with the consecutive ids from `first`.
pub open spec fn made_from_cells(
    ts: Seq<Territory>,
    ids: Seq<u32>,
    cells: Seq<usize>,
    src: Seq<Point<i32>>,
    cell_of: Seq<Option<usize>>,
    num_cells: int,
    delete: u32,
    first: int,
) -> bool {
    &&& cells.len() == ids.len()
    &&& forall|q: int| 0 <= q < ids.len() ==> #[trigger] ids[q] == first + q
    &&& forall|q: int|
        0 <= q < cells.len() ==> #[trigger] cells[q] < num_cells && kept_cell(src, cell_of, cells[q], delete)
            && chunks_of(ts, ids[q]) == cell_chunks(src, cell_of, cells[q]) && has_id_in_seq(ts, ids[q])
    &&& forall|q1: int, q2: int| 0 <= q1 < q2 < cells.len() ==> #[trigger] cells[q1] < #[trigger] cells[q2]
    &&& forall|c: usize| c < num_cells && #[trigger] kept_cell(src, cell_of, c, delete) ==> cells.contains(c)
}

/// Chunk `p` lies in a kept cell below `c`.
pub open spec fn in_kept_cell(src: Seq<Point<i32>>, cell_of: Seq<Option<usize>>, c: int, delete: u32, p: Point<i32>) -> bool {
    exists|g: usize| g < c && #[trigger] kept_cell(src, cell_of, g, delete) && cell_chunks(src, cell_of, g).contains(p)
}

/// After a subdivision of the territory with chunks `src`, the owned chunks
/// are the ones owned before outside `src`, and those of the kept cells.
pub open spec fn occupied_after_split(
    before: Seq<Territory>,
    after: Seq<Territory>,
    src: Seq<Point<i32>>,
    cell_of: Seq<Option<usize>>,
    c: int,
    delete: u32,
) -> bool {
    forall|p: Point<i32>| #[trigger] occupied_in(after, p) == ((occupied_in(before, p) && !src.contains(p)) || in_kept_cell(src, cell_of, c, delete, p))
}

/// Every territory of `before` other than `id` keeps at least its chunks in `after`.
pub open spec fn others_keep_chunks(before: Seq<Territory>, after: Seq<Territory>, id: u32) -> bool {
    forall|x: u32| has_id_in_seq(before, x) && x != id ==> chunks_of(before, x).subset_of(#[trigger] chunks_of(after, x))
}

impl World {
    /// Splits territory `id` into new territories, one per cell, given the
    /// cell of each of its chunks (`cell_of[k]` for chunk `k`; `None` or an
    /// index from `num_cells` up leaves the chunk out). Cells with fewer than
    /// `delete_smaller_than` chunks (when that is positive) are dropped. When
    /// `merge_smaller_than` is positive, neighbors are recomputed and each new
    /// territory of at most that many chunks joins its smallest neighbor of
    /// more than that many, if any. Returns the ids of the new territories
    /// that remain. A territory without chunks gives an empty list and
    /// nothing changes; an unknown id, an assignment of the wrong length, or a
    /// counter without room for `num_cells` fresh ids gives `None` and
    /// nothing changes.
    pub fn subdivide_by_cells(
        &mut self,
        id: u32,
        cell_of: &Vec<Option<usize>>,
        num_cells: usize,
        delete_smaller_than: u32,
        merge_smaller_than: u32,
    ) -> (r: Option<Vec<u32>>)
        requires
            old(self).wf(),
        ensures
            final(self).wf(),
            final(self).grid_scale == old(self).grid_scale,
            r.is_none() <==> (!old(self).has_id(id)
                || (exists|i: int| 0 <= i < old(self).territories@.len() && #[trigger] old(self).territories@[i].id == id
                    && cell_of@.len() != old(self).territories@[i].coords@.len())
                || (!(old(self).territory_id_counter + num_cells <= u32::MAX && ids_free(old(self).territories@, old(self).territory_id_counter as int, num_cells as int))
                    && !(exists|i: int| 0 <= i < old(self).territories@.len() && #[trigger] old(self).territories@[i].id == id
                        && old(self).territories@[i].coords@.len() == 0))),
            r.is_none() ==> *final(self) == *old(self),
            (exists|i: int| 0 <= i < old(self).territories@.len() && #[trigger] old(self).territories@[i].id == id
                && old(self).territories@[i].coords@.len() == 0 && cell_of@.len() == 0) ==> r.is_some() && r.unwrap()@.len() == 0 && *final(self) == *old(self),
            forall|i: int|
                0 <= i < old(self).territories@.len() && #[trigger] old(self).territories@[i].id == id
                    && old(self).territories@[i].coords@.len() > 0 && r.is_some() ==> {
                    &&& !final(self).has_id(id)
                    &&& subdivision_step(old(self).territories@, final(self).territories@, id, old(self).territory_id_counter as int)
                    &&& forall|x: u32| #[trigger] r.unwrap()@.contains(x) <==> (final(self).has_id(x) && !old(self).has_id(x))
                    &&& occupied_after_split(old(self).territories@, final(self).territories@, old(self).territories@[i].coords@, cell_of@, num_cells as int, delete_smaller_than)
                    &&& others_keep_chunks(old(self).territories@, final(self).territories@, id)
                    &&& merge_smaller_than == 0 ==> final(self).territories@.subrange(0, old(self).territories@.len() - 1) == old(self).territories@.remove(i)
                },
            merge_smaller_than == 0 ==> forall|i: int|
                0 <= i < old(self).territories@.len() && #[trigger] old(self).territories@[i].id == id
                    && old(self).territories@[i].coords@.len() > 0 && r.is_some() ==> exists|cells: Seq<usize>|
                    made_from_cells(final(self).territories@, r.unwrap()@, cells, old(self).territories@[i].coords@, cell_of@, num_cells as int, delete_smaller_than, old(self).territory_id_counter as int),
    {
        let ti = match self.find_index(id) {
            Some(i) => i,
            None => {
                return None;
            },
        };
        proof {
            assert forall|i: int| 0 <= i < self.territories@.len() && #[trigger] self.territories@[i].id == id implies i == ti by {
                if i != ti {
                    assert(self.territories@[i].id != self.territories@[ti as int].id);
                }
            }
        }
        if cell_of.len() != self.territories[ti].coords.len() {
            return None;
        }
        if self.territories[ti].coords.len() == 0 {
            return Some(Vec::new());
        }
        if !self.has_room_for(num_cells) {
            return None;
        }
        let ghost t0 = self.territories@;
        let ghost c0 = self.territory_id_counter as int;
        let ghost hi = c0 + num_cells;
        let src = self.remove_at(ti);
        proof {
            lemma_remove_at_ids(t0, ti as int);
            assert forall|x: u32| #[trigger] has_id_in_seq(t0, x) == old(self).has_id(x) by {}
            assert forall|p: Point<i32>| #[trigger] occupied_in(self.territories@, p) implies occupied_in(t0, p) by {
                let a = choose|a: int| 0 <= a < self.territories@.len() && #[trigger] self.territories@[a].coords@.contains(p);
                let b = if a < ti { a } else { a + 1 };
                assert(self.territories@[a] == t0[b]);
            }
            assert forall|x: u32| #[trigger] has_id_in_seq(self.territories@, x) implies x < c0 || x >= hi by {
                let a = choose|a: int| 0 <= a < self.territories@.len() && #[trigger] self.territories@[a].id == x;
                let b = if a < ti { a } else { a + 1 };
                assert(self.territories@[a] == t0[b]);
            }
            assert(src.id == id);
            assert(id < c0 || id >= hi);
        }
        // chunks of the source, grouped by cell
        let mut groups: Vec<Vec<Point<i32>>> = Vec::new();
        let mut c: usize = 0;
        while c < num_cells
            invariant
                c <= num_cells,
                groups@.len() == c,
                forall|g: int| 0 <= g < c ==> #[trigger] groups@[g]@.len() == 0,
            decreases num_cells - c,
        {
            groups.push(Vec::new());
            c = c + 1;
        }
        let mut k: usize = 0;
        while k < src.coords.len()
            invariant
                k <= src.coords@.len(),
                cell_of@.len() == src.coords@.len(),
                src.wf(),
                groups@.len() == num_cells,
                forall|g: int, m: int| 0 <= g < num_cells && 0 <= m < groups@[g]@.len() ==> exists|j: int| 0 <= j < k && src.coords@[j] == #[trigger] groups@[g]@[m] && cell_of@[j] == Some(g as usize),
                forall|g: int| 0 <= g < num_cells ==> (#[trigger] groups@[g]@).no_duplicates(),
                forall|j: int, g: int|
                    #![trigger cell_of@[j], groups@[g]]
                    0 <= j < k && 0 <= g < num_cells && cell_of@[j] == Some(g as usize) ==> groups@[g]@.contains(src.coords@[j]),
            decreases src.coords.len() - k,
        {
            if let Some(g) = cell_of[k] {
                if g < num_cells {
                    let p = src.coords[k];
                    let ghost gs0 = groups@;
                    proof {
                        assert(!gs0[g as int]@.contains(p)) by {
                            if gs0[g as int]@.contains(p) {
                                let m = choose|m: int| 0 <= m < gs0[g as int]@.len() && gs0[g as int]@[m] == p;
                                let j = choose|j: int| 0 <= j < k && src.coords@[j] == #[trigger] gs0[g as int]@[m] && cell_of@[j] == Some(g);
                                assert(src.coords@[j] == src.coords@[k as int]);
                            }
                        }
                    }
                    let mut row: Vec<Point<i32>> = Vec::new();
                    std::mem::swap(&mut row, &mut groups[g]);
                    row.push(p);
                    groups.set(g, row);
                    proof {
                        assert forall|h: int, m: int| 0 <= h < num_cells && 0 <= m < groups@[h]@.len() implies exists|j: int| 0 <= j < k + 1 && src.coords@[j] == #[trigger] groups@[h]@[m] && cell_of@[j] == Some(h as usize) by {
                            if h == g && m == gs0[g as int]@.len() {
                                assert(src.coords@[k as int] == groups@[h]@[m]);
                            } else {
                                assert(groups@[h]@[m] == gs0[h]@[m]);
                                let j = choose|j: int| 0 <= j < k && src.coords@[j] == #[trigger] gs0[h]@[m] && cell_of@[j] == Some(h as usize);
                            }
                        }
                        assert forall|h: int| 0 <= h < num_cells implies (#[trigger] groups@[h]@).no_duplicates() by {
                            if h != g {
                                assert(groups@[h] == gs0[h]);
                            }
                        }
                        lemma_push_contains(gs0[g as int]@, p);
                        assert forall|j: int, h: int|
                            #![trigger cell_of@[j], groups@[h]]
                            0 <= j < k + 1 && 0 <= h < num_cells && cell_of@[j] == Some(h as usize) implies groups@[h]@.contains(src.coords@[j]) by {
                            if j == k {
                                assert(h == g);
                            } else if h != g {
                                assert(groups@[h] == gs0[h]);
                            }
                        }
                    }
                }
            }
            k = k + 1;
        }
        // create one territory per kept cell
        let mut new_ids: Vec<u32> = Vec::new();
        let mut c: usize = 0;
        let ghost mut made: Seq<usize> = Seq::empty();
        proof {
            assert forall|g: int| 0 <= g < num_cells implies (#[trigger] groups@[g]@).to_set() == cell_chunks(src.coords@, cell_of@, g as usize) by {
                assert forall|p: Point<i32>| groups@[g]@.to_set().contains(p) <==> #[trigger] cell_chunks(src.coords@, cell_of@, g as usize).contains(p) by {
                    if groups@[g]@.contains(p) {
                        let m = choose|m: int| 0 <= m < groups@[g]@.len() && groups@[g]@[m] == p;
                        let j = choose|j: int| 0 <= j < k && src.coords@[j] == #[trigger] groups@[g]@[m] && cell_of@[j] == Some(g as usize);
                    }
                    if cell_chunks(src.coords@, cell_of@, g as usize).contains(p) {
                        let j = choose|j: int| 0 <= j < src.coords@.len() && src.coords@[j] == p && #[trigger] cell_of@[j] == Some(g as usize);
                        assert(groups@[g]@.contains(src.coords@[j]));
                    }
                }
                assert(groups@[g]@.to_set() =~= cell_chunks(src.coords@, cell_of@, g as usize));
            }
            assert(subdivision_step(t0, self.territories@, id, c0)) by {
                assert forall|x: u32| has_id_in_seq(t0, x) && x != id implies #[trigger] has_id_in_seq(self.territories@, x) by {}
            }
            assert forall|g: int, m: int| 0 <= g < num_cells && 0 <= m < groups@[g]@.len() implies occupied_in(t0, #[trigger] groups@[g]@[m]) by {
                let j = choose|j: int| 0 <= j < k && src.coords@[j] == #[trigger] groups@[g]@[m] && cell_of@[j] == Some(g as usize);
                let p = groups@[g]@[m];
                assert(t0[ti as int].coords@.contains(p));
            }
            assert forall|g: int, m: int| 0 <= g < num_cells && 0 <= m < groups@[g]@.len() implies !occupied_in(self.territories@, #[trigger] groups@[g]@[m]) by {
                let j = choose|j: int| 0 <= j < k && src.coords@[j] == #[trigger] groups@[g]@[m] && cell_of@[j] == Some(g as usize);
                let p = groups@[g]@[m];
                assert(t0[ti as int].coords@.contains(p));
                if occupied_in(self.territories@, p) {
                    let a = choose|a: int| 0 <= a < self.territories@.len() && #[trigger] self.territories@[a].coords@.contains(p);
                    let b = if a < ti { a } else { a + 1 };
                    assert(self.territories@[a] == t0[b]);
                }
            }
            let ts = self.territories@;
            assert(ts == t0.remove(ti as int));
            assert(ts.subrange(0, t0.len() - 1) =~= t0.remove(ti as int));
            assert forall|p: Point<i32>| #[trigger] occupied_in(ts, p) == ((occupied_in(t0, p) && !src.coords@.contains(p)) || in_kept_cell(src.coords@, cell_of@, 0, delete_smaller_than, p)) by {
                if occupied_in(ts, p) {
                    let a = choose|a: int| 0 <= a < ts.len() && #[trigger] ts[a].coords@.contains(p);
                    let b = if a < ti { a } else { a + 1 };
                    assert(ts[a] == t0[b]);
                    assert(!t0[ti as int].coords@.contains(p));
                }
                if occupied_in(t0, p) && !src.coords@.contains(p) {
                    let b = choose|b: int| 0 <= b < t0.len() && #[trigger] t0[b].coords@.contains(p);
                    assert(b != ti);
                    let a = if b < ti { b } else { b - 1 };
                    assert(ts[a] == t0[b]);
                }
            }
            assert forall|x: u32| has_id_in_seq(t0, x) && x != id implies chunks_of(t0, x).subset_of(#[trigger] chunks_of(ts, x)) by {
                assert(x != t0[ti as int].id);
            }
            assert forall|x: u32| #[trigger] has_id_in_seq(ts, x) implies has_id_in_seq(t0, x) || (c0 <= x < hi && new_ids@.contains(x)) by {}
        }
        while c < num_cells
            invariant
                c <= num_cells,
                groups@.len() == num_cells,
                self.wf(),
                self.grid_scale == old(self).grid_scale,
                self.territory_id_counter + (num_cells - c) <= u32::MAX,
                self.territory_id_counter >= c0,
                self.territory_id_counter <= c0 + c,
                hi == c0 + num_cells,
                id < c0 || id >= hi,
                forall|x: u32| #[trigger] has_id_in_seq(self.territories@, x) ==> x < self.territory_id_counter || x >= hi,
                subdivision_step(t0, self.territories@, id, c0),
                !has_id_in_seq(self.territories@, id),
                forall|j: int| 0 <= j < new_ids@.len() ==> c0 <= #[trigger] new_ids@[j] < hi,
                forall|g: int| 0 <= g < num_cells ==> (#[trigger] groups@[g]@).no_duplicates(),
                forall|g: int, m: int| c <= g < num_cells && 0 <= m < groups@[g]@.len() ==> !occupied_in(self.territories@, #[trigger] groups@[g]@[m]),
                forall|g: int, m: int| 0 <= g < num_cells && 0 <= m < groups@[g]@.len() ==> occupied_in(t0, #[trigger] groups@[g]@[m]),
                forall|g1: int, g2: int, p: Point<i32>| 0 <= g1 < num_cells && 0 <= g2 < num_cells && g1 != g2 && #[trigger] groups@[g1]@.contains(p) ==> !#[trigger] groups@[g2]@.contains(p),
                forall|g: int| c <= g < num_cells ==> (#[trigger] groups@[g]@).to_set() == cell_chunks(src.coords@, cell_of@, g as usize),
                made_from_cells(self.territories@, new_ids@, made, src.coords@, cell_of@, c as int, delete_smaller_than, c0),
                self.territory_id_counter == c0 + new_ids@.len(),
                occupied_after_split(t0, self.territories@, src.coords@, cell_of@, c as int, delete_smaller_than),
                others_keep_chunks(t0, self.territories@, id),
                forall|x: u32| #[trigger] has_id_in_seq(self.territories@, x) ==> has_id_in_seq(t0, x) || (c0 <= x < hi && new_ids@.contains(x)),
                self.territories@.len() >= t0.len() - 1,
                self.territories@.subrange(0, t0.len() - 1) == t0.remove(ti as int),
                forall|x: u32| has_id_in_seq(t0, x) ==> x < c0 || x >= hi,
                ti < t0.len(),
            decreases num_cells - c,
        {
            let size = groups[c].len();
            proof {
                groups@[c as int]@.unique_seq_to_set();
                assert(cell_chunks(src.coords@, cell_of@, c).len() == size);
            }
            let ghost made0 = made;
            let ghost ids0 = new_ids@;
            let keep = size > 0 && !(delete_smaller_than > 0 && size < delete_smaller_than as usize);
            if keep {
                let ghost ts1 = self.territories@;
                let ghost g_c = groups@[c as int]@;
                proof {
                    assert(!self.has_id(self.territory_id_counter)) by {
                        if self.has_id(self.territory_id_counter) {
                            let a = choose|a: int| 0 <= a < ts1.len() && #[trigger] ts1[a].id == self.territory_id_counter;
                            assert(has_id_in_seq(ts1, self.territory_id_counter));
                        }
                    }
                }
                let nid = self.create_territory(None);
                let ghost ts2 = self.territories@;
                let mut pts: Vec<Point<i32>> = Vec::new();
                std::mem::swap(&mut pts, &mut groups[c]);
                let mut holder = Territory::new(0);
                holder.coords = pts;
                let last = self.territories.len() - 1;
                self.absorb(last, &holder);
                new_ids.push(nid);
                proof {
                    let ts3 = self.territories@;
                    assert forall|x: u32| #[trigger] has_id_in_seq(ts3, x) <==> (has_id_in_seq(ts1, x) || x == nid) by {
                        if has_id_in_seq(ts3, x) {
                            let a = choose|a: int| 0 <= a < ts3.len() && #[trigger] ts3[a].id == x;
                            if a < ts1.len() {
                                assert(ts3[a] == ts2[a] || a == last);
                                assert(ts2[a] == ts1[a]);
                            }
                        }
                        if has_id_in_seq(ts1, x) {
                            let a = choose|a: int| 0 <= a < ts1.len() && #[trigger] ts1[a].id == x;
                            assert(ts2[a] == ts1[a]);
                            assert(ts3[a].id == x);
                        }
                        if x == nid {
                            assert(ts3[last as int].id == nid);
                        }
                    }
                    assert forall|p: Point<i32>| #[trigger] occupied_in(ts3, p) == (occupied_in(ts1, p) || holder.coords@.contains(p)) by {
                        if occupied_in(ts3, p) {
                            let a = choose|a: int| 0 <= a < ts3.len() && #[trigger] ts3[a].coords@.contains(p);
                            if a != last {
                                assert(ts3[a] == ts2[a]);
                                assert(ts2[a] == ts1[a]);
                            } else {
                                assert(ts3[a].chunks().contains(p));
                            }
                        }
                        if occupied_in(ts1, p) {
                            let a = choose|a: int| 0 <= a < ts1.len() && #[trigger] ts1[a].coords@.contains(p);
                            assert(ts2[a] == ts1[a]);
                            assert(ts3[a] == ts2[a]);
                        }
                        if holder.coords@.contains(p) {
                            assert(ts3[last as int].chunks().contains(p));
                        }
                    }
                    assert forall|p: Point<i32>| #[trigger] occupied_in(ts3, p) implies occupied_in(t0, p) by {
                        if holder.coords@.contains(p) {
                            let m = choose|m: int| 0 <= m < holder.coords@.len() && holder.coords@[m] == p;
                        }
                    }
                    assert forall|g: int, m: int| c + 1 <= g < num_cells && 0 <= m < groups@[g]@.len() implies !occupied_in(ts3, #[trigger] groups@[g]@[m]) by {
                        let p = groups@[g]@[m];
                        assert(groups@[g]@.contains(p));
                        assert(!occupied_in(ts1, p));
                    }
                    // the new territory holds its cell, the earlier ones keep theirs
                    assert(holder.coords@ == g_c);
                    lemma_chunks_of_index(ts3, last as int);
                    assert(ts3[last as int].id == nid);
                    assert(ts3[last as int].chunks() =~= g_c.to_set());
                    assert forall|x: u32| x != nid implies #[trigger] chunks_of(ts3, x) == chunks_of(ts1, x) by {
                        assert forall|p: Point<i32>| #[trigger] chunks_of(ts3, x).contains(p) == chunks_of(ts1, x).contains(p) by {
                            if chunks_of(ts3, x).contains(p) {
                                let a = choose|a: int| 0 <= a < ts3.len() && #[trigger] ts3[a].id == x && ts3[a].coords@.contains(p);
                                assert(a != last);
                                assert(ts3[a] == ts2[a]);
                                assert(ts2[a] == ts1[a]);
                            }
                            if chunks_of(ts1, x).contains(p) {
                                let a = choose|a: int| 0 <= a < ts1.len() && #[trigger] ts1[a].id == x && ts1[a].coords@.contains(p);
                                assert(ts2[a] == ts1[a]);
                                assert(ts3[a] == ts2[a]);
                            }
                        }
                        assert(chunks_of(ts3, x) =~= chunks_of(ts1, x));
                    }
                    assert(kept_cell(src.coords@, cell_of@, c, delete_smaller_than));
                    assert forall|p: Point<i32>| #[trigger] in_kept_cell(src.coords@, cell_of@, c + 1, delete_smaller_than, p)
                        == (in_kept_cell(src.coords@, cell_of@, c as int, delete_smaller_than, p) || cell_chunks(src.coords@, cell_of@, c).contains(p)) by {
                        if in_kept_cell(src.coords@, cell_of@, c + 1, delete_smaller_than, p) {
                            let g = choose|g: usize| g < c + 1 && #[trigger] kept_cell(src.coords@, cell_of@, g, delete_smaller_than) && cell_chunks(src.coords@, cell_of@, g).contains(p);
                            if g < c {
                                assert(in_kept_cell(src.coords@, cell_of@, c as int, delete_smaller_than, p));
                            }
                        }
                        if in_kept_cell(src.coords@, cell_of@, c as int, delete_smaller_than, p) {
                            let g = choose|g: usize| g < c && #[trigger] kept_cell(src.coords@, cell_of@, g, delete_smaller_than) && cell_chunks(src.coords@, cell_of@, g).contains(p);
                            assert(g < c + 1);
                        }
                    }
                    assert(g_c.to_set() == cell_chunks(src.coords@, cell_of@, c));
                    assert(occupied_after_split(t0, ts3, src.coords@, cell_of@, c + 1, delete_smaller_than)) by {
                        assert forall|p: Point<i32>| #[trigger] occupied_in(ts3, p) == ((occupied_in(t0, p) && !src.coords@.contains(p)) || in_kept_cell(src.coords@, cell_of@, c + 1, delete_smaller_than, p)) by {
                            assert(occupied_in(ts1, p) == ((occupied_in(t0, p) && !src.coords@.contains(p)) || in_kept_cell(src.coords@, cell_of@, c as int, delete_smaller_than, p)));
                            assert(holder.coords@.contains(p) == g_c.to_set().contains(p));
                        }
                    }
                    assert(others_keep_chunks(t0, ts3, id)) by {
                        assert forall|x: u32| has_id_in_seq(t0, x) && x != id implies chunks_of(t0, x).subset_of(#[trigger] chunks_of(ts3, x)) by {
                            assert(x != nid);
                            assert(chunks_of(t0, x).subset_of(chunks_of(ts1, x)));
                        }
                    }
                    assert forall|a: int| 0 <= a < t0.len() - 1 implies #[trigger] ts3[a] == ts1[a] by {
                        assert(ts1.subrange(0, t0.len() - 1)[a] == t0.remove(ti as int)[a]);
                        assert(ts3[a] == ts2[a]);
                        assert(ts2[a] == ts1[a]);
                    }
                    assert(ts3.subrange(0, t0.len() - 1) =~= ts1.subrange(0, t0.len() - 1));
                    lemma_push_contains(ids0, nid);
                    assert(c0 <= nid < hi);
                    assert forall|x: u32| #[trigger] has_id_in_seq(ts3, x) implies has_id_in_seq(t0, x) || (c0 <= x < hi && new_ids@.contains(x)) by {
                        if x != nid {
                            assert(has_id_in_seq(ts1, x));
                        }
                    }
                    made = made0.push(c);
                    assert forall|q: int| 0 <= q < made.len() implies #[trigger] made[q] < c + 1 && kept_cell(src.coords@, cell_of@, made[q], delete_smaller_than)
                        && chunks_of(ts3, new_ids@[q]) == cell_chunks(src.coords@, cell_of@, made[q]) && has_id_in_seq(ts3, new_ids@[q]) by {
                        if q < made0.len() {
                            assert(made[q] == made0[q]);
                            assert(new_ids@[q] == ids0[q]);
                            assert(has_id_in_seq(ts1, ids0[q]));
                            assert(ids0[q] < nid);
                        } else {
                            assert(new_ids@[q] == nid);
                        }
                    }
                    assert forall|q1: int, q2: int| 0 <= q1 < q2 < made.len() implies #[trigger] made[q1] < #[trigger] made[q2] by {
                        if q2 < made0.len() {
                            assert(made0[q1] < made0[q2]);
                        } else {
                            assert(made0[q1] < c);
                        }
                    }
                    assert forall|cc: usize| cc < c + 1 && #[trigger] kept_cell(src.coords@, cell_of@, cc, delete_smaller_than) implies made.contains(cc) by {
                        if cc < c {
                            let q = choose|q: int| 0 <= q < made0.len() && made0[q] == cc;
                            assert(made[q] == cc);
                        } else {
                            assert(made[made0.len() as int] == cc);
                        }
                    }
                }
            }
            proof {
                if !keep {
                    assert forall|cc: usize| cc < c + 1 && #[trigger] kept_cell(src.coords@, cell_of@, cc, delete_smaller_than) implies made.contains(cc) by {
                        if cc < c {
                            assert(made0.contains(cc));
                        }
                    }
                    assert forall|p: Point<i32>| #[trigger] in_kept_cell(src.coords@, cell_of@, c + 1, delete_smaller_than, p)
                        == in_kept_cell(src.coords@, cell_of@, c as int, delete_smaller_than, p) by {
                        if in_kept_cell(src.coords@, cell_of@, c + 1, delete_smaller_than, p) {
                            let g = choose|g: usize| g < c + 1 && #[trigger] kept_cell(src.coords@, cell_of@, g, delete_smaller_than) && cell_chunks(src.coords@, cell_of@, g).contains(p);
                            assert(g != c);
                        }
                    }
                    assert(occupied_after_split(t0, self.territories@, src.coords@, cell_of@, c + 1, delete_smaller_than));
                }
            }
            c = c + 1;
        }
        proof {
            assert forall|x: u32| #[trigger] has_id_in_seq(t0, x) implies x < c0 || x >= hi by {
                let a = choose|a: int| 0 <= a < t0.len() && #[trigger] t0[a].id == x;
            }
        }
        let ghost ts_made = self.territories@;
        // merge small new territories into their smallest large neighbor
        if merge_smaller_than > 0 {
            let ghost ts1 = self.territories@;
            self.calculate_neighbors();
            proof {
                let ts2 = self.territories@;
                assert forall|x: u32| #[trigger] has_id_in_seq(ts2, x) == has_id_in_seq(ts1, x) by {
                    if has_id_in_seq(ts2, x) {
                        let a = choose|a: int| 0 <= a < ts2.len() && #[trigger] ts2[a].id == x;
                        assert(ts2[a].id == ts1[a].id);
                    }
                    if has_id_in_seq(ts1, x) {
                        let a = choose|a: int| 0 <= a < ts1.len() && #[trigger] ts1[a].id == x;
                        assert(ts2[a].id == ts1[a].id);
                    }
                }
                assert forall|p: Point<i32>| #[trigger] occupied_in(ts2, p) == occupied_in(ts1, p) by {
                    if occupied_in(ts2, p) {
                        let a = choose|a: int| 0 <= a < ts2.len() && #[trigger] ts2[a].coords@.contains(p);
                        assert(ts2[a].id == ts1[a].id);
                        assert(ts2[a].coords == ts1[a].coords);
                    }
                    if occupied_in(ts1, p) {
                        let a = choose|a: int| 0 <= a < ts1.len() && #[trigger] ts1[a].coords@.contains(p);
                        assert(ts2[a].id == ts1[a].id);
                        assert(ts2[a].coords == ts1[a].coords);
                    }
                }
                assert forall|x: u32| has_id_in_seq(t0, x) && x != id implies chunks_of(t0, x).subset_of(#[trigger] chunks_of(ts2, x)) by {
                    assert forall|p: Point<i32>| chunks_of(t0, x).contains(p) implies chunks_of(ts2, x).contains(p) by {
                        assert(chunks_of(ts1, x).contains(p));
                        let a = choose|a: int| 0 <= a < ts1.len() && #[trigger] ts1[a].id == x && ts1[a].coords@.contains(p);
                        assert(ts2[a].id == ts1[a].id);
                        assert(ts2[a].coords == ts1[a].coords);
                    }
                }
            }
            let limit = merge_smaller_than as usize;
            let mut q: usize = 0;
            while q < new_ids.len()
                invariant
                    q <= new_ids@.len(),
                    self.wf(),
                    self.grid_scale == old(self).grid_scale,
                    id < c0 || id >= hi,
                    subdivision_step(t0, self.territories@, id, c0),
                    !has_id_in_seq(self.territories@, id),
                    forall|j: int| 0 <= j < new_ids@.len() ==> c0 <= #[trigger] new_ids@[j] < hi,
                    forall|x: u32| #[trigger] has_id_in_seq(t0, x) ==> x < c0 || x >= hi,
                    occupied_after_split(t0, self.territories@, src.coords@, cell_of@, num_cells as int, delete_smaller_than),
                    others_keep_chunks(t0, self.territories@, id),
                    forall|x: u32| #[trigger] has_id_in_seq(self.territories@, x) ==> has_id_in_seq(t0, x) || (c0 <= x < hi && new_ids@.contains(x)),
                decreases new_ids.len() - q,
            {
                let nid = new_ids[q];
                if let Some(j) = self.find_index(nid) {
                    if self.territories[j].coords.len() <= limit {
                        let mut best: Option<u32> = None;
                        let mut best_size: usize = usize::MAX;
                        let mut m: usize = 0;
                        while m < self.territories[j].neighbors.len()
                            invariant
                                self.wf(),
                                j < self.territories@.len(),
                                self.territories@[j as int].id == nid,
                                m <= self.territories@[j as int].neighbors@.len(),
                                best.is_some() ==> self.has_id(best.unwrap()) && best.unwrap() != self.territories@[j as int].id,
                            decreases self.territories@[j as int].neighbors@.len() - m,
                        {
                            let nb = self.territories[j].neighbors[m];
                            if nb != nid {
                                if let Some(b) = self.find_index(nb) {
                                    let sz = self.territories[b].coords.len();
                                    if sz > limit && sz < best_size {
                                        best = Some(nb);
                                        best_size = sz;
                                        assert(self.territories@[b as int].id == nb);
                                    }
                                }
                            }
                            m = m + 1;
                        }
                        if let Some(bid) = best {
                            let ghost ts1 = self.territories@;
                            let t = self.remove_at(j);
                            proof {
                                lemma_remove_at_ids(ts1, j as int);
                                let a0 = choose|a: int| 0 <= a < ts1.len() && #[trigger] ts1[a].id == bid;
                                assert(has_id_in_seq(ts1, bid));
                                assert forall|p: Point<i32>| #[trigger] t.coords@.contains(p) implies !occupied_in(self.territories@, p) by {
                                    if occupied_in(self.territories@, p) {
                                        let a = choose|a: int| 0 <= a < self.territories@.len() && #[trigger] self.territories@[a].coords@.contains(p);
                                        let b = if a < j { a } else { a + 1 };
                                        assert(self.territories@[a] == ts1[b]);
                                        assert(ts1[j as int].coords@.contains(p));
                                    }
                                }
                            }
                            proof {
                                assert(has_id_in_seq(self.territories@, bid));
                                let a = choose|a: int| 0 <= a < self.territories@.len() && #[trigger] self.territories@[a].id == bid;
                                assert(self.has_id(bid));
                            }
                            let bi = self.find_index(bid).unwrap();
                            let ghost ts2 = self.territories@;
                            self.absorb(bi, &t);
                            proof {
                                let ts3 = self.territories@;
                                assert forall|x: u32| #[trigger] has_id_in_seq(ts3, x) <==> (has_id_in_seq(ts1, x) && x != nid) by {
                                    if has_id_in_seq(ts3, x) {
                                        let a = choose|a: int| 0 <= a < ts3.len() && #[trigger] ts3[a].id == x;
                                        assert(ts2[a].id == x);
                                    }
                                    if has_id_in_seq(ts1, x) && x != nid {
                                        assert(has_id_in_seq(ts2, x));
                                        let a = choose|a: int| 0 <= a < ts2.len() && #[trigger] ts2[a].id == x;
                                        assert(ts3[a].id == x);
                                    }
                                }
                                assert(c0 <= nid < hi);
                                assert forall|x: u32| has_id_in_seq(t0, x) && x != id implies #[trigger] has_id_in_seq(ts3, x) by {
                                    assert(has_id_in_seq(ts1, x));
                                }
                                assert forall|p: Point<i32>| #[trigger] occupied_in(ts3, p) implies occupied_in(ts1, p) by {
                                    let a = choose|a: int| 0 <= a < ts3.len() && #[trigger] ts3[a].coords@.contains(p);
                                    if a == bi {
                                        assert(ts3[a].chunks().contains(p));
                                        if t.coords@.contains(p) {
                                            assert(ts1[j as int].coords@.contains(p));
                                        } else {
                                            assert(ts2[a].coords@.contains(p));
                                            let b = if a < j { a } else { a + 1 };
                                            assert(ts2[a] == ts1[b]);
                                        }
                                    } else {
                                        assert(ts3[a] == ts2[a]);
                                        let b = if a < j { a } else { a + 1 };
                                        assert(ts2[a] == ts1[b]);
                                    }
                                }
                                assert forall|p: Point<i32>| #[trigger] occupied_in(ts1, p) implies occupied_in(ts3, p) by {
                                    let b = choose|b: int| 0 <= b < ts1.len() && #[trigger] ts1[b].coords@.contains(p);
                                    if b == j {
                                        assert(t.coords@.contains(p));
                                        assert(ts3[bi as int].chunks().contains(p));
                                    } else {
                                        let a = if b < j { b } else { b - 1 };
                                        assert(ts2[a] == ts1[b]);
                                        if a == bi {
                                            assert(ts3[a].chunks().contains(p));
                                        } else {
                                            assert(ts3[a] == ts2[a]);
                                        }
                                    }
                                }
                                assert forall|x: u32| has_id_in_seq(t0, x) && x != id implies chunks_of(t0, x).subset_of(#[trigger] chunks_of(ts3, x)) by {
                                    assert(x != nid);
                                    assert(chunks_of(ts2, x) == chunks_of(ts1, x));
                                    assert forall|p: Point<i32>| chunks_of(t0, x).contains(p) implies chunks_of(ts3, x).contains(p) by {
                                        assert(chunks_of(ts2, x).contains(p));
                                        let a = choose|a: int| 0 <= a < ts2.len() && #[trigger] ts2[a].id == x && ts2[a].coords@.contains(p);
                                        if a == bi {
                                            assert(ts3[a].chunks().contains(p));
                                        } else {
                                            assert(ts3[a] == ts2[a]);
                                        }
                                    }
                                }
                                assert forall|x: u32| #[trigger] has_id_in_seq(ts3, x) implies has_id_in_seq(t0, x) || (c0 <= x < hi && new_ids@.contains(x)) by {
                                    assert(has_id_in_seq(ts1, x));
                                }
                                assert(occupied_after_split(t0, ts3, src.coords@, cell_of@, num_cells as int, delete_smaller_than)) by {
                                    assert forall|p: Point<i32>| #[trigger] occupied_in(ts3, p) == ((occupied_in(t0, p) && !src.coords@.contains(p))
                                        || in_kept_cell(src.coords@, cell_of@, num_cells as int, delete_smaller_than, p)) by {
                                        assert(occupied_in(ts1, p) == ((occupied_in(t0, p) && !src.coords@.contains(p))
                                            || in_kept_cell(src.coords@, cell_of@, num_cells as int, delete_smaller_than, p)));
                                        if occupied_in(ts3, p) {
                                            assert(occupied_in(ts1, p));
                                        }
                                        if occupied_in(ts1, p) {
                                            assert(occupied_in(ts3, p));
                                        }
                                    }
                                }
                            }
                        }
                    }
                }
                q = q + 1;
            }
        }
        // keep the new ids that remain
        assert(merge_smaller_than == 0 ==> self.territories@ == ts_made);
        let mut kept: Vec<u32> = Vec::new();
        let mut q: usize = 0;
        while q < new_ids.len()
            invariant
                q <= new_ids@.len(),
                self.wf(),
                forall|j: int| 0 <= j < new_ids@.len() ==> c0 <= #[trigger] new_ids@[j] < hi,
                forall|j: int| 0 <= j < kept@.len() ==> self.has_id(#[trigger] kept@[j]) && c0 <= kept@[j] < hi,
                merge_smaller_than == 0 ==> made_from_cells(self.territories@, new_ids@, made, src.coords@, cell_of@, num_cells as int, delete_smaller_than, c0),
                merge_smaller_than == 0 ==> kept@ == new_ids@.subrange(0, q as int),
                forall|x: u32| #[trigger] kept@.contains(x) <==> (new_ids@.subrange(0, q as int).contains(x) && self.has_id(x)),
            decreases new_ids.len() - q,
        {
            proof {
                if merge_smaller_than == 0 {
                    assert(made[q as int] < num_cells);
                    assert(has_id_in_seq(self.territories@, new_ids@[q as int]));
                    let a = choose|a: int| 0 <= a < self.territories@.len() && #[trigger] self.territories@[a].id == new_ids@[q as int];
                    assert(self.has_id(new_ids@[q as int]));
                }
            }
            let ghost k0 = kept@;
            let ghost x0 = new_ids@[q as int];
            if self.has_territory(new_ids[q]) {
                kept.push(new_ids[q]);
            }
            proof {
                lemma_push_contains(k0, x0);
                lemma_push_contains(new_ids@.subrange(0, q as int), x0);
                assert(new_ids@.subrange(0, q + 1) =~= new_ids@.subrange(0, q as int).push(x0));
            }
            q = q + 1;
            assert(merge_smaller_than == 0 ==> kept@ =~= new_ids@.subrange(0, q as int));
        }
        proof {
            if merge_smaller_than == 0 {
                assert(kept@ =~= new_ids@);
            }
        }
        proof {
            assert forall|x: u32| old(self).has_id(x) implies x < c0 || x >= hi by {
                let a = choose|a: int| 0 <= a < t0.len() && #[trigger] t0[a].id == x;
            }
            assert(!self.has_id(id)) by {
                if self.has_id(id) {
                    let a = choose|a: int| 0 <= a < self.territories@.len() && #[trigger] self.territories@[a].id == id;
                    assert(has_id_in_seq(self.territories@, id));
                }
            }
        }
        proof {
            assert(new_ids@.subrange(0, new_ids@.len() as int) =~= new_ids@);
            assert forall|x: u32| #[trigger] kept@.contains(x) <==> (self.has_id(x) && !old(self).has_id(x)) by {
                if kept@.contains(x) {
                    let j = choose|j: int| 0 <= j < new_ids@.len() && new_ids@[j] == x;
                    assert(c0 <= new_ids@[j] < hi);
                    if old(self).has_id(x) {
                        assert(has_id_in_seq(t0, x));
                    }
                }
                if self.has_id(x) && !old(self).has_id(x) {
                    let a = choose|a: int| 0 <= a < self.territories@.len() && #[trigger] self.territories@[a].id == x;
                    assert(has_id_in_seq(self.territories@, x));
                    assert(!has_id_in_seq(t0, x));
                }
            }
            assert(src.coords@ == old(self).territories@[ti as int].coords@);
            if merge_smaller_than == 0 {
                assert(self.territories@ == ts_made);
            }
            assert forall|x: u32| has_id_in_seq(old(self).territories@, x) && x != id implies #[trigger] has_id_in_seq(self.territories@, x) by {
                assert(has_id_in_seq(t0, x));
            }
        }
        let r = Some(kept);
        assert(merge_smaller_than == 0 ==> made_from_cells(self.territories@, r.unwrap()@, made, src.coords@, cell_of@, num_cells as int, delete_smaller_than, c0));
        assert(src.coords@ == old(self).territories@[ti as int].coords@);
        assert(merge_smaller_than == 0 ==> forall|i: int|
            0 <= i < old(self).territories@.len() && #[trigger] old(self).territories@[i].id == id
                && old(self).territories@[i].coords@.len() > 0 && r.is_some() ==> exists|cells: Seq<usize>|
                made_from_cells(self.territories@, r.unwrap()@, cells, old(self).territories@[i].coords@, cell_of@, num_cells as int, delete_smaller_than, old(self).territory_id_counter as int));
        r
    }
}

/// Whether the points of `v` are distinct.
fn points_distinct(v: &Vec<Point<i32>>) -> (r: bool)
    ensures
        r == v@.no_duplicates(),
{
    let n = v.len();
    let mut i: usize = 0;
    while i < n
        invariant
            n == v@.len(),
            i <= n,
            forall|a: int, b: int| 0 <= a < i && 0 <= b < n && a != b ==> v@[a] != v@[b],
        decreases n - i,
    {
        let mut j: usize = 0;
        while j < n
            invariant
                n == v@.len(),
                i < n,
                j <= n,
                forall|a: int, b: int| 0 <= a < i && 0 <= b < n && a != b ==> v@[a] != v@[b],
                forall|b: int| 0 <= b < j && b != i ==> v@[i as int] != v@[b],
            decreases n - j,
        {
            if j != i && v[i] == v[j] {
                return false;
            }
            j = j + 1;
        }
        i = i + 1;
    }
    true
}

/// Whether the ids of `v` are distinct.
fn ids_distinct(v: &Vec<u32>) -> (r: bool)
    ensures
        r == v@.no_duplicates(),
{
    let n = v.len();
    let mut i: usize = 0;
    while i < n
        invariant
            n == v@.len(),
            i <= n,
            forall|a: int, b: int| 0 <= a < i && 0 <= b < n && a != b ==> v@[a] != v@[b],
        decreases n - i,
    {
        let mut j: usize = 0;
        while j < n
            invariant
                n == v@.len(),
                i < n,
                j <= n,
                forall|a: int, b: int| 0 <= a < i && 0 <= b < n && a != b ==> v@[a] != v@[b],
                forall|b: int| 0 <= b < j && b != i ==> v@[i as int] != v@[b],
            decreases n - j,
        {
            if j != i && v[i] == v[j] {
                return false;
            }
            j = j + 1;
        }
        i = i + 1;
    }
    true
}

impl World {
    /// Whether the world is well formed: chunks and neighbor ids unique per
    /// territory, territory ids unique, and no chunk with two owners.
    pub fn check_wf(&self) -> (r: bool)
        ensures
            r == self.wf(),
    {
        let n = self.territories.len();
        let mut a: usize = 0;
        while a < n
            invariant
                n == self.territories@.len(),
                a <= n,
                forall|i: int| 0 <= i < a ==> (#[trigger] self.territories@[i]).wf(),
            decreases n - a,
        {
            if !points_distinct(&self.territories[a].coords) || !ids_distinct(&self.territories[a].neighbors) {
                assert(!self.territories@[a as int].wf());
                return false;
            }
            a = a + 1;
        }
        let mut a: usize = 0;
        while a < n
            invariant
                n == self.territories@.len(),
                a <= n,
                forall|i: int| 0 <= i < n ==> (#[trigger] self.territories@[i]).wf(),
                forall|i: int, j: int| 0 <= i < a && 0 <= j < n && i != j ==> #[trigger] self.territories@[i].id != #[trigger] self.territories@[j].id,
                forall|i: int, j: int, p: Point<i32>|
                    0 <= i < a && 0 <= j < n && i != j && #[trigger] self.territories@[i].coords@.contains(p) ==> !#[trigger] self.territories@[j].coords@.contains(p),
            decreases n - a,
        {
            let mut b: usize = 0;
            while b < n
                invariant
                    n == self.territories@.len(),
                    a < n,
                    b <= n,
                    forall|i: int| 0 <= i < n ==> (#[trigger] self.territories@[i]).wf(),
                    forall|i: int, j: int| 0 <= i < a && 0 <= j < n && i != j ==> #[trigger] self.territories@[i].id != #[trigger] self.territories@[j].id,
                    forall|i: int, j: int, p: Point<i32>|
                        0 <= i < a && 0 <= j < n && i != j && #[trigger] self.territories@[i].coords@.contains(p) ==> !#[trigger] self.territories@[j].coords@.contains(p),
                    forall|j: int| 0 <= j < b && j != a ==> self.territories@[a as int].id != #[trigger] self.territories@[j].id,
                    forall|j: int, p: Point<i32>| 0 <= j < b && j != a && self.territories@[a as int].coords@.contains(p) ==> !#[trigger] self.territories@[j].coords@.contains(p),
                decreases n - b,
            {
                if b != a {
                    if self.territories[a].id == self.territories[b].id {
                        assert(!unique_ids(self.territories@)) by {
                            assert(self.territories@[a as int].id == self.territories@[b as int].id);
                        }
                        return false;
                    }
                    let mut k: usize = 0;
                    while k < self.territories[a].coords.len()
                        invariant
                            n == self.territories@.len(),
                            a < n,
                            b < n,
                            b != a,
                            k <= self.territories@[a as int].coords@.len(),
                            forall|m: int| 0 <= m < k ==> !self.territories@[b as int].coords@.contains(#[trigger] self.territories@[a as int].coords@[m]),
                        decreases self.territories@[a as int].coords@.len() - k,
                    {
                        if has_point(&self.territories[b].coords, self.territories[a].coords[k]) {
                            proof {
                                let p = self.territories@[a as int].coords@[k as int];
                                assert(self.territories@[a as int].coords@.contains(p));
                                assert(!disjoint(self.territories@)) by {
                                    assert(self.territories@[a as int].coords@.contains(p) && self.territories@[b as int].coords@.contains(p));
                                }
                            }
                            return false;
                        }
                        k = k + 1;
                    }
                    proof {
                        assert forall|p: Point<i32>| self.territories@[a as int].coords@.contains(p) implies !self.territories@[b as int].coords@.contains(p) by {
                            let m = choose|m: int| 0 <= m < self.territories@[a as int].coords@.len() && self.territories@[a as int].coords@[m] == p;
                        }
                    }
                }
                b = b + 1;
            }
            a = a + 1;
        }
        true
    }
}

} // verus!
