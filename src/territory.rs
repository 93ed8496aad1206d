//! Territories: labeled sets of chunks, and the chunk-level queries on them.

use vstd::prelude::*;
use crate::geometry::{Point, AABB, is_bounding_box};

verus! {

/// A labeled set of chunks with its derived neighbor data.
pub struct Territory {
    pub id: u32,
    /// The chunks of the territory, each once.
    pub coords: Vec<Point<i32>>,
    /// Ids of the territories that share a chunk edge with this one, each once.
    pub neighbors: Vec<u32>,
    /// Color slot in `0..6`, when assigned.
    pub color: Option<u8>,
    /// Whether some chunk has a 4-neighbor that no territory owns.
    pub is_at_edge: bool,
}

/// The chunk at integer position `(x, y)`, if the position is one.
pub open spec fn holds(s: Seq<Point<i32>>, x: int, y: int) -> bool {
    i32::MIN <= x <= i32::MAX && i32::MIN <= y <= i32::MAX && s.contains(
        Point { x: x as i32, y: y as i32 },
    )
}

/// Two chunks are 4-neighbors.
pub open spec fn adjacent4(p: Point<i32>, q: Point<i32>) -> bool {
    let dx = q.x - p.x;
    let dy = q.y - p.y;
    (dx == 0 && (dy == 1 || dy == -1)) || (dy == 0 && (dx == 1 || dx == -1))
}

/// The chunks outside `s` that are 4-neighbors of a chunk of `s`.
pub open spec fn neighbor_chunks(s: Seq<Point<i32>>) -> Set<Point<i32>> {
    Set::new(
        |q: Point<i32>| !s.contains(q) && exists|i: int| 0 <= i < s.len() && adjacent4(#[trigger] s[i], q),
    )
}

/// `buf` lists the chunks of `s` as `[x0, y0, x1, y1, ...]`.
pub open spec fn flat_chunks(buf: Seq<i32>, s: Seq<Point<i32>>) -> bool {
    &&& buf.len() == 2 * s.len()
    &&& forall|i: int| 0 <= i < s.len() ==> buf[2 * i] == #[trigger] s[i].x && buf[2 * i + 1] == s[i].y
}

/// Offsets of the four directions: west, east, north, south.
pub open spec fn dir_dx(d: int) -> int {
    if d == 0 {
        -1
    } else if d == 1 {
        1
    } else {
        0
    }
}

pub open spec fn dir_dy(d: int) -> int {
    if d == 2 {
        -1
    } else if d == 3 {
        1
    } else {
        0
    }
}

/// The chunk next to `p` in direction `d`, if it lies in range.
pub fn step(p: Point<i32>, d: u8) -> (r: Option<Point<i32>>)
    requires
        d < 4,
    ensures
        match r {
            Some(q) => q.x == p.x + dir_dx(d as int) && q.y == p.y + dir_dy(d as int),
            None => !(i32::MIN <= p.x + dir_dx(d as int) <= i32::MAX && i32::MIN <= p.y + dir_dy(
                d as int,
            ) <= i32::MAX),
        },
{
    if d == 0 {
        if p.x == i32::MIN { None } else { Some(Point { x: p.x - 1, y: p.y }) }
    } else if d == 1 {
        if p.x == i32::MAX { None } else { Some(Point { x: p.x + 1, y: p.y }) }
    } else if d == 2 {
        if p.y == i32::MIN { None } else { Some(Point { x: p.x, y: p.y - 1 }) }
    } else {
        if p.y == i32::MAX { None } else { Some(Point { x: p.x, y: p.y + 1 }) }
    }
}

/// Appending `a` adds exactly `a` to what a sequence contains.
pub proof fn lemma_push_contains<T>(s: Seq<T>, a: T)
    ensures
        forall|x: T| #[trigger] s.push(a).contains(x) <==> (s.contains(x) || x == a),
{
    assert forall|x: T| #[trigger] s.push(a).contains(x) <==> (s.contains(x) || x == a) by {
        if s.contains(x) {
            let j = choose|j: int| 0 <= j < s.len() && s[j] == x;
            assert(s.push(a)[j] == x);
        }
        if x == a {
            assert(s.push(a)[s.len() as int] == x);
        }
        if s.push(a).contains(x) {
            let j = choose|j: int| 0 <= j < s.len() + 1 && s.push(a)[j] == x;
            if j < s.len() {
                assert(s[j] == x);
            }
        }
    }
}

/// Whether `v` holds `p`.
pub fn has_point(v: &Vec<Point<i32>>, p: Point<i32>) -> (r: bool)
    ensures
        r == v@.contains(p),
{
    let mut k: usize = 0;
    while k < v.len()
        invariant
            k <= v.len(),
            forall|j: int| 0 <= j < k ==> v@[j] != p,
        decreases v.len() - k,
    {
        if v[k] == p {
            return true;
        }
        k = k + 1;
    }
    false
}

impl Territory {
    /// Chunks unique, neighbor ids unique.
    pub open spec fn wf(&self) -> bool {
        self.coords@.no_duplicates() && self.neighbors@.no_duplicates()
    }

    /// The set of chunks of the territory.
    pub open spec fn chunks(&self) -> Set<Point<i32>> {
        self.coords@.to_set()
    }

    pub fn new(id: u32) -> (t: Territory)
        ensures
            t.id == id,
            t.coords@.len() == 0,
            t.neighbors@.len() == 0,
            t.color.is_none(),
            !t.is_at_edge,
            t.wf(),
    {
        Territory { id, coords: Vec::new(), neighbors: Vec::new(), color: None, is_at_edge: false }
    }

    /// The chunks as a flat `[x0, y0, x1, y1, ...]` buffer.
    pub fn to_buffer(&self) -> (buf: Vec<i32>)
        ensures
            flat_chunks(buf@, self.coords@),
    {
        let mut buf: Vec<i32> = Vec::new();
        let mut k: usize = 0;
        while k < self.coords.len()
            invariant
                k <= self.coords@.len(),
                buf@.len() == 2 * k,
                forall|i: int|
                    0 <= i < k ==> buf@[2 * i] == #[trigger] self.coords@[i].x && buf@[2 * i + 1]
                        == self.coords@[i].y,
            decreases self.coords.len() - k,
        {
            buf.push(self.coords[k].x);
            buf.push(self.coords[k].y);
            k = k + 1;
        }
        buf
    }

    /// Whether the territory holds chunk `p`.
    pub fn has_chunk(&self, p: Point<i32>) -> (r: bool)
        ensures
            r == self.chunks().contains(p),
    {
        has_point(&self.coords, p)
    }

    /// Adds the given chunks; those already held are kept once.
    pub fn insert_coords(&mut self, coords: Vec<Point<i32>>)
        requires
            old(self).wf(),
        ensures
            final(self).wf(),
            final(self).chunks() == old(self).chunks().union(coords@.to_set()),
            final(self).id == old(self).id,
            final(self).neighbors == old(self).neighbors,
            final(self).color == old(self).color,
            final(self).is_at_edge == old(self).is_at_edge,
            old(self).coords@.is_prefix_of(final(self).coords@),
    {
        let mut k: usize = 0;
        while k < coords.len()
            invariant
                k <= coords@.len(),
                self.wf(),
                self.chunks() == old(self).chunks().union(coords@.subrange(0, k as int).to_set()),
                self.id == old(self).id,
                self.neighbors == old(self).neighbors,
                self.color == old(self).color,
                self.is_at_edge == old(self).is_at_edge,
                old(self).coords@.is_prefix_of(self.coords@),
            decreases coords.len() - k,
        {
            let p = coords[k];
            proof {
                assert(coords@.subrange(0, k + 1) =~= coords@.subrange(0, k as int).push(p));
                coords@.subrange(0, k as int).lemma_push_to_set_commute(p);
            }
            if !has_point(&self.coords, p) {
                proof {
                    self.coords@.lemma_push_to_set_commute(p);
                }
                self.coords.push(p);
            }
            k = k + 1;
            assert(self.chunks() =~= old(self).chunks().union(coords@.subrange(0, k as int).to_set()));
        }
        assert(coords@.subrange(0, coords@.len() as int) =~= coords@);
    }

    /// Removes the given chunks, where held.
    pub fn remove_coords(&mut self, coords: &Vec<Point<i32>>)
        requires
            old(self).wf(),
        ensures
            final(self).wf(),
            final(self).chunks() == old(self).chunks().difference(coords@.to_set()),
            final(self).id == old(self).id,
            final(self).neighbors == old(self).neighbors,
            final(self).color == old(self).color,
            final(self).is_at_edge == old(self).is_at_edge,
    {
        let mut kept: Vec<Point<i32>> = Vec::new();
        let mut k: usize = 0;
        while k < self.coords.len()
            invariant
                k <= self.coords@.len(),
                self.wf(),
                kept@.no_duplicates(),
                forall|j: int| 0 <= j < kept@.len() ==> exists|i: int| 0 <= i < k && #[trigger] kept@[j] == self.coords@[i],
                forall|p: Point<i32>| #[trigger] kept@.contains(p) <==> (self.coords@.subrange(0, k as int).contains(p) && !coords@.contains(p)),
            decreases self.coords.len() - k,
        {
            let p = self.coords[k];
            assert(self.coords@.subrange(0, k + 1) =~= self.coords@.subrange(0, k as int).push(p));
            proof {
                lemma_push_contains(self.coords@.subrange(0, k as int), p);
                lemma_push_contains(kept@, p);
            }
            if !has_point(coords, p) {
                proof {
                    assert(!kept@.contains(p)) by {
                        if kept@.contains(p) {
                            let j = choose|j: int| 0 <= j < kept@.len() && kept@[j] == p;
                            let i = choose|i: int| 0 <= i < k && kept@[j] == self.coords@[i];
                        }
                    }
                }
                kept.push(p);
            }
            k = k + 1;
        }
        assert(self.coords@.subrange(0, self.coords@.len() as int) =~= self.coords@);
        self.coords = kept;
        assert(self.chunks() =~= old(self).chunks().difference(coords@.to_set()));
    }

    /// The bounding box of the chunks.
    pub fn get_aabb(&self) -> (b: AABB<i32>)
        ensures
            is_bounding_box(self.coords@, b),
    {
        AABB::from_polygon(&self.coords)
    }

    /// The chunks next to the territory that it does not hold, each once.
    pub fn get_neighboring_points(&self) -> (r: Vec<Point<i32>>)
        ensures
            r@.no_duplicates(),
            r@.to_set() == neighbor_chunks(self.coords@),
    {
        let mut r: Vec<Point<i32>> = Vec::new();
        let mut k: usize = 0;
        while k < self.coords.len()
            invariant
                k <= self.coords@.len(),
                r@.no_duplicates(),
                forall|j: int| 0 <= j < r@.len() ==> #[trigger] neighbor_chunks(self.coords@).contains(r@[j]),
                forall|i: int, q: Point<i32>|
                    0 <= i < k && adjacent4(#[trigger] self.coords@[i], q) && !self.coords@.contains(q)
                        ==> #[trigger] r@.contains(q),
            decreases self.coords.len() - k,
        {
            let p = self.coords[k];
            let mut d: u8 = 0;
            while d < 4
                invariant
                    k < self.coords@.len(),
                    p == self.coords@[k as int],
                    d <= 4,
                    r@.no_duplicates(),
                    forall|j: int| 0 <= j < r@.len() ==> #[trigger] neighbor_chunks(self.coords@).contains(r@[j]),
                    forall|i: int, q: Point<i32>|
                        0 <= i < k && adjacent4(#[trigger] self.coords@[i], q) && !self.coords@.contains(q)
                            ==> #[trigger] r@.contains(q),
                    forall|e: int, q: Point<i32>|
                        #![trigger dir_dx(e), r@.contains(q)]
                        0 <= e < d && q.x == p.x + dir_dx(e) && q.y == p.y + dir_dy(e)
                            && !self.coords@.contains(q) ==> r@.contains(q),
                decreases 4 - d,
            {
                if let Some(q) = step(p, d) {
                    if !self.has_chunk(q) && !has_point(&r, q) {
                        proof {
                            lemma_push_contains(r@, q);
                            assert(adjacent4(self.coords@[k as int], q));
                            assert(neighbor_chunks(self.coords@).contains(q));
                        }
                        r.push(q);
                    }
                }
                d = d + 1;
            }
            proof {
                assert forall|i: int, q: Point<i32>|
                    0 <= i < k + 1 && adjacent4(#[trigger] self.coords@[i], q) && !self.coords@.contains(q)
                        implies #[trigger] r@.contains(q) by {
                    if i == k {
                        let dx = q.x - p.x;
                        let dy = q.y - p.y;
                        if dx == -1 {
                            assert(q.x == p.x + dir_dx(0) && q.y == p.y + dir_dy(0));
                        } else if dx == 1 {
                            assert(q.x == p.x + dir_dx(1) && q.y == p.y + dir_dy(1));
                        } else if dy == -1 {
                            assert(q.x == p.x + dir_dx(2) && q.y == p.y + dir_dy(2));
                        } else {
                            assert(q.x == p.x + dir_dx(3) && q.y == p.y + dir_dy(3));
                        }
                    }
                }
            }
            k = k + 1;
        }
        proof {
            assert forall|q: Point<i32>| neighbor_chunks(self.coords@).contains(q) implies #[trigger] r@.contains(q) by {
                let i = choose|i: int| 0 <= i < self.coords@.len() && adjacent4(#[trigger] self.coords@[i], q);
            }
            assert(r@.to_set() =~= neighbor_chunks(self.coords@));
        }
        r
    }
}

} // verus!
