//! Border extraction: rasterization of a territory, its border chunks,
//! their clusters, and the outline loops around each cluster.

use vstd::prelude::*;
use crate::geometry::{Point, AABB, is_bounding_box};
use crate::territory::{Territory, holds, lemma_push_contains};

verus! {

/// The spread of the chunks along each axis leaves room for a padded grid
/// whose sides fit in an `i32`.
pub open spec fn extent_fits(s: Seq<Point<i32>>) -> bool {
    forall|i: int, j: int|
        #![trigger s[i], s[j]]
        0 <= i < s.len() && 0 <= j < s.len() ==> s[j].x - s[i].x <= i32::MAX - 3 && s[j].y - s[i].y
            <= i32::MAX - 3
}

/// A chunk with at least one empty 4-neighbor.
pub open spec fn is_border_chunk(s: Seq<Point<i32>>, p: Point<i32>) -> bool {
    !holds(s, p.x - 1, p.y as int) || !holds(s, p.x + 1, p.y as int) || !holds(s, p.x as int, p.y - 1)
        || !holds(s, p.x as int, p.y + 1)
}

/// The border chunks of `s`, in the order of `s`.
pub open spec fn border_chunks_of(s: Seq<Point<i32>>) -> Seq<Point<i32>> {
    s.filter(border_pred(s))
}

pub open spec fn border_pred(s: Seq<Point<i32>>) -> spec_fn(Point<i32>) -> bool {
    |p: Point<i32>| is_border_chunk(s, p)
}

/// Two border chunks touch: they share an edge, or they are diagonal and
/// one of the two chunks between them is occupied.
pub open spec fn border_adjacent(s: Seq<Point<i32>>, pa: Point<i32>, pb: Point<i32>) -> bool {
    ||| pa.x == pb.x && (pa.y == pb.y - 1 || pa.y == pb.y + 1)
    ||| pa.y == pb.y && (pa.x == pb.x - 1 || pa.x == pb.x + 1)
    ||| pa.x == pb.x - 1 && pa.y == pb.y - 1 && (holds(s, pa.x + 1, pa.y as int) || holds(s, pa.x as int, pa.y + 1))
    ||| pa.x == pb.x + 1 && pa.y == pb.y - 1 && (holds(s, pa.x - 1, pa.y as int) || holds(s, pa.x as int, pa.y + 1))
    ||| pa.x == pb.x - 1 && pa.y == pb.y + 1 && (holds(s, pa.x + 1, pa.y as int) || holds(s, pa.x as int, pa.y - 1))
    ||| pa.x == pb.x + 1 && pa.y == pb.y + 1 && (holds(s, pa.x - 1, pa.y as int) || holds(s, pa.x as int, pa.y - 1))
}

/// A boolean raster of a set of chunks, with one empty cell of padding on each side.
pub struct ChunkGrid {
    pub xmin: i32,
    pub ymin: i32,
    pub width: usize,
    pub height: usize,
    pub cells: Vec<Vec<bool>>,
}

impl ChunkGrid {
    /// The raster cell of chunk position `(x, y)`; false off the grid.
    pub open spec fn at(&self, x: int, y: int) -> bool {
        let gx = x - self.xmin + 1;
        let gy = y - self.ymin + 1;
        0 <= gx < self.width && 0 <= gy < self.height && self.cells@[gx]@[gy]
    }

    /// The grid holds exactly the chunks of `s`, each with a padded ring around it.
    pub open spec fn rasterizes(&self, s: Seq<Point<i32>>) -> bool {
        &&& self.cells@.len() == self.width
        &&& forall|gx: int| 0 <= gx < self.width ==> #[trigger] self.cells@[gx]@.len() == self.height
        &&& forall|i: int|
            0 <= i < s.len() ==> 1 <= #[trigger] s[i].x - self.xmin + 1 <= self.width - 2 && 1
                <= s[i].y - self.ymin + 1 <= self.height - 2
        &&& forall|gx: int, gy: int|
            0 <= gx < self.width && 0 <= gy < self.height ==> #[trigger] self.cells@[gx]@[gy]
                == holds(s, gx - 1 + self.xmin, gy - 1 + self.ymin)
    }

    pub proof fn lemma_at(&self, s: Seq<Point<i32>>)
        requires
            self.rasterizes(s),
        ensures
            forall|x: int, y: int| #[trigger] self.at(x, y) == holds(s, x, y),
    {
        assert forall|x: int, y: int| #[trigger] self.at(x, y) == holds(s, x, y) by {
            if holds(s, x, y) {
                let j = choose|j: int| 0 <= j < s.len() && s[j] == Point { x: x as i32, y: y as i32 };
                assert(1 <= s[j].x - self.xmin + 1 <= self.width - 2);
                let gx = x - self.xmin + 1;
                let gy = y - self.ymin + 1;
                assert(self.cells@[gx]@[gy] == holds(s, gx - 1 + self.xmin, gy - 1 + self.ymin));
            } else {
                let gx = x - self.xmin + 1;
                let gy = y - self.ymin + 1;
                if 0 <= gx < self.width && 0 <= gy < self.height {
                    assert(self.cells@[gx]@[gy] == holds(s, gx - 1 + self.xmin, gy - 1 + self.ymin));
                }
            }
        }
    }

    /// Rasterizes a non-empty set of chunks.
    pub fn build(coords: &Vec<Point<i32>>) -> (g: ChunkGrid)
        requires
            coords@.len() > 0,
            extent_fits(coords@),
        ensures
            g.rasterizes(coords@),
    {
        let b = AABB::from_polygon(coords);
        let ghost s = coords@;
        proof {
            let i1 = choose|i: int| 0 <= i < s.len() && #[trigger] s[i].x == b.min.x;
            let i2 = choose|i: int| 0 <= i < s.len() && #[trigger] s[i].x == b.max.x;
            let i3 = choose|i: int| 0 <= i < s.len() && #[trigger] s[i].y == b.min.y;
            let i4 = choose|i: int| 0 <= i < s.len() && #[trigger] s[i].y == b.max.y;
            assert(s[i2].x - s[i1].x <= i32::MAX - 3);
            assert(s[i4].y - s[i3].y <= i32::MAX - 3);
        }
        let width: usize = (b.max.x as i64 - b.min.x as i64 + 3) as usize;
        let height: usize = (b.max.y as i64 - b.min.y as i64 + 3) as usize;
        let mut cells: Vec<Vec<bool>> = Vec::new();
        let mut gx: usize = 0;
        while gx < width
            invariant
                gx <= width,
                cells@.len() == gx,
                forall|a: int| 0 <= a < gx ==> #[trigger] cells@[a]@.len() == height,
                forall|a: int, c: int| 0 <= a < gx && 0 <= c < height ==> !#[trigger] cells@[a]@[c],
            decreases width - gx,
        {
            let mut row: Vec<bool> = Vec::new();
            let mut gy: usize = 0;
            while gy < height
                invariant
                    gy <= height,
                    row@.len() == gy,
                    forall|c: int| 0 <= c < gy ==> !#[trigger] row@[c],
                decreases height - gy,
            {
                row.push(false);
                gy = gy + 1;
            }
            cells.push(row);
            gx = gx + 1;
        }
        let mut k: usize = 0;
        while k < coords.len()
            invariant
                k <= coords@.len(),
                s == coords@,
                is_bounding_box(s, b),
                s.len() > 0,
                width == b.max.x - b.min.x + 3,
                height == b.max.y - b.min.y + 3,
                cells@.len() == width,
                forall|a: int| 0 <= a < width ==> #[trigger] cells@[a]@.len() == height,
                forall|a: int, c: int|
                    0 <= a < width && 0 <= c < height ==> #[trigger] cells@[a]@[c] == holds(
                        s.subrange(0, k as int),
                        a - 1 + b.min.x,
                        c - 1 + b.min.y,
                    ),
            decreases coords.len() - k,
        {
            let p = coords[k];
            let px: usize = (p.x as i64 - b.min.x as i64 + 1) as usize;
            let py: usize = (p.y as i64 - b.min.y as i64 + 1) as usize;
            let ghost old_cells = cells@;
            let mut row: Vec<bool> = Vec::new();
            std::mem::swap(&mut row, &mut cells[px]);
            row.set(py, true);
            cells.set(px, row);
            proof {
                let sub = s.subrange(0, k as int);
                assert(s.subrange(0, k + 1) =~= sub.push(p));
                lemma_push_contains(sub, p);
                assert forall|a: int, c: int|
                    0 <= a < width && 0 <= c < height implies #[trigger] cells@[a]@[c] == holds(
                        s.subrange(0, k + 1),
                        a - 1 + b.min.x,
                        c - 1 + b.min.y,
                    ) by {
                    if a != px {
                        assert(cells@[a] == old_cells[a]);
                    }
                }
            }
            k = k + 1;
        }
        assert(s.subrange(0, s.len() as int) =~= s);
        ChunkGrid { xmin: b.min.x, ymin: b.min.y, width, height, cells }
    }

    /// Reads the raster cell of chunk position `(x, y)`.
    pub fn occupied(&self, x: i64, y: i64) -> (r: bool)
        requires
            self.cells@.len() == self.width,
            forall|gx: int| 0 <= gx < self.width ==> #[trigger] self.cells@[gx]@.len() == self.height,
            i32::MIN - 1 <= x <= i32::MAX + 1,
            i32::MIN - 1 <= y <= i32::MAX + 1,
        ensures
            r == self.at(x as int, y as int),
    {
        let gx: i64 = x - self.xmin as i64 + 1;
        let gy: i64 = y - self.ymin as i64 + 1;
        if gx < 0 || gy < 0 || gx as u64 >= self.width as u64 || gy as u64 >= self.height as u64 {
            return false;
        }
        self.cells[gx as usize][gy as usize]
    }
}

/// The border chunks of a rasterized territory, in the order of its chunks.
pub fn border_chunks(coords: &Vec<Point<i32>>, grid: &ChunkGrid) -> (r: Vec<Point<i32>>)
    requires
        grid.rasterizes(coords@),
    ensures
        r@ == border_chunks_of(coords@),
{
    let ghost s = coords@;
    let ghost pred = border_pred(s);
    proof {
        grid.lemma_at(s);
        reveal(Seq::filter);
    }
    let mut r: Vec<Point<i32>> = Vec::new();
    let mut k: usize = 0;
    while k < coords.len()
        invariant
            k <= s.len(),
            s == coords@,
            pred == border_pred(s),
            grid.rasterizes(s),
            forall|x: int, y: int| #[trigger] grid.at(x, y) == holds(s, x, y),
            r@ == s.subrange(0, k as int).filter(pred),
        decreases coords.len() - k,
    {
        let p = coords[k];
        let x = p.x as i64;
        let y = p.y as i64;
        let open = !grid.occupied(x - 1, y) || !grid.occupied(x + 1, y) || !grid.occupied(x, y - 1)
            || !grid.occupied(x, y + 1);
        proof {
            let sub = s.subrange(0, k as int);
            assert(s.subrange(0, k + 1) =~= sub.push(p));
            assert(sub.push(p).drop_last() =~= sub);
            reveal(Seq::filter);
            assert(sub.push(p).filter(pred) == (if pred(p) {
                sub.filter(pred).push(p)
            } else {
                sub.filter(pred)
            }));
            assert(pred(p) == is_border_chunk(s, p));
            assert(grid.at(p.x - 1, p.y as int) == holds(s, p.x - 1, p.y as int));
            assert(grid.at(p.x + 1, p.y as int) == holds(s, p.x + 1, p.y as int));
            assert(grid.at(p.x as int, p.y - 1) == holds(s, p.x as int, p.y - 1));
            assert(grid.at(p.x as int, p.y + 1) == holds(s, p.x as int, p.y + 1));
            assert(open == pred(p));
        }
        if open {
            r.push(p);
        }
        k = k + 1;
    }
    assert(s.subrange(0, s.len() as int) =~= s);
    r
}

/// Whether border chunks `pa` and `pb` touch, read from the raster.
pub fn points_are_adjacent_border(pa: Point<i32>, pb: Point<i32>, grid: &ChunkGrid, Ghost(s): Ghost<Seq<Point<i32>>>) -> (r: bool)
    requires
        grid.rasterizes(s),
    ensures
        r == border_adjacent(s, pa, pb),
{
    proof {
        grid.lemma_at(s);
    }
    let x1 = pa.x as i64;
    let y1 = pa.y as i64;
    let x2 = pb.x as i64;
    let y2 = pb.y as i64;
    if x1 == x2 && (y1 == y2 - 1 || y1 == y2 + 1) {
        return true;
    } else if y1 == y2 && (x1 == x2 - 1 || x1 == x2 + 1) {
        return true;
    }
    if x1 == x2 - 1 && y1 == y2 - 1 && (grid.occupied(x1 + 1, y1) || grid.occupied(x1, y1 + 1)) {
        return true;
    } else if x1 == x2 + 1 && y1 == y2 - 1 && (grid.occupied(x1 - 1, y1) || grid.occupied(x1, y1 + 1)) {
        return true;
    } else if x1 == x2 - 1 && y1 == y2 + 1 && (grid.occupied(x1 + 1, y1) || grid.occupied(x1, y1 - 1)) {
        return true;
    } else if x1 == x2 + 1 && y1 == y2 + 1 && (grid.occupied(x1 - 1, y1) || grid.occupied(x1, y1 - 1)) {
        return true;
    }
    false
}

/// The two polylines share an endpoint, so they can be spliced into one.
pub open spec fn joinable(a: Seq<Point<i32>>, b: Seq<Point<i32>>) -> bool {
    a.first() == b.first() || a.first() == b.last() || a.last() == b.first() || a.last() == b.last()
}

/// No polyline is empty.
pub open spec fn all_nonempty(ls: Seq<Vec<Point<i32>>>) -> bool {
    forall|i: int| 0 <= i < ls.len() ==> #[trigger] ls[i]@.len() > 0
}

/// The endpoints of a polyline come from the endpoints of two others.
pub open spec fn ends_from(n: Seq<Point<i32>>, a: Seq<Point<i32>>, b: Seq<Point<i32>>) -> bool {
    &&& (n.first() == a.first() || n.first() == a.last() || n.first() == b.first() || n.first() == b.last())
    &&& (n.last() == a.first() || n.last() == a.last() || n.last() == b.first() || n.last() == b.last())
}

/// Every point of a list of polylines.
pub open spec fn points_of(ls: Seq<Vec<Point<i32>>>) -> Set<Point<i32>>
    decreases ls.len(),
{
    if ls.len() == 0 {
        Set::empty()
    } else {
        points_of(ls.drop_last()).union(ls.last()@.to_set())
    }
}

/// The number of segments of a list of polylines: the sum of their lengths less one.
pub open spec fn segment_count(ls: Seq<Vec<Point<i32>>>) -> int
    decreases ls.len(),
{
    if ls.len() == 0 {
        0
    } else {
        segment_count(ls.drop_last()) + ls.last()@.len() - 1
    }
}

/// The segments of two lists of polylines, one after the other.
proof fn lemma_segment_count_concat(a: Seq<Vec<Point<i32>>>, b: Seq<Vec<Point<i32>>>)
    ensures
        segment_count(a + b) == segment_count(a) + segment_count(b),
    decreases b.len(),
{
    if b.len() == 0 {
        assert(a + b =~= a);
    } else {
        assert((a + b).drop_last() =~= a + b.drop_last());
        assert((a + b).last() == b.last());
        lemma_segment_count_concat(a, b.drop_last());
    }
}

/// The points of two lists of polylines, one after the other.
proof fn lemma_points_of_concat(a: Seq<Vec<Point<i32>>>, b: Seq<Vec<Point<i32>>>)
    ensures
        points_of(a + b) == points_of(a).union(points_of(b)),
    decreases b.len(),
{
    if b.len() == 0 {
        assert(a + b =~= a);
        assert(points_of(a).union(Set::empty()) =~= points_of(a));
    } else {
        assert((a + b).drop_last() =~= a + b.drop_last());
        assert((a + b).last() == b.last());
        lemma_points_of_concat(a, b.drop_last());
        assert(points_of(a + b) =~= points_of(a).union(points_of(b)));
    }
}

/// A sequence holds what its two parts hold.
proof fn lemma_contains_concat(a: Seq<Point<i32>>, b: Seq<Point<i32>>)
    ensures
        forall|x: Point<i32>| #[trigger] (a + b).contains(x) <==> a.contains(x) || b.contains(x),
{
    assert forall|x: Point<i32>| #[trigger] (a + b).contains(x) <==> a.contains(x) || b.contains(x) by {
        if (a + b).contains(x) {
            let k = choose|k: int| 0 <= k < (a + b).len() && (a + b)[k] == x;
            if k < a.len() {
                assert(a[k] == x);
            } else {
                assert(b[k - a.len()] == x);
            }
        }
        if a.contains(x) {
            let k = choose|k: int| 0 <= k < a.len() && a[k] == x;
            assert((a + b)[k] == x);
        }
        if b.contains(x) {
            let k = choose|k: int| 0 <= k < b.len() && b[k] == x;
            assert((a + b)[k + a.len()] == x);
        }
    }
}

/// Dropping the last point loses at most that point.
proof fn lemma_contains_drop_last(a: Seq<Point<i32>>)
    requires
        a.len() > 0,
    ensures
        forall|x: Point<i32>| #[trigger] a.contains(x) <==> a.subrange(0, a.len() - 1).contains(x) || x == a.last(),
{
    let d = a.subrange(0, a.len() - 1);
    assert forall|x: Point<i32>| #[trigger] a.contains(x) <==> d.contains(x) || x == a.last() by {
        if a.contains(x) && x != a.last() {
            let k = choose|k: int| 0 <= k < a.len() && a[k] == x;
            assert(d[k] == x);
        }
        if d.contains(x) {
            let k = choose|k: int| 0 <= k < d.len() && d[k] == x;
            assert(a[k] == x);
        }
        if x == a.last() {
            assert(a[a.len() - 1] == x);
        }
    }
}

/// The points of `v` in reverse order.
fn reversed(v: &Vec<Point<i32>>) -> (r: Vec<Point<i32>>)
    ensures
        r@.len() == v@.len(),
        forall|i: int| 0 <= i < v@.len() ==> #[trigger] r@[i] == v@[v@.len() - 1 - i],
        forall|x: Point<i32>| #[trigger] r@.contains(x) <==> v@.contains(x),
{
    let mut r: Vec<Point<i32>> = Vec::new();
    let mut k: usize = v.len();
    while k > 0
        invariant
            k <= v@.len(),
            r@.len() == v@.len() - k,
            forall|i: int| 0 <= i < r@.len() ==> #[trigger] r@[i] == v@[v@.len() - 1 - i],
        decreases k,
    {
        k = k - 1;
        r.push(v[k]);
    }
    proof {
        assert forall|x: Point<i32>| #[trigger] r@.contains(x) <==> v@.contains(x) by {
            if r@.contains(x) {
                let i = choose|i: int| 0 <= i < r@.len() && r@[i] == x;
                assert(v@[v@.len() - 1 - i] == x);
            }
            if v@.contains(x) {
                let j = choose|j: int| 0 <= j < v@.len() && v@[j] == x;
                assert(r@[v@.len() - 1 - j] == x);
            }
        }
    }
    r
}

/// The first `count` points of `v`.
fn copy_prefix(v: &Vec<Point<i32>>, count: usize) -> (r: Vec<Point<i32>>)
    requires
        count <= v@.len(),
    ensures
        r@ == v@.subrange(0, count as int),
{
    let mut r: Vec<Point<i32>> = Vec::new();
    let mut k: usize = 0;
    while k < count
        invariant
            k <= count <= v@.len(),
            r@ == v@.subrange(0, k as int),
        decreases count - k,
    {
        r.push(v[k]);
        k = k + 1;
        assert(r@ =~= v@.subrange(0, k as int));
    }
    r
}

/// Appends the points of `v` to `n`.
fn push_all(n: &mut Vec<Point<i32>>, v: &Vec<Point<i32>>)
    ensures
        final(n)@ == old(n)@ + v@,
{
    let ghost n0 = n@;
    let mut k: usize = 0;
    while k < v.len()
        invariant
            k <= v@.len(),
            n@ == n0 + v@.subrange(0, k as int),
        decreases v.len() - k,
    {
        n.push(v[k]);
        k = k + 1;
        assert(n@ =~= n0 + v@.subrange(0, k as int));
    }
    assert(v@.subrange(0, v@.len() as int) =~= v@);
}

/// Splices `e2` onto `e1` where they share an endpoint, dropping the shared point once.
fn splice(e1: &Vec<Point<i32>>, e2: &Vec<Point<i32>>) -> (r: Option<Vec<Point<i32>>>)
    requires
        e1@.len() > 0,
        e2@.len() > 0,
    ensures
        r.is_some() == joinable(e1@, e2@),
        r.is_some() ==> r.unwrap()@.len() == e1@.len() + e2@.len() - 1 && ends_from(r.unwrap()@, e1@, e2@),
        r.is_some() ==> r.unwrap()@.to_set() == e1@.to_set().union(e2@.to_set()),
{
    let f1 = e1[0];
    let l1 = e1[e1.len() - 1];
    let f2 = e2[0];
    let l2 = e2[e2.len() - 1];
    if f1 == f2 {
        let r2 = reversed(e2);
        let mut n = copy_prefix(&r2, r2.len() - 1);
        let ghost head = n@;
        push_all(&mut n, e1);
        proof {
            lemma_contains_concat(head, e1@);
            lemma_contains_drop_last(r2@);
            assert(r2@.last() == e2@[0]);
            assert(e1@.contains(e1@[0]));
            assert(head == r2@.subrange(0, r2@.len() - 1));
            assert forall|x: Point<i32>| n@.contains(x) <==> (e1@.contains(x) || e2@.contains(x)) by {
                assert(n@ == head + e1@);
                if e2@.contains(x) {
                    assert(r2@.contains(x));
                }
                if head.contains(x) {
                    assert(r2@.contains(x));
                }
            }
            assert(n@.to_set() =~= e1@.to_set().union(e2@.to_set()));
        }
        Some(n)
    } else if f1 == l2 {
        let mut n = copy_prefix(e2, e2.len() - 1);
        let ghost head = n@;
        push_all(&mut n, e1);
        proof {
            lemma_contains_concat(head, e1@);
            lemma_contains_drop_last(e2@);
            assert(e1@.contains(e1@[0]));
            assert(n@.to_set() =~= e1@.to_set().union(e2@.to_set()));
        }
        Some(n)
    } else if l1 == f2 {
        let mut n = copy_prefix(e1, e1.len() - 1);
        let ghost head = n@;
        push_all(&mut n, e2);
        proof {
            lemma_contains_concat(head, e2@);
            lemma_contains_drop_last(e1@);
            assert(e2@.contains(e2@[0]));
            assert(n@.to_set() =~= e1@.to_set().union(e2@.to_set()));
        }
        Some(n)
    } else if l1 == l2 {
        let mut n = copy_prefix(e1, e1.len() - 1);
        let r2 = reversed(e2);
        let ghost head = n@;
        push_all(&mut n, &r2);
        proof {
            lemma_contains_concat(head, r2@);
            lemma_contains_drop_last(e1@);
            assert(e2@.contains(e2@[e2@.len() - 1]));
            assert(n@.to_set() =~= e1@.to_set().union(e2@.to_set()));
        }
        Some(n)
    } else {
        None
    }
}

/// Repeatedly splices polylines that share an endpoint until no two of
/// the result can be spliced.
pub fn join_edge_loops(edge_loops: Vec<Vec<Point<i32>>>) -> (r: Vec<Vec<Point<i32>>>)
    requires
        all_nonempty(edge_loops@),
    ensures
        all_nonempty(r@),
        forall|i: int, j: int|
            0 <= i < r@.len() && 0 <= j < r@.len() && i != j ==> !joinable(#[trigger] r@[i]@, #[trigger] r@[j]@),
        points_of(r@) == points_of(edge_loops@),
        segment_count(r@) == segment_count(edge_loops@),
        edge_loops@.len() == 1 ==> r@ == edge_loops@,
        r@.len() <= edge_loops@.len(),
{
    let ghost p0 = points_of(edge_loops@);
    let ghost n0 = segment_count(edge_loops@);
    let ghost input = edge_loops@;
    let mut todo = edge_loops;
    let mut done: Vec<Vec<Point<i32>>> = Vec::new();
    assert(points_of(todo@).union(points_of(done@)) =~= p0);
    while todo.len() > 0
        invariant
            points_of(todo@).union(points_of(done@)) == p0,
            segment_count(todo@) + segment_count(done@) == n0,
            todo@.len() + done@.len() <= input.len(),
            input.len() == 1 ==> (todo@ == input && done@.len() == 0) || (todo@.len() == 0 && done@ == input),
            all_nonempty(todo@),
            all_nonempty(done@),
            forall|i: int, j: int|
                0 <= i < done@.len() && 0 <= j < done@.len() && i != j ==> !joinable(#[trigger] done@[i]@, #[trigger] done@[j]@),
            forall|i: int, j: int|
                0 <= i < done@.len() && 0 <= j < todo@.len() ==> !joinable(#[trigger] done@[i]@, #[trigger] todo@[j]@),
        decreases todo@.len(),
    {
        let ghost t0 = todo@;
        let edge1 = todo.pop().unwrap();
        assert(edge1@ == t0[t0.len() - 1]@);
        assert(t0.drop_last() =~= todo@);
        let mut visited: Vec<Vec<Point<i32>>> = Vec::new();
        let mut joined: Option<Vec<Point<i32>>> = None;
        assert(points_of(todo@).union(points_of(visited@)).union(edge1@.to_set()).union(points_of(done@)) =~= p0);
        assert(segment_count(t0) == segment_count(todo@) + edge1@.len() - 1);
        while todo.len() > 0
            invariant_except_break
                joined.is_none(),
            invariant
                joined.is_none() ==> segment_count(todo@) + segment_count(visited@) + edge1@.len() - 1 + segment_count(done@) == n0,
                joined.is_some() ==> segment_count(todo@) + segment_count(visited@) + joined.unwrap()@.len() - 1 + segment_count(done@) == n0,
                t0.len() == 1 ==> todo@.len() == 0 && visited@.len() == 0,
                joined.is_none() ==> points_of(todo@).union(points_of(visited@)).union(edge1@.to_set()).union(points_of(done@)) == p0,
                joined.is_some() ==> points_of(todo@).union(points_of(visited@)).union(joined.unwrap()@.to_set()).union(points_of(done@)) == p0,
                edge1@.len() > 0,
                all_nonempty(todo@),
                all_nonempty(visited@),
                all_nonempty(done@),
                todo@.len() + visited@.len() + 1 <= t0.len(),
                forall|i: int, j: int|
                    0 <= i < done@.len() && 0 <= j < done@.len() && i != j ==> !joinable(#[trigger] done@[i]@, #[trigger] done@[j]@),
                forall|i: int, j: int|
                    0 <= i < done@.len() && 0 <= j < todo@.len() ==> !joinable(#[trigger] done@[i]@, #[trigger] todo@[j]@),
                forall|i: int, j: int|
                    0 <= i < done@.len() && 0 <= j < visited@.len() ==> !joinable(#[trigger] done@[i]@, #[trigger] visited@[j]@),
                forall|i: int| 0 <= i < done@.len() ==> !joinable(#[trigger] done@[i]@, edge1@),
                forall|j: int| 0 <= j < visited@.len() ==> !joinable(edge1@, #[trigger] visited@[j]@),
                joined.is_some() ==> joined.unwrap()@.len() > 0
                    && todo@.len() + visited@.len() + 2 <= t0.len()
                    && forall|i: int| 0 <= i < done@.len() ==> !joinable(#[trigger] done@[i]@, joined.unwrap()@),
            ensures
                joined.is_none() ==> todo@.len() == 0,
                t0.len() == 1 ==> joined.is_none() && visited@.len() == 0,
            decreases todo@.len(),
        {
            let ghost tb = todo@;
            let ghost vb = visited@;
            let edge2 = todo.pop().unwrap();
            assert(edge2@ == tb[tb.len() - 1]@);
            assert(tb.drop_last() =~= todo@);
            assert(points_of(tb) == points_of(todo@).union(edge2@.to_set()));
            assert(segment_count(tb) == segment_count(todo@) + edge2@.len() - 1);
            let ghost e1 = edge1@;
            let ghost e2 = edge2@;
            match splice(&edge1, &edge2) {
                Some(n) => {
                    proof {
                        assert(points_of(todo@).union(points_of(visited@)).union(n@.to_set()).union(points_of(done@)) =~= p0);
                        assert forall|i: int| 0 <= i < done@.len() implies !joinable(#[trigger] done@[i]@, n@) by {
                            assert(!joinable(done@[i]@, e2));
                        }
                    }
                    joined = Some(n);
                    break;
                },
                None => {
                    visited.push(edge2);
                    proof {
                        assert(visited@.drop_last() =~= vb);
                        assert(segment_count(visited@) == segment_count(vb) + edge2@.len() - 1);
                        assert(points_of(todo@).union(points_of(visited@)).union(edge1@.to_set()).union(points_of(done@)) =~= p0);
                    }
                },
            }
        }
        match joined {
            Some(n) => {
                let ghost ta = todo@;
                let ghost va = visited@;
                todo.append(&mut visited);
                let ghost tc = todo@;
                todo.push(n);
                proof {
                    lemma_points_of_concat(ta, va);
                    lemma_segment_count_concat(ta, va);
                    assert(todo@.drop_last() =~= tc);
                    assert(points_of(todo@).union(points_of(done@)) =~= p0);
                }
            },
            None => {
                let ghost d0 = done@;
                done.push(edge1);
                todo = visited;
                proof {
                    assert(done@.drop_last() =~= d0);
                    if input.len() == 1 {
                        assert(done@ =~= input);
                    }
                    assert(points_of(todo@).union(points_of(done@)) =~= p0);
                }
            },
        }
    }
    assert(points_of(done@) =~= p0);
    done
}

/// Truncating half of the grid scale.
pub open spec fn half_of(g: int) -> int {
    if g >= 0 {
        g / 2
    } else {
        -((-g) / 2)
    }
}

pub open spec fn in_i32(v: int) -> bool {
    i32::MIN <= v <= i32::MAX
}

/// The corners of chunk `p`, scaled by `g`, fit in an `i32`.
pub open spec fn corners_fit_at(p: Point<i32>, g: int) -> bool {
    &&& in_i32(g * p.x - half_of(g))
    &&& in_i32(g * p.x + half_of(g))
    &&& in_i32(g * p.y - half_of(g))
    &&& in_i32(g * p.y + half_of(g))
}

pub open spec fn corners_fit(s: Seq<Point<i32>>, g: int) -> bool {
    forall|i: int| 0 <= i < s.len() ==> corners_fit_at(#[trigger] s[i], g)
}

/// The outline polylines of one chunk whose corners sit at `x = a, b` and
/// `y = c, d`, given which of its north, south, east and west sides are open.
pub open spec fn segment_table(a: i32, b: i32, c: i32, d: i32, n: bool, s: bool, e: bool, w: bool) -> Seq<Seq<Point<i32>>> {
    let ac = Point { x: a, y: c };
    let bc = Point { x: b, y: c };
    let bd = Point { x: b, y: d };
    let ad = Point { x: a, y: d };
    if n && !s && !e && !w {
        seq![seq![ac, bc]]
    } else if !n && s && !e && !w {
        seq![seq![ad, bd]]
    } else if !n && !s && e && !w {
        seq![seq![bc, bd]]
    } else if !n && !s && !e && w {
        seq![seq![ac, ad]]
    } else if n && s && !e && !w {
        seq![seq![ac, bc], seq![ad, bd]]
    } else if !n && !s && e && w {
        seq![seq![bc, bd], seq![ac, ad]]
    } else if n && !s && e && !w {
        seq![seq![ac, bc, bd]]
    } else if n && !s && !e && w {
        seq![seq![ad, ac, bc]]
    } else if !n && s && e && !w {
        seq![seq![bc, bd, ad]]
    } else if !n && s && !e && w {
        seq![seq![bd, ad, ac]]
    } else if n && !s && e && w {
        seq![seq![bd, bc, ac, ad]]
    } else if !n && s && e && w {
        seq![seq![bc, bd, ad, ac]]
    } else if n && s && e && !w {
        seq![seq![ac, bc, bd, ad]]
    } else if n && s && !e && w {
        seq![seq![bc, ac, ad, bd]]
    } else if n && s && e && w {
        seq![seq![ac, bc, bd, ad, ac]]
    } else {
        seq![]
    }
}

/// Builds the polylines of `segment_table`.
pub fn chunk_segments(a: i32, b: i32, c: i32, d: i32, n: bool, s: bool, e: bool, w: bool) -> (r: Vec<Vec<Point<i32>>>)
    ensures
        r@.len() == segment_table(a, b, c, d, n, s, e, w).len(),
        forall|i: int| 0 <= i < r@.len() ==> #[trigger] r@[i]@ == segment_table(a, b, c, d, n, s, e, w)[i],
        all_nonempty(r@),
{
    let ac = Point { x: a, y: c };
    let bc = Point { x: b, y: c };
    let bd = Point { x: b, y: d };
    let ad = Point { x: a, y: d };
    let r = if n && !s && !e && !w {
        vec![vec![ac, bc]]
    } else if !n && s && !e && !w {
        vec![vec![ad, bd]]
    } else if !n && !s && e && !w {
        vec![vec![bc, bd]]
    } else if !n && !s && !e && w {
        vec![vec![ac, ad]]
    } else if n && s && !e && !w {
        vec![vec![ac, bc], vec![ad, bd]]
    } else if !n && !s && e && w {
        vec![vec![bc, bd], vec![ac, ad]]
    } else if n && !s && e && !w {
        vec![vec![ac, bc, bd]]
    } else if n && !s && !e && w {
        vec![vec![ad, ac, bc]]
    } else if !n && s && e && !w {
        vec![vec![bc, bd, ad]]
    } else if !n && s && !e && w {
        vec![vec![bd, ad, ac]]
    } else if n && !s && e && w {
        vec![vec![bd, bc, ac, ad]]
    } else if !n && s && e && w {
        vec![vec![bc, bd, ad, ac]]
    } else if n && s && e && !w {
        vec![vec![ac, bc, bd, ad]]
    } else if n && s && !e && w {
        vec![vec![bc, ac, ad, bd]]
    } else if n && s && e && w {
        vec![vec![ac, bc, bd, ad, ac]]
    } else {
        Vec::new()
    };
    proof {
        let t = segment_table(a, b, c, d, n, s, e, w);
        assert(r@.len() == t.len());
        assert forall|i: int| 0 <= i < r@.len() implies #[trigger] r@[i]@ == t[i] by {
            assert(r@[i]@ =~= t[i]);
        }
    }
    r
}

/// The lower corner coordinate of chunk coordinate `v` at scale `g`.
pub open spec fn corner_lo(v: int, g: int) -> i32 {
    (g * v - half_of(g)) as i32
}

/// The upper corner coordinate of chunk coordinate `v` at scale `g`.
pub open spec fn corner_hi(v: int, g: int) -> i32 {
    (g * v + half_of(g)) as i32
}

/// The outline polylines of chunk `p` of the chunks `s` at scale `g`.
pub open spec fn chunk_table(s: Seq<Point<i32>>, p: Point<i32>, g: int) -> Seq<Seq<Point<i32>>> {
    segment_table(
        corner_lo(p.x as int, g),
        corner_hi(p.x as int, g),
        corner_lo(p.y as int, g),
        corner_hi(p.y as int, g),
        !holds(s, p.x as int, p.y - 1),
        !holds(s, p.x as int, p.y + 1),
        !holds(s, p.x + 1, p.y as int),
        !holds(s, p.x - 1, p.y as int),
    )
}

/// Every point of a list of polylines given as sequences.
pub open spec fn seqs_points(t: Seq<Seq<Point<i32>>>) -> Set<Point<i32>>
    decreases t.len(),
{
    if t.len() == 0 {
        Set::empty()
    } else {
        seqs_points(t.drop_last()).union(t.last().to_set())
    }
}

/// Every corner point of the outline polylines of the chunks `pts`.
pub open spec fn outline_points(s: Seq<Point<i32>>, pts: Seq<Point<i32>>, g: int) -> Set<Point<i32>>
    decreases pts.len(),
{
    if pts.len() == 0 {
        Set::empty()
    } else {
        outline_points(s, pts.drop_last(), g).union(seqs_points(chunk_table(s, pts.last(), g)))
    }
}

/// No 4-neighbor of chunk `p` belongs to `s`.
pub open spec fn isolated(s: Seq<Point<i32>>, p: Point<i32>) -> bool {
    !holds(s, p.x as int, p.y - 1) && !holds(s, p.x as int, p.y + 1) && !holds(s, p.x + 1, p.y as int) && !holds(
        s,
        p.x - 1,
        p.y as int,
    )
}

/// `es` is a full stitching of the outline polylines of the chunks `pts`:
/// no polyline is empty, no two share an endpoint, and together they pass
/// through exactly the outline's corner points.
pub open spec fn stitched(es: Seq<Vec<Point<i32>>>, s: Seq<Point<i32>>, pts: Seq<Point<i32>>, g: int) -> bool {
    &&& all_nonempty(es)
    &&& forall|i: int, j: int| 0 <= i < es.len() && 0 <= j < es.len() && i != j ==> !joinable(#[trigger] es[i]@, #[trigger] es[j]@)
    &&& points_of(es) == outline_points(s, pts, g)
}

/// `l` is a polyline of `es` with the most vertices, or empty when `es` is.
pub open spec fn longest_in(l: Seq<Point<i32>>, es: Seq<Vec<Point<i32>>>) -> bool {
    ||| es.len() == 0 && l.len() == 0
    ||| exists|k: int| 0 <= k < es.len() && es[k]@ == l && forall|m: int| 0 <= m < es.len() ==> #[trigger] es[m]@.len() <= l.len()
}

/// `l` is the longest polyline of a full stitching of the outline of `pts`.
/// A cluster around a hole stitches into several closed polylines; its
/// record keeps the longest one.
pub open spec fn is_outline(l: Seq<Point<i32>>, s: Seq<Point<i32>>, pts: Seq<Point<i32>>, g: int) -> bool {
    exists|es: Seq<Vec<Point<i32>>>| stitched(es, s, pts, g) && longest_in(l, es)
}

/// The outline around one cluster of border chunks: the longest polyline
/// left once its chunks' segments are spliced as far as they go.
fn cluster_loop(pts: &Vec<Point<i32>>, grid: &ChunkGrid, g: i32, Ghost(s): Ghost<Seq<Point<i32>>>) -> (l: Vec<Point<i32>>)
    requires
        grid.rasterizes(s),
        forall|j: int| 0 <= j < pts@.len() ==> corners_fit_at(#[trigger] pts@[j], g as int),
    ensures
        is_outline(l@, s, pts@, g as int),
        pts@.len() == 1 && isolated(s, pts@[0]) ==> l@ == chunk_table(s, pts@[0], g as int)[0],
{
    let h: i32 = if g >= 0 { g / 2 } else { -((-(g as i64)) / 2) as i32 };
    assert(h == half_of(g as int));
    let mut edges: Vec<Vec<Point<i32>>> = Vec::new();
    let mut k: usize = 0;
    proof {
        grid.lemma_at(s);
        assert(pts@.subrange(0, 0) =~= Seq::<Point<i32>>::empty());
    }
    while k < pts.len()
        invariant
            k <= pts@.len(),
            grid.rasterizes(s),
            forall|x: int, y: int| #[trigger] grid.at(x, y) == holds(s, x, y),
            h == half_of(g as int),
            forall|j: int| 0 <= j < pts@.len() ==> corners_fit_at(#[trigger] pts@[j], g as int),
            all_nonempty(edges@),
            points_of(edges@) == outline_points(s, pts@.subrange(0, k as int), g as int),
            pts@.len() == 1 && isolated(s, pts@[0]) && k == 0 ==> edges@.len() == 0,
            forall|i: int, j: int|
                0 <= i < edges@.len() && 0 <= j < edges@.len() && i != j ==> !joinable(#[trigger] edges@[i]@, #[trigger] edges@[j]@),
            pts@.len() == 1 && isolated(s, pts@[0]) && k == 1 ==> edges@.len() == 1 && edges@[0]@ == chunk_table(s, pts@[0], g as int)[0],
        decreases pts.len() - k,
    {
        let p = pts[k];
        assert(corners_fit_at(pts@[k as int], g as int));
        let x = p.x as i64;
        let y = p.y as i64;
        let n = !grid.occupied(x, y - 1);
        let so = !grid.occupied(x, y + 1);
        let w = !grid.occupied(x - 1, y);
        let e = !grid.occupied(x + 1, y);
        let gx: i64 = g as i64 * x;
        let gy: i64 = g as i64 * y;
        let a = (gx - h as i64) as i32;
        let b = (gx + h as i64) as i32;
        let c = (gy - h as i64) as i32;
        let d = (gy + h as i64) as i32;
        let segs = chunk_segments(a, b, c, d, n, so, e, w);
        let ghost table = chunk_table(s, p, g as int);
        let ghost before = outline_points(s, pts@.subrange(0, k as int), g as int);
        proof {
            assert(a == corner_lo(p.x as int, g as int));
            assert(b == corner_hi(p.x as int, g as int));
            assert(c == corner_lo(p.y as int, g as int));
            assert(d == corner_hi(p.y as int, g as int));
            assert(grid.at(p.x as int, p.y - 1) == holds(s, p.x as int, p.y - 1));
            assert(grid.at(p.x as int, p.y + 1) == holds(s, p.x as int, p.y + 1));
            assert(grid.at(p.x + 1, p.y as int) == holds(s, p.x + 1, p.y as int));
            assert(grid.at(p.x - 1, p.y as int) == holds(s, p.x - 1, p.y as int));
            assert(segment_table(a, b, c, d, n, so, e, w) == table);
            assert(table.subrange(0, 0) =~= Seq::<Seq<Point<i32>>>::empty());
        }
        let mut i: usize = 0;
        while i < segs.len()
            invariant
                i <= segs@.len(),
                segs@.len() == table.len(),
                forall|m: int| 0 <= m < segs@.len() ==> #[trigger] segs@[m]@ == table[m],
                all_nonempty(segs@),
                all_nonempty(edges@),
                points_of(edges@) == before.union(seqs_points(table.subrange(0, i as int))),
                pts@.len() == 1 && isolated(s, pts@[0]) && k == 0 ==> edges@.len() == i && (i >= 1 ==> edges@[0]@ == table[0]),
                k < pts@.len(),
                p == pts@[k as int],
                table == chunk_table(s, p, g as int),
            decreases segs.len() - i,
        {
            let mut seg: Vec<Point<i32>> = Vec::new();
            push_all(&mut seg, &segs[i]);
            let ghost e0 = edges@;
            edges.push(seg);
            proof {
                assert(edges@.drop_last() =~= e0);
                assert(seg@ =~= table[i as int]);
                let t1 = table.subrange(0, i + 1);
                assert(t1.drop_last() =~= table.subrange(0, i as int));
                assert(t1.last() == table[i as int]);
                assert(points_of(edges@) =~= before.union(seqs_points(t1)));
            }
            i = i + 1;
        }
        proof {
            assert(table.subrange(0, table.len() as int) =~= table);
            let sub = pts@.subrange(0, k + 1);
            assert(sub.drop_last() =~= pts@.subrange(0, k as int));
            assert(sub.last() == p);
        }
        proof {
            if pts@.len() == 1 && isolated(s, pts@[0]) {
                assert(table.len() == 1);
            }
        }
        edges = join_edge_loops(edges);
        k = k + 1;
    }
    assert(pts@.subrange(0, pts@.len() as int) =~= pts@);
    let ghost es = edges@;
    assert(stitched(es, s, pts@, g as int));
    if edges.len() == 0 {
        let l: Vec<Point<i32>> = Vec::new();
        assert(stitched(es, s, pts@, g as int) && longest_in(l@, es));
        return l;
    }
    let mut best: usize = 0;
    let mut k: usize = 1;
    while k < edges.len()
        invariant
            edges@ == es,
            es.len() > 0,
            best < es.len(),
            1 <= k <= es.len(),
            forall|m: int| 0 <= m < k ==> #[trigger] es[m]@.len() <= es[best as int]@.len(),
        decreases edges.len() - k,
    {
        if edges[k].len() > edges[best].len() {
            best = k;
        }
        k = k + 1;
    }
    let mut l: Vec<Point<i32>> = Vec::new();
    push_all(&mut l, &edges[best]);
    proof {
        assert(l@ =~= es[best as int]@);
        assert(longest_in(l@, es));
        assert(stitched(es, s, pts@, g as int) && longest_in(l@, es));
    }
    l
}

/// The border chunks of a territory grouped into clusters, the outline of
/// each cluster, and the index of the outline that has the most vertices.
pub struct BorderOutline {
    /// The border chunks, in the order of the territory's chunks.
    pub border: Vec<Point<i32>>,
    /// The cluster of each border chunk.
    pub labels: Vec<usize>,
    /// The chunks of each cluster, in border order.
    pub clusters: Vec<Vec<Point<i32>>>,
    pub loops: Vec<Vec<Point<i32>>>,
    pub largest: usize,
}

/// The chunks of `b` below index `m` whose label is `c`, in order.
pub open spec fn members(b: Seq<Point<i32>>, lab: Seq<usize>, c: int, m: int) -> Seq<Point<i32>>
    decreases m,
{
    if m <= 0 {
        Seq::empty()
    } else if lab[m - 1] == c {
        members(b, lab, c, m - 1).push(b[m - 1])
    } else {
        members(b, lab, c, m - 1)
    }
}

/// A label used below `m` gives a nonempty cluster.
proof fn lemma_members_nonempty(b: Seq<Point<i32>>, lab: Seq<usize>, c: int, m: int, j: int)
    requires
        0 <= j < m,
        lab[j] == c,
    ensures
        members(b, lab, c, m).len() > 0,
    decreases m,
{
    if j < m - 1 {
        lemma_members_nonempty(b, lab, c, m - 1, j);
    }
}

impl BorderOutline {
    /// One outline per nonempty cluster, and `largest` names the first of
    /// the outlines with the most vertices.
    pub open spec fn wf(&self) -> bool {
        &&& self.loops@.len() == self.clusters@.len()
        &&& forall|i: int| 0 <= i < self.clusters@.len() ==> #[trigger] self.clusters@[i]@.len() > 0
        &&& self.loops@.len() > 0 ==> {
            &&& self.largest < self.loops@.len()
            &&& forall|i: int| 0 <= i < self.loops@.len() ==> #[trigger] self.loops@[i]@.len() <= self.loops@[self.largest as int]@.len()
            &&& forall|i: int| 0 <= i < self.largest ==> #[trigger] self.loops@[i]@.len() < self.loops@[self.largest as int]@.len()
        }
    }
}

impl Territory {
    /// Rasterizes the territory, finds its border chunks, splits them into
    /// clusters of chunks joined by chains of border-adjacent chunks, and
    /// stitches an outline around each cluster, in units of `grid_scale` with
    /// corners half a scale away from each chunk center. A cluster whose
    /// segments stitch into several polylines (around a hole) keeps the
    /// longest of them.
    pub fn border_outline(&self, grid_scale: i32) -> (o: BorderOutline)
        requires
            self.wf(),
            extent_fits(self.coords@),
            corners_fit(self.coords@, grid_scale as int),
        ensures
            o.wf(),
            o.border@ == border_chunks_of(self.coords@),
            o.labels@.len() == o.border@.len(),
            forall|j: int| 0 <= j < o.labels@.len() ==> #[trigger] o.labels@[j] < o.clusters@.len(),
            forall|c: int| 0 <= c < o.clusters@.len() ==> #[trigger] o.clusters@[c]@ == members(o.border@, o.labels@, c, o.border@.len() as int),
            forall|i: int, j: int|
                0 <= i < o.border@.len() && 0 <= j < o.border@.len() ==> (#[trigger] o.labels@[i] == #[trigger] o.labels@[j]
                    <==> chained(self.coords@, o.border@, i, j)),
            forall|i: int| 0 <= i < o.loops@.len() ==> #[trigger] is_outline(o.loops@[i]@, self.coords@, o.clusters@[i]@, grid_scale as int),
            forall|i: int|
                0 <= i < o.loops@.len() && o.clusters@[i]@.len() == 1 && isolated(self.coords@, o.clusters@[i]@[0]) ==> #[trigger] o.loops@[i]@
                    == chunk_table(self.coords@, o.clusters@[i]@[0], grid_scale as int)[0],
            self.coords@.len() == 0 ==> o.clusters@.len() == 0,
            self.coords@.len() == 1 ==> o.clusters@.len() == 1 && o.clusters@[0]@ == self.coords@
                && o.loops@[0]@ == chunk_table(self.coords@, self.coords@[0], grid_scale as int)[0],
    {
        let ghost s = self.coords@;
        if self.coords.len() == 0 {
            proof {
                reveal(Seq::filter);
                assert(border_chunks_of(s) =~= Seq::<Point<i32>>::empty());
            }
            return BorderOutline { border: Vec::new(), labels: Vec::new(), clusters: Vec::new(), loops: Vec::new(), largest: 0 };
        }
        let grid = ChunkGrid::build(&self.coords);
        let border = border_chunks(&self.coords, &grid);
        let (labels, count) = find_components(&border, &grid, Ghost(s));
        let ghost b = border@;
        let ghost lab = labels@;
        proof {
            if s.len() == 1 {
                let p = s[0];
                assert(isolated(s, p)) by {
                    assert forall|q: Point<i32>| s.contains(q) implies q == p by {}
                }
                reveal(Seq::filter);
                assert(s.drop_last() =~= Seq::<Point<i32>>::empty());
                assert(border_pred(s)(p));
                assert(b =~= seq![p]);
                assert(lab[0] < count);
                if count > 1 {
                    assert(label_used(lab, 1));
                    assert(label_used(lab, 0));
                }
                assert(count == 1);
                assert(lab[0] == 0);
            }
        }
        let n = border.len();
        let mut clusters: Vec<Vec<Point<i32>>> = Vec::new();
        let mut loops: Vec<Vec<Point<i32>>> = Vec::new();
        let mut largest: usize = 0;
        let mut largest_size: usize = 0;
        let mut c: usize = 0;
        while c < count
            invariant
                c <= count,
                n == b.len(),
                b == border@,
                b == border_chunks_of(s),
                lab == labels@,
                lab.len() == n,
                forall|j: int| 0 <= j < n ==> #[trigger] lab[j] < count,
                forall|cc: int| 0 <= cc < count ==> #[trigger] label_used(lab, cc),
                grid.rasterizes(s),
                corners_fit(s, grid_scale as int),
                s == self.coords@,
                s.len() > 0,
                clusters@.len() == c,
                loops@.len() == c,
                forall|i: int| 0 <= i < c ==> #[trigger] clusters@[i]@ == members(b, lab, i, n as int),
                forall|i: int| 0 <= i < c ==> #[trigger] is_outline(loops@[i]@, s, clusters@[i]@, grid_scale as int),
                forall|i: int|
                    0 <= i < c && clusters@[i]@.len() == 1 && isolated(s, clusters@[i]@[0]) ==> #[trigger] loops@[i]@
                        == chunk_table(s, clusters@[i]@[0], grid_scale as int)[0],
                c > 0 ==> largest < c && largest_size == loops@[largest as int]@.len(),
                c == 0 ==> largest_size == 0 && largest == 0,
                forall|i: int| 0 <= i < c ==> #[trigger] loops@[i]@.len() <= largest_size,
                forall|i: int| 0 <= i < largest ==> #[trigger] loops@[i]@.len() < largest_size,
                s.len() == 1 ==> n == 1 && count == 1 && lab[0] == 0 && b == s && isolated(s, s[0]),
                s.len() == 1 && c == 1 ==> loops@[0]@ == chunk_table(s, s[0], grid_scale as int)[0],
            decreases count - c,
        {
            let mut pts: Vec<Point<i32>> = Vec::new();
            let mut j: usize = 0;
            while j < n
                invariant
                    n == b.len(),
                    b == border@,
                    b == border_chunks_of(s),
                    lab == labels@,
                    lab.len() == n,
                    corners_fit(s, grid_scale as int),
                    j <= n,
                    pts@ == members(b, lab, c as int, j as int),
                    forall|k: int| 0 <= k < pts@.len() ==> corners_fit_at(#[trigger] pts@[k], grid_scale as int),
                decreases n - j,
            {
                if labels[j] == c {
                    let ghost p0 = pts@;
                    proof {
                        assert(b.contains(b[j as int]));
                        s.lemma_filter_contains_rev(border_pred(s), b[j as int]);
                        let i = choose|i: int| 0 <= i < s.len() && s[i] == b[j as int];
                        assert(corners_fit_at(s[i], grid_scale as int));
                    }
                    pts.push(border[j]);
                    proof {
                        assert forall|k: int| 0 <= k < pts@.len() implies corners_fit_at(#[trigger] pts@[k], grid_scale as int) by {
                            if k < p0.len() {
                                assert(pts@[k] == p0[k]);
                            }
                        }
                    }
                }
                j = j + 1;
            }
            let l = cluster_loop(&pts, &grid, grid_scale, Ghost(s));
            let size = l.len();
            let ghost l0 = loops@;
            let ghost c0 = clusters@;
            proof {
                if s.len() == 1 {
                    reveal_with_fuel(members, 2);
                    assert(pts@ =~= s);
                }
            }
            clusters.push(pts);
            loops.push(l);
            assert(forall|i: int| 0 <= i < c ==> #[trigger] loops@[i] == l0[i]);
            assert(forall|i: int| 0 <= i < c ==> #[trigger] clusters@[i] == c0[i]);
            assert(loops@[c as int]@.len() == size);
            if size > largest_size {
                largest_size = size;
                largest = c;
            }
            c = c + 1;
        }
        proof {
            assert forall|cc: int| 0 <= cc < clusters@.len() implies #[trigger] clusters@[cc]@.len() > 0 by {
                assert(label_used(lab, cc));
                let j = choose|j: int| 0 <= j < lab.len() && lab[j] == cc;
                lemma_members_nonempty(b, lab, cc, n as int, j);
            }
            if s.len() == 1 {
                reveal_with_fuel(members, 2);
                assert(members(b, lab, 0, 1) =~= s);
                assert(clusters@[0]@ == members(b, lab, 0, n as int));
            }
        }
        BorderOutline { border, labels, clusters, loops, largest }
    }
}

/// The points as a flat `[x0, y0, x1, y1, ...]` sequence.
pub open spec fn flat(s: Seq<Point<i32>>) -> Seq<i32>
    decreases s.len(),
{
    if s.len() == 0 {
        seq![]
    } else {
        flat(s.drop_last()) + seq![s.last().x, s.last().y]
    }
}

/// The records of the first `k` clusters: chunk count, outline length,
/// the chunks, then the outline.
pub open spec fn cluster_records(cs: Seq<Vec<Point<i32>>>, ls: Seq<Vec<Point<i32>>>, k: int) -> Seq<i32>
    decreases k,
{
    if k <= 0 {
        seq![]
    } else {
        cluster_records(cs, ls, k - 1) + seq![cs[k - 1]@.len() as i32, ls[k - 1]@.len() as i32] + flat(
            cs[k - 1]@,
        ) + flat(ls[k - 1]@)
    }
}

/// The encoded border: label point, cluster count, then one record per cluster.
pub open spec fn border_encoding(o: BorderOutline, core: Point<i32>) -> Seq<i32> {
    seq![core.x, core.y, o.clusters@.len() as i32] + cluster_records(o.clusters@, o.loops@, o.clusters@.len() as int)
}

/// Appends the flat coordinates of `pts` to `buf`.
fn push_flat(buf: &mut Vec<i32>, pts: &Vec<Point<i32>>)
    ensures
        final(buf)@ == old(buf)@ + flat(pts@),
{
    let ghost b0 = buf@;
    let mut k: usize = 0;
    while k < pts.len()
        invariant
            k <= pts@.len(),
            buf@ == b0 + flat(pts@.subrange(0, k as int)),
        decreases pts.len() - k,
    {
        buf.push(pts[k].x);
        buf.push(pts[k].y);
        proof {
            let sub = pts@.subrange(0, k + 1);
            assert(sub.drop_last() =~= pts@.subrange(0, k as int));
            assert(sub.last() == pts@[k as int]);
        }
        k = k + 1;
        assert(buf@ =~= b0 + flat(pts@.subrange(0, k as int)));
    }
    assert(pts@.subrange(0, pts@.len() as int) =~= pts@);
}

impl BorderOutline {
    /// Every count of the encoding fits in an `i32`.
    pub open spec fn counts_fit(&self) -> bool {
        &&& self.clusters@.len() <= i32::MAX
        &&& forall|i: int| 0 <= i < self.clusters@.len() ==> #[trigger] self.clusters@[i]@.len() <= i32::MAX
        &&& forall|i: int| 0 <= i < self.loops@.len() ==> #[trigger] self.loops@[i]@.len() <= i32::MAX
    }

    /// Whether every count of the encoding fits in an `i32`.
    pub fn check_counts(&self) -> (r: bool)
        ensures
            r == self.counts_fit(),
    {
        if self.clusters.len() > i32::MAX as usize {
            return false;
        }
        let mut i: usize = 0;
        while i < self.clusters.len()
            invariant
                i <= self.clusters@.len(),
                forall|j: int| 0 <= j < i ==> #[trigger] self.clusters@[j]@.len() <= i32::MAX,
            decreases self.clusters.len() - i,
        {
            if self.clusters[i].len() > i32::MAX as usize {
                return false;
            }
            i = i + 1;
        }
        let mut i: usize = 0;
        while i < self.loops.len()
            invariant
                i <= self.loops@.len(),
                forall|j: int| 0 <= j < i ==> #[trigger] self.loops@[j]@.len() <= i32::MAX,
            decreases self.loops.len() - i,
        {
            if self.loops[i].len() > i32::MAX as usize {
                return false;
            }
            i = i + 1;
        }
        true
    }

    /// Encodes the outline with the label point `core` as
    /// `[cx, cy, K, (n1, e1, chunks1..., loop1...), ...]`; an outline without
    /// clusters and label point `(0, 0)` gives `[0, 0, 0]`.
    pub fn encode(&self, core: Point<i32>) -> (buf: Vec<i32>)
        requires
            self.loops@.len() == self.clusters@.len(),
            self.counts_fit(),
        ensures
            buf@ == border_encoding(*self, core),
    {
        let mut buf: Vec<i32> = Vec::new();
        buf.push(core.x);
        buf.push(core.y);
        buf.push(self.clusters.len() as i32);
        let ghost head = buf@;
        let mut i: usize = 0;
        while i < self.clusters.len()
            invariant
                i <= self.clusters@.len(),
                self.loops@.len() == self.clusters@.len(),
                self.counts_fit(),
                buf@ == head + cluster_records(self.clusters@, self.loops@, i as int),
            decreases self.clusters.len() - i,
        {
            buf.push(self.clusters[i].len() as i32);
            buf.push(self.loops[i].len() as i32);
            push_flat(&mut buf, &self.clusters[i]);
            push_flat(&mut buf, &self.loops[i]);
            i = i + 1;
            assert(buf@ =~= head + cluster_records(self.clusters@, self.loops@, i as int));
        }
        assert(head =~= seq![core.x, core.y, self.clusters@.len() as i32]);
        buf
    }
}

/// `path` is a chain of indices into `b` whose chunks are border-adjacent one
/// after the next.
pub open spec fn index_chain(s: Seq<Point<i32>>, b: Seq<Point<i32>>, path: Seq<int>) -> bool {
    &&& path.len() > 0
    &&& forall|k: int| 0 <= k < path.len() ==> 0 <= #[trigger] path[k] < b.len()
    &&& forall|k: int| 0 <= k < path.len() - 1 ==> border_adjacent(s, b[#[trigger] path[k]], b[path[k + 1]])
}

/// A chain of border-adjacent chunks of `b` joins chunk `i` to chunk `j`.
pub open spec fn chained(s: Seq<Point<i32>>, b: Seq<Point<i32>>, i: int, j: int) -> bool {
    exists|path: Seq<int>| #[trigger] index_chain(s, b, path) && path[0] == i && path.last() == j
}

/// Border adjacency does not depend on the order of the two chunks.
proof fn lemma_adjacent_symmetric(s: Seq<Point<i32>>, p: Point<i32>, q: Point<i32>)
    ensures
        border_adjacent(s, p, q) == border_adjacent(s, q, p),
{
}

proof fn lemma_chain_single(s: Seq<Point<i32>>, b: Seq<Point<i32>>, i: int)
    requires
        0 <= i < b.len(),
    ensures
        chained(s, b, i, i),
{
    let path = seq![i];
    assert(index_chain(s, b, path));
}

proof fn lemma_chain_extend(s: Seq<Point<i32>>, b: Seq<Point<i32>>, i: int, j: int, k: int)
    requires
        chained(s, b, i, j),
        0 <= k < b.len(),
        border_adjacent(s, b[j], b[k]),
    ensures
        chained(s, b, i, k),
{
    let path = choose|path: Seq<int>| #[trigger] index_chain(s, b, path) && path[0] == i && path.last() == j;
    let p2 = path.push(k);
    assert forall|m: int| 0 <= m < p2.len() - 1 implies border_adjacent(s, b[#[trigger] p2[m]], b[p2[m + 1]]) by {
        if m < path.len() - 1 {
            assert(p2[m] == path[m] && p2[m + 1] == path[m + 1]);
        }
    }
    assert(index_chain(s, b, p2));
}

proof fn lemma_chain_reverse(s: Seq<Point<i32>>, b: Seq<Point<i32>>, i: int, j: int)
    requires
        chained(s, b, i, j),
    ensures
        chained(s, b, j, i),
{
    let path = choose|path: Seq<int>| #[trigger] index_chain(s, b, path) && path[0] == i && path.last() == j;
    let n = path.len();
    let r = Seq::new(n, |m: int| path[n - 1 - m]);
    assert forall|m: int| 0 <= m < r.len() - 1 implies border_adjacent(s, b[#[trigger] r[m]], b[r[m + 1]]) by {
        let a = n - 2 - m;
        assert(border_adjacent(s, b[path[a]], b[path[a + 1]]));
        lemma_adjacent_symmetric(s, b[path[a]], b[path[a + 1]]);
    }
    assert(index_chain(s, b, r));
}

proof fn lemma_chain_concat(s: Seq<Point<i32>>, b: Seq<Point<i32>>, i: int, j: int, k: int)
    requires
        chained(s, b, i, j),
        chained(s, b, j, k),
    ensures
        chained(s, b, i, k),
{
    let p1 = choose|path: Seq<int>| #[trigger] index_chain(s, b, path) && path[0] == i && path.last() == j;
    let p2 = choose|path: Seq<int>| #[trigger] index_chain(s, b, path) && path[0] == j && path.last() == k;
    let p = p1 + p2.drop_first();
    assert forall|m: int| 0 <= m < p.len() implies 0 <= #[trigger] p[m] < b.len() by {
        if m >= p1.len() {
            assert(p[m] == p2[m - p1.len() + 1]);
        }
    }
    assert forall|m: int| 0 <= m < p.len() - 1 implies border_adjacent(s, b[#[trigger] p[m]], b[p[m + 1]]) by {
        if m < p1.len() - 1 {
            assert(p[m] == p1[m] && p[m + 1] == p1[m + 1]);
        } else if m == p1.len() - 1 {
            assert(p[m] == p2[0]);
            assert(p[m + 1] == p2[1]);
        } else {
            let q = m - p1.len() + 1;
            assert(p[m] == p2[q] && p[m + 1] == p2[q + 1]);
        }
    }
    if p2.len() == 1 {
        assert(p =~= p1);
    } else {
        assert(p.last() == p2.last());
    }
    assert(index_chain(s, b, p));
}

/// Labels are closed under border adjacency: a labeled chunk's border-adjacent
/// chunks carry its label.
pub open spec fn labels_closed(s: Seq<Point<i32>>, b: Seq<Point<i32>>, lab: Seq<Option<usize>>) -> bool {
    forall|i: int, j: int|
        0 <= i < b.len() && 0 <= j < b.len() && #[trigger] lab[i].is_some() && border_adjacent(s, b[i], b[j])
            ==> #[trigger] lab[j] == lab[i]
}

/// Under closed labels a chain keeps its first chunk's label.
proof fn lemma_chain_keeps_label(s: Seq<Point<i32>>, b: Seq<Point<i32>>, lab: Seq<Option<usize>>, i: int, j: int)
    requires
        lab.len() == b.len(),
        labels_closed(s, b, lab),
        chained(s, b, i, j),
        lab[i].is_some(),
    ensures
        lab[j] == lab[i],
{
    let path = choose|path: Seq<int>| #[trigger] index_chain(s, b, path) && path[0] == i && path.last() == j;
    lemma_chain_prefix_label(s, b, lab, path, path.len() - 1);
}

proof fn lemma_chain_prefix_label(s: Seq<Point<i32>>, b: Seq<Point<i32>>, lab: Seq<Option<usize>>, path: Seq<int>, m: int)
    requires
        lab.len() == b.len(),
        labels_closed(s, b, lab),
        index_chain(s, b, path),
        0 <= m < path.len(),
        lab[path[0]].is_some(),
    ensures
        lab[path[m]] == lab[path[0]],
    decreases m,
{
    if m > 0 {
        lemma_chain_prefix_label(s, b, lab, path, m - 1);
        assert(border_adjacent(s, b[path[m - 1]], b[path[m]]));
        assert(0 <= path[m] < b.len());
        assert(0 <= path[m - 1] < b.len());
    }
}

/// Some chunk carries label `c`.
pub open spec fn label_used(lab: Seq<usize>, c: int) -> bool {
    exists|j: int| 0 <= j < lab.len() && lab[j] == c
}

/// Labels each border chunk with its component under border adjacency,
/// found by breadth-first search: two chunks get the same label exactly
/// when a chain of border-adjacent chunks joins them, and every label below
/// `count` is used.
pub fn find_components(b: &Vec<Point<i32>>, grid: &ChunkGrid, Ghost(s): Ghost<Seq<Point<i32>>>) -> (r: (Vec<usize>, usize))
    requires
        grid.rasterizes(s),
    ensures
        r.0@.len() == b@.len(),
        forall|j: int| 0 <= j < b@.len() ==> #[trigger] r.0@[j] < r.1,
        forall|c: int| 0 <= c < r.1 ==> #[trigger] label_used(r.0@, c),
        forall|i: int, j: int| 0 <= i < b@.len() && 0 <= j < b@.len() ==> (#[trigger] r.0@[i] == #[trigger] r.0@[j] <==> chained(s, b@, i, j)),
{
    let n = b.len();
    let mut lab: Vec<Option<usize>> = Vec::new();
    let mut k: usize = 0;
    while k < n
        invariant
            k <= n,
            lab@.len() == k,
            forall|j: int| 0 <= j < k ==> #[trigger] lab@[j].is_none(),
        decreases n - k,
    {
        lab.push(None);
        k = k + 1;
    }
    let ghost mut seeds: Seq<int> = Seq::empty();
    let mut count: usize = 0;
    let mut start: usize = 0;
    assert forall|j: int| 0 <= j < n implies !(#[trigger] lab@[j].is_some()) by {
        assert(lab@[j].is_none());
    }
    assert(labels_closed(s, b@, lab@));
    while start < n
        invariant
            n == b@.len(),
            grid.rasterizes(s),
            start <= n,
            lab@.len() == n,
            count <= start,
            seeds.len() == count,
            forall|j: int| 0 <= j < start ==> #[trigger] lab@[j].is_some(),
            forall|j: int| 0 <= j < n && #[trigger] lab@[j].is_some() ==> lab@[j].unwrap() < count,
            forall|c: int| 0 <= c < count ==> 0 <= #[trigger] seeds[c] < n && lab@[seeds[c]] == Some(c as usize),
            forall|j: int| 0 <= j < n && #[trigger] lab@[j].is_some() ==> chained(s, b@, seeds[lab@[j].unwrap() as int], j),
            labels_closed(s, b@, lab@),
        decreases n - start,
    {
        if lab[start].is_none() {
            let cur = count;
            let ghost lab0 = lab@;
            lab.set(start, Some(cur));
            let mut queue: Vec<usize> = Vec::new();
            queue.push(start);
            let mut head: usize = 0;
            proof {
                assert(queue@[0] == start);
                assert forall|j: int| 0 <= j < n && #[trigger] lab@[j] == Some(cur) implies queue@.contains(j as usize) by {
                    if j != start {
                        assert(lab0[j] == Some(cur));
                        assert(lab0[j].is_some());
                        assert(lab0[j].unwrap() < count);
                    }
                }
                lemma_chain_single(s, b@, start as int);
                seeds = seeds.push(start as int);
                assert forall|i: int, j: int|
                    0 <= i < n && 0 <= j < n && #[trigger] lab@[i].is_some() && lab@[i] != Some(cur) && border_adjacent(s, b@[i], b@[j])
                        implies #[trigger] lab@[j] == lab@[i] by {
                    assert(lab0[i].is_some());
                    if j == start {
                        assert(lab0[j] == lab0[i]);
                    }
                }
            }
            while head < queue.len()
                invariant
                    n == b@.len(),
                    grid.rasterizes(s),
                    start < n,
                    cur == count,
                    cur < n,
                    seeds.len() == count + 1,
                    seeds[cur as int] == start,
                    lab@.len() == n,
                    head <= queue@.len(),
                    queue@.no_duplicates(),
                    queue@.len() <= n,
                    forall|j: int| 0 <= j < start ==> #[trigger] lab@[j].is_some(),
                    lab@[start as int] == Some(cur),
                    forall|q: int| 0 <= q < queue@.len() ==> #[trigger] queue@[q] < n && lab@[queue@[q] as int] == Some(cur),
                    forall|j: int| 0 <= j < n && #[trigger] lab@[j] == Some(cur) ==> queue@.contains(j as usize),
                    forall|j: int| 0 <= j < n && #[trigger] lab@[j].is_some() ==> lab@[j].unwrap() <= cur,
                    forall|c: int| 0 <= c <= cur ==> 0 <= #[trigger] seeds[c] < n && lab@[seeds[c]] == Some(c as usize),
                    forall|j: int| 0 <= j < n && #[trigger] lab@[j].is_some() ==> chained(s, b@, seeds[lab@[j].unwrap() as int], j),
                    forall|i: int, j: int|
                        0 <= i < n && 0 <= j < n && #[trigger] lab@[i].is_some() && lab@[i] != Some(cur) && border_adjacent(s, b@[i], b@[j])
                            ==> #[trigger] lab@[j] == lab@[i],
                    forall|q: int, j: int|
                        0 <= q < head && 0 <= j < n && border_adjacent(s, b@[#[trigger] queue@[q] as int], b@[j]) ==> #[trigger] lab@[j] == Some(cur),
                decreases n - head + (n - queue@.len()),
            {
                let i = queue[head];
                head = head + 1;
                let ghost qlen0 = queue@.len();
                assert(lab@[i as int].is_some());
                assert(chained(s, b@, seeds[cur as int], i as int));
                let mut j: usize = 0;
                while j < n
                    invariant
                        n == b@.len(),
                        grid.rasterizes(s),
                        start < n,
                        cur == count,
                        cur < n,
                        seeds.len() == count + 1,
                        seeds[cur as int] == start,
                        lab@.len() == n,
                        0 < head <= queue@.len(),
                        i == queue@[head - 1],
                        i < n,
                        lab@[i as int] == Some(cur),
                        j <= n,
                        forall|j2: int| 0 <= j2 < start ==> #[trigger] lab@[j2].is_some(),
                        lab@[start as int] == Some(cur),
                        forall|q: int| 0 <= q < queue@.len() ==> #[trigger] queue@[q] < n && lab@[queue@[q] as int] == Some(cur),
                        forall|j2: int| 0 <= j2 < n && #[trigger] lab@[j2] == Some(cur) ==> queue@.contains(j2 as usize),
                        forall|j2: int| 0 <= j2 < n && #[trigger] lab@[j2].is_some() ==> lab@[j2].unwrap() <= cur,
                        forall|c: int| 0 <= c <= cur ==> 0 <= #[trigger] seeds[c] < n && lab@[seeds[c]] == Some(c as usize),
                        forall|j2: int| 0 <= j2 < n && #[trigger] lab@[j2].is_some() ==> chained(s, b@, seeds[lab@[j2].unwrap() as int], j2),
                        forall|i2: int, j2: int|
                            0 <= i2 < n && 0 <= j2 < n && #[trigger] lab@[i2].is_some() && lab@[i2] != Some(cur) && border_adjacent(s, b@[i2], b@[j2])
                                ==> #[trigger] lab@[j2] == lab@[i2],
                        forall|q: int, j2: int|
                            0 <= q < head - 1 && 0 <= j2 < n && border_adjacent(s, b@[#[trigger] queue@[q] as int], b@[j2]) ==> #[trigger] lab@[j2] == Some(cur),
                        forall|j2: int| 0 <= j2 < j && border_adjacent(s, b@[i as int], b@[j2]) ==> #[trigger] lab@[j2] == Some(cur),
                        queue@.len() <= n,
                        queue@.no_duplicates(),
                        queue@.len() >= qlen0,
                        chained(s, b@, seeds[cur as int], i as int),
                    decreases n - j,
                {
                    if lab[j].is_none() && points_are_adjacent_border(b[i], b[j], grid, Ghost(s)) {
                        let ghost lab1 = lab@;
                        let ghost q1 = queue@;
                        lab.set(j, Some(cur));
                        queue.push(j);
                        proof {
                            lemma_chain_extend(s, b@, seeds[cur as int], i as int, j as int);
                            lemma_push_contains(q1, j);
                            assert forall|j2: int| 0 <= j2 < n && #[trigger] lab@[j2] == Some(cur) implies queue@.contains(j2 as usize) by {
                                if j2 != j {
                                    assert(lab1[j2] == Some(cur));
                                }
                            }
                            assert forall|j2: int| 0 <= j2 < n && #[trigger] lab@[j2].is_some() implies chained(s, b@, seeds[lab@[j2].unwrap() as int], j2) by {
                                if j2 != j {
                                    assert(lab1[j2].is_some());
                                }
                            }
                            assert forall|i2: int, j2: int|
                                0 <= i2 < n && 0 <= j2 < n && #[trigger] lab@[i2].is_some() && lab@[i2] != Some(cur) && border_adjacent(s, b@[i2], b@[j2])
                                    implies #[trigger] lab@[j2] == lab@[i2] by {
                                assert(lab1[i2] == lab@[i2]);
                                if j2 == j {
                                    assert(lab1[j2] == lab1[i2]);
                                }
                            }
                            assert(!q1.contains(j)) by {
                                if q1.contains(j) {
                                    let q = choose|q: int| 0 <= q < q1.len() && q1[q] == j;
                                    assert(lab1[q1[q] as int] == Some(cur));
                                }
                            }
                            assert(queue@.no_duplicates()) by {
                                assert forall|a: int, c: int| 0 <= a < queue@.len() && 0 <= c < queue@.len() && a != c implies queue@[a] != queue@[c] by {
                                    if a < q1.len() && c < q1.len() {
                                        assert(q1[a] != q1[c]);
                                    } else if a < q1.len() {
                                        assert(q1.contains(q1[a]));
                                    } else if c < q1.len() {
                                        assert(q1.contains(q1[c]));
                                    }
                                }
                            }
                            crate::coloring::lemma_order_count(queue@, n as int);
                        }
                    } else {
                        proof {
                            if border_adjacent(s, b@[i as int], b@[j as int]) && lab@[j as int].is_some() && lab@[j as int] != Some(cur) {
                                lemma_adjacent_symmetric(s, b@[i as int], b@[j as int]);
                                assert(lab@[i as int] == lab@[j as int]);
                            }
                        }
                    }
                    j = j + 1;
                }
            }
            proof {
                assert forall|i2: int, j2: int|
                    0 <= i2 < n && 0 <= j2 < n && #[trigger] lab@[i2].is_some() && border_adjacent(s, b@[i2], b@[j2])
                        implies #[trigger] lab@[j2] == lab@[i2] by {
                    if lab@[i2] == Some(cur) {
                        assert(queue@.contains(i2 as usize));
                        let q = choose|q: int| 0 <= q < queue@.len() && queue@[q] == i2 as usize;
                        assert(border_adjacent(s, b@[queue@[q] as int], b@[j2]));
                    }
                }
            }
            count = count + 1;
        }
        start = start + 1;
    }
    let mut out: Vec<usize> = Vec::new();
    let mut m: usize = 0;
    while m < n
        invariant
            n == b@.len(),
            lab@.len() == n,
            m <= n,
            out@.len() == m,
            forall|j: int| 0 <= j < n ==> #[trigger] lab@[j].is_some(),
            forall|j: int| 0 <= j < m ==> Some(#[trigger] out@[j]) == lab@[j],
        decreases n - m,
    {
        out.push(lab[m].unwrap());
        m = m + 1;
    }
    proof {
        assert forall|j: int| 0 <= j < n implies #[trigger] out@[j] < count by {
            assert(lab@[j].is_some());
        }
        assert forall|c: int| 0 <= c < count implies #[trigger] label_used(out@, c) by {
            assert(out@[seeds[c]] == c);
        }
        assert forall|i: int, j: int| 0 <= i < n && 0 <= j < n implies (#[trigger] out@[i] == #[trigger] out@[j] <==> chained(s, b@, i, j)) by {
            assert(lab@[i].is_some() && lab@[j].is_some());
            if out@[i] == out@[j] {
                let sd = seeds[out@[i] as int];
                assert(chained(s, b@, sd, i));
                assert(chained(s, b@, sd, j));
                lemma_chain_reverse(s, b@, sd, i);
                lemma_chain_concat(s, b@, i, sd, j);
            }
            if chained(s, b@, i, j) {
                lemma_chain_keeps_label(s, b@, lab@, i, j);
            }
        }
    }
    (out, count)
}

} // verus!
