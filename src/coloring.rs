//! Six-coloring of a territory adjacency graph by smallest-last ordering.

use vstd::prelude::*;

verus! {

/// Number of color slots.
pub const NUM_COLORS: u8 = 6;

/// An undirected graph as adjacency lists over vertices `0..adj.len()`:
/// every listed neighbor is another vertex, and adjacency is symmetric.
pub open spec fn is_graph(adj: Seq<Vec<usize>>) -> bool {
    &&& forall|v: int, j: int|
        0 <= v < adj.len() && 0 <= j < adj[v]@.len() ==> #[trigger] adj[v]@[j] < adj.len()
    &&& forall|v: int, j: int|
        0 <= v < adj.len() && 0 <= j < adj[v]@.len() ==> adj[#[trigger] adj[v]@[j] as int]@.contains(
            v as usize,
        )
    &&& forall|v: int, j: int| 0 <= v < adj.len() && 0 <= j < adj[v]@.len() ==> #[trigger] adj[v]@[j] != v
}

/// No edge joins two vertices of the same color.
pub open spec fn proper(adj: Seq<Vec<usize>>, colors: Seq<Option<u8>>) -> bool {
    forall|v: int, j: int|
        0 <= v < adj.len() && 0 <= j < adj[v]@.len() && colors[v].is_some() ==> colors[#[trigger] adj[v]@[j] as int]
            != colors[v]
}

/// Every color slot in `0..6` is held by some neighbor of `v`.
pub open spec fn all_colors_around(adj: Seq<Vec<usize>>, colors: Seq<Option<u8>>, v: int) -> bool {
    forall|c: u8| c < NUM_COLORS ==> #[trigger] color_around(adj, colors, v, c)
}

/// Some neighbor of `v` holds color `c`.
pub open spec fn color_around(adj: Seq<Vec<usize>>, colors: Seq<Option<u8>>, v: int, c: u8) -> bool {
    exists|j: int| 0 <= j < adj[v]@.len() && colors[#[trigger] adj[v]@[j] as int] == Some(c)
}

/// The number of entries of `nbrs` that are not in `gone`.
pub open spec fn degree_left(nbrs: Seq<usize>, gone: Seq<usize>) -> nat
    decreases nbrs.len(),
{
    if nbrs.len() == 0 {
        0
    } else {
        degree_left(nbrs.drop_last(), gone) + if gone.contains(nbrs.last()) {
            0nat
        } else {
            1nat
        }
    }
}

/// The vertex at position `i` of the order has the least degree among the
/// vertices not removed before it.
pub open spec fn smallest_at(adj: Seq<Vec<usize>>, order: Seq<usize>, i: int) -> bool {
    forall|w: usize|
        w < adj.len() && !order.subrange(0, i).contains(w) ==> degree_left(
            adj[order[i] as int]@,
            order.subrange(0, i),
        ) <= #[trigger] degree_left(adj[w as int]@, order.subrange(0, i))
}

/// The number of neighbors of `v` not yet removed.
fn current_degree(adj: &Vec<Vec<usize>>, removed: &Vec<bool>, v: usize, Ghost(gone): Ghost<Seq<usize>>) -> (d: usize)
    requires
        v < adj@.len(),
        is_graph(adj@),
        removed@.len() == adj@.len(),
        forall|w: int| 0 <= w < adj@.len() ==> (#[trigger] removed@[w] <==> gone.contains(w as usize)),
    ensures
        d == degree_left(adj@[v as int]@, gone),
{
    let mut d: usize = 0;
    let mut j: usize = 0;
    while j < adj[v].len()
        invariant
            v < adj@.len(),
            is_graph(adj@),
            removed@.len() == adj@.len(),
            forall|w: int| 0 <= w < adj@.len() ==> (#[trigger] removed@[w] <==> gone.contains(w as usize)),
            j <= adj@[v as int]@.len(),
            d <= j,
            d == degree_left(adj@[v as int]@.subrange(0, j as int), gone),
        decreases adj@[v as int]@.len() - j,
    {
        let u = adj[v][j];
        assert(adj@[v as int]@[j as int] < adj@.len());
        proof {
            let sub = adj@[v as int]@.subrange(0, j + 1);
            assert(sub.drop_last() =~= adj@[v as int]@.subrange(0, j as int));
            assert(sub.last() == u);
        }
        if !removed[u] {
            d = d + 1;
        }
        j = j + 1;
    }
    assert(adj@[v as int]@.subrange(0, j as int) =~= adj@[v as int]@);
    d
}

/// Orders the vertices smallest-last: repeatedly removes a vertex of least
/// degree among those left. Every vertex appears exactly once.
pub fn smallest_last_order(adj: &Vec<Vec<usize>>) -> (order: Vec<usize>)
    requires
        is_graph(adj@),
    ensures
        order@.len() == adj@.len(),
        order@.no_duplicates(),
        forall|i: int| 0 <= i < order@.len() ==> #[trigger] order@[i] < adj@.len(),
        forall|v: usize| v < adj@.len() ==> #[trigger] order@.contains(v),
        forall|i: int| 0 <= i < order@.len() ==> #[trigger] smallest_at(adj@, order@, i),
{
    let n = adj.len();
    let mut removed: Vec<bool> = Vec::new();
    let mut i: usize = 0;
    while i < n
        invariant
            i <= n,
            n == adj@.len(),
            removed@.len() == i,
            forall|v: int| 0 <= v < i ==> !#[trigger] removed@[v],
        decreases n - i,
    {
        removed.push(false);
        i = i + 1;
    }
    let mut order: Vec<usize> = Vec::new();
    while order.len() < n
        invariant
            n == adj@.len(),
            is_graph(adj@),
            removed@.len() == n,
            order@.len() <= n,
            order@.no_duplicates(),
            forall|i: int| 0 <= i < order@.len() ==> #[trigger] order@[i] < n,
            forall|v: int| 0 <= v < n ==> (#[trigger] removed@[v] <==> order@.contains(v as usize)),
            forall|i: int| 0 <= i < order@.len() ==> #[trigger] smallest_at(adj@, order@, i),
        ensures
            order@.len() == n,
        decreases n - order@.len(),
    {
        let mut best: usize = n;
        let mut best_degree: usize = 0;
        let mut v: usize = 0;
        while v < n
            invariant
                n == adj@.len(),
                is_graph(adj@),
                removed@.len() == n,
                forall|w: int| 0 <= w < n ==> (#[trigger] removed@[w] <==> order@.contains(w as usize)),
                v <= n,
                best == n || (best < n && !removed@[best as int]),
                best == n ==> forall|w: int| 0 <= w < v ==> #[trigger] removed@[w],
                best < n ==> best_degree == degree_left(adj@[best as int]@, order@),
                best < n ==> forall|w: usize| w < v && !removed@[w as int] ==> best_degree <= #[trigger] degree_left(adj@[w as int]@, order@),
            decreases n - v,
        {
            if !removed[v] {
                let d = current_degree(adj, &removed, v, Ghost(order@));
                if best == n || d < best_degree {
                    best = v;
                    best_degree = d;
                }
            }
            v = v + 1;
        }
        if best == n {
            proof {
                assert forall|w: usize| w < n implies #[trigger] order@.contains(w) by {
                    assert(removed@[w as int]);
                }
                lemma_covering_order(order@, n as int);
            }
            break;
        }
        let ghost o0 = order@;
        assert(!order@.contains(best));
        proof {
            assert forall|w: usize| w < n && !o0.contains(w) implies degree_left(adj@[best as int]@, o0) <= #[trigger] degree_left(adj@[w as int]@, o0) by {
                assert(!removed@[w as int]);
            }
        }
        removed.set(best, true);
        order.push(best);
        proof {
            assert(order@.subrange(0, o0.len() as int) =~= o0);
            assert(order@[o0.len() as int] == best);
            assert(smallest_at(adj@, order@, o0.len() as int));
            assert forall|i: int| 0 <= i < order@.len() implies #[trigger] smallest_at(adj@, order@, i) by {
                if i < o0.len() {
                    assert(order@.subrange(0, i) =~= o0.subrange(0, i));
                    assert(order@[i] == o0[i]);
                    assert(smallest_at(adj@, o0, i));
                }
            }
        }
        proof {
            assert forall|i: int, j: int| 0 <= i < order@.len() && 0 <= j < order@.len() && i != j implies order@[i] != order@[j] by {
                if i == o0.len() {
                    assert(order@[j] == o0[j]);
                    assert(o0.contains(o0[j]));
                } else if j == o0.len() {
                    assert(order@[i] == o0[i]);
                    assert(o0.contains(o0[i]));
                } else {
                    assert(order@[i] == o0[i]);
                    assert(order@[j] == o0[j]);
                }
            }
            lemma_order_count(o0, n as int);
        }
        proof {
            assert forall|w: int| 0 <= w < n implies (#[trigger] removed@[w] <==> order@.contains(w as usize)) by {
                if order@.contains(w as usize) && w != best {
                    let k = choose|k: int| 0 <= k < order@.len() && order@[k] == w as usize;
                    assert(o0[k] == w as usize);
                }
                if o0.contains(w as usize) {
                    let k = choose|k: int| 0 <= k < o0.len() && o0[k] == w as usize;
                    assert(order@[k] == w as usize);
                }
                if w == best {
                    assert(order@[o0.len() as int] == best);
                }
            }
        }
    }
    proof {
        lemma_order_count(order@, n as int);
    }
    order
}

/// The vertices of a list, as integers.
spec fn as_ints(order: Seq<usize>) -> Seq<int> {
    order.map_values(|x: usize| x as int)
}

/// A duplicate-free list of vertices below `n` has at most `n` entries, and
/// exactly `n` only when it holds every vertex.
pub proof fn lemma_order_count(order: Seq<usize>, n: int)
    requires
        n >= 0,
        order.no_duplicates(),
        forall|i: int| 0 <= i < order.len() ==> #[trigger] order[i] < n,
    ensures
        order.len() <= n,
        order.len() == n ==> forall|v: usize| v < n ==> #[trigger] order.contains(v),
{
    let si = as_ints(order);
    assert(si.no_duplicates()) by {
        assert forall|i: int, j: int| 0 <= i < si.len() && 0 <= j < si.len() && i != j implies si[i] != si[j] by {
            assert(order[i] != order[j]);
        }
    }
    si.unique_seq_to_set();
    let full = vstd::set_lib::set_int_range(0, n);
    vstd::set_lib::lemma_int_range(0, n);
    assert(si.to_set().subset_of(full)) by {
        assert forall|x: int| si.to_set().contains(x) implies full.contains(x) by {
            let i = choose|i: int| 0 <= i < si.len() && si[i] == x;
            assert(order[i] < n);
        }
    }
    vstd::set_lib::lemma_len_subset(si.to_set(), full);
    if order.len() == n {
        assert forall|v: usize| v < n implies #[trigger] order.contains(v) by {
            if !order.contains(v) {
                let less = full.remove(v as int);
                assert(si.to_set().subset_of(less)) by {
                    assert forall|x: int| si.to_set().contains(x) implies less.contains(x) by {
                        let i = choose|i: int| 0 <= i < si.len() && si[i] == x;
                        assert(order[i] < n);
                        if x == v {
                            assert(order[i] == v);
                        }
                    }
                }
                vstd::set_lib::lemma_len_subset(si.to_set(), less);
            }
        }
    }
}

/// A list that holds every vertex below `n` has at least `n` entries.
proof fn lemma_covering_order(order: Seq<usize>, n: int)
    requires
        0 <= n <= usize::MAX,
        forall|v: usize| v < n ==> #[trigger] order.contains(v),
    ensures
        order.len() >= n,
{
    let si = as_ints(order);
    let full = vstd::set_lib::set_int_range(0, n);
    vstd::set_lib::lemma_int_range(0, n);
    assert(full.subset_of(si.to_set())) by {
        assert forall|x: int| full.contains(x) implies si.to_set().contains(x) by {
            assert(order.contains(x as usize));
            let i = choose|i: int| 0 <= i < order.len() && order[i] == x as usize;
            assert(si[i] == x);
        }
    }
    si.lemma_cardinality_of_set();
    vstd::set_lib::lemma_len_subset(full, si.to_set());
}

/// The adjacency rows as sequences.
pub open spec fn rows_of(adj: Seq<Vec<usize>>) -> Seq<Seq<usize>> {
    adj.map_values(|r: Vec<usize>| r@)
}

/// The graph is `k`-degenerate: every set of removed vertices that leaves
/// some vertex leaves one with at most `k` neighbors left. Planar graphs are
/// 5-degenerate.
pub open spec fn degenerate(rows: Seq<Seq<usize>>, k: nat) -> bool {
    forall|gone: Seq<usize>| #[trigger] leaves_vertex(rows, gone) ==> leaves_low_vertex(rows, gone, k)
}

/// Some vertex is not in `gone`.
pub open spec fn leaves_vertex(rows: Seq<Seq<usize>>, gone: Seq<usize>) -> bool {
    exists|v: usize| v < rows.len() && !gone.contains(v)
}

/// Some vertex not in `gone` has at most `k` neighbors outside `gone`.
pub open spec fn leaves_low_vertex(rows: Seq<Seq<usize>>, gone: Seq<usize>, k: nat) -> bool {
    exists|w: usize| w < rows.len() && !gone.contains(w) && #[trigger] degree_left(rows[w as int], gone) <= k
}

/// Vertex `v` has the least color that none of its neighbors holds below it:
/// every smaller slot is held by a neighbor.
pub open spec fn least_color(adj: Seq<Vec<usize>>, colors: Seq<Option<u8>>, v: int) -> bool {
    forall|d: u8| d < colors[v].unwrap() ==> #[trigger] color_around(adj, colors, v, d)
}

/// Distinct positions whose entries are not gone each count toward the degree left.
proof fn lemma_degree_left_at_least(nbrs: Seq<usize>, gone: Seq<usize>, idx: Set<int>)
    requires
        idx.finite(),
        forall|j: int| #[trigger] idx.contains(j) ==> 0 <= j < nbrs.len() && !gone.contains(nbrs[j]),
    ensures
        degree_left(nbrs, gone) >= idx.len(),
    decreases nbrs.len(),
{
    if nbrs.len() == 0 {
        if idx.len() > 0 {
            let j = idx.choose();
            assert(idx.contains(j));
        }
    } else {
        let last = nbrs.len() - 1;
        let rest = idx.remove(last);
        assert forall|j: int| #[trigger] rest.contains(j) implies 0 <= j < nbrs.drop_last().len() && !gone.contains(nbrs.drop_last()[j]) by {
            assert(idx.contains(j));
        }
        lemma_degree_left_at_least(nbrs.drop_last(), gone, rest);
        if idx.contains(last) {
            assert(!gone.contains(nbrs.last()));
        } else {
            assert(rest =~= idx);
        }
    }
}

/// Colors the vertices with slots `0..6` so that no edge joins two equal
/// colors: vertices are taken in reverse smallest-last order and each gets
/// the least slot that no colored neighbor holds, so every smaller slot is
/// held by a neighbor. A vertex stays uncolored only when its neighbors hold
/// all six slots; on a `k`-degenerate graph with `k` at most five (every
/// planar graph is 5-degenerate) every vertex gets a color of at most `k`.
pub fn graph_6_coloring(adj: &Vec<Vec<usize>>) -> (colors: Vec<Option<u8>>)
    requires
        is_graph(adj@),
    ensures
        colors@.len() == adj@.len(),
        forall|v: int| 0 <= v < colors@.len() && #[trigger] colors@[v].is_some() ==> colors@[v].unwrap() < NUM_COLORS,
        proper(adj@, colors@),
        forall|v: int| 0 <= v < colors@.len() && #[trigger] colors@[v].is_none() ==> all_colors_around(adj@, colors@, v),
        forall|v: int| 0 <= v < colors@.len() && #[trigger] colors@[v].is_some() ==> least_color(adj@, colors@, v),
        forall|k: nat|
            k <= 5 && #[trigger] degenerate(rows_of(adj@), k) ==> forall|v: int|
                0 <= v < colors@.len() ==> (#[trigger] colors@[v]).is_some() && colors@[v].unwrap() <= k,
{
    let n = adj.len();
    let order = smallest_last_order(adj);
    let mut colors: Vec<Option<u8>> = Vec::new();
    let mut i: usize = 0;
    while i < n
        invariant
            i <= n,
            n == adj@.len(),
            colors@.len() == i,
            forall|v: int| 0 <= v < i ==> #[trigger] colors@[v].is_none(),
        decreases n - i,
    {
        colors.push(None);
        i = i + 1;
    }
    let mut idx: usize = n;
    proof {
        assert forall|v: int| 0 <= v < n implies !(#[trigger] colors@[v].is_some()) by {
            assert(colors@[v].is_none());
        }
    }
    while idx > 0
        invariant
            idx <= n,
            n == adj@.len(),
            is_graph(adj@),
            colors@.len() == n,
            order@.len() == n,
            order@.no_duplicates(),
            forall|i: int| 0 <= i < n ==> #[trigger] order@[i] < n,
            forall|v: usize| v < n ==> #[trigger] order@.contains(v),
            forall|i: int| 0 <= i < idx ==> #[trigger] colors@[order@[i] as int].is_none(),
            forall|v: int| 0 <= v < n && #[trigger] colors@[v].is_some() ==> colors@[v].unwrap() < NUM_COLORS,
            proper(adj@, colors@),
            forall|i: int| idx <= i < n && #[trigger] colors@[order@[i] as int].is_none() ==> all_colors_around(adj@, colors@, order@[i] as int),
            forall|i: int| 0 <= i < n ==> #[trigger] smallest_at(adj@, order@, i),
            forall|i: int| idx <= i < n && #[trigger] colors@[order@[i] as int].is_some() ==> least_color(adj@, colors@, order@[i] as int),
            forall|k: nat|
                k <= 5 && #[trigger] degenerate(rows_of(adj@), k) ==> forall|i: int|
                    idx <= i < n ==> (#[trigger] colors@[order@[i] as int]).is_some() && colors@[order@[i] as int].unwrap() <= k,
        decreases idx,
    {
        idx = idx - 1;
        let v = order[idx];
        let mut used: Vec<bool> = vec![false, false, false, false, false, false];
        let mut j: usize = 0;
        while j < adj[v].len()
            invariant
                v < n,
                n == adj@.len(),
                is_graph(adj@),
                colors@.len() == n,
                forall|w: int| 0 <= w < n && #[trigger] colors@[w].is_some() ==> colors@[w].unwrap() < NUM_COLORS,
                j <= adj@[v as int]@.len(),
                used@.len() == 6,
                forall|c: u8| c < NUM_COLORS ==> (#[trigger] used@[c as int] <==> exists|k: int| 0 <= k < j && colors@[#[trigger] adj@[v as int]@[k] as int] == Some(c)),
            decreases adj@[v as int]@.len() - j,
        {
            let u = adj[v][j];
            assert(u < n);
            let ghost used0 = used@;
            if let Some(c) = colors[u] {
                used.set(c as usize, true);
            }
            proof {
                assert forall|c: u8| c < NUM_COLORS implies (#[trigger] used@[c as int] <==> exists|k: int| 0 <= k < j + 1 && colors@[#[trigger] adj@[v as int]@[k] as int] == Some(c)) by {
                    if colors@[u as int] == Some(c) {
                        assert(adj@[v as int]@[j as int] == u);
                    }
                    if exists|k: int| 0 <= k < j + 1 && colors@[#[trigger] adj@[v as int]@[k] as int] == Some(c) {
                        let k = choose|k: int| 0 <= k < j + 1 && colors@[#[trigger] adj@[v as int]@[k] as int] == Some(c);
                        if k < j {
                            assert(used0[c as int]);
                        }
                    }
                }
            }
            j = j + 1;
        }
        let mut pick: Option<u8> = None;
        let mut c: u8 = 0;
        while c < NUM_COLORS
            invariant
                c <= NUM_COLORS,
                used@.len() == 6,
                pick.is_none() ==> forall|d: u8| d < c ==> #[trigger] used@[d as int],
                pick.is_some() ==> pick.unwrap() < NUM_COLORS && !used@[pick.unwrap() as int],
                pick.is_some() ==> forall|d: u8| d < pick.unwrap() ==> #[trigger] used@[d as int],
            decreases NUM_COLORS - c,
        {
            if pick.is_none() && !used[c as usize] {
                pick = Some(c);
            }
            c = c + 1;
        }
        let ghost c0 = colors@;
        proof {
            assert(c0[v as int].is_none()) by {
                assert(order@[idx as int] == v);
            }
            assert forall|i: int| 0 <= i <= idx implies #[trigger] c0[order@[i] as int].is_none() by {
                if i < idx {
                    assert(c0[order@[i] as int].is_none());
                }
            }
            let gone = order@.subrange(0, idx as int);
            let m: nat = if pick.is_some() { pick.unwrap() as nat } else { 6 };
            assert forall|d: u8| d < m implies #[trigger] used@[d as int] by {}
            lemma_full_neighborhood_degree(adj@, c0, order@, idx as int, used@, m);
            assert(rows_of(adj@)[v as int] == adj@[v as int]@);
            assert forall|k: nat| k <= 5 && #[trigger] degenerate(rows_of(adj@), k) implies pick.is_some() && pick.unwrap() <= k by {
                assert(smallest_at(adj@, order@, idx as int));
                assert(leaves_vertex(rows_of(adj@), gone)) by {
                    assert(v < adj@.len() && !gone.contains(v));
                }
                assert(leaves_low_vertex(rows_of(adj@), gone, k));
                let w = choose|w: usize| w < rows_of(adj@).len() && !gone.contains(w) && #[trigger] degree_left(rows_of(adj@)[w as int], gone) <= k;
                assert(rows_of(adj@)[w as int] == adj@[w as int]@);
                assert(degree_left(adj@[v as int]@, gone) <= degree_left(adj@[w as int]@, gone));
            }
        }
        colors.set(v, pick);
        proof {
            assert forall|w: int, k: int|
                0 <= w < adj@.len() && 0 <= k < adj@[w]@.len() && colors@[w].is_some() implies colors@[#[trigger] adj@[w]@[k] as int]
                    != colors@[w] by {
                let u = adj@[w]@[k] as int;
                if w == v {
                    assert(u != v);
                    let cc = pick.unwrap();
                    if colors@[u] == Some(cc) {
                        assert(used@[cc as int]);
                    }
                } else if u == v {
                    if colors@[u] == colors@[w] {
                        let cc = colors@[w].unwrap();
                        assert(adj@[u]@.contains(w as usize));
                        let k2 = choose|k2: int| 0 <= k2 < adj@[u]@.len() && adj@[u]@[k2] == w as usize;
                        assert(c0[adj@[v as int]@[k2] as int] == Some(cc));
                        assert(used@[cc as int]);
                    }
                } else {
                    assert(c0[u] != c0[w]);
                }
            }
            assert forall|i: int| 0 <= i < idx implies #[trigger] colors@[order@[i] as int].is_none() by {
                assert(order@[i] != v);
            }
            assert forall|i: int| idx <= i < n && #[trigger] colors@[order@[i] as int].is_some() implies least_color(adj@, colors@, order@[i] as int) by {
                let w = order@[i] as int;
                if i == idx {
                    assert forall|d: u8| d < colors@[w].unwrap() implies #[trigger] color_around(adj@, colors@, w, d) by {
                        assert(used@[d as int]);
                        let k = choose|k: int| 0 <= k < adj@[v as int]@.len() && c0[#[trigger] adj@[v as int]@[k] as int] == Some(d);
                        assert(adj@[v as int]@[k] != v);
                    }
                } else {
                    assert(order@[i] != v);
                    assert(least_color(adj@, c0, w));
                    assert forall|d: u8| d < colors@[w].unwrap() implies #[trigger] color_around(adj@, colors@, w, d) by {
                        assert(color_around(adj@, c0, w, d));
                        let k = choose|k: int| 0 <= k < adj@[w]@.len() && c0[#[trigger] adj@[w]@[k] as int] == Some(d);
                        assert(adj@[w]@[k] != v);
                    }
                }
            }
            assert forall|k: nat| k <= 5 && #[trigger] degenerate(rows_of(adj@), k) implies forall|i: int|
                idx <= i < n ==> (#[trigger] colors@[order@[i] as int]).is_some() && colors@[order@[i] as int].unwrap() <= k by {
                assert forall|i: int| idx <= i < n implies (#[trigger] colors@[order@[i] as int]).is_some() && colors@[order@[i] as int].unwrap() <= k by {
                    if i != idx {
                        assert(order@[i] != v);
                        assert(c0[order@[i] as int].is_some());
                    }
                }
            }
            assert forall|i: int| idx <= i < n && #[trigger] colors@[order@[i] as int].is_none() implies all_colors_around(adj@, colors@, order@[i] as int) by {
                let w = order@[i] as int;
                if i == idx {
                    assert forall|cc: u8| cc < NUM_COLORS implies #[trigger] color_around(adj@, colors@, w, cc) by {
                        assert(used@[cc as int]);
                        let k = choose|k: int| 0 <= k < adj@[v as int]@.len() && c0[#[trigger] adj@[v as int]@[k] as int] == Some(cc);
                        assert(adj@[v as int]@[k] != v);
                    }
                } else {
                    assert(order@[i] != v);
                    assert(all_colors_around(adj@, c0, w));
                    assert forall|cc: u8| cc < NUM_COLORS implies #[trigger] color_around(adj@, colors@, w, cc) by {
                        assert(color_around(adj@, c0, w, cc));
                        let k = choose|k: int| 0 <= k < adj@[w]@.len() && c0[#[trigger] adj@[w]@[k] as int] == Some(cc);
                        assert(adj@[w]@[k] != v);
                    }
                }
            }
        }
    }
    proof {
        assert forall|k: nat| k <= 5 && #[trigger] degenerate(rows_of(adj@), k) implies forall|v: int|
            0 <= v < colors@.len() ==> (#[trigger] colors@[v]).is_some() && colors@[v].unwrap() <= k by {
            assert forall|v: int| 0 <= v < colors@.len() implies (#[trigger] colors@[v]).is_some() && colors@[v].unwrap() <= k by {
                assert(order@.contains(v as usize));
                let i = choose|i: int| 0 <= i < n && order@[i] == v as usize;
                assert(colors@[order@[i] as int].is_some());
            }
        }
        assert forall|v: int| 0 <= v < colors@.len() && #[trigger] colors@[v].is_some() implies least_color(adj@, colors@, v) by {
            assert(order@.contains(v as usize));
            let i = choose|i: int| 0 <= i < n && order@[i] == v as usize;
            assert(colors@[order@[i] as int].is_some());
        }
        assert forall|v: int| 0 <= v < colors@.len() && #[trigger] colors@[v].is_none() implies all_colors_around(adj@, colors@, v) by {
            assert(order@.contains(v as usize));
            let i = choose|i: int| 0 <= i < n && order@[i] == v as usize;
        }
    }
    colors
}

/// When the neighbors of the vertex at position `idx` already hold the
/// colors below `m`, it had at least `m` neighbors left at its removal.
proof fn lemma_full_neighborhood_degree(adj: Seq<Vec<usize>>, colors: Seq<Option<u8>>, order: Seq<usize>, idx: int, used: Seq<bool>, m: nat)
    requires
        is_graph(adj),
        colors.len() == adj.len(),
        order.len() == adj.len(),
        order.no_duplicates(),
        0 <= idx < order.len(),
        forall|i: int| 0 <= i < order.len() ==> #[trigger] order[i] < adj.len(),
        forall|i: int| 0 <= i <= idx ==> #[trigger] colors[order[i] as int].is_none(),
        forall|v: usize| v < adj.len() ==> #[trigger] order.contains(v),
        used.len() == 6,
        m <= 6,
        forall|c: u8| c < m ==> #[trigger] used[c as int],
        forall|c: u8| c < NUM_COLORS ==> (#[trigger] used[c as int] <==> exists|k: int| 0 <= k < adj[order[idx] as int]@.len() && colors[#[trigger] adj[order[idx] as int]@[k] as int] == Some(c)),
    ensures
        degree_left(adj[order[idx] as int]@, order.subrange(0, idx)) >= m,
        !order.subrange(0, idx).contains(order[idx]),
{
    let v = order[idx] as int;
    let gone = order.subrange(0, idx);
    let nb = adj[v]@;
    let pos = |c: u8| choose|k: int| 0 <= k < nb.len() && colors[nb[k] as int] == Some(c);
    let js = Seq::new(m, |a: int| pos(a as u8));
    assert forall|a: int| 0 <= a < m implies 0 <= #[trigger] js[a] < nb.len() && colors[nb[js[a]] as int] == Some(a as u8) by {
        assert(used[(a as u8) as int]);
    }
    assert(js.no_duplicates()) by {
        assert forall|a: int, b: int| 0 <= a < m && 0 <= b < m && a != b implies js[a] != js[b] by {
            assert(colors[nb[js[a]] as int] == Some(a as u8));
            assert(colors[nb[js[b]] as int] == Some(b as u8));
        }
    }
    js.unique_seq_to_set();
    let idxs = js.to_set();
    assert forall|j: int| #[trigger] idxs.contains(j) implies 0 <= j < nb.len() && !gone.contains(nb[j]) by {
        let a = choose|a: int| 0 <= a < m && js[a] == j;
        let u = nb[j];
        assert(colors[u as int].is_some());
        if gone.contains(u) {
            let i = choose|i: int| 0 <= i < idx && gone[i] == u;
            assert(order[i] == u);
        }
    }
    lemma_degree_left_at_least(nb, gone, idxs);
    assert(order.contains(order[idx]));
    assert(!gone.contains(order[idx])) by {
        if gone.contains(order[idx]) {
            let i = choose|i: int| 0 <= i < idx && gone[i] == order[idx];
            assert(order[i] == order[idx]);
        }
    }
}

} // verus!
