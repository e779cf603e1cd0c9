use vstd::prelude::*;
use crate::units::{fits_i32, TilePoint, TileVector};
use crate::tile_grid::{TileGrid, spec_get, index_fits, lemma_cell_unique, lemma_cell_index};
use crate::tiles::{add_to_float, can_grow, float_at, float_wf, grown_box, rows, TileFloat};

verus! {

/// The tile at integer coordinates `(x, y)`, as `TileGrid::get` finds it.
pub open spec fn tile_at<T>(g: TileGrid<T>, x: int, y: int) -> Option<T> {
    if 0 <= x < (g.stride as i32) && y >= 0 && 0 <= y * (g.stride as i32) + x < g.tiles@.len() {
        Some(g.tiles@[y * (g.stride as i32) + x])
    } else {
        None
    }
}

/// Whether the list holds a point at `(x, y)`.
pub open spec fn has_pt(s: Seq<TilePoint>, x: int, y: int) -> bool {
    exists|i: int| 0 <= i < s.len() && s[i].x == x && s[i].y == y
}

/// Whether two points are next to each other horizontally or vertically.
pub open spec fn adjacent(a: TilePoint, b: TilePoint) -> bool {
    (a.x == b.x && (a.y - b.y == 1 || b.y - a.y == 1)) || (a.y == b.y && (a.x - b.x == 1 || b.x - a.x == 1))
}

/// Whether no two entries of the list are at the same coordinates.
pub open spec fn distinct_pts(s: Seq<TilePoint>) -> bool {
    forall|i: int, j: int| 0 <= i < j < s.len() ==> !(s[i].x == s[j].x && s[i].y == s[j].y)
}

/// Whether every in-grid neighbour of a listed point that holds `c` is listed too.
pub open spec fn closed_under_neighbours(g: TileGrid<char>, s: Seq<TilePoint>, c: char) -> bool {
    forall|i: int| 0 <= i < s.len() ==> {
        let p = #[trigger] s[i];
        &&& (tile_at(g, p.x + 1, p.y as int) == Some(c) ==> has_pt(s, p.x + 1, p.y as int))
        &&& (tile_at(g, p.x as int, p.y + 1) == Some(c) ==> has_pt(s, p.x as int, p.y + 1))
        &&& (tile_at(g, p.x - 1, p.y as int) == Some(c) ==> has_pt(s, p.x - 1, p.y as int))
        &&& (tile_at(g, p.x as int, p.y - 1) == Some(c) ==> has_pt(s, p.x as int, p.y - 1))
    }
}

/// Whether each listed point after the first is next to an earlier one, so every
/// point is joined to the first by a chain of neighbours.
pub open spec fn grown_from_first(s: Seq<TilePoint>) -> bool {
    forall|i: int| 0 < i < s.len() ==> #[trigger] has_earlier_neighbour(s, i)
}

/// Whether entry `i` is next to an earlier entry.
pub open spec fn has_earlier_neighbour(s: Seq<TilePoint>, i: int) -> bool {
    exists|j: int| 0 <= j < i && adjacent(s[j], s[i])
}

/// Whether every in-grid neighbour holding `c` of a point in `r` is in `r` or still waiting.
#[verifier::opaque]
pub open spec fn frontier_ok(g: TileGrid<char>, c: char, r: Seq<TilePoint>, waiting: Seq<TilePoint>) -> bool {
    forall|i: int| 0 <= i < r.len() ==> {
        let p = #[trigger] r[i];
        &&& (tile_at(g, p.x + 1, p.y as int) == Some(c) ==> has_pt(r, p.x + 1, p.y as int) || has_pt(waiting, p.x + 1, p.y as int))
        &&& (tile_at(g, p.x as int, p.y + 1) == Some(c) ==> has_pt(r, p.x as int, p.y + 1) || has_pt(waiting, p.x as int, p.y + 1))
        &&& (tile_at(g, p.x - 1, p.y as int) == Some(c) ==> has_pt(r, p.x - 1, p.y as int) || has_pt(waiting, p.x - 1, p.y as int))
        &&& (tile_at(g, p.x as int, p.y - 1) == Some(c) ==> has_pt(r, p.x as int, p.y - 1) || has_pt(waiting, p.x as int, p.y - 1))
    }
}

/// The number of cells not yet marked.
pub open spec fn count_unmarked(m: Seq<bool>) -> nat
    decreases m.len(),
{
    if m.len() == 0 { 0 } else { count_unmarked(m.drop_last()) + (if m.last() { 0nat } else { 1nat }) }
}

proof fn lemma_count_unmarked_bound(m: Seq<bool>)
    ensures count_unmarked(m) <= m.len(),
    decreases m.len(),
{
    if m.len() > 0 { lemma_count_unmarked_bound(m.drop_last()); }
}

proof fn lemma_count_unmarked_mark(m: Seq<bool>, i: int)
    requires 0 <= i < m.len(), !m[i],
    ensures count_unmarked(m.update(i, true)) + 1 == count_unmarked(m),
    decreases m.len(),
{
    let m2 = m.update(i, true);
    if i == m.len() - 1 {
        assert(m2.drop_last() =~= m.drop_last());
    } else {
        assert(m2.drop_last() =~= m.drop_last().update(i, true));
        lemma_count_unmarked_mark(m.drop_last(), i);
    }
}

/// Whether the coordinates near the grid, one step outside included, and their
/// indices stay in `i32`.
pub open spec fn flood_fits<T>(g: TileGrid<T>) -> bool {
    &&& g.stride <= i32::MAX
    &&& g.tiles@.len() + 2 * g.stride + 2 <= i32::MAX
}

/// The index of an in-grid cell.
pub open spec fn cell_idx<T>(g: TileGrid<T>, x: int, y: int) -> int {
    y * (g.stride as i32) + x
}

proof fn lemma_neighbour_fits<T>(g: TileGrid<T>, p: TilePoint, q: TilePoint)
    requires
        flood_fits(g), tile_at(g, p.x as int, p.y as int) is Some,
        (q.x == p.x + 1 || q.x == p.x - 1 || q.x == p.x) && (q.y == p.y + 1 || q.y == p.y - 1 || q.y == p.y),
    ensures index_fits(g, q),
{
    let s = g.stride as i32 as int;
    assert(s == g.stride);
    assert(p.y * s + p.x < g.tiles@.len());
    assert(0 <= p.y * s) by (nonlinear_arith) requires p.y >= 0, s >= 0;
    assert(q.y * s <= p.y * s + s && q.y * s >= p.y * s - s) by (nonlinear_arith)
        requires s >= 0, q.y <= p.y + 1, q.y >= p.y - 1;
    assert(q.y * s >= -s) by (nonlinear_arith) requires s >= 0, q.y >= -1;
}

/// Whether the found points all hold `c`, are marked, are distinct and grew from
/// the first by neighbours, and the marks are exactly their cells.
#[verifier::opaque]
pub open spec fn found_ok(g: TileGrid<char>, c: char, r: Seq<TilePoint>, m: Seq<bool>) -> bool {
    &&& (forall|i: int| 0 <= i < r.len() ==> tile_at(g, #[trigger] r[i].x as int, r[i].y as int) == Some(c))
    &&& (forall|i: int| 0 <= i < r.len() ==> m[cell_idx(g, #[trigger] r[i].x as int, r[i].y as int)])
    &&& (forall|k: int| 0 <= k < g.tiles@.len() && #[trigger] m[k] ==> exists|i: int| 0 <= i < r.len()
            && cell_idx(g, r[i].x as int, r[i].y as int) == k)
    &&& distinct_pts(r)
    &&& grown_from_first(r)
}

/// Whether every queued point after the first is next to a found point.
#[verifier::opaque]
pub open spec fn parents_ok(q: Seq<TilePoint>, r: Seq<TilePoint>) -> bool {
    forall|k: int| 0 < k < q.len() ==> exists|j: int| 0 <= j < r.len() && adjacent(r[j], #[trigger] q[k])
}

/// Whether every waiting point can be looked up in the grid.
#[verifier::opaque]
pub open spec fn waiting_fit(g: TileGrid<char>, q: Seq<TilePoint>, h: int) -> bool {
    forall|k: int| h <= k < q.len() ==> index_fits(g, #[trigger] q[k])
}

/// What holds of the search state between steps.
pub open spec fn bfs_inv(g: TileGrid<char>, c: char, tile_pos: TilePoint,
    q: Seq<TilePoint>, h: int, r: Seq<TilePoint>, m: Seq<bool>) -> bool {
    &&& m.len() == g.tiles@.len()
    &&& tile_at(g, tile_pos.x as int, tile_pos.y as int) == Some(c)
    &&& 0 <= h <= q.len()
    &&& q.len() >= 1 && q[0] == tile_pos
    &&& (h > 0 ==> r.len() > 0 && r[0].x == tile_pos.x && r[0].y == tile_pos.y)
    &&& (h == 0 ==> r.len() == 0)
    &&& waiting_fit(g, q, h)
    &&& parents_ok(q, r)
    &&& found_ok(g, c, r, m)
    &&& frontier_ok(g, c, r, q.subrange(h, q.len() as int))
}

proof fn lemma_inv_init(g: TileGrid<char>, c: char, tile_pos: TilePoint, q: Seq<TilePoint>, m: Seq<bool>)
    requires
        q =~= seq![tile_pos], index_fits(g, tile_pos),
        tile_at(g, tile_pos.x as int, tile_pos.y as int) == Some(c),
        m.len() == g.tiles@.len(), forall|i: int| 0 <= i < m.len() ==> !m[i],
    ensures bfs_inv(g, c, tile_pos, q, 0, Seq::empty(), m),
{
    reveal(waiting_fit);
    reveal(parents_ok);
    reveal(found_ok);
    reveal(frontier_ok);
}

proof fn lemma_inv_front(g: TileGrid<char>, c: char, tile_pos: TilePoint,
    q: Seq<TilePoint>, h: int, r: Seq<TilePoint>, m: Seq<bool>)
    requires bfs_inv(g, c, tile_pos, q, h, r, m), h < q.len(),
    ensures index_fits(g, q[h]),
{
    reveal(waiting_fit);
}

proof fn lemma_inv_skip(g: TileGrid<char>, c: char, tile_pos: TilePoint,
    q: Seq<TilePoint>, h: int, r: Seq<TilePoint>, m: Seq<bool>)
    requires
        bfs_inv(g, c, tile_pos, q, h, r, m), h < q.len(),
        tile_at(g, q[h].x as int, q[h].y as int) != Some(c)
        || (tile_at(g, q[h].x as int, q[h].y as int) == Some(c)
            && m[cell_idx(g, q[h].x as int, q[h].y as int)]),
    ensures bfs_inv(g, c, tile_pos, q, h + 1, r, m), h > 0,
{
    reveal(waiting_fit);
    reveal(found_ok);
    let pt = q[h];
    if tile_at(g, pt.x as int, pt.y as int) == Some(c) {
        let k = cell_idx(g, pt.x as int, pt.y as int);
        let w = choose|w: int| 0 <= w < r.len() && cell_idx(g, r[w].x as int, r[w].y as int) == k;
        assert(tile_at(g, r[w].x as int, r[w].y as int) == Some(c));
        lemma_cell_unique(g.stride as i32 as int, r[w].x as int, r[w].y as int, pt.x as int, pt.y as int);
        assert(has_pt(r, pt.x as int, pt.y as int));
    }
    lemma_skip(g, c, r, q, h, pt);
}

proof fn lemma_inv_add(g: TileGrid<char>, c: char, tile_pos: TilePoint,
    q0: Seq<TilePoint>, h0: int, r0: Seq<TilePoint>, m0: Seq<bool>,
    q1: Seq<TilePoint>, r1: Seq<TilePoint>, m1: Seq<bool>, idx: int)
    requires
        bfs_inv(g, c, tile_pos, q0, h0, r0, m0), h0 < q0.len(),
        flood_fits(g),
        tile_at(g, q0[h0].x as int, q0[h0].y as int) == Some(c),
        idx == cell_idx(g, q0[h0].x as int, q0[h0].y as int),
        !m0[idx],
        m1 == m0.update(idx, true),
        r1 == r0.push(q0[h0]),
        q1.len() == q0.len() + 4, q1.subrange(0, q0.len() as int) == q0,
        q1[q0.len() as int].x == q0[h0].x + 1 && q1[q0.len() as int].y == q0[h0].y,
        q1[q0.len() as int + 1].x == q0[h0].x && q1[q0.len() as int + 1].y == q0[h0].y + 1,
        q1[q0.len() as int + 2].x == q0[h0].x - 1 && q1[q0.len() as int + 2].y == q0[h0].y,
        q1[q0.len() as int + 3].x == q0[h0].x && q1[q0.len() as int + 3].y == q0[h0].y - 1,
    ensures bfs_inv(g, c, tile_pos, q1, h0 + 1, r1, m1),
{
    let pt = q0[h0];
    let n0 = q0.len() as int;
    lemma_after_add(g, c, tile_pos, q0, h0, r0, m0, q1, r1, m1, pt, idx);
    lemma_after_add_frontier(g, c, q0, h0, r0, q1, r1, pt);
    reveal(waiting_fit);
    assert forall|k: int| h0 + 1 <= k < q1.len() implies index_fits(g, #[trigger] q1[k]) by {
        if k >= n0 {
            lemma_neighbour_fits(g, pt, q1[k]);
        } else {
            assert(q1[k] == q0[k]);
        }
    }
    assert(q1[0] == q0[0]);
}

proof fn lemma_inv_done(g: TileGrid<char>, c: char, tile_pos: TilePoint,
    q: Seq<TilePoint>, h: int, r: Seq<TilePoint>, m: Seq<bool>)
    requires bfs_inv(g, c, tile_pos, q, h, r, m), h == q.len(),
    ensures
        r.len() > 0 && r[0].x == tile_pos.x && r[0].y == tile_pos.y,
        forall|i: int| 0 <= i < r.len() ==> tile_at(g, #[trigger] r[i].x as int, r[i].y as int) == Some(c),
        distinct_pts(r),
        closed_under_neighbours(g, r, c),
        grown_from_first(r),
{
    reveal(found_ok);
    reveal(frontier_ok);
    assert forall|x: int, y: int| !has_pt(q.subrange(h, q.len() as int), x, y) by {}
}

/// The 4-connected region of tiles equal to the tile at `tile_pos`, found
/// breadth first; empty when `tile_pos` is outside the grid.
pub fn bucket_it(grid: &TileGrid<char>, tile_pos: TilePoint) -> (r: Vec<TilePoint>)
    requires flood_fits(*grid),
    ensures
        spec_get(*grid, tile_pos) is None ==> r@.len() == 0,
        spec_get(*grid, tile_pos) matches Some(c) ==> {
            &&& r@.len() > 0
            &&& r@[0].x == tile_pos.x && r@[0].y == tile_pos.y
            &&& forall|i: int| 0 <= i < r@.len() ==> tile_at(*grid, #[trigger] r@[i].x as int, r@[i].y as int) == Some(c)
            &&& distinct_pts(r@)
            &&& closed_under_neighbours(*grid, r@, c)
            &&& grown_from_first(r@)
        },
{
    let desired = match grid.get(tile_pos) {
        Some(c) => *c,
        None => { return Vec::new(); }
    };
    let ghost g = *grid;
    let ghost c = desired;
    let n = grid.tiles.len();
    let mut marked: Vec<bool> = Vec::new();
    while marked.len() < n
        invariant marked@.len() <= n, n == grid.tiles@.len(),
            forall|i: int| 0 <= i < marked@.len() ==> !marked@[i],
        decreases n - marked@.len(),
    {
        marked.push(false);
    }
    let mut result: Vec<TilePoint> = Vec::new();
    let mut queue: Vec<TilePoint> = Vec::new();
    queue.push(tile_pos);
    let mut head: usize = 0;
    proof {
        lemma_count_unmarked_bound(marked@);
        lemma_get_is_tile_at(g, tile_pos);
        lemma_neighbour_fits(g, tile_pos, tile_pos);
        lemma_inv_init(g, c, tile_pos, queue@, marked@);
        assert(result@ =~= Seq::<TilePoint>::empty());
    }
    while head < queue.len()
        invariant
            *grid == g, n == g.tiles@.len(), flood_fits(g),
            spec_get(g, tile_pos) == Some(c), c == desired,
            bfs_inv(g, c, tile_pos, queue@, head as int, result@, marked@),
            marked@.len() == n,
            head <= queue@.len(),
        decreases 4 * count_unmarked(marked@) + queue@.len() - head,
    {
        proof { lemma_inv_front(g, c, tile_pos, queue@, head as int, result@, marked@); }
        let pt = queue[head];
        let ghost q0 = queue@;
        let ghost h0 = head as int;
        let ghost r0 = result@;
        let ghost m0 = marked@;
        let here = grid.get(pt);
        proof { lemma_get_is_tile_at(g, pt); }
        let mut same = false;
        match here {
            Some(t) => {
                let tv: char = *t;
                same = tv == desired;
                proof {
                    assert(tile_at(g, pt.x as int, pt.y as int) == Some(tv));
                    assert(same ==> tile_at(g, pt.x as int, pt.y as int) == Some(c));
                    assert(!same ==> tile_at(g, pt.x as int, pt.y as int) != Some(c));
                }
            },
            None => {
                proof { assert(tile_at(g, pt.x as int, pt.y as int) is None); }
            },
        }
        if !same {
            proof {
                assert(here is None ==> spec_get(g, pt) is None);
                assert(tile_at(g, pt.x as int, pt.y as int) != Some(c));
                lemma_inv_skip(g, c, tile_pos, q0, h0, r0, m0);
            }
            head = head + 1;
            continue;
        }
        proof { assert(tile_at(g, pt.x as int, pt.y as int) == Some(c)); }
        let idx: i32 = pt.x + pt.y * grid.stride as i32;
        if marked[idx as usize] {
            proof { lemma_inv_skip(g, c, tile_pos, q0, h0, r0, m0); }
            head = head + 1;
            continue;
        }
        proof {
            lemma_count_unmarked_mark(marked@, idx as int);
            assert(pt.y <= g.tiles@.len()) by (nonlinear_arith)
                requires pt.y * (g.stride as i32 as int) + pt.x < g.tiles@.len(), pt.x >= 0, pt.y >= 0,
                    g.stride as i32 as int >= 1;
        }
        marked.set(idx as usize, true);
        result.push(pt);
        queue.push(pt.add_vector(TileVector::new(1, 0)));
        queue.push(pt.add_vector(TileVector::new(0, 1)));
        queue.push(pt.add_vector(TileVector::new(-1, 0)));
        queue.push(pt.add_vector(TileVector::new(0, -1)));
        proof {
            assert(queue@.subrange(0, q0.len() as int) =~= q0);
            lemma_inv_add(g, c, tile_pos, q0, h0, r0, m0, queue@, result@, marked@, idx as int);
        }
        head = head + 1;
    }
    proof { lemma_inv_done(g, c, tile_pos, queue@, head as int, result@, marked@); }
    result
}

proof fn lemma_shift_queue(q: Seq<TilePoint>, h: int, pt: TilePoint, c: char, g: TileGrid<char>)
    requires 0 <= h < q.len(), q[h] == pt,
    ensures forall|x: int, y: int| has_pt(q.subrange(h, q.len() as int), x, y) ==>
        has_pt(q.subrange(h + 1, q.len() as int), x, y) || (x == pt.x && y == pt.y),
{
    assert forall|x: int, y: int| has_pt(q.subrange(h, q.len() as int), x, y) implies
        has_pt(q.subrange(h + 1, q.len() as int), x, y) || (x == pt.x && y == pt.y) by {
        let i = choose|i: int| 0 <= i < q.len() - h && q.subrange(h, q.len() as int)[i].x == x && q.subrange(h, q.len() as int)[i].y == y;
        if i > 0 {
            assert(q.subrange(h + 1, q.len() as int)[i - 1] == q[h + i]);
        }
    }
}

proof fn lemma_get_is_tile_at<T>(g: TileGrid<T>, pt: TilePoint)
    ensures spec_get(g, pt) == tile_at(g, pt.x as int, pt.y as int),
{
}

proof fn lemma_skip(g: TileGrid<char>, c: char, r: Seq<TilePoint>, q: Seq<TilePoint>, h: int, pt: TilePoint)
    requires
        0 <= h < q.len(), q[h] == pt,
        frontier_ok(g, c, r, q.subrange(h, q.len() as int)),
        tile_at(g, pt.x as int, pt.y as int) != Some(c) || has_pt(r, pt.x as int, pt.y as int),
    ensures frontier_ok(g, c, r, q.subrange(h + 1, q.len() as int)),
{
    reveal(frontier_ok);
    lemma_shift_queue(q, h, pt, c, g);
}

proof fn lemma_after_add_frontier(g: TileGrid<char>, c: char,
    q0: Seq<TilePoint>, h0: int, r0: Seq<TilePoint>, q1: Seq<TilePoint>, r1: Seq<TilePoint>, pt: TilePoint)
    requires
        0 <= h0 < q0.len(), q0[h0] == pt,
        r1 == r0.push(pt),
        q1.len() == q0.len() + 4, q1.subrange(0, q0.len() as int) == q0,
        q1[q0.len() as int].x == pt.x + 1 && q1[q0.len() as int].y == pt.y,
        q1[q0.len() as int + 1].x == pt.x && q1[q0.len() as int + 1].y == pt.y + 1,
        q1[q0.len() as int + 2].x == pt.x - 1 && q1[q0.len() as int + 2].y == pt.y,
        q1[q0.len() as int + 3].x == pt.x && q1[q0.len() as int + 3].y == pt.y - 1,
        frontier_ok(g, c, r0, q0.subrange(h0, q0.len() as int)),
    ensures frontier_ok(g, c, r1, q1.subrange(h0 + 1, q1.len() as int)),
{
    reveal(frontier_ok);
    let n0 = q0.len() as int;
    let tail0 = q0.subrange(h0, n0);
    let tail1 = q1.subrange(h0 + 1, q1.len() as int);
    assert forall|x: int, y: int| has_pt(tail0, x, y) && !(x == pt.x && y == pt.y) implies has_pt(tail1, x, y) by {
        let i = choose|i: int| 0 <= i < tail0.len() && tail0[i].x == x && tail0[i].y == y;
        assert(i > 0);
        assert(tail1[i - 1] == q1[h0 + i]);
        assert(q1[h0 + i] == q0[h0 + i]);
    }
    assert(has_pt(tail1, pt.x + 1, pt.y as int)) by { assert(tail1[n0 - h0 - 1] == q1[n0]); }
    assert(has_pt(tail1, pt.x as int, pt.y + 1)) by { assert(tail1[n0 - h0] == q1[n0 + 1]); }
    assert(has_pt(tail1, pt.x - 1, pt.y as int)) by { assert(tail1[n0 - h0 + 1] == q1[n0 + 2]); }
    assert(has_pt(tail1, pt.x as int, pt.y - 1)) by { assert(tail1[n0 - h0 + 2] == q1[n0 + 3]); }
    assert(has_pt(r1, pt.x as int, pt.y as int)) by { assert(r1[r0.len() as int] == pt); }
    assert forall|x: int, y: int| has_pt(r0, x, y) implies has_pt(r1, x, y) by {
        let i = choose|i: int| 0 <= i < r0.len() && r0[i].x == x && r0[i].y == y;
        assert(r1[i] == r0[i]);
    }
    assert forall|i: int| 0 <= i < r1.len() implies {
        let p = #[trigger] r1[i];
        &&& (tile_at(g, p.x + 1, p.y as int) == Some(c) ==> has_pt(r1, p.x + 1, p.y as int) || has_pt(tail1, p.x + 1, p.y as int))
        &&& (tile_at(g, p.x as int, p.y + 1) == Some(c) ==> has_pt(r1, p.x as int, p.y + 1) || has_pt(tail1, p.x as int, p.y + 1))
        &&& (tile_at(g, p.x - 1, p.y as int) == Some(c) ==> has_pt(r1, p.x - 1, p.y as int) || has_pt(tail1, p.x - 1, p.y as int))
        &&& (tile_at(g, p.x as int, p.y - 1) == Some(c) ==> has_pt(r1, p.x as int, p.y - 1) || has_pt(tail1, p.x as int, p.y - 1))
    } by {
        if i < r0.len() {
            assert(r1[i] == r0[i]);
        }
    }
}

proof fn lemma_after_add(g: TileGrid<char>, c: char, tile_pos: TilePoint,
    q0: Seq<TilePoint>, h0: int, r0: Seq<TilePoint>, m0: Seq<bool>, q1: Seq<TilePoint>, r1: Seq<TilePoint>,
    m1: Seq<bool>, pt: TilePoint, idx: int)
    requires
        0 <= h0 < q0.len(), q0[h0] == pt, q0[0] == tile_pos,
        h0 > 0 ==> r0.len() > 0 && r0[0].x == tile_pos.x && r0[0].y == tile_pos.y,
        h0 == 0 ==> r0.len() == 0,
        r1 == r0.push(pt),
        q1.len() == q0.len() + 4, q1.subrange(0, q0.len() as int) == q0,
        q1[q0.len() as int].x == pt.x + 1 && q1[q0.len() as int].y == pt.y,
        q1[q0.len() as int + 1].x == pt.x && q1[q0.len() as int + 1].y == pt.y + 1,
        q1[q0.len() as int + 2].x == pt.x - 1 && q1[q0.len() as int + 2].y == pt.y,
        q1[q0.len() as int + 3].x == pt.x && q1[q0.len() as int + 3].y == pt.y - 1,
        tile_at(g, pt.x as int, pt.y as int) == Some(c),
        idx == cell_idx(g, pt.x as int, pt.y as int),
        m0.len() == g.tiles@.len(), !m0[idx], m1 == m0.update(idx, true),
        parents_ok(q0, r0),
        found_ok(g, c, r0, m0),
    ensures
        r1.len() > 0 && r1[0].x == tile_pos.x && r1[0].y == tile_pos.y,
        parents_ok(q1, r1),
        found_ok(g, c, r1, m1),
{
    if h0 == 0 {
        assert(pt == tile_pos);
        assert(r1[0] == pt);
    } else {
        assert(r1[0] == r0[0]);
    }
    lemma_after_add_parents(q0, h0, r0, q1, r1, pt);
    lemma_after_add_found(g, c, q0, h0, r0, m0, r1, m1, pt, idx);
}

proof fn lemma_after_add_parents(q0: Seq<TilePoint>, h0: int, r0: Seq<TilePoint>, q1: Seq<TilePoint>, r1: Seq<TilePoint>, pt: TilePoint)
    requires
        0 <= h0 < q0.len(), q0[h0] == pt,
        h0 == 0 ==> r0.len() == 0,
        r1 == r0.push(pt),
        q1.len() == q0.len() + 4, q1.subrange(0, q0.len() as int) == q0,
        q1[q0.len() as int].x == pt.x + 1 && q1[q0.len() as int].y == pt.y,
        q1[q0.len() as int + 1].x == pt.x && q1[q0.len() as int + 1].y == pt.y + 1,
        q1[q0.len() as int + 2].x == pt.x - 1 && q1[q0.len() as int + 2].y == pt.y,
        q1[q0.len() as int + 3].x == pt.x && q1[q0.len() as int + 3].y == pt.y - 1,
        parents_ok(q0, r0),
    ensures
        parents_ok(q1, r1),
        h0 > 0 ==> exists|j: int| 0 <= j < r0.len() && adjacent(r0[j], pt),
{
    reveal(parents_ok);
    let n0 = q0.len() as int;
    assert forall|k: int| 0 < k < q1.len() implies exists|j: int| 0 <= j < r1.len() && adjacent(r1[j], #[trigger] q1[k]) by {
        if k < n0 {
            assert(q1[k] == q0[k]);
            let j = choose|j: int| 0 <= j < r0.len() && adjacent(r0[j], q0[k]);
            assert(r1[j] == r0[j]);
        } else {
            assert(r1[r0.len() as int] == pt);
            assert(adjacent(r1[r0.len() as int], q1[k]));
        }
    }
    if h0 > 0 {
        assert(adjacent(r0[choose|j: int| 0 <= j < r0.len() && adjacent(r0[j], q0[h0])], q0[h0]));
    }
}

proof fn lemma_after_add_found(g: TileGrid<char>, c: char,
    q0: Seq<TilePoint>, h0: int, r0: Seq<TilePoint>, m0: Seq<bool>, r1: Seq<TilePoint>,
    m1: Seq<bool>, pt: TilePoint, idx: int)
    requires
        r1 == r0.push(pt), h0 >= 0,
        h0 == 0 ==> r0.len() == 0,
        h0 > 0 ==> exists|j: int| 0 <= j < r0.len() && adjacent(r0[j], pt),
        tile_at(g, pt.x as int, pt.y as int) == Some(c),
        idx == cell_idx(g, pt.x as int, pt.y as int),
        m0.len() == g.tiles@.len(), !m0[idx], m1 == m0.update(idx, true),
        found_ok(g, c, r0, m0),
    ensures
        found_ok(g, c, r1, m1),
{
    reveal(found_ok);
    assert forall|i: int| 0 <= i < r0.len() implies cell_idx(g, #[trigger] r0[i].x as int, r0[i].y as int) != idx by {
        if cell_idx(g, r0[i].x as int, r0[i].y as int) == idx {
            assert(m0[idx]);
        }
    }
    assert forall|i: int, j: int| 0 <= i < j < r1.len() implies !(r1[i].x == r1[j].x && r1[i].y == r1[j].y) by {
        if j == r0.len() {
            assert(r1[i] == r0[i]);
            if r1[i].x == pt.x && r1[i].y == pt.y {
                assert(cell_idx(g, r0[i].x as int, r0[i].y as int) == idx);
            }
        } else {
            assert(r1[i] == r0[i] && r1[j] == r0[j]);
        }
    }
    assert(grown_from_first(r1)) by {
    assert forall|i: int| 0 < i < r1.len() implies #[trigger] has_earlier_neighbour(r1, i) by {
        if i < r0.len() {
            assert(r1[i] == r0[i]);
            assert(has_earlier_neighbour(r0, i));
            let j = choose|j: int| 0 <= j < i && adjacent(r0[j], r0[i]);
            assert(r1[j] == r0[j]);
        } else {
            let j = choose|j: int| 0 <= j < r0.len() && adjacent(r0[j], pt);
            assert(r1[j] == r0[j]);
            assert(r1[i] == pt);
            assert(adjacent(r1[j], r1[i]));
        }
    }
    }
    assert forall|m: int| 0 <= m < g.tiles@.len() && #[trigger] m1[m] implies exists|i: int| 0 <= i < r1.len()
        && cell_idx(g, r1[i].x as int, r1[i].y as int) == m by {
        if m == idx {
            assert(r1[r0.len() as int] == pt);
        } else {
            assert(m0[m]);
            let i = choose|i: int| 0 <= i < r0.len() && cell_idx(g, r0[i].x as int, r0[i].y as int) == m;
            assert(r1[i] == r0[i]);
        }
    }
    assert forall|i: int| 0 <= i < r1.len() implies m1[cell_idx(g, #[trigger] r1[i].x as int, r1[i].y as int)] by {
        if i < r0.len() {
            assert(r1[i] == r0[i]);
        }
    }
    assert forall|i: int| 0 <= i < r1.len() implies tile_at(g, #[trigger] r1[i].x as int, r1[i].y as int) == Some(c) by {
        if i < r0.len() {
            assert(r1[i] == r0[i]);
        }
    }
    assert(distinct_pts(r1));
    assert(grown_from_first(r1));
}

/// Whether `s` is what `bucket_it` finds from `pos`: nothing where `pos` is
/// outside the grid, else the tiles joined to `pos` through tiles of the
/// same kind, `pos` first, each once.
pub open spec fn bucket_region(g: TileGrid<char>, pos: TilePoint, s: Seq<TilePoint>) -> bool {
    match spec_get(g, pos) {
        None => s.len() == 0,
        Some(c) => {
            &&& s.len() > 0
            &&& s[0].x == pos.x && s[0].y == pos.y
            &&& forall|i: int| 0 <= i < s.len() ==> tile_at(g, #[trigger] s[i].x as int, s[i].y as int) == Some(c)
            &&& distinct_pts(s)
            &&& closed_under_neighbours(g, s, c)
            &&& grown_from_first(s)
        },
    }
}

proof fn lemma_has_pt_push(s: Seq<TilePoint>, p: TilePoint, x: int, y: int)
    ensures
        has_pt(s.push(p), x, y) == (has_pt(s, x, y) || (p.x == x && p.y == y)),
{
    let t = s.push(p);
    if has_pt(s, x, y) {
        let i = choose|i: int| 0 <= i < s.len() && s[i].x == x && s[i].y == y;
        assert(t[i] == s[i]);
    }
    if p.x == x && p.y == y {
        assert(t[s.len() as int] == p);
    }
    if has_pt(t, x, y) {
        let i = choose|i: int| 0 <= i < t.len() && t[i].x == x && t[i].y == y;
        if i < s.len() {
            assert(s[i] == t[i]);
        }
    }
}

/// Where a float lies within a grid `w` wide and `h` rows high.
pub open spec fn float_within(f: TileFloat<char>, w: int, h: int) -> bool {
    f matches Some((o, g)) ==> {
        &&& 0 <= o.x && o.x + g.stride <= w
        &&& 0 <= o.y && o.y + rows(g) <= h
        &&& 0 < g.stride
        &&& 0 <= rows(g)
    }
}

proof fn lemma_row_bound(y: int, x: int, s: int, l: int)
    requires
        0 <= x,
        0 <= y,
        0 < s,
        y * s + x < l,
    ensures
        y + 1 <= l / s + 1,
        s * (l / s) <= l,
{
    assert(y * s < l) by (nonlinear_arith)
        requires
            0 <= x,
            y * s + x < l;
    assert(y <= l / s) by (nonlinear_arith)
        requires
            0 <= y,
            0 < s,
            y * s < l;
    assert(s * (l / s) <= l) by (nonlinear_arith)
        requires
            0 < s,
            0 <= y * s,
            y * s < l;
}

proof fn lemma_grow_fits(f: TileFloat<char>, pt: TilePoint, w: int, h: int, l: int)
    requires
        float_within(f, w, h),
        0 <= pt.x < w,
        0 <= pt.y < h,
        0 < w,
        h == l / w + 1,
        w * (l / w) <= l,
        l + 2 * w + 2 <= i32::MAX,
    ensures
        can_grow(f, pt),
        ({
            let (nx, ny, nw, nh) = grown_box(f, pt);
            &&& 0 <= nx && nx + nw <= w
            &&& 0 <= ny && ny + nh <= h
            &&& 0 < nw && 0 <= nh
        }),
{
    let (nx, ny, nw, nh) = grown_box(f, pt);
    assert(nw * nh <= w * h) by (nonlinear_arith)
        requires
            0 <= nw <= w,
            0 <= nh <= h;
    assert(w * h == w * (l / w) + w) by (nonlinear_arith)
        requires
            h == l / w + 1;
}

/// Whether the float's box is the bounding box of the points `s`: it holds
/// them all, and a point of `s` lies on each of its four edges.
pub open spec fn is_bounding_box(f: TileFloat<char>, s: Seq<TilePoint>) -> bool {
    f matches Some((o, g)) ==> {
        &&& forall|i: int| 0 <= i < s.len() ==> o.x <= (#[trigger] s[i]).x < o.x + g.stride && o.y <= s[i].y < o.y + rows(g)
        &&& exists|i: int| 0 <= i < s.len() && (#[trigger] s[i]).x == o.x
        &&& exists|i: int| 0 <= i < s.len() && (#[trigger] s[i]).x == o.x + g.stride - 1
        &&& exists|i: int| 0 <= i < s.len() && (#[trigger] s[i]).y == o.y
        &&& exists|i: int| 0 <= i < s.len() && (#[trigger] s[i]).y == o.y + rows(g) - 1
    }
}

proof fn lemma_bbox_grow(before: TileFloat<char>, after: TileFloat<char>, s: Seq<TilePoint>, pt: TilePoint)
    requires
        is_bounding_box(before, s),
        before is None <==> s.len() == 0,
        before matches Some((o, g)) ==> 0 < g.stride && 0 <= rows(g),
        after matches Some((o, g)) && {
            let (nx, ny, nw, nh) = grown_box(before, pt);
            o.x == nx && o.y == ny && g.stride == nw && rows(g) == nh
        },
    ensures
        is_bounding_box(after, s.push(pt)),
{
    let t = s.push(pt);
    let k = s.len() as int;
    assert(t[k] == pt);
    assert forall|i: int| 0 <= i < s.len() implies t[i] == s[i] by {}
    if let Some((o, g)) = before {
        let (o2, g2) = after->0;
        if o2.x == o.x {
            let i = choose|i: int| 0 <= i < s.len() && (#[trigger] s[i]).x == o.x;
            assert(t[i].x == o2.x);
        } else {
            assert(t[k].x == o2.x);
        }
        if o2.y == o.y {
            let i = choose|i: int| 0 <= i < s.len() && (#[trigger] s[i]).y == o.y;
            assert(t[i].y == o2.y);
        } else {
            assert(t[k].y == o2.y);
        }
        if o2.x + g2.stride == o.x + g.stride {
            let i = choose|i: int| 0 <= i < s.len() && (#[trigger] s[i]).x == o.x + g.stride - 1;
            assert(t[i].x == o2.x + g2.stride - 1);
        } else {
            assert(t[k].x == o2.x + g2.stride - 1);
        }
        if o2.y + rows(g2) == o.y + rows(g) {
            let i = choose|i: int| 0 <= i < s.len() && (#[trigger] s[i]).y == o.y + rows(g) - 1;
            assert(t[i].y == o2.y + rows(g2) - 1);
        } else {
            assert(t[k].y == o2.y + rows(g2) - 1);
        }
    } else {
        assert(t[0] == pt);
    }
}

/// The patch the bucket tool lays down from `tile_pos`: `ch` on each tile of
/// the region that `bucket_it` finds, nothing elsewhere; no patch where the
/// region is empty.
pub fn bucket_patch(grid: &TileGrid<char>, tile_pos: TilePoint, ch: char) -> (r: TileFloat<char>)
    requires
        flood_fits(*grid),
    ensures
        exists|s: Seq<TilePoint>| {
            &&& bucket_region(*grid, tile_pos, s)
            &&& (r is None <==> s.len() == 0)
            &&& forall|x: int, y: int| #[trigger] float_at(r, '\0', x, y) == (if has_pt(s, x, y) { ch } else { '\0' })
            &&& is_bounding_box(r, s)
        },
        float_wf(r),
{
    let pts = bucket_it(grid, tile_pos);
    let ghost s = pts@;
    let mut result: TileFloat<char> = None;
    if pts.len() == 0 {
        proof {
            assert(bucket_region(*grid, tile_pos, s));
            assert forall|x: int, y: int| #[trigger] float_at(result, '\0', x, y) == (if has_pt(s, x, y) { ch } else { '\0' }) by {
                if has_pt(s, x, y) {
                    let i = choose|i: int| 0 <= i < s.len() && s[i].x == x && s[i].y == y;
                }
            }
        }
        return result;
    }
    let ghost w = grid.stride as int;
    let ghost l = grid.tiles@.len() as int;
    proof {
        assert(tile_at(*grid, s[0].x as int, s[0].y as int) is Some);
        lemma_row_bound(s[0].y as int, s[0].x as int, w, l);
    }
    let ghost h = l / w + 1;
    let mut i: usize = 0;
    while i < pts.len()
        invariant
            s == pts@,
            bucket_region(*grid, tile_pos, s),
            s.len() > 0,
            0 < w,
            w == grid.stride,
            l == grid.tiles@.len(),
            h == l / w + 1,
            w * (l / w) <= l,
            l + 2 * w + 2 <= i32::MAX,
            i <= s.len(),
            float_within(result, w, h),
            (result is None) == (i == 0),
            float_wf(result),
            is_bounding_box(result, s.take(i as int)),
            forall|x: int, y: int| #[trigger] float_at(result, '\0', x, y) == (if has_pt(s.take(i as int), x, y) { ch } else { '\0' }),
        decreases s.len() - i,
    {
        let pt = pts[i];
        proof {
            assert(tile_at(*grid, s[i as int].x as int, s[i as int].y as int) is Some);
            lemma_row_bound(pt.y as int, pt.x as int, w, l);
            lemma_grow_fits(result, pt, w, h, l);
        }
        let ghost before = result;
        add_to_float(&mut result, pt, Some(&ch), '\0');
        proof {
            assert(s.take(i + 1) =~= s.take(i as int).push(pt));
            assert forall|x: int, y: int| #[trigger] float_at(result, '\0', x, y) == (if has_pt(s.take(i + 1), x, y) { ch } else { '\0' }) by {
                lemma_has_pt_push(s.take(i as int), pt, x, y);
                assert(float_at(before, '\0', x, y) == (if has_pt(s.take(i as int), x, y) { ch } else { '\0' }));
            }
            lemma_bbox_grow(before, result, s.take(i as int), pt);
        }
        i = i + 1;
    }
    proof {
        assert(s.take(s.len() as int) =~= s);
    }
    result
}

} // verus!
