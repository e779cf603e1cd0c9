use vstd::prelude::*;
use crate::units::{fits_i32, Point2D, Size2D, TilePoint, TileSize, TileVector};
use crate::tile_grid::{TileGrid, cell, spec_get, spec_index, lemma_cell_index, lemma_cell_unique};

verus! {

/// A value that can stand in a tile grid and be compared for equality.
pub trait TileValue: Copy {
    fn tile_eq(&self, other: &Self) -> (r: bool)
        ensures r == (*self == *other);
}

impl TileValue for char {
    fn tile_eq(&self, other: &Self) -> (r: bool) {
        *self == *other
    }
}

impl TileValue for i32 {
    fn tile_eq(&self, other: &Self) -> (r: bool) {
        *self == *other
    }
}

/// The column of data index `idx` in a grid of width `stride`, shifted by `ox`.
pub open spec fn pos_x(ox: int, stride: int, idx: int) -> int {
    ox + idx % stride
}

/// The row of data index `idx` in a grid of width `stride`, shifted by `oy`.
pub open spec fn pos_y(oy: int, stride: int, idx: int) -> int {
    oy + idx / stride
}

/// The target position that data tile `idx` lands on when placed at `offset`.
pub open spec fn data_pos(offset: TilePoint, stride: int, idx: int) -> TilePoint {
    TilePoint { x: pos_x(offset.x as int, stride, idx) as i32, y: pos_y(offset.y as int, stride, idx) as i32, unit: offset.unit }
}

/// Whether `apply_tiles` exchanges data tile `idx` with the target tile it lands on:
/// the data tile is not `ignore`, lands inside the target, and differs from it.
pub open spec fn swaps<T>(offset: TilePoint, data: TileGrid<T>, target: TileGrid<T>, ignore: T, idx: int) -> bool {
    let p = data_pos(offset, data.stride as int, idx);
    &&& data.tiles@[idx] != ignore
    &&& spec_get(target, p) is Some
    &&& spec_get(target, p)->0 != data.tiles@[idx]
}

/// The index in the target's storage of the tile that data tile `idx` lands on.
pub open spec fn target_index<T>(offset: TilePoint, data: TileGrid<T>, target: TileGrid<T>, idx: int) -> int {
    let p = data_pos(offset, data.stride as int, idx);
    spec_index(target.stride, p.x as int, p.y as int)
}

/// Whether every position `apply_tiles` steps through, one past the last
/// included, stays in `i32`, as the walk computes each of them.
pub open spec fn positions_fit<T>(offset: TilePoint, data: TileGrid<T>, target: TileGrid<T>) -> bool {
    &&& data.stride > 0
    &&& forall|idx: int| 0 <= idx <= data.tiles@.len() ==>
        fits_i32(#[trigger] pos_x(offset.x as int, data.stride as int, idx))
        && fits_i32(pos_y(offset.y as int, data.stride as int, idx))
}

/// The outcome of `apply_tiles`: each data tile that `swaps` trades places with
/// the target tile under it; every other tile of both grids stays; `dirty`
/// tells whether anything was traded.
pub open spec fn applied<T>(offset: TilePoint, data0: TileGrid<T>, target0: TileGrid<T>, ignore: T,
    data1: TileGrid<T>, target1: TileGrid<T>, dirty: bool) -> bool {
    &&& data1.stride == data0.stride
    &&& target1.stride == target0.stride
    &&& data1.tiles@.len() == data0.tiles@.len()
    &&& target1.tiles@.len() == target0.tiles@.len()
    &&& forall|idx: int| 0 <= idx < data0.tiles@.len() ==> #[trigger] data1.tiles@[idx] == (
        if swaps(offset, data0, target0, ignore, idx) {
            target0.tiles@[target_index(offset, data0, target0, idx)]
        } else {
            data0.tiles@[idx]
        })
    &&& forall|idx: int| 0 <= idx < data0.tiles@.len() && swaps(offset, data0, target0, ignore, idx)
        ==> target1.tiles@[#[trigger] target_index(offset, data0, target0, idx)] == data0.tiles@[idx]
    &&& forall|j: int| 0 <= j < target0.tiles@.len()
        && (forall|idx: int| 0 <= idx < data0.tiles@.len() && swaps(offset, data0, target0, ignore, idx)
            ==> target_index(offset, data0, target0, idx) != j)
        ==> #[trigger] target1.tiles@[j] == target0.tiles@[j]
    &&& dirty == exists|idx: int| 0 <= idx < data0.tiles@.len() && swaps(offset, data0, target0, ignore, idx)
}

proof fn lemma_step(idx: int, stride: int)
    requires stride > 0, idx >= 0,
    ensures
        (idx + 1) % stride == 0 ==> (idx + 1) / stride == idx / stride + 1 && idx % stride == stride - 1,
        (idx + 1) % stride != 0 ==> (idx + 1) / stride == idx / stride && (idx + 1) % stride == idx % stride + 1,
        0 <= idx % stride < stride, idx / stride >= 0,
        idx == (idx / stride) * stride + idx % stride,
{
    assert(idx == (idx / stride) * stride + idx % stride && 0 <= idx % stride < stride) by (nonlinear_arith)
        requires stride > 0;
    assert((idx + 1) == ((idx + 1) / stride) * stride + (idx + 1) % stride && 0 <= (idx + 1) % stride < stride)
        by (nonlinear_arith) requires stride > 0;
    assert(idx / stride >= 0) by (nonlinear_arith) requires stride > 0, idx >= 0;
    let q = idx / stride;
    let r = idx % stride;
    let q1 = (idx + 1) / stride;
    let r1 = (idx + 1) % stride;
    // idx + 1 == q * stride + r + 1 == q1 * stride + r1
    if r + 1 < stride {
        vstd::arithmetic::div_mod::lemma_fundamental_div_mod_converse(idx + 1, stride, q, r + 1);
    } else {
        assert(idx + 1 == (q + 1) * stride + 0) by (nonlinear_arith)
            requires idx == q * stride + r, r + 1 == stride;
        vstd::arithmetic::div_mod::lemma_fundamental_div_mod_converse(idx + 1, stride, q + 1, 0);
    }
}

/// Distinct data tiles land on distinct positions.
proof fn lemma_data_pos_unique(ox: int, oy: int, stride: int, i: int, j: int)
    requires stride > 0, i >= 0, j >= 0, i != j,
    ensures pos_x(ox, stride, i) != pos_x(ox, stride, j) || pos_y(oy, stride, i) != pos_y(oy, stride, j),
{
    lemma_step(i, stride);
    lemma_step(j, stride);
}

/// Writes the non-`ignore` tiles of `data`, placed with its top-left corner at
/// `offset`, into `target`, trading each written tile's old value back into
/// `data` so the result can undo the write. Returns whether anything changed.
pub fn apply_tiles<T: TileValue>(offset: &TilePoint, data: &mut TileGrid<T>, target: &mut TileGrid<T>, ignore: T) -> (dirty: bool)
    requires positions_fit(*offset, *old(data), *old(target)),
    ensures applied(*offset, *old(data), *old(target), ignore, *final(data), *final(target), dirty),
{
    let ghost data0 = *data;
    let ghost target0 = *target;
    let ghost ds = data.stride as int;
    let mut dirty = false;
    let mut line_start = *offset;
    let mut cur = line_start;
    let mut idx: usize = 0;
    proof {
        lemma_step(0, ds);
        assert(pos_x(offset.x as int, ds, 0) == offset.x);
    }
    while idx < data.tiles.len()
        invariant
            positions_fit(*offset, data0, target0),
            ds == data0.stride as int,
            data.stride == data0.stride,
            target.stride == target0.stride,
            data.tiles@.len() == data0.tiles@.len(),
            target.tiles@.len() == target0.tiles@.len(),
            idx <= data.tiles@.len(),
            cur.x == pos_x(offset.x as int, ds, idx as int),
            cur.y == pos_y(offset.y as int, ds, idx as int),
            line_start.x == offset.x,
            line_start.y == cur.y,
            forall|i: int| 0 <= i < idx ==> #[trigger] data.tiles@[i] == (
                if swaps(*offset, data0, target0, ignore, i) {
                    target0.tiles@[target_index(*offset, data0, target0, i)]
                } else {
                    data0.tiles@[i]
                }),
            forall|i: int| idx <= i < data.tiles@.len() ==> #[trigger] data.tiles@[i] == data0.tiles@[i],
            forall|i: int| 0 <= i < idx && swaps(*offset, data0, target0, ignore, i)
                ==> target.tiles@[#[trigger] target_index(*offset, data0, target0, i)] == data0.tiles@[i],
            forall|j: int| 0 <= j < target0.tiles@.len()
                && (forall|i: int| 0 <= i < idx && swaps(*offset, data0, target0, ignore, i)
                    ==> target_index(*offset, data0, target0, i) != j)
                ==> #[trigger] target.tiles@[j] == target0.tiles@[j],
            dirty == exists|i: int| 0 <= i < idx && swaps(*offset, data0, target0, ignore, i),
        decreases data.tiles@.len() - idx,
    {
        let ghost gidx = idx as int;
        proof {
            lemma_step(gidx, ds);
            assert(0 <= gidx + 1 <= data0.tiles@.len());
            assert(fits_i32(pos_x(offset.x as int, data0.stride as int, gidx + 1)));
            assert(fits_i32(pos_x(offset.x as int, ds, gidx + 1)) && fits_i32(pos_y(offset.y as int, ds, gidx + 1)));
        }
        let tile = data.tiles[idx];
        if !tile.tile_eq(&ignore) {
            let ghost tbefore = target.tiles@;
            let ghost ti = target_index(*offset, data0, target0, gidx);
            assert(cur.x == data_pos(*offset, ds, gidx).x && cur.y == data_pos(*offset, ds, gidx).y);
            // the tile under this one has not been written by earlier ones
            assert forall|i: int| 0 <= i < idx && swaps(*offset, data0, target0, ignore, i)
                && spec_get(target0, data_pos(*offset, ds, gidx)) is Some
                implies target_index(*offset, data0, target0, i) != ti by {
                lemma_data_pos_unique(offset.x as int, offset.y as int, ds, i, gidx);
                let pi = data_pos(*offset, ds, i);
                let pg = data_pos(*offset, ds, gidx);
                if target_index(*offset, data0, target0, i) == ti {
                    lemma_cell_unique(target0.stride as i32 as int, pi.x as int, pi.y as int, pg.x as int, pg.y as int);
                }
            }
            if let Some(tile_ref) = target.get_mut(cur) {
                if !tile_ref.tile_eq(&tile) {
                    let old_t = *tile_ref;
                    *tile_ref = tile;
                    data.tiles.set(idx, old_t);
                    dirty = true;
                }
            }
            proof {
                assert forall|j: int| 0 <= j < target0.tiles@.len()
                    && (forall|i: int| 0 <= i < idx + 1 && swaps(*offset, data0, target0, ignore, i)
                        ==> target_index(*offset, data0, target0, i) != j)
                    implies #[trigger] target.tiles@[j] == target0.tiles@[j] by {
                    if j != ti {
                    } else {
                        assert(!swaps(*offset, data0, target0, ignore, gidx));
                    }
                }
                assert forall|i: int| 0 <= i < idx + 1 && swaps(*offset, data0, target0, ignore, i)
                    implies target.tiles@[#[trigger] target_index(*offset, data0, target0, i)] == data0.tiles@[i] by {
                    if i < gidx {
                        lemma_data_pos_unique(offset.x as int, offset.y as int, ds, i, gidx);
                        let pi = data_pos(*offset, ds, i);
                        let pg = data_pos(*offset, ds, gidx);
                        if target_index(*offset, data0, target0, i) == ti && spec_get(target0, pg) is Some {
                            lemma_cell_unique(target0.stride as i32 as int, pi.x as int, pi.y as int, pg.x as int, pg.y as int);
                        }
                    }
                }
            }
        }
        if (idx + 1) % data.stride == 0 {
            line_start = line_start.add_vector(TileVector::new(0, 1));
            cur = line_start;
        } else {
            cur = cur.add_vector(TileVector::new(1, 0));
        }
        idx = idx + 1;
    }
    dirty
}

/// Two data tiles that both land inside the target land on different target tiles.
proof fn lemma_target_index_unique<T>(offset: TilePoint, data: TileGrid<T>, target: TileGrid<T>, i: int, j: int)
    requires
        positions_fit(offset, data, target),
        0 <= i < data.tiles@.len(), 0 <= j < data.tiles@.len(), i != j,
        spec_get(target, data_pos(offset, data.stride as int, i)) is Some,
        spec_get(target, data_pos(offset, data.stride as int, j)) is Some,
    ensures target_index(offset, data, target, i) != target_index(offset, data, target, j),
{
    let ds = data.stride as int;
    assert(fits_i32(pos_x(offset.x as int, ds, i)) && fits_i32(pos_y(offset.y as int, ds, i)));
    assert(fits_i32(pos_x(offset.x as int, ds, j)) && fits_i32(pos_y(offset.y as int, ds, j)));
    lemma_data_pos_unique(offset.x as int, offset.y as int, ds, i, j);
    let pi = data_pos(offset, ds, i);
    let pj = data_pos(offset, ds, j);
    if target_index(offset, data, target, i) == target_index(offset, data, target, j) {
        lemma_cell_unique(target.stride as i32 as int, pi.x as int, pi.y as int, pj.x as int, pj.y as int);
    }
}

/// Applying a tile update and then applying the grid it hands back restores both
/// grids and reports the same change, provided no target tile that gets
/// overwritten equals `ignore` (such a tile would not be written back).
pub proof fn law_apply_tiles_undo<T>(
    offset: TilePoint, ignore: T,
    data0: TileGrid<T>, target0: TileGrid<T>,
    data1: TileGrid<T>, target1: TileGrid<T>, dirty1: bool,
    data2: TileGrid<T>, target2: TileGrid<T>, dirty2: bool,
)
    requires
        positions_fit(offset, data0, target0),
        applied(offset, data0, target0, ignore, data1, target1, dirty1),
        applied(offset, data1, target1, ignore, data2, target2, dirty2),
        forall|idx: int| 0 <= idx < data0.tiles@.len() && #[trigger] swaps(offset, data0, target0, ignore, idx)
            ==> target0.tiles@[target_index(offset, data0, target0, idx)] != ignore,
    ensures
        data2.tiles@ == data0.tiles@,
        target2.tiles@ == target0.tiles@,
        dirty2 == dirty1,
{
    let n = data0.tiles@.len() as int;
    // the same tiles trade places the second time
    assert forall|idx: int| 0 <= idx < n implies
        (#[trigger] swaps(offset, data1, target1, ignore, idx)) == swaps(offset, data0, target0, ignore, idx)
        && target_index(offset, data1, target1, idx) == target_index(offset, data0, target0, idx)
        && (spec_get(target0, data_pos(offset, data0.stride as int, idx)) is Some ==>
            target1.tiles@[target_index(offset, data0, target0, idx)] == (
                if swaps(offset, data0, target0, ignore, idx) { data0.tiles@[idx] }
                else { target0.tiles@[target_index(offset, data0, target0, idx)] })) by {
        let ti = target_index(offset, data0, target0, idx);
        if spec_get(target0, data_pos(offset, data0.stride as int, idx)) is Some {
            if !swaps(offset, data0, target0, ignore, idx) {
                assert forall|k: int| 0 <= k < n && swaps(offset, data0, target0, ignore, k)
                    implies target_index(offset, data0, target0, k) != ti by {
                    if k != idx {
                        lemma_target_index_unique(offset, data0, target0, k, idx);
                    }
                }
                assert(target1.tiles@[ti] == target0.tiles@[ti]);
            }
        }
    }
    assert(data2.tiles@ =~= data0.tiles@);
    assert forall|j: int| 0 <= j < target0.tiles@.len() implies #[trigger] target2.tiles@[j] == target0.tiles@[j] by {
        if exists|idx: int| 0 <= idx < n && swaps(offset, data0, target0, ignore, idx)
            && target_index(offset, data0, target0, idx) == j {
            let idx = choose|idx: int| 0 <= idx < n && swaps(offset, data0, target0, ignore, idx)
                && target_index(offset, data0, target0, idx) == j;
            assert(swaps(offset, data1, target1, ignore, idx));
        } else {
            assert forall|idx: int| 0 <= idx < n && swaps(offset, data1, target1, ignore, idx)
                implies target_index(offset, data1, target1, idx) != j by {
                assert(swaps(offset, data0, target0, ignore, idx));
            }
        }
    }
    assert(target2.tiles@ =~= target0.tiles@);
    if dirty1 {
        let idx = choose|idx: int| 0 <= idx < n && swaps(offset, data0, target0, ignore, idx);
        assert(swaps(offset, data1, target1, ignore, idx));
    }
    if dirty2 {
        let idx = choose|idx: int| 0 <= idx < n && swaps(offset, data1, target1, ignore, idx);
        assert(swaps(offset, data0, target0, ignore, idx));
    }
}

/// A floating selection of tiles: a grid placed at an origin. Cells holding the
/// filler tile are holes.
pub type TileFloat<T> = Option<(TilePoint, TileGrid<T>)>;

/// The number of whole rows of a grid.
pub open spec fn rows<T>(g: TileGrid<T>) -> int {
    g.tiles@.len() as int / g.stride as int
}

/// Whether `(x, y)` lies in the box a float covers.
pub open spec fn in_box<T>(o: TilePoint, g: TileGrid<T>, x: int, y: int) -> bool {
    o.x <= x < o.x + g.stride && o.y <= y < o.y + rows(g)
}

/// The tile a float shows at `(x, y)`: its own tile inside its box, the filler elsewhere.
pub open spec fn float_at<T>(f: TileFloat<T>, filler: T, x: int, y: int) -> T {
    match f {
        Some((o, g)) => if in_box(o, g, x, y) { cell(g.tiles@, g.stride as int, x - o.x, y - o.y) } else { filler },
        None => filler,
    }
}

/// Whether a float's storage holds exactly its whole rows: width times height tiles.
pub open spec fn float_wf<T>(f: TileFloat<T>) -> bool {
    f matches Some((o, g)) ==> g.tiles@.len() == g.stride * rows(g)
}

/// The origin, width and height a float is treated as having before `pt` is added:
/// an absent float is an empty one at `pt`.
pub open spec fn float_box<T>(f: TileFloat<T>, pt: TilePoint) -> (int, int, int, int) {
    match f {
        Some((o, g)) => (o.x as int, o.y as int, g.stride as int, rows(g)),
        None => (pt.x as int, pt.y as int, 1, 0),
    }
}

pub open spec fn min_int(a: int, b: int) -> int { if a <= b { a } else { b } }
pub open spec fn max_int(a: int, b: int) -> int { if a >= b { a } else { b } }

/// The box of the float once `pt` is added: the smallest box holding the old box and `pt`.
pub open spec fn grown_box<T>(f: TileFloat<T>, pt: TilePoint) -> (int, int, int, int) {
    let (ox, oy, w, h) = float_box(f, pt);
    let nx = min_int(ox, pt.x as int);
    let ny = min_int(oy, pt.y as int);
    (nx, ny, max_int(ox + w, pt.x + 1) - nx, max_int(oy + h, pt.y + 1) - ny)
}

/// Whether adding `pt` to the float keeps every computed quantity in `i32`
/// and the float's grid has a positive width.
pub open spec fn can_grow<T>(f: TileFloat<T>, pt: TilePoint) -> bool {
    let (ox, oy, w, h) = float_box(f, pt);
    let (nx, ny, nw, nh) = grown_box(f, pt);
    &&& (f matches Some((o, g)) ==> 0 < g.stride <= i32::MAX && rows(g) <= i32::MAX)
    &&& fits_i32(ox + w) && fits_i32(oy + h)
    &&& fits_i32(pt.x + 1) && fits_i32(pt.y + 1)
    &&& fits_i32(nw) && fits_i32(nh) && fits_i32(nw * nh)
}

/// A `new_w` by `new_h` grid of `filler` with `old` copied in at column `mx`, row `my`.
fn copy_into_larger<T: Copy>(old: &TileGrid<T>, old_w: i32, old_h: i32, mx: i32, my: i32,
    new_w: i32, new_h: i32, filler: T) -> (g: TileGrid<T>)
    requires
        old_w > 0, old_w as int == old.stride, old_h as int == rows(*old), old_h >= 0,
        0 <= mx, mx + old_w <= new_w, 0 <= my, my + old_h <= new_h,
        fits_i32(new_w * new_h),
    ensures
        g.stride == new_w as usize,
        g.tiles@.len() == new_w * new_h,
        forall|x: int, y: int| 0 <= x < new_w && 0 <= y < new_h ==>
            #[trigger] cell(g.tiles@, new_w as int, x, y) == (if 0 <= y - my < old_h && 0 <= x - mx < old_w {
                cell(old.tiles@, old_w as int, x - mx, y - my) } else { filler }),
{
    let ghost og = *old;
    let ghost nw = new_w as int;
    proof {
        assert(old_h * old_w <= new_w * new_h) by (nonlinear_arith)
            requires 0 <= old_w <= new_w, 0 <= old_h <= new_h;
        assert(old_h * old_w <= og.tiles@.len()) by (nonlinear_arith)
            requires old_h == og.tiles@.len() as int / old_w as int, old_w > 0;
    }
    let mut g: TileGrid<T> = TileGrid::new(Size2D::new(new_w, new_h), filler);
    proof {
        assert forall|x: int, y: int| 0 <= x < nw && 0 <= y < new_h implies
            #[trigger] cell(g.tiles@, nw, x, y) == (if 0 <= y - my < 0 && 0 <= x - mx < old_w {
                cell(og.tiles@, old_w as int, x - mx, y - my) } else { filler }) by {
            lemma_cell_index(nw, new_h as int, x, y);
        }
    }
    let mut line: i32 = 0;
    while line < old_h
        invariant
            0 <= line <= old_h, 0 <= mx, mx + old_w <= new_w, 0 <= my, my + old_h <= new_h,
            old_w > 0, old_h * old_w <= og.tiles@.len(), old_h * old_w <= new_w * new_h,
            nw == new_w, g.stride == new_w as usize,
            g.tiles@.len() == new_w * new_h,
            *old == og,
            fits_i32(new_w * new_h),
            forall|x: int, y: int| 0 <= x < nw && 0 <= y < new_h ==>
                #[trigger] cell(g.tiles@, nw, x, y) == (if 0 <= y - my < line && 0 <= x - mx < old_w {
                    cell(og.tiles@, old_w as int, x - mx, y - my) } else { filler }),
        decreases old_h - line,
    {
        let mut c: i32 = 0;
        while c < old_w
            invariant
                0 <= line < old_h, 0 <= c <= old_w,
                0 <= mx, mx + old_w <= new_w, 0 <= my, my + old_h <= new_h,
                old_w > 0, old_h * old_w <= og.tiles@.len(), old_h * old_w <= new_w * new_h,
                nw == new_w, g.stride == new_w as usize,
                g.tiles@.len() == new_w * new_h,
                *old == og,
                fits_i32(new_w * new_h),
                forall|x: int, y: int| 0 <= x < nw && 0 <= y < new_h ==>
                    #[trigger] cell(g.tiles@, nw, x, y) == (if (0 <= y - my < line && 0 <= x - mx < old_w)
                        || (y - my == line && 0 <= x - mx < c) {
                        cell(og.tiles@, old_w as int, x - mx, y - my) } else { filler }),
            decreases old_w - c,
        {
            proof {
                lemma_cell_index(old_w as int, old_h as int, c as int, line as int);
                lemma_cell_index(nw, new_h as int, (mx + c) as int, (my + line) as int);
            }
            let src_i = line * old_w + c;
            let dst_i = (my + line) * new_w + mx + c;
            let v = old.tiles[src_i as usize];
            let ghost before = g.tiles@;
            g.tiles.set(dst_i as usize, v);
            proof {
                assert forall|x: int, y: int| 0 <= x < nw && 0 <= y < new_h implies
                    #[trigger] cell(g.tiles@, nw, x, y) == (if (0 <= y - my < line && 0 <= x - mx < old_w)
                        || (y - my == line && 0 <= x - mx < c + 1) {
                        cell(og.tiles@, old_w as int, x - mx, y - my) } else { filler }) by {
                    lemma_cell_index(nw, new_h as int, x, y);
                    if y * nw + x == dst_i as int {
                        lemma_cell_unique(nw, x, y, (mx + c) as int, (my + line) as int);
                    } else {
                        assert(cell(g.tiles@, nw, x, y) == cell(before, nw, x, y));
                    }
                }
            }
            c = c + 1;
        }
        line = line + 1;
    }
    g
}

/// The float after writing `ch` into the grown grid at `pt`.
proof fn lemma_float_after_set<T>(old_f: TileFloat<T>, pt: TilePoint, ch: T, filler: T,
    o: TilePoint, gb: TileGrid<T>, ga: TileGrid<T>, nw: int, nh: int)
    requires
        nw > 0, nh > 0, gb.stride == nw, ga.stride == nw, rows(ga) == nh,
        gb.tiles@.len() >= nw * nh,
        o.x <= pt.x < o.x + nw, o.y <= pt.y < o.y + nh,
        ga.tiles@ == gb.tiles@.update((pt.x - o.x) + (pt.y - o.y) * nw, ch),
        forall|x: int, y: int| 0 <= x < nw && 0 <= y < nh ==>
            #[trigger] cell(gb.tiles@, nw, x, y) == float_at(old_f, filler, x + o.x, y + o.y),
        forall|x: int, y: int| !(o.x <= x < o.x + nw && o.y <= y < o.y + nh) ==>
            #[trigger] float_at(old_f, filler, x, y) == filler,
    ensures
        forall|x: int, y: int| #[trigger] float_at(Some((o, ga)), filler, x, y)
            == (if x == pt.x && y == pt.y { ch } else { float_at(old_f, filler, x, y) }),
{
    let idx = (pt.x - o.x) + (pt.y - o.y) * nw;
    lemma_cell_index(nw, nh, pt.x - o.x, pt.y - o.y);
    assert forall|x: int, y: int| #[trigger] float_at(Some((o, ga)), filler, x, y)
        == (if x == pt.x && y == pt.y { ch } else { float_at(old_f, filler, x, y) }) by {
        if in_box(o, ga, x, y) {
            let lx = x - o.x;
            let ly = y - o.y;
            lemma_cell_index(nw, nh, lx, ly);
            if !(x == pt.x && y == pt.y) {
                if ly * nw + lx == idx {
                    lemma_cell_unique(nw, lx, ly, pt.x - o.x, pt.y - o.y);
                }
                assert(cell(ga.tiles@, nw, lx, ly) == cell(gb.tiles@, nw, lx, ly));
                assert(cell(gb.tiles@, nw, lx, ly) == float_at(old_f, filler, lx + o.x, ly + o.y));
            }
        }
    }
}

/// Adds the tile `src` at `pt` to the float, growing its box to hold `pt`.
/// Nothing happens when `src` is `None`.
#[verifier::spinoff_prover]
#[verifier::rlimit(40)]
pub fn add_to_float<T: Copy>(float: &mut TileFloat<T>, pt: TilePoint, src: Option<&T>, filler: T)
    requires src is Some ==> can_grow(*old(float), pt),
    ensures
        src is None ==> *final(float) == *old(float),
        src matches Some(ch) ==> {
            let (nx, ny, nw, nh) = grown_box(*old(float), pt);
            &&& *final(float) matches Some((o, g)) && o.x == nx && o.y == ny && g.stride == nw && rows(g) == nh
            &&& forall|x: int, y: int| #[trigger] float_at(*final(float), filler, x, y)
                == (if x == pt.x && y == pt.y { *ch } else { float_at(*old(float), filler, x, y) })
            &&& float_wf(*old(float)) ==> (*final(float) matches Some((o, g)) && g.tiles@.len() == nw * nh)
        },
{
    if let Some(ch) = src {
        let ch = *ch;
        let ghost old_f = *float;
        let taken = float.take();
        let (old_origin, old_dat) = match taken {
            Some(f) => f,
            None => (pt, TileGrid::empty()),
        };
        let ghost og = old_dat;
        let old_w = old_dat.stride as i32;
        let old_h = (old_dat.tiles.len() / old_dat.stride) as i32;
        let new_origin = old_origin.min(pt);
        let sup_x = if old_origin.x + old_w >= pt.x + 1 { old_origin.x + old_w } else { pt.x + 1 };
        let sup_y = if old_origin.y + old_h >= pt.y + 1 { old_origin.y + old_h } else { pt.y + 1 };
        let new_w = sup_x - new_origin.x;
        let new_h = sup_y - new_origin.y;
        proof {
            assert(old_h as int == rows(og));
            assert(new_w >= 1 && new_h >= 1 && new_w >= old_w && new_h >= old_h);
            let (gx, gy, gw, gh) = grown_box(old_f, pt);
            assert(gx == new_origin.x && gy == new_origin.y && gw == new_w && gh == new_h);
            assert(old_h * old_w <= new_w * new_h) by (nonlinear_arith)
                requires 0 <= old_w <= new_w, 0 <= old_h <= new_h;
            assert(old_h * old_w <= og.tiles@.len()) by (nonlinear_arith)
                requires old_h == og.tiles@.len() as int / old_w as int, old_w > 0;
        }
        let ghost was_wf = float_wf(old_f);
        let grid = if new_w != old_w || new_h != old_h {
            let mx = old_origin.x - new_origin.x;
            let my = old_origin.y - new_origin.y;
            let g = copy_into_larger(&old_dat, old_w, old_h, mx, my, new_w, new_h, filler);
            proof {
                assert forall|x: int, y: int| 0 <= x < new_w && 0 <= y < new_h implies
                    #[trigger] cell(g.tiles@, new_w as int, x, y)
                        == float_at(old_f, filler, x + new_origin.x, y + new_origin.y) by {
                    assert(cell(g.tiles@, new_w as int, x, y) == (if 0 <= y - my < old_h && 0 <= x - mx < old_w {
                        cell(og.tiles@, old_w as int, x - mx, y - my) } else { filler }));
                }
            }
            g
        } else {
            proof {
                assert(new_origin.x == old_origin.x && new_origin.y == old_origin.y);
                assert forall|x: int, y: int| 0 <= x < new_w && 0 <= y < new_h implies
                    #[trigger] cell(old_dat.tiles@, new_w as int, x, y)
                        == float_at(old_f, filler, x + new_origin.x, y + new_origin.y) by {
                }
            }
            old_dat
        };
        let mut grid = grid;
        let ghost gb = grid;

        proof {
            assert forall|x: int, y: int| !(new_origin.x <= x < new_origin.x + new_w && new_origin.y <= y < new_origin.y + new_h)
                implies #[trigger] float_at(old_f, filler, x, y) == filler by {
            }
            assert(gb.tiles@.len() >= new_w * new_h);
            lemma_cell_index(new_w as int, new_h as int, (pt.x - new_origin.x) as int, (pt.y - new_origin.y) as int);
            assert(new_h as int == rows(grid)) by (nonlinear_arith)
                requires grid.tiles@.len() as int / (grid.stride as int) == rows(grid),
                    (grid.tiles@.len() == new_w * new_h || (grid.tiles@.len() == og.tiles@.len() && new_h == rows(og) && grid.stride == og.stride)),
                    new_w == grid.stride, new_w > 0, rows(og) == og.tiles@.len() as int / og.stride as int;
        }
        let idx = (pt.x - new_origin.x) + (pt.y - new_origin.y) * new_w;
        grid.tiles.set(idx as usize, ch);
        let ghost ga = grid;
        *float = Some((new_origin, grid));
        proof {
            lemma_float_after_set(old_f, pt, ch, filler, new_origin, gb, ga, new_w as int, new_h as int);
            assert(ga.tiles@.len() == gb.tiles@.len());
            if was_wf {
                assert(gb.tiles@.len() == new_w * new_h) by {
                    if !(new_w != old_w || new_h != old_h) {
                        assert(old_f is Some);
                    }
                }
            }
        }
    }
}

/// The rows of a grid that a walk over its size visits: its whole rows, or the
/// first row when it has no whole row (a walk always starts at the origin's row).
pub open spec fn visited_rows<T>(g: TileGrid<T>) -> int {
    if rows(g) == 0 { 1 } else { rows(g) }
}

/// The tile `add_float_to_float` copies to map position `(x, y)`, if any: a visited
/// tile of `src` other than `filler`.
pub open spec fn overlay_tile<T>(src_pt: TilePoint, src: TileGrid<T>, filler: T, x: int, y: int) -> Option<T> {
    let lx = x - src_pt.x;
    let ly = y - src_pt.y;
    if 0 <= lx < src.stride && 0 <= ly < visited_rows(src) && 0 <= ly * src.stride + lx < src.tiles@.len()
        && src.tiles@[ly * src.stride + lx] != filler {
        Some(src.tiles@[ly * src.stride + lx])
    } else {
        None
    }
}

/// The box holding both the float's box and the walked part of `src`, as (x, y, width, height).
pub open spec fn union_box<T>(f: TileFloat<T>, src_pt: TilePoint, src: TileGrid<T>) -> (int, int, int, int) {
    let sx = src_pt.x as int;
    let sy = src_pt.y as int;
    let sw = src.stride as int;
    let sh = visited_rows(src);
    match f {
        Some((o, g)) => {
            let x0 = min_int(o.x as int, sx);
            let y0 = min_int(o.y as int, sy);
            (x0, y0, max_int(o.x + g.stride, sx + sw) - x0, max_int(o.y + rows(g), sy + sh) - y0)
        },
        None => (sx, sy, sw, sh),
    }
}

/// Whether a box lies inside another one.
pub open spec fn box_within(inner: (int, int, int, int), outer: (int, int, int, int)) -> bool {
    outer.0 <= inner.0 && outer.1 <= inner.1
        && inner.0 + inner.2 <= outer.0 + outer.2 && inner.1 + inner.3 <= outer.1 + outer.3
}

/// Whether all coordinates, extents and areas met while overlaying `src` stay in `i32`.
pub open spec fn can_overlay<T>(f: TileFloat<T>, src_pt: TilePoint, src: TileGrid<T>) -> bool {
    let (bx, by, bw, bh) = union_box(f, src_pt, src);
    &&& 0 < src.stride
    &&& (f matches Some((o, g)) ==> 0 < g.stride && rows(g) >= 0)
    &&& fits_i32(bx) && fits_i32(by) && fits_i32(bx + bw + 1) && fits_i32(by + bh + 1)
    &&& fits_i32(bw) && fits_i32(bh) && fits_i32(bw * bh)
    &&& fits_i32(visited_rows(src) * src.stride as int)
}

proof fn lemma_can_grow_within<T>(f: TileFloat<T>, pt: TilePoint, b: (int, int, int, int))
    requires
        fits_i32(b.0) && fits_i32(b.1) && fits_i32(b.0 + b.2 + 1) && fits_i32(b.1 + b.3 + 1),
        fits_i32(b.2) && fits_i32(b.3) && fits_i32(b.2 * b.3), b.2 >= 1, b.3 >= 1,
        b.0 <= pt.x < b.0 + b.2, b.1 <= pt.y < b.1 + b.3,
        f matches Some((o, g)) ==> 0 < g.stride && rows(g) >= 0 && box_within(float_box(f, pt), b),
    ensures
        can_grow(f, pt),
        box_within(grown_box(f, pt), b),
{
    let (nx, ny, nw, nh) = grown_box(f, pt);
    assert(0 <= nw <= b.2 && 0 <= nh <= b.3);
    assert(nw * nh <= b.2 * b.3) by (nonlinear_arith) requires 0 <= nw <= b.2, 0 <= nh <= b.3;
    assert(0 <= nw * nh) by (nonlinear_arith) requires 0 <= nw, 0 <= nh;
}

/// Adds every non-filler tile of `src`, placed at `src_pt`, to the float.
/// The walk covers the grid's whole rows (or its first row if it has none),
/// row by row.
pub fn add_float_to_float<T: TileValue>(float: &mut TileFloat<T>, src_pt: TilePoint, src_grid: &TileGrid<T>, filler: T)
    requires can_overlay(*old(float), src_pt, *src_grid),
    ensures
        forall|x: int, y: int| #[trigger] float_at(*final(float), filler, x, y)
            == (match overlay_tile(src_pt, *src_grid, filler, x, y) {
                Some(t) => t,
                None => float_at(*old(float), filler, x, y),
            }),
        box_within_or_absent(*final(float), union_box(*old(float), src_pt, *src_grid)),
        *old(float) is Some ==> *final(float) is Some,
        float_wf(*old(float)) ==> float_wf(*final(float)),
{
    let ghost f0 = *float;
    let ghost b = union_box(f0, src_pt, *src_grid);
    let ghost sg = *src_grid;
    let size = src_grid.size();
    let w: i32 = size.width;
    let h: i32 = if size.height == 0 { 1 } else { size.height };
    proof {
        assert(h as int == visited_rows(sg));
        assert(b.2 >= w && b.3 >= h && b.0 <= src_pt.x && b.1 <= src_pt.y);
        assert(w >= 1 && h >= 1);
        assert(src_pt.x + w <= b.0 + b.2 && src_pt.y + h <= b.1 + b.3);
        assert(forall|x: int, y: int| #[trigger] float_at(*float, filler, x, y) == float_at(f0, filler, x, y));
    }
    let mut y: i32 = 0;
    while y < h
        invariant
            0 <= y <= h, w == sg.stride, h == visited_rows(sg), *src_grid == sg,
            can_overlay(f0, src_pt, sg), b == union_box(f0, src_pt, sg),
            src_pt.x + w <= b.0 + b.2, src_pt.y + h <= b.1 + b.3, b.0 <= src_pt.x, b.1 <= src_pt.y,
            box_within_or_absent(*float, b),
            f0 is Some ==> *float is Some,
            *float matches Some((o, g)) ==> 0 < g.stride && rows(g) >= 0,
            float_wf(f0) ==> float_wf(*float),
            forall|x: int, yy: int| #[trigger] float_at(*float, filler, x, yy)
                == (match overlay_tile(src_pt, sg, filler, x, yy) {
                    Some(t) => if yy - src_pt.y < y { t } else { float_at(f0, filler, x, yy) },
                    None => float_at(f0, filler, x, yy),
                }),
        decreases h - y,
    {
        let mut x: i32 = 0;
        while x < w
            invariant
                0 <= y < h, 0 <= x <= w, w == sg.stride, h == visited_rows(sg), *src_grid == sg,
                can_overlay(f0, src_pt, sg), b == union_box(f0, src_pt, sg),
                src_pt.x + w <= b.0 + b.2, src_pt.y + h <= b.1 + b.3, b.0 <= src_pt.x, b.1 <= src_pt.y,
                box_within_or_absent(*float, b),
                f0 is Some ==> *float is Some,
                *float matches Some((o, g)) ==> 0 < g.stride && rows(g) >= 0,
                float_wf(f0) ==> float_wf(*float),
                forall|xx: int, yy: int| #[trigger] float_at(*float, filler, xx, yy)
                    == (match overlay_tile(src_pt, sg, filler, xx, yy) {
                        Some(t) => if yy - src_pt.y < y || (yy - src_pt.y == y && xx - src_pt.x < x) { t }
                            else { float_at(f0, filler, xx, yy) },
                        None => float_at(f0, filler, xx, yy),
                    }),
            decreases w - x,
        {
            let local = TilePoint::new(x, y);
            let pt = TilePoint::new(src_pt.x + x, src_pt.y + y);
            proof {
                assert(y * w <= visited_rows(sg) * sg.stride) by (nonlinear_arith)
                    requires 0 <= y < visited_rows(sg), w == sg.stride, w > 0;
                assert(y * w + x < visited_rows(sg) * sg.stride) by (nonlinear_arith)
                    requires 0 <= y < visited_rows(sg), w == sg.stride, 0 <= x < w;
            }
            let tile = src_grid.get(local);
            let add = match tile {
                Some(t) => !t.tile_eq(&filler),
                None => true,
            };
            if add {
                proof {
                    lemma_can_grow_within(*float, pt, b);
                }
                let ghost before = *float;
                add_to_float(float, pt, tile, filler);
                proof {
                    assert forall|xx: int, yy: int| #[trigger] float_at(*float, filler, xx, yy)
                        == (match overlay_tile(src_pt, sg, filler, xx, yy) {
                            Some(t) => if yy - src_pt.y < y || (yy - src_pt.y == y && xx - src_pt.x < x + 1) { t }
                                else { float_at(f0, filler, xx, yy) },
                            None => float_at(f0, filler, xx, yy),
                        }) by {
                        assert(float_at(before, filler, xx, yy) == float_at(before, filler, xx, yy));
                    }
                    assert(box_within(grown_box(before, pt), b));
                }
            }
            x = x + 1;
        }
        y = y + 1;
    }
}

/// A float is absent or its box lies within `b`.
pub open spec fn box_within_or_absent<T>(f: TileFloat<T>, b: (int, int, int, int)) -> bool {
    f matches Some((o, g)) ==> box_within((o.x as int, o.y as int, g.stride as int, rows(g)), b)
}

/// Merges two tile updates into `dst`: the tiles of the update with priority
/// win wherever they are not the filler, the other update shows through
/// elsewhere. `src` is left as an empty update at the origin.
pub fn merge_tile_events<T: TileValue>(
    offset_dst: &mut TilePoint,
    data_dst: &mut TileGrid<T>,
    offset_src: &mut TilePoint,
    data_src: &mut TileGrid<T>,
    filler: T,
    dst_priority: bool,
)
    requires
        dst_priority ==> can_overlay(Some((*old(offset_src), *old(data_src))), *old(offset_dst), *old(data_dst)),
        !dst_priority ==> can_overlay(Some((*old(offset_dst), *old(data_dst))), *old(offset_src), *old(data_src)),
    ensures
        forall|x: int, y: int| #[trigger] float_at(Some((*final(offset_dst), *final(data_dst))), filler, x, y) == (
            if dst_priority {
                match overlay_tile(*old(offset_dst), *old(data_dst), filler, x, y) {
                    Some(t) => t,
                    None => float_at(Some((*old(offset_src), *old(data_src))), filler, x, y),
                }
            } else {
                match overlay_tile(*old(offset_src), *old(data_src), filler, x, y) {
                    Some(t) => t,
                    None => float_at(Some((*old(offset_dst), *old(data_dst))), filler, x, y),
                }
            }),
        final(offset_src).x == 0, final(offset_src).y == 0,
        final(data_src).stride == 0, final(data_src).tiles@.len() == 0,
        float_wf(Some((*old(offset_dst), *old(data_dst)))) && float_wf(Some((*old(offset_src), *old(data_src))))
            ==> float_wf(Some((*final(offset_dst), *final(data_dst)))),
{
    let mut low_off = TilePoint::zero();
    let mut low_grid = TileGrid::new(TileSize::zero(), filler);
    let mut high_off = TilePoint::zero();
    let mut high_grid = TileGrid::new(TileSize::zero(), filler);
    if dst_priority {
        std::mem::swap(&mut low_off, offset_src);
        std::mem::swap(&mut low_grid, data_src);
        std::mem::swap(&mut high_off, offset_dst);
        std::mem::swap(&mut high_grid, data_dst);
    } else {
        std::mem::swap(&mut low_off, offset_dst);
        std::mem::swap(&mut low_grid, data_dst);
        std::mem::swap(&mut high_off, offset_src);
        std::mem::swap(&mut high_grid, data_src);
    }
    let mut low = Some((low_off, low_grid));
    add_float_to_float(&mut low, high_off, &high_grid, filler);
    if let Some((o, g)) = low {
        *offset_dst = o;
        *data_dst = g;
    }
}

/// The tiles of a room that are lifted off it while being moved: of the
/// foreground, the background and the object layer.
#[derive(Debug)]
pub struct LevelFloatState {
    pub fg: TileFloat<char>,
    pub bg: TileFloat<char>,
    pub obj: TileFloat<i32>,
}

/// What overlaying the float `src` onto the float `f` shows at `(x, y)`.
pub open spec fn float_over<T>(f: TileFloat<T>, src: TileFloat<T>, filler: T, x: int, y: int) -> T {
    match src {
        Some((pt, g)) => match overlay_tile(pt, g, filler, x, y) {
            Some(t) => t,
            None => float_at(f, filler, x, y),
        },
        None => float_at(f, filler, x, y),
    }
}

/// Whether the float `src` can be laid over `f`.
pub open spec fn can_overlay_float<T>(f: TileFloat<T>, src: TileFloat<T>) -> bool {
    src matches Some((pt, g)) ==> can_overlay(f, pt, g)
}

/// Lays the lifted tiles of `src_grid` over those of `floats`, layer by
/// layer; filler tiles (`'\0'` for tiles, `-2` for object tiles) of
/// `src_grid` leave what is under them.
pub fn add_floats_to_floats(floats: &mut LevelFloatState, src_grid: &LevelFloatState)
    requires
        can_overlay_float(old(floats).fg, src_grid.fg),
        can_overlay_float(old(floats).bg, src_grid.bg),
        can_overlay_float(old(floats).obj, src_grid.obj),
    ensures
        forall|x: int, y: int| #[trigger] float_at(final(floats).fg, '\0', x, y) == float_over(old(floats).fg, src_grid.fg, '\0', x, y),
        forall|x: int, y: int| #[trigger] float_at(final(floats).bg, '\0', x, y) == float_over(old(floats).bg, src_grid.bg, '\0', x, y),
        forall|x: int, y: int| #[trigger] float_at(final(floats).obj, -2i32, x, y) == float_over(old(floats).obj, src_grid.obj, -2i32, x, y),
        float_wf(old(floats).fg) ==> float_wf(final(floats).fg),
        float_wf(old(floats).bg) ==> float_wf(final(floats).bg),
        float_wf(old(floats).obj) ==> float_wf(final(floats).obj),
{
    if let Some((pt, grid)) = &src_grid.fg {
        add_float_to_float(&mut floats.fg, *pt, grid, '\0');
    }
    if let Some((pt, grid)) = &src_grid.bg {
        add_float_to_float(&mut floats.bg, *pt, grid, '\0');
    }
    if let Some((pt, grid)) = &src_grid.obj {
        add_float_to_float(&mut floats.obj, *pt, grid, -2);
    }
}

} // verus!
