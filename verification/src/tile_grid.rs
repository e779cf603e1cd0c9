use vstd::prelude::*;
use crate::units::{fits_i32, TilePoint, TileSize};

verus! {

/// A rectangular grid of tiles stored row by row; `stride` is the width.
#[derive(Clone, Debug)]
pub struct TileGrid<T> {
    pub tiles: Vec<T>,
    pub stride: usize,
}

/// The position in `tiles` of the tile at `(x, y)`, as `get` computes it.
pub open spec fn spec_index(stride: usize, x: int, y: int) -> int {
    x + y * (stride as i32)
}

/// Whether `get` can compute the index of `pt` without leaving `i32`.
pub open spec fn index_fits<T>(g: TileGrid<T>, pt: TilePoint) -> bool {
    fits_i32(pt.y * (g.stride as i32)) && fits_i32(spec_index(g.stride, pt.x as int, pt.y as int))
}

/// The tile at `pt`, if `pt` lies in the grid: its column is inside the stride,
/// its row is not negative, and its index is inside the storage.
pub open spec fn spec_get<T>(g: TileGrid<T>, pt: TilePoint) -> Option<T> {
    if pt.x < 0 || pt.x >= (g.stride as i32) || pt.y < 0 {
        None
    } else {
        let i = spec_index(g.stride, pt.x as int, pt.y as int);
        if 0 <= i < g.tiles@.len() { Some(g.tiles@[i]) } else { None }
    }
}

/// The tile in column `x` and row `y` of row-major storage with width `stride`.
pub open spec fn cell<T>(tiles: Seq<T>, stride: int, x: int, y: int) -> T {
    tiles[y * stride + x]
}

/// Row-major positions are distinct and in range.
pub proof fn lemma_cell_index(stride: int, lines: int, x: int, y: int)
    requires 0 <= x < stride, 0 <= y < lines,
    ensures 0 <= y * stride + x < stride * lines, y * stride + x < lines * stride,
        y * stride <= y * stride + x,
{
    assert(0 <= y * stride + x < stride * lines && y * stride + x < lines * stride) by (nonlinear_arith)
        requires 0 <= x < stride, 0 <= y < lines;
}

/// Two row-major positions with columns inside the stride are equal only for the same cell.
pub proof fn lemma_cell_unique(stride: int, x1: int, y1: int, x2: int, y2: int)
    requires 0 <= x1 < stride, 0 <= x2 < stride, 0 <= y1, 0 <= y2,
        y1 * stride + x1 == y2 * stride + x2,
    ensures x1 == x2, y1 == y2,
{
    if y1 < y2 {
        assert(y1 * stride + x1 < y2 * stride + x2) by (nonlinear_arith)
            requires 0 <= x1 < stride, 0 <= x2, y1 < y2;
    } else if y2 < y1 {
        assert(y2 * stride + x2 < y1 * stride + x1) by (nonlinear_arith)
            requires 0 <= x2 < stride, 0 <= x1, y2 < y1;
    }
}

/// What `resize` keeps: the overlap of the old and new grids keeps its tiles,
/// everything else is `fill`.
pub open spec fn resized_cell<T>(old_tiles: Seq<T>, old_stride: int, old_lines: int, fill: T, x: int, y: int) -> T {
    if x < old_stride && y < old_lines { cell(old_tiles, old_stride, x, y) } else { fill }
}

impl<T: Copy> TileGrid<T> {
    /// An empty grid with stride 1: it holds no tile at any point.
    pub fn empty() -> (r: Self)
        ensures
            r.tiles@.len() == 0,
            r.stride == 1,
            forall|pt: TilePoint| #[trigger] spec_get(r, pt) is None,
    {
        TileGrid { tiles: Vec::new(), stride: 1 }
    }

    /// A grid of `size` filled with `fill`.
    pub fn new(size: TileSize, fill: T) -> (r: Self)
        requires
            fits_i32(size.width * size.height),
            size.width * size.height >= 0,
        ensures
            r.tiles@.len() == size.width * size.height,
            r.stride == size.width as usize,
            forall|i: int| 0 <= i < r.tiles@.len() ==> r.tiles@[i] == fill,
    {
        let n = (size.width * size.height) as usize;
        let mut tiles: Vec<T> = Vec::new();
        while tiles.len() < n
            invariant
                tiles@.len() <= n,
                forall|i: int| 0 <= i < tiles@.len() ==> tiles@[i] == fill,
            decreases n - tiles@.len(),
        {
            tiles.push(fill);
        }
        TileGrid { tiles, stride: size.width as usize }
    }

    /// The tile at `pt`, or `None` outside the grid.
    pub fn get(&self, pt: TilePoint) -> (r: Option<&T>)
        ensures
            r is Some <==> spec_get(*self, pt) is Some,
            r matches Some(t) ==> spec_get(*self, pt) == Some(*t),
    {
        match self.locate(pt) {
            Some(i) => Some(&self.tiles[i]),
            None => None,
        }
    }

    /// Where in storage the tile at `pt` is, if `pt` lies in the grid; the
    /// index is computed wide enough never to overflow.
    fn locate(&self, pt: TilePoint) -> (r: Option<usize>)
        ensures
            r is Some <==> spec_get(*self, pt) is Some,
            r matches Some(i) ==> i == spec_index(self.stride, pt.x as int, pt.y as int) && i < self.tiles@.len(),
    {
        if pt.x < 0 || pt.x >= self.stride as i32 || pt.y < 0 {
            None
        } else {
            let w: i32 = self.stride as i32;
            assert(-0x8000_0000 * 0x8000_0000 <= pt.y * w <= 0x8000_0000 * 0x8000_0000) by (nonlinear_arith)
                requires 0 <= pt.y <= 0x7fff_ffff, -0x8000_0000 <= w <= 0x7fff_ffff;
            let i: i64 = pt.x as i64 + (pt.y as i64) * (w as i64);
            if 0 <= i && (i as u64) < (self.tiles.len() as u64) {
                Some(i as usize)
            } else {
                None
            }
        }
    }

    /// The size of the grid: the stride by the number of whole rows.
    pub fn size(&self) -> (r: TileSize)
        requires self.stride > 0,
        ensures
            r.width == self.stride as i32,
            r.height == (self.tiles@.len() as int / (self.stride as int)) as i32,
    {
        TileSize::new(self.stride as i32, (self.tiles.len() / self.stride) as i32)
    }

    /// Changes the size to `size`, keeping the tiles of the top-left overlap
    /// of the old and new grids and filling the rest with `fill`.
    pub fn resize(&mut self, size: TileSize, fill: T)
        requires
            old(self).stride > 0,
            (size.width as usize) * (size.height as usize) <= usize::MAX,
        ensures
            final(self).stride == size.width as usize,
            final(self).tiles@.len() == (size.width as usize) * (size.height as usize),
            forall|x: int, y: int| 0 <= x < (size.width as usize) && 0 <= y < (size.height as usize)
                ==> #[trigger] cell(final(self).tiles@, size.width as usize as int, x, y)
                    == resized_cell(old(self).tiles@, old(self).stride as int,
                        old(self).tiles@.len() as int / (old(self).stride as int), fill, x, y),
    {
        let old_stride = self.stride;
        let new_stride = size.width as usize;
        let min_stride = if new_stride < old_stride { new_stride } else { old_stride };
        let old_lines = self.tiles.len() / old_stride;
        let new_lines = size.height as usize;
        let min_lines = if new_lines < old_lines { new_lines } else { old_lines };
        let n = new_stride * new_lines;
        let ghost old_tiles = self.tiles@;
        let ghost os = old_stride as int;
        let ghost ns = new_stride as int;

        let mut result: Vec<T> = Vec::new();
        while result.len() < n
            invariant
                result@.len() <= n,
                forall|i: int| 0 <= i < result@.len() ==> result@[i] == fill,
            decreases n - result@.len(),
        {
            result.push(fill);
        }
        proof {
            assert(old_lines * os <= old_tiles.len()) by (nonlinear_arith)
                requires old_lines == old_tiles.len() as int / os, os > 0;
            assert forall|x: int, y: int| 0 <= x < ns && 0 <= y < new_lines implies
                #[trigger] cell(result@, ns, x, y) == (if y < 0 && x < min_stride {
                    cell(old_tiles, os, x, y) } else { fill }) by {
                lemma_cell_index(ns, new_lines as int, x, y);
            }
        }

        let mut line: usize = 0;
        while line < min_lines
            invariant
                line <= min_lines, min_lines <= new_lines, min_lines <= old_lines,
                min_stride <= new_stride, min_stride <= old_stride,
                old_lines * os <= old_tiles.len(),
                old_tiles.len() <= usize::MAX,
                os == old_stride, ns == new_stride, old_stride > 0,
                old_tiles == self.tiles@,
                n == new_stride * new_lines,
                result@.len() == n,
                forall|x: int, y: int| 0 <= x < ns && 0 <= y < new_lines ==>
                    #[trigger] cell(result@, ns, x, y) == (if y < line && x < min_stride {
                        cell(old_tiles, os, x, y) } else { fill }),
            decreases min_lines - line,
        {
            let mut col: usize = 0;
            while col < min_stride
                invariant
                    line < min_lines, min_lines <= new_lines, min_lines <= old_lines,
                    col <= min_stride, min_stride <= new_stride, min_stride <= old_stride,
                    old_lines * os <= old_tiles.len(),
                    old_tiles.len() <= usize::MAX,
                    os == old_stride, ns == new_stride, old_stride > 0,
                    old_tiles == self.tiles@,
                    n == new_stride * new_lines,
                    result@.len() == n,
                    forall|x: int, y: int| 0 <= x < ns && 0 <= y < new_lines ==>
                        #[trigger] cell(result@, ns, x, y) == (if (y < line && x < min_stride) || (y == line && x < col) {
                            cell(old_tiles, os, x, y) } else { fill }),
                decreases min_stride - col,
            {
                proof {
                    lemma_cell_index(os, old_lines as int, col as int, line as int);
                    lemma_cell_index(ns, new_lines as int, col as int, line as int);
                }
                let src = line * old_stride + col;
                let dst = line * new_stride + col;
                let v = self.tiles[src];
                let ghost before = result@;
                result.set(dst, v);
                proof {
                    assert forall|x: int, y: int| 0 <= x < ns && 0 <= y < new_lines implies
                        #[trigger] cell(result@, ns, x, y) == (if (y < line && x < min_stride) || (y == line && x < col + 1) {
                            cell(old_tiles, os, x, y) } else { fill }) by {
                        lemma_cell_index(ns, new_lines as int, x, y);
                        if y * ns + x == dst as int {
                            lemma_cell_unique(ns, x, y, col as int, line as int);
                        } else {
                            assert(cell(result@, ns, x, y) == cell(before, ns, x, y));
                            if y == line && x == col {
                                assert(false);
                            }
                        }
                    }
                }
                col = col + 1;
            }
            line = line + 1;
        }
        self.tiles = result;
        self.stride = new_stride;
    }

    /// Mutable access to the tile at `pt`, or `None` outside the grid.
    pub fn get_mut(&mut self, pt: TilePoint) -> (r: Option<&mut T>)
        ensures
            r is Some <==> spec_get(*old(self), pt) is Some,
            r matches Some(t) ==> spec_get(*old(self), pt) == Some(*t),
            r matches Some(t) ==> final(self).tiles@ == old(self).tiles@.update(
                spec_index(old(self).stride, pt.x as int, pt.y as int), *final(t)),
            final(self).stride == old(self).stride,
            r is None ==> final(self).tiles@ == old(self).tiles@,
    {
        match self.locate(pt) {
            Some(i) => Some(&mut self.tiles[i]),
            None => None,
        }
    }
}

impl<T: Copy + Default> TileGrid<T> {
    /// The tile at `pt`, or the default tile outside the grid.
    pub fn get_or_default(&self, pt: TilePoint) -> (r: T)
        ensures
            spec_get(*self, pt) matches Some(t) ==> r == t,
            spec_get(*self, pt) is None ==> call_ensures(T::default, (), r),
    {
        match self.get(pt) {
            Some(t) => *t,
            None => T::default(),
        }
    }

    /// A grid of `size` filled with the default tile.
    pub fn new_default(size: TileSize) -> (r: Self)
        requires
            fits_i32(size.width * size.height),
            size.width * size.height >= 0,
        ensures
            r.tiles@.len() == size.width * size.height,
            r.stride == size.width as usize,
            forall|i: int, j: int| 0 <= i < r.tiles@.len() && 0 <= j < r.tiles@.len()
                ==> r.tiles@[i] == r.tiles@[j],
            r.tiles@.len() > 0 ==> call_ensures(T::default, (), r.tiles@[0]),
    {
        TileGrid::new(size, T::default())
    }
}

} // verus!
