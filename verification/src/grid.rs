//! The mathematical content of a raster: a rectangle of cells, row by row.
//! Every contract of the library speaks of rasters through this model.

use vstd::prelude::*;

verus! {

/// A rectangle of `width` by `height` cells; `rows[y][x]` is the cell in
/// column `x` of row `y`, counted from the top-left corner.
#[verifier::ext_equal]
pub struct Grid<T> {
    pub width: nat,
    pub height: nat,
    pub rows: Seq<Seq<T>>,
}

pub open spec fn min_int(a: int, b: int) -> int {
    if a <= b {
        a
    } else {
        b
    }
}

impl<T> Grid<T> {
    /// There are `height` rows and each holds `width` cells.
    pub open spec fn wf(self) -> bool {
        &&& self.rows.len() == self.height
        &&& forall|y: int| 0 <= y < self.height ==> (#[trigger] self.rows[y]).len() == self.width
    }

    /// Whether `(x, y)` names a cell of the grid.
    pub open spec fn inside(self, x: int, y: int) -> bool {
        0 <= x < self.width && 0 <= y < self.height
    }

    /// The cell in column `x` of row `y`.
    pub open spec fn at(self, x: int, y: int) -> T {
        self.rows[y][x]
    }

    /// The grid whose cell `(x, y)` is `cell(x, y)`.
    pub open spec fn build(width: nat, height: nat, cell: spec_fn(int, int) -> T) -> Grid<T> {
        Grid { width, height, rows: Seq::new(height, |y: int| Seq::new(width, |x: int| cell(x, y))) }
    }

    /// The grid with cell `(x, y)` replaced by `value`.
    pub open spec fn put(self, x: int, y: int, value: T) -> Grid<T> {
        Grid { width: self.width, height: self.height, rows: self.rows.update(y, self.rows[y].update(x, value)) }
    }

    /// The grid turned a quarter clockwise: the cell `(x, y)` moves to
    /// `(height - 1 - y, x)`, and width and height change places.
    pub open spec fn rotate90(self) -> Grid<T> {
        Grid::build(self.height, self.width, |x: int, y: int| self.at(y, self.height - 1 - x))
    }

    /// The grid turned three quarters clockwise: the cell `(x, y)` moves to
    /// `(y, width - 1 - x)`, and width and height change places.
    pub open spec fn rotate270(self) -> Grid<T> {
        Grid::build(self.height, self.width, |x: int, y: int| self.at(self.width - 1 - y, x))
    }

    /// The corner and extent of a cut-out once it is shrunk to lie within the
    /// grid: first the corner is moved onto the grid, then the extent is cut to
    /// what is left to the right of and below the corner.
    pub open spec fn clip(self, x: int, y: int, w: int, h: int) -> (int, int, int, int) {
        let cx = min_int(x, self.width as int);
        let cy = min_int(y, self.height as int);
        (cx, cy, min_int(w, self.width - cx), min_int(h, self.height - cy))
    }

    /// The cut-out of `w` by `h` cells whose top-left corner is `(x, y)`,
    /// shrunk to the part that lies within the grid.
    pub open spec fn crop(self, x: int, y: int, w: int, h: int) -> Grid<T> {
        let (cx, cy, cw, ch) = self.clip(x, y, w, h);
        Grid::build(cw as nat, ch as nat, |i: int, j: int| self.at(cx + i, cy + j))
    }

    /// The grid with `src` laid over it, the top-left corner of `src` at
    /// `(x, y)`. Cells of `src` that fall outside the grid are dropped.
    pub open spec fn paste(self, src: Grid<T>, x: int, y: int) -> Grid<T> {
        Grid::build(
            self.width,
            self.height,
            |i: int, j: int|
                if src.inside(i - x, j - y) {
                    src.at(i - x, j - y)
                } else {
                    self.at(i, j)
                },
        )
    }
}

/// Two well-formed grids of the same size with the same cells are equal.
pub proof fn lemma_grid_equal<T>(a: Grid<T>, b: Grid<T>)
    requires
        a.wf(),
        b.wf(),
        a.width == b.width,
        a.height == b.height,
        forall|x: int, y: int| a.inside(x, y) ==> a.at(x, y) == b.at(x, y),
    ensures
        a == b,
{
    assert forall|y: int| 0 <= y < a.height implies a.rows[y] =~= b.rows[y] by {
        assert forall|x: int| 0 <= x < a.width implies a.rows[y][x] == b.rows[y][x] by {
            assert(a.inside(x, y));
        }
    }
    assert(a.rows =~= b.rows);
}

/// A quarter turn followed by a three-quarter turn puts every cell back.
pub proof fn lemma_rotate90_then_270<T>(g: Grid<T>)
    requires
        g.wf(),
    ensures
        g.rotate90().rotate270() == g,
{
    let r = g.rotate90().rotate270();
    assert forall|x: int, y: int| r.inside(x, y) implies r.at(x, y) == g.at(x, y) by {
        assert(g.rotate90().inside(g.height - 1 - y, x));
    }
    lemma_grid_equal(r, g);
}

/// A three-quarter turn followed by a quarter turn puts every cell back.
pub proof fn lemma_rotate270_then_90<T>(g: Grid<T>)
    requires
        g.wf(),
    ensures
        g.rotate270().rotate90() == g,
{
    let r = g.rotate270().rotate90();
    assert forall|x: int, y: int| r.inside(x, y) implies r.at(x, y) == g.at(x, y) by {
        assert(g.rotate270().inside(y, g.width - 1 - x));
    }
    lemma_grid_equal(r, g);
}

} // verus!
