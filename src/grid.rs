//! The valid-position index: which cells of a rectangular raster are traversable.

use vstd::prelude::*;
use crate::geometry::Position;

verus! {

/// Largest width or height a grid may have; keeps every coordinate, and one step
/// beyond it, inside `i32`.
pub const MAX_SIDE: usize = 0x4000_0000;

/// A rectangular raster of cells, each traversable or wall, stored row by row.
pub struct Grid {
    width: usize,
    height: usize,
    cells: Vec<bool>,
}

proof fn lemma_index(width: int, height: int, p: (int, int))
    requires
        0 <= p.0 < width,
        0 <= p.1 < height,
    ensures
        0 <= p.1 * width + p.0 < width * height,
{
    assert(p.1 * width + p.0 < width * height) by (nonlinear_arith)
        requires
            0 <= p.0 < width,
            0 <= p.1 < height;
    assert(0 <= p.1 * width) by (nonlinear_arith)
        requires
            0 <= p.1,
            0 <= width;
}

proof fn lemma_index_unique(width: int, p: (int, int), q: (int, int))
    requires
        0 <= p.0 < width,
        0 <= q.0 < width,
        0 <= p.1,
        0 <= q.1,
        p.1 * width + p.0 == q.1 * width + q.0,
    ensures
        p == q,
{
    if p.1 < q.1 {
        assert(p.1 * width + width <= q.1 * width) by (nonlinear_arith)
            requires
                p.1 < q.1,
                0 <= width;
    } else if q.1 < p.1 {
        assert(q.1 * width + width <= p.1 * width) by (nonlinear_arith)
            requires
                q.1 < p.1,
                0 <= width;
    }
}

/// The pixel of cell `p` in an RGB raster `w` pixels wide has colour `c`.
pub open spec fn pixel_is(s: Seq<u8>, w: int, p: Position, c: (u8, u8, u8)) -> bool {
    let i = 3 * (p.1 * w + p.0);
    s[i] == c.0 && s[i + 1] == c.1 && s[i + 2] == c.2
}

impl Grid {
    /// The number of columns.
    pub closed spec fn cols(&self) -> nat {
        self.width as nat
    }

    /// The number of rows.
    pub closed spec fn rows(&self) -> nat {
        self.height as nat
    }

    /// The storage matches the dimensions, which stay within `MAX_SIDE`.
    pub closed spec fn wf(&self) -> bool {
        &&& self.cells@.len() == self.width * self.height
        &&& self.width * self.height <= usize::MAX
        &&& self.width <= MAX_SIDE
        &&& self.height <= MAX_SIDE
    }

    /// Whether a cell lies on the raster.
    pub open spec fn in_bounds(&self, p: Position) -> bool {
        p.0 < self.cols() && p.1 < self.rows()
    }

    /// Whether a cell is traversable; cells off the raster never are.
    pub closed spec fn holds(&self, p: Position) -> bool {
        p.0 < self.width && p.1 < self.height && self.cells@[p.1 * self.width + p.0]
    }

    /// The set of traversable cells.
    pub open spec fn valid_set(&self) -> Set<Position> {
        Set::new(|p: Position| self.holds(p))
    }

    pub proof fn lemma_area(&self)
        requires
            self.wf(),
        ensures
            self.cols() * self.rows() <= usize::MAX,
            self.cols() <= MAX_SIDE,
            self.rows() <= MAX_SIDE,
    {
    }

    pub proof fn lemma_holds_in_bounds(&self, p: Position)
        ensures
            self.holds(p) ==> self.in_bounds(p),
    {
    }

    /// A raster of the given size with no traversable cell.
    pub fn new(width: usize, height: usize) -> (g: Grid)
        requires
            width <= MAX_SIDE,
            height <= MAX_SIDE,
            width * height <= usize::MAX,
        ensures
            g.wf(),
            g.cols() == width,
            g.rows() == height,
            forall|p: Position| !g.holds(p),
    {
        let n: usize = width * height;
        let mut cells: Vec<bool> = Vec::new();
        let mut i: usize = 0;
        while i < n
            invariant
                i <= n,
                cells@.len() == i,
                forall|j: int| 0 <= j < i ==> !#[trigger] cells@[j],
            decreases n - i,
        {
            cells.push(false);
            i = i + 1;
        }
        let g = Grid { width, height, cells };
        proof {
            assert forall|p: Position| !g.holds(p) by {
                if p.0 < width && p.1 < height {
                    lemma_index(width as int, height as int, (p.0 as int, p.1 as int));
                }
            }
        }
        g
    }

    /// The grid of an RGB raster whose traversable cells are the `background` pixels.
    pub fn from_raster(rgb: &Vec<u8>, width: usize, height: usize, background: (u8, u8, u8)) -> (g:
        Grid)
        requires
            width <= MAX_SIDE,
            height <= MAX_SIDE,
            4 * width * height <= usize::MAX,
            rgb@.len() == 3 * width * height,
        ensures
            g.wf(),
            g.cols() == width,
            g.rows() == height,
            forall|p: Position| #[trigger]
                g.holds(p) == (p.0 < width && p.1 < height && pixel_is(
                    rgb@,
                    width as int,
                    p,
                    background,
                )),
    {
        assert(width * height <= usize::MAX) by (nonlinear_arith)
            requires 4 * width * height <= usize::MAX;
        let mut g = Grid::new(width, height);
        let mut y: usize = 0;
        let mut k: usize = 0;
        while y < height
            invariant
                g.wf(),
                g.cols() == width,
                g.rows() == height,
                width <= MAX_SIDE,
                height <= MAX_SIDE,
                4 * width * height <= usize::MAX,
                rgb@.len() == 3 * width * height,
                y <= height,
                k == y * width,
                forall|p: Position| #[trigger]
                    g.holds(p) == (p.0 < width && p.1 < y && pixel_is(
                        rgb@,
                        width as int,
                        p,
                        background,
                    )),
            decreases height - y,
        {
            let mut x: usize = 0;
            while x < width
                invariant
                    g.wf(),
                    g.cols() == width,
                    g.rows() == height,
                    width <= MAX_SIDE,
                    height <= MAX_SIDE,
                    4 * width * height <= usize::MAX,
                    rgb@.len() == 3 * width * height,
                    y < height,
                    x <= width,
                    k == y * width + x,
                    forall|p: Position| #[trigger]
                        g.holds(p) == (p.0 < width && (p.1 < y || (p.1 == y && p.0 < x))
                            && pixel_is(rgb@, width as int, p, background)),
                decreases width - x,
            {
                proof {
                    lemma_index(width as int, height as int, (x as int, y as int));
                    assert(3 * k + 2 < 3 * width * height) by (nonlinear_arith)
                        requires k < width * height;
                    assert(3 * width * height <= 4 * width * height) by (nonlinear_arith);
                }
                if rgb[3 * k] == background.0 && rgb[3 * k + 1] == background.1 && rgb[3 * k
                    + 2] == background.2 {
                    g.insert((x, y));
                }
                x = x + 1;
                k = k + 1;
            }
            proof {
                assert(k == (y + 1) * width) by (nonlinear_arith)
                    requires k == y * width + width;
            }
            y = y + 1;
        }
        g
    }

    pub fn width(&self) -> (r: usize)
        ensures
            r == self.cols(),
    {
        self.width
    }

    pub fn height(&self) -> (r: usize)
        ensures
            r == self.rows(),
    {
        self.height
    }

    /// Whether `p` is a traversable cell.
    pub fn is_valid(&self, p: Position) -> (r: bool)
        requires
            self.wf(),
        ensures
            r == self.holds(p),
    {
        let n = self.cells.len();
        if p.0 < self.width && p.1 < self.height {
            proof {
                lemma_index(self.width as int, self.height as int, (p.0 as int, p.1 as int));
            }
            self.cells[p.1 * self.width + p.0]
        } else {
            false
        }
    }

    /// Marks an on-raster cell traversable.
    pub fn insert(&mut self, p: Position)
        requires
            old(self).wf(),
            old(self).in_bounds(p),
        ensures
            final(self).wf(),
            final(self).cols() == old(self).cols(),
            final(self).rows() == old(self).rows(),
            forall|q: Position| #[trigger] final(self).holds(q) == (old(self).holds(q) || q == p),
    {
        let n = self.cells.len();
        proof {
            lemma_index(self.width as int, self.height as int, (p.0 as int, p.1 as int));
        }
        let i = p.1 * self.width + p.0;
        self.cells.set(i, true);
        proof {
            assert forall|q: Position| #[trigger] self.holds(q) == (old(self).holds(q) || q == p) by {
                if q.0 < self.width && q.1 < self.height {
                    lemma_index(self.width as int, self.height as int, (q.0 as int, q.1 as int));
                    if q.1 * self.width + q.0 == i {
                        lemma_index_unique(
                            self.width as int,
                            (p.0 as int, p.1 as int),
                            (q.0 as int, q.1 as int),
                        );
                    }
                }
            }
        }
    }

    /// Marks every on-raster cell of the rectangle `[x, x + w) × [y, y + h)` traversable.
    pub fn open_rect(&mut self, x: usize, y: usize, w: usize, h: usize)
        requires
            old(self).wf(),
            x + w <= old(self).cols(),
            y + h <= old(self).rows(),
        ensures
            final(self).wf(),
            final(self).cols() == old(self).cols(),
            final(self).rows() == old(self).rows(),
            forall|q: Position| #[trigger]
                final(self).holds(q) == (old(self).holds(q) || (x <= q.0 < x + w && y <= q.1
                    < y + h)),
    {
        let ghost g0 = *self;
        let mut j: usize = y;
        while j < y + h
            invariant
                y <= j <= y + h,
                x + w <= self.cols(),
                y + h <= self.rows(),
                self.wf(),
                self.cols() == g0.cols(),
                self.rows() == g0.rows(),
                forall|q: Position| #[trigger]
                    self.holds(q) == (g0.holds(q) || (x <= q.0 < x + w && y <= q.1 < j)),
            decreases y + h - j,
        {
            let mut i: usize = x;
            while i < x + w
                invariant
                    y <= j < y + h,
                    x <= i <= x + w,
                    x + w <= self.cols(),
                    y + h <= self.rows(),
                    self.wf(),
                    self.cols() == g0.cols(),
                    self.rows() == g0.rows(),
                    forall|q: Position| #[trigger]
                        self.holds(q) == (g0.holds(q) || (x <= q.0 < x + w && y <= q.1 < j) || (
                        x <= q.0 < i && q.1 == j)),
                decreases x + w - i,
            {
                self.insert((i, j));
                i = i + 1;
            }
            j = j + 1;
        }
    }
}

} // verus!
