//! Opening the entrance and the exit: straight two-cell-tall tunnels from a margin
//! into the carved maze.

use vstd::prelude::*;
use crate::geometry::Position;
use crate::grid::{Grid, MAX_SIDE};

verus! {

/// Both cells of column `x` in rows `row` and `row + 1` are traversable.
pub open spec fn open_pair(g: Grid, x: int, row: int) -> bool {
    x >= 0 && row >= 0 && g.holds((x as usize, row as usize)) && g.holds(
        (x as usize, (row + 1) as usize),
    )
}

/// `q` lies in rows `row`, `row + 1` and in a column of `[lo, hi)`.
pub open spec fn in_tunnel(q: Position, row: int, lo: int, hi: int) -> bool {
    (q.1 == row || q.1 == row + 1) && lo <= q.0 < hi
}

/// Scans rightward from column `start`, opening rows `row` and `row + 1` of each column
/// visited, until a column where both are already open. Returns that column, or `None`
/// (having opened every column from `start` to the right edge) when there is none.
pub fn carve_from_left(g: &mut Grid, row: usize, start: usize) -> (r: Option<usize>)
    requires
        old(g).wf(),
        row + 1 < old(g).rows(),
    ensures
        final(g).wf(),
        final(g).cols() == old(g).cols(),
        final(g).rows() == old(g).rows(),
        match r {
            Some(x) => start <= x < old(g).cols() && open_pair(*old(g), x as int, row as int)
                && forall|x2: int| start <= x2 < x ==> !#[trigger] open_pair(*old(g), x2, row as int),
            None => forall|x2: int|
                start <= x2 < old(g).cols() ==> !#[trigger] open_pair(*old(g), x2, row as int),
        },
        forall|q: Position| #[trigger]
            final(g).holds(q) == (old(g).holds(q) || in_tunnel(
                q,
                row as int,
                start as int,
                match r {
                    Some(x) => x as int,
                    None => old(g).cols() as int,
                },
            )),
{
    let ghost g0 = *g;
    proof {
        g.lemma_area();
    }
    let w = g.width();
    let mut x: usize = start;
    while x < w
        invariant
            g0 == *old(g),
            g.wf(),
            g.cols() == g0.cols(),
            g.rows() == g0.rows(),
            w == g0.cols(),
            row + 1 < g0.rows(),
            start <= x,
            x <= w || x == start,
            g0.rows() <= MAX_SIDE,
            forall|x2: int| start <= x2 < x ==> !#[trigger] open_pair(g0, x2, row as int),
            forall|q: Position| #[trigger]
                g.holds(q) == (g0.holds(q) || in_tunnel(q, row as int, start as int, x as int)),
        decreases w - x,
    {
        if g.is_valid((x, row)) && g.is_valid((x, row + 1)) {
            assert(g.holds((x, row)) == g0.holds((x, row)));
            assert(g.holds((x, (row + 1) as usize)) == g0.holds((x, (row + 1) as usize)));
            return Some(x);
        }
        assert(!open_pair(g0, x as int, row as int)) by {
            assert(g.holds((x, row)) == g0.holds((x, row)));
            assert(g.holds((x, (row + 1) as usize)) == g0.holds((x, (row + 1) as usize)));
        }
        g.insert((x, row));
        g.insert((x, row + 1));
        x = x + 1;
    }
    None
}

/// Scans leftward from the right edge, opening rows `row` and `row + 1` of each column
/// visited, until a column where both are already open. Returns that column, or `None`
/// (having opened every column) when there is none.
pub fn carve_from_right(g: &mut Grid, row: usize) -> (r: Option<usize>)
    requires
        old(g).wf(),
        row + 1 < old(g).rows(),
    ensures
        final(g).wf(),
        final(g).cols() == old(g).cols(),
        final(g).rows() == old(g).rows(),
        match r {
            Some(x) => x < old(g).cols() && open_pair(*old(g), x as int, row as int) && forall|
                x2: int,
            |
                x < x2 < old(g).cols() ==> !#[trigger] open_pair(*old(g), x2, row as int),
            None => forall|x2: int|
                0 <= x2 < old(g).cols() ==> !#[trigger] open_pair(*old(g), x2, row as int),
        },
        forall|q: Position| #[trigger]
            final(g).holds(q) == (old(g).holds(q) || in_tunnel(
                q,
                row as int,
                match r {
                    Some(x) => x + 1,
                    None => 0,
                },
                old(g).cols() as int,
            )),
{
    let ghost g0 = *g;
    proof {
        g.lemma_area();
    }
    let w = g.width();
    let mut x: usize = w;
    while x > 0
        invariant
            g0 == *old(g),
            g.wf(),
            g.cols() == g0.cols(),
            g.rows() == g0.rows(),
            w == g0.cols(),
            row + 1 < g0.rows(),
            x <= w,
            g0.rows() <= MAX_SIDE,
            forall|x2: int| x <= x2 < w ==> !#[trigger] open_pair(g0, x2, row as int),
            forall|q: Position| #[trigger]
                g.holds(q) == (g0.holds(q) || in_tunnel(q, row as int, x as int, w as int)),
        decreases x,
    {
        let c = x - 1;
        if g.is_valid((c, row)) && g.is_valid((c, row + 1)) {
            assert(g.holds((c, row)) == g0.holds((c, row)));
            assert(g.holds((c, (row + 1) as usize)) == g0.holds((c, (row + 1) as usize)));
            return Some(c);
        }
        assert(!open_pair(g0, c as int, row as int)) by {
            assert(g.holds((c, row)) == g0.holds((c, row)));
            assert(g.holds((c, (row + 1) as usize)) == g0.holds((c, (row + 1) as usize)));
        }
        g.insert((c, row));
        g.insert((c, row + 1));
        x = c;
    }
    None
}

} // verus!
