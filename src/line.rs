//! Integer line rasterisation.

use vstd::prelude::*;
use crate::geometry::{abs, Position};

verus! {

/// Whether the line from `from` to `to` moves further along y than along x.
pub open spec fn is_steep(from: (int, int), to: (int, int)) -> bool {
    abs(to.1 - from.1) > abs(to.0 - from.0)
}

/// A point written with its driving axis first.
pub open spec fn driven(p: (int, int), steep: bool) -> (int, int) {
    if steep { (p.1, p.0) } else { p }
}

/// The endpoint with the smaller driving coordinate, in the driving frame.
pub open spec fn low_end(from: (int, int), to: (int, int)) -> (int, int) {
    let s = is_steep(from, to);
    let f = driven(from, s);
    let t = driven(to, s);
    if f.0 > t.0 { t } else { f }
}

/// The endpoint with the larger driving coordinate, in the driving frame.
pub open spec fn high_end(from: (int, int), to: (int, int)) -> (int, int) {
    let s = is_steep(from, to);
    let f = driven(from, s);
    let t = driven(to, s);
    if f.0 > t.0 { f } else { t }
}

/// `n / d` rounded to the nearest integer, halves rounded up (for `d > 0`).
pub open spec fn round_div(n: int, d: int) -> int {
    (2 * n + d) / (2 * d)
}

/// How many cells the rasterised line holds.
pub open spec fn line_len(from: (int, int), to: (int, int)) -> int {
    high_end(from, to).0 - low_end(from, to).0 + 1
}

/// The `i`-th cell of the rasterised line, counted from the low end of the driving axis:
/// the driving coordinate advances by one per cell, the other one is the exact line's
/// value there, rounded to the nearest integer.
pub open spec fn line_point(from: (int, int), to: (int, int), i: int) -> (int, int) {
    let lo = low_end(from, to);
    let hi = high_end(from, to);
    let da = hi.0 - lo.0;
    let db = abs(hi.1 - lo.1);
    let step: int = if lo.1 < hi.1 { 1 } else { -1 };
    let b = if da == 0 { lo.1 } else { lo.1 + step * round_div(i * db, da) };
    if is_steep(from, to) { (b, lo.0 + i) } else { (lo.0 + i, b) }
}

/// The rasterised line as a sequence of cells, as `bresenham_line` returns it.
pub open spec fn line_cells(from: (int, int), to: (int, int)) -> Seq<Position> {
    Seq::new(
        line_len(from, to) as nat,
        |i: int| (line_point(from, to, i).0 as usize, line_point(from, to, i).1 as usize),
    )
}

pub proof fn lemma_round_div(n: int, d: int, k: int)
    requires
        d > 0,
        -d <= 2 * (n - k * d) < d,
    ensures
        round_div(n, d) == k,
{
    let r = 2 * (n - k * d) + d;
    assert(2 * n + d == k * (2 * d) + r) by (nonlinear_arith)
        requires r == 2 * (n - k * d) + d;
    vstd::arithmetic::div_mod::lemma_fundamental_div_mod_converse(2 * n + d, 2 * d, k, r);
}

/// The cells of the integer line between two non-negative points, ordered along the
/// driving axis (the one with the larger extent) from its lower end: one cell per step
/// of that axis, the other coordinate rounded to the nearest integer.
pub fn bresenham_line(from: (i32, i32), to: (i32, i32)) -> (r: Vec<Position>)
    requires
        from.0 >= 0,
        from.1 >= 0,
        to.0 >= 0,
        to.1 >= 0,
    ensures
        r@ == line_cells((from.0 as int, from.1 as int), (to.0 as int, to.1 as int)),
{
    let ghost f = (from.0 as int, from.1 as int);
    let ghost t = (to.0 as int, to.1 as int);
    let mut result: Vec<Position> = Vec::new();

    let (mut x0, mut y0): (i64, i64) = (from.0 as i64, from.1 as i64);
    let (mut x1, mut y1): (i64, i64) = (to.0 as i64, to.1 as i64);

    let adx: i64 = if x1 >= x0 { x1 - x0 } else { x0 - x1 };
    let ady: i64 = if y1 >= y0 { y1 - y0 } else { y0 - y1 };
    let steep = ady > adx;
    if steep {
        let (a, b) = (x0, y0);
        x0 = b;
        y0 = a;
        let (c, d) = (x1, y1);
        x1 = d;
        y1 = c;
    }
    if x0 > x1 {
        let (a, b) = (x0, x1);
        x0 = b;
        x1 = a;
        let (c, d) = (y0, y1);
        y0 = d;
        y1 = c;
    }
    assert(steep == is_steep(f, t));
    assert((x0 as int, y0 as int) == low_end(f, t));
    assert((x1 as int, y1 as int) == high_end(f, t));

    let delta_x: i64 = x1 - x0;
    let delta_y: i64 = if y1 >= y0 { y1 - y0 } else { y0 - y1 };
    assert(delta_y <= delta_x);
    let mut error: i64 = 0;
    let ystep: i64 = if y0 < y1 { 1 } else { -1 };
    let mut y: i64 = y0;
    let mut x: i64 = x0;
    let ghost mut k: int = 0;

    while x <= x1
        invariant
            0 <= x0 <= x <= x1 + 1,
            x1 < 0x8000_0000,
            0 <= y0 < 0x8000_0000,
            0 <= y1 < 0x8000_0000,
            steep == is_steep(f, t),
            (x0 as int, y0 as int) == low_end(f, t),
            (x1 as int, y1 as int) == high_end(f, t),
            delta_x == x1 - x0,
            delta_y == abs(y1 - y0),
            delta_y <= delta_x,
            ystep == (if y0 < y1 { 1int } else { -1int }),
            x <= x1 ==> 0 <= k <= delta_y,
            y == y0 + ystep * k,
            error == (x - x0) * delta_y - k * delta_x,
            delta_x > 0 ==> -delta_x <= 2 * error < delta_x,
            delta_x == 0 && x <= x1 ==> k == 0 && error == 0,
            result@.len() == x - x0,
            forall|i: int|
                0 <= i < result@.len() ==> #[trigger] result@[i] == line_cells(f, t)[i],
        decreases x1 + 1 - x,
    {
        let ghost i = x - x0;
        proof {
            if delta_x > 0 {
                lemma_round_div(i * delta_y, delta_x as int, k);
            }
            assert(0 <= y < 0x8000_0000) by (nonlinear_arith)
                requires
                    y == y0 + ystep * k,
                    0 <= k <= delta_y,
                    delta_y == abs(y1 - y0),
                    ystep == (if y0 < y1 { 1int } else { -1int }),
                    0 <= y0 < 0x8000_0000,
                    0 <= y1 < 0x8000_0000;
        }
        if steep {
            result.push((y as usize, x as usize));
        } else {
            result.push((x as usize, y as usize));
        }
        assert(result@[i] == line_cells(f, t)[i]);
        let ghost e0 = error;
        let ghost k0 = k;
        error = error + delta_y;
        if 2 * error >= delta_x {
            y = y + ystep;
            error = error - delta_x;
            proof {
                k = k + 1;
                assert(ystep * k == ystep * (k - 1) + ystep) by (nonlinear_arith);
            }
        }
        x = x + 1;
        proof {
            assert(error == (x - x0) * delta_y - k * delta_x) by (nonlinear_arith)
                requires
                    e0 == i * delta_y - k0 * delta_x,
                    x - x0 == i + 1,
                    (error == e0 + delta_y && k == k0) || (error == e0 + delta_y - delta_x && k
                        == k0 + 1);
            if x <= x1 {
                assert(0 <= k <= delta_y) by (nonlinear_arith)
                    requires
                        delta_x > 0,
                        0 <= k,
                        x - x0 <= delta_x,
                        delta_y >= 0,
                        2 * ((x - x0) * delta_y - k * delta_x) >= -delta_x;
            }
        }
    }
    result
}

} // verus!
