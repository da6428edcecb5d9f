//! Line of sight: which cells an observer perceives, for each perception mode.

use vstd::prelude::*;
use crate::geometry::{abs, Direction, Position, ViewMode};
use crate::grid::{Grid, MAX_SIDE};
use crate::line::{bresenham_line, lemma_round_div, driven, high_end, is_steep, line_cells, line_len, line_point, low_end, round_div};

verus! {

/// A cell as a pair of integers.
pub open spec fn ipos(p: Position) -> (int, int) {
    (p.0 as int, p.1 as int)
}

/// Sight may not pass diagonally from `a` to the diagonal neighbour `b` when `b` is open
/// but both cells forming the corner between them are walls.
pub open spec fn corner_blocked(g: Grid, a: Position, b: Position) -> bool {
    &&& abs(b.0 - a.0) == 1
    &&& abs(b.1 - a.1) == 1
    &&& g.holds(b)
    &&& !g.holds((b.0, a.1))
    &&& !g.holds((a.0, b.1))
}

/// A sequence read forwards, or backwards.
pub open spec fn oriented(l: Seq<Position>, forward: bool) -> Seq<Position> {
    Seq::new(l.len(), |i: int| if forward { l[i] } else { l[l.len() - 1 - i] })
}

/// The rasterised line between observer `o` and cell `c`, walked from `o` outward.
pub open spec fn sight_line(o: Position, c: Position) -> Seq<Position> {
    let l = line_cells(ipos(o), ipos(c));
    oriented(l, l[0] == o)
}

/// Sight continues past the `i`-th cell of `l`: the cell is open and the step to the
/// next one cuts no corner.
pub open spec fn passes(g: Grid, l: Seq<Position>, i: int) -> bool {
    g.holds(l[i]) && !(i + 1 < l.len() && corner_blocked(g, l[i], l[i + 1]))
}

/// The `j`-th cell of `l` is reached: sight passed every cell before it.
pub open spec fn reached(g: Grid, l: Seq<Position>, j: int) -> bool {
    0 <= j < l.len() && forall|i: int| 0 <= i < j ==> #[trigger] passes(g, l, i)
}

/// `p` is seen by `o` along the sight line towards `c` (a wall that stops sight is seen).
pub open spec fn seen_along(g: Grid, o: Position, c: Position, p: Position) -> bool {
    exists|j: int| #[trigger] reached(g, sight_line(o, c), j) && sight_line(o, c)[j] == p
}

/// Lower end of a coordinate range `[a - r, a + r]`, clipped at zero.
pub open spec fn range_lo(a: int, r: int) -> int {
    if a >= r { a - r } else { 0 }
}

/// Upper end of a coordinate range `[a - r, a + r]`, clipped at `n`.
pub open spec fn range_hi(a: int, r: int, n: int) -> int {
    if a + r <= n { a + r } else { n }
}

/// `c` is one of the candidate cells whose sight lines are walked for radius `r`.
pub open spec fn in_box(g: Grid, o: Position, r: int, c: Position) -> bool {
    &&& range_lo(o.0 as int, r) <= c.0 <= range_hi(o.0 as int, r, g.cols() as int)
    &&& range_lo(o.1 as int, r) <= c.1 <= range_hi(o.1 as int, r, g.rows() as int)
}

/// `c` comes before column `x` of row `y` in row-major order.
pub open spec fn before(c: Position, y: int, x: int) -> bool {
    c.1 < y || (c.1 == y && c.0 < x)
}

/// `p` is seen along the sight line towards some candidate that comes before `(x, y)`.
pub open spec fn swept_before(g: Grid, o: Position, r: int, p: Position, y: int, x: int) -> bool {
    exists|c: Position| #[trigger] in_box(g, o, r, c) && before(c, y, x) && seen_along(g, o, c, p)
}

/// `p` is seen along the sight line towards some candidate within radius `r`.
pub open spec fn swept(g: Grid, o: Position, r: int, p: Position) -> bool {
    exists|c: Position| #[trigger] in_box(g, o, r, c) && seen_along(g, o, c, p)
}

/// The directional filter of a view: `Cone` keeps a quarter-turn wedge around the facing
/// direction, `Plane` the open half-plane ahead; `Full` and `Circle` keep everything.
pub open spec fn in_view(view: ViewMode, dir: Direction, o: Position, p: Position) -> bool {
    let dx = p.0 - o.0;
    let dy = p.1 - o.1;
    match view {
        ViewMode::Cone { .. } => match dir {
            Direction::North => dx >= dy && dx <= -dy,
            Direction::East => dy <= dx && dy >= -dx,
            Direction::South => dx <= dy && dx >= -dy,
            Direction::West => dy >= dx && dy <= -dx,
            Direction::NorthEast => dx >= 0 && dy <= 0,
            Direction::SouthEast => dx >= 0 && dy >= 0,
            Direction::SouthWest => dx <= 0 && dy >= 0,
            Direction::NorthWest => dx <= 0 && dy <= 0,
        },
        ViewMode::Plane { .. } => match dir {
            Direction::North => dy < 0,
            Direction::East => dx > 0,
            Direction::South => dy > 0,
            Direction::West => dx < 0,
            Direction::NorthEast => dx > dy,
            Direction::SouthEast => dx > -dy,
            Direction::SouthWest => dx < dy,
            Direction::NorthWest => dx < -dy,
        },
        _ => true,
    }
}

/// Whether an observer at `o` facing `dir` with `view` perceives cell `p`.
pub open spec fn sees(g: Grid, o: Position, dir: Direction, view: ViewMode, p: Position) -> bool {
    match view {
        ViewMode::Full => g.holds(p),
        _ => g.in_bounds(p) && swept(g, o, view.radius_spec() as int, p) && in_view(
            view,
            dir,
            o,
            p,
        ),
    }
}

/// A list of cells with no repeats holding exactly the cells that `o` perceives.
pub open spec fn is_visible_list(
    g: Grid,
    o: Position,
    dir: Direction,
    view: ViewMode,
    s: Seq<Position>,
) -> bool {
    &&& s.no_duplicates()
    &&& forall|p: Position| #[trigger] s.contains(p) == sees(g, o, dir, view, p)
}

/// `v` lies between `a` and `b`, in either order.
pub open spec fn between(v: int, a: int, b: int) -> bool {
    (a <= v <= b) || (b <= v <= a)
}

proof fn lemma_round_div_bounds(i: int, da: int, db: int)
    requires
        0 <= i <= da,
        da > 0,
        db >= 0,
    ensures
        0 <= round_div(i * db, da) <= db,
{
    let x = 2 * (i * db) + da;
    let d = 2 * da;
    assert(0 <= i * db <= da * db) by (nonlinear_arith)
        requires 0 <= i <= da, db >= 0;
    assert(2 * (da * db) == 2 * da * db) by (nonlinear_arith);
    vstd::arithmetic::div_mod::lemma_fundamental_div_mod(x, d);
    vstd::arithmetic::div_mod::lemma_mod_bound(x, d);
    let q = x / d;
    assert(0 <= q <= db) by (nonlinear_arith)
        requires
            x == d * q + x % d,
            0 <= x % d < d,
            0 <= x <= 2 * da * db + da,
            d == 2 * da,
            da > 0;
}

/// Every cell of a rasterised line lies, on each axis, between the two endpoints.
pub proof fn lemma_line_within_endpoints(f: (int, int), t: (int, int), i: int)
    requires
        0 <= i < line_len(f, t),
    ensures
        between(line_point(f, t, i).0, f.0, t.0),
        between(line_point(f, t, i).1, f.1, t.1),
{
    let lo = low_end(f, t);
    let hi = high_end(f, t);
    let da = hi.0 - lo.0;
    let db = abs(hi.1 - lo.1);
    if da > 0 {
        lemma_round_div_bounds(i, da, db);
        let k = round_div(i * db, da);
        let step: int = if lo.1 < hi.1 { 1 } else { -1 };
        assert(between(lo.1 + step * k, lo.1, hi.1)) by (nonlinear_arith)
            requires
                0 <= k <= db,
                db == abs(hi.1 - lo.1),
                step == (if lo.1 < hi.1 { 1int } else { -1int });
    }
}

/// Every cell of the sight line from `o` to `c` lies, on each axis, between `o` and `c`.
pub proof fn lemma_sight_line_within(o: Position, c: Position, j: int)
    requires
        0 <= j < sight_line(o, c).len(),
    ensures
        between(sight_line(o, c)[j].0 as int, o.0 as int, c.0 as int),
        between(sight_line(o, c)[j].1 as int, o.1 as int, c.1 as int),
{
    let f = ipos(o);
    let t = ipos(c);
    let raw = line_cells(f, t);
    let n = raw.len();
    let i = if raw[0] == o { j } else { n - 1 - j };
    lemma_line_within_endpoints(f, t, i);
    assert(sight_line(o, c)[j] == raw[i]);
}

/// The coordinate along which a line from `o` to `c` advances one cell per step.
pub open spec fn drive(o: Position, c: Position, p: Position) -> int {
    if is_steep(ipos(o), ipos(c)) { p.1 as int } else { p.0 as int }
}

/// A sight line starts at the observer, and its `i`-th cell lies `i` steps away from the
/// observer along the driving axis.
pub proof fn lemma_sight_line_steps(o: Position, c: Position, i: int)
    requires
        0 <= i < sight_line(o, c).len(),
    ensures
        sight_line(o, c)[0] == o,
        sight_line(o, c)[sight_line(o, c).len() - 1] == c,
        abs(drive(o, c, sight_line(o, c)[i]) - drive(o, c, o)) == i,
{
    let f = ipos(o);
    let t = ipos(c);
    let raw = line_cells(f, t);
    let n = raw.len();
    let st = is_steep(f, t);
    let lo = low_end(f, t);
    let hi = high_end(f, t);
    let da = hi.0 - lo.0;
    let db = abs(hi.1 - lo.1);
    if da > 0 {
        assert(0 * db == 0);
        lemma_round_div(0 * db, da, 0);
        assert(da * db == db * da) by (nonlinear_arith);
        lemma_round_div(da * db, da, db);
        let step: int = if lo.1 < hi.1 { 1 } else { -1 };
        assert(step * 0 == 0);
        if lo.1 < hi.1 {
            assert(step * db == db);
        } else {
            assert(step == -1);
            assert(step * db == -db) by (nonlinear_arith)
                requires step == -1;
        }
    }
    assert(line_point(f, t, 0) == (if st { (lo.1, lo.0) } else { lo }));
    assert(line_point(f, t, da) == (if st { (hi.1, hi.0) } else { hi }));
    assert(raw[0] == (line_point(f, t, 0).0 as usize, line_point(f, t, 0).1 as usize));
    assert(raw[n - 1] == (line_point(f, t, n - 1).0 as usize, line_point(f, t, n - 1).1 as usize));
    if raw[0] == o {
        assert(sight_line(o, c)[i] == raw[i]);
        assert(sight_line(o, c)[n - 1] == raw[n - 1]);
    } else {
        assert(sight_line(o, c)[0] == raw[n - 1]);
        assert(sight_line(o, c)[i] == raw[n - 1 - i]);
        assert(sight_line(o, c)[n - 1] == raw[0]);
    }
}

/// The cell `j` steps from `o` towards one of the four axis directions.
pub open spec fn along_axis(o: Position, axis: Direction, j: int) -> (int, int) {
    match axis {
        Direction::North => (o.0 as int, o.1 - j),
        Direction::South => (o.0 as int, o.1 + j),
        Direction::East => (o.0 + j, o.1 as int),
        Direction::West => (o.0 - j, o.1 as int),
        _ => ipos(o),
    }
}

/// One of north, east, south and west.
pub open spec fn is_axis(d: Direction) -> bool {
    d == Direction::North || d == Direction::South || d == Direction::East || d == Direction::West
}

proof fn lemma_round_div_monotone(a: int, b: int, da: int, db: int)
    requires
        0 <= a <= b,
        da > 0,
        db >= 0,
    ensures
        round_div(a * db, da) <= round_div(b * db, da),
{
    assert(a * db <= b * db) by (nonlinear_arith)
        requires 0 <= a <= b, db >= 0;
    vstd::arithmetic::div_mod::lemma_div_is_ordered(2 * (a * db) + da, 2 * (b * db) + da, 2 * da);
}

/// The coordinate of the `i`-th cell of a rasterised line across its driving axis.
pub open spec fn across(f: (int, int), t: (int, int), i: int) -> int {
    if is_steep(f, t) { line_point(f, t, i).0 } else { line_point(f, t, i).1 }
}

proof fn lemma_across_flat(f: (int, int), t: (int, int), a: int, b: int)
    requires
        0 <= a <= b < line_len(f, t),
    ensures
        across(f, t, b) == low_end(f, t).1 ==> across(f, t, a) == low_end(f, t).1,
        across(f, t, a) == high_end(f, t).1 ==> across(f, t, b) == high_end(f, t).1,
{
    let lo = low_end(f, t);
    let hi = high_end(f, t);
    let da = hi.0 - lo.0;
    let db = abs(hi.1 - lo.1);
    if da > 0 {
        lemma_round_div_monotone(a, b, da, db);
        lemma_round_div_bounds(a, da, db);
        lemma_round_div_bounds(b, da, db);
        let ra = round_div(a * db, da);
        let rb = round_div(b * db, da);
        let step: int = if lo.1 < hi.1 { 1 } else { -1 };
        assert(across(f, t, a) == lo.1 + step * ra);
        assert(across(f, t, b) == lo.1 + step * rb);
        if lo.1 < hi.1 {
            assert(step * ra == ra && step * rb == rb);
        } else {
            assert(step * ra == -ra && step * rb == -rb) by (nonlinear_arith)
                requires step == -1;
        }
    }
}

/// A sight line that reaches the cell `j` steps from the observer along an axis does so
/// at step `j`, having passed every cell before it on that axis at the matching step.
pub proof fn lemma_axis_prefix(o: Position, c: Position, axis: Direction, j: int, m: int)
    requires
        is_axis(axis),
        j > 0,
        0 <= m < sight_line(o, c).len(),
        ipos(sight_line(o, c)[m]) == along_axis(o, axis, j),
    ensures
        m == j,
        forall|k: int| 0 <= k <= j ==> #[trigger] ipos(sight_line(o, c)[k]) == along_axis(o, axis, k),
{
    let f = ipos(o);
    let t = ipos(c);
    let raw = line_cells(f, t);
    let n = raw.len();
    let st = is_steep(f, t);
    let lo = low_end(f, t);
    let hi = high_end(f, t);
    let da = hi.0 - lo.0;
    let l = sight_line(o, c);
    lemma_sight_line_steps(o, c, m);
    lemma_sight_line_steps(o, c, 0);
    let forward = raw[0] == o;
    assert(da == n - 1);
    assert forall|i: int| 0 <= i < n implies #[trigger] ipos(raw[i]) == line_point(f, t, i) by {
        lemma_line_within_endpoints(f, t, i);
    }
    assert(ipos(raw[0]) == (if st { (across(f, t, 0), lo.0) } else { (lo.0, across(f, t, 0)) }));
    lemma_sight_line_steps(o, c, n - 1);
    if forward {
        assert(l[m] == raw[m]);
        assert(driven(f, st) == lo) by {
            assert(ipos(raw[0]) == f);
            if da > 0 {
                lemma_round_div(0 * da, da, 0);
            }
            assert(across(f, t, 0) == lo.1) by {
                if da > 0 {
                    assert(0 * abs(hi.1 - lo.1) == 0);
                    lemma_round_div(0, da, 0);
                }
            }
        }
        assert(m == j);
        lemma_across_flat(f, t, 0, 0);
        assert forall|k: int| 0 <= k <= j implies #[trigger] ipos(l[k]) == along_axis(o, axis, k) by {
            lemma_across_flat(f, t, k, j);
            assert(l[k] == raw[k]);
            if da > 0 {
                assert(0 * abs(hi.1 - lo.1) == 0);
                lemma_round_div(0, da, 0);
            }
        }
    } else {
        assert(l[m] == raw[n - 1 - m]);
        assert(driven(f, st) == hi);
        assert(m == j);
        assert forall|k: int| 0 <= k <= j implies #[trigger] ipos(l[k]) == along_axis(o, axis, k) by {
            lemma_across_flat(f, t, da - j, da - k);
            assert(l[k] == raw[n - 1 - k]);
        }
    }
}

/// Occlusion, for the whole view: along a row or column from the observer, no cell past
/// a wall is perceived.
pub proof fn lemma_wall_hides_axis_beyond(
    g: Grid,
    o: Position,
    dir: Direction,
    view: ViewMode,
    s: Seq<Position>,
    axis: Direction,
    w: Position,
    k: int,
    p: Position,
    j: int,
)
    requires
        view != ViewMode::Full,
        is_visible_list(g, o, dir, view, s),
        is_axis(axis),
        0 < k < j,
        ipos(w) == along_axis(o, axis, k),
        !g.holds(w),
        ipos(p) == along_axis(o, axis, j),
    ensures
        !s.contains(p),
{
    if s.contains(p) {
        assert(sees(g, o, dir, view, p));
        let c = choose|c: Position| #[trigger] in_box(g, o, view.radius_spec() as int, c) && seen_along(g, o, c, p);
        let l = sight_line(o, c);
        let m = choose|m: int| #[trigger] reached(g, l, m) && l[m] == p;
        lemma_axis_prefix(o, c, axis, j, m);
        assert(ipos(l[k]) == along_axis(o, axis, k));
        assert(l[k] == w);
        assert(!passes(g, l, k));
    }
}

/// Occlusion, the wall itself: the first wall on a row or column from the observer is
/// perceived when every cell before it is open and it lies on the grid, within the
/// view's radius and inside its directional filter.
pub proof fn lemma_wall_on_axis_is_seen(
    g: Grid,
    o: Position,
    dir: Direction,
    view: ViewMode,
    s: Seq<Position>,
    axis: Direction,
    w: Position,
    k: int,
)
    requires
        view != ViewMode::Full,
        is_visible_list(g, o, dir, view, s),
        is_axis(axis),
        0 < k <= view.radius_spec(),
        ipos(w) == along_axis(o, axis, k),
        forall|i: int, q: Position|
            0 <= i < k && ipos(q) == #[trigger] along_axis(o, axis, i) ==> #[trigger] g.holds(q),
        g.in_bounds(w),
        in_view(view, dir, o, w),
    ensures
        s.contains(w),
{
    let l = sight_line(o, w);
    let n = l.len();
    lemma_sight_line_steps(o, w, n - 1);
    assert(n - 1 == k);
    lemma_axis_prefix(o, w, axis, k, n - 1);
    assert forall|i: int| 0 <= i < k implies #[trigger] passes(g, l, i) by {
        assert(ipos(l[i]) == along_axis(o, axis, i));
        assert(ipos(l[i + 1]) == along_axis(o, axis, i + 1));
    }
    assert(reached(g, l, k));
    assert(seen_along(g, o, w, w));
    assert(in_box(g, o, view.radius_spec() as int, w));
    assert(sees(g, o, dir, view, w));
}

/// Full view: the perceived cells are exactly the traversable ones, whatever the
/// facing direction.
pub proof fn lemma_full_view_sees_valid_set(
    g: Grid,
    o: Position,
    dir: Direction,
    s: Seq<Position>,
)
    requires
        is_visible_list(g, o, dir, ViewMode::Full, s),
    ensures
        s.to_set() == g.valid_set(),
{
    assert(s.to_set() =~= g.valid_set());
}

/// Radius containment: what a `Circle` of radius `r` perceives lies in the square of
/// side `2r + 1` centred on the observer.
pub proof fn lemma_circle_within_radius(
    g: Grid,
    o: Position,
    dir: Direction,
    r: usize,
    s: Seq<Position>,
    p: Position,
)
    requires
        is_visible_list(g, o, dir, ViewMode::Circle { radius: r }, s),
        s.contains(p),
    ensures
        abs(p.0 - o.0) <= r,
        abs(p.1 - o.1) <= r,
{
    assert(sees(g, o, dir, ViewMode::Circle { radius: r }, p));
    let c = choose|c: Position| #[trigger] in_box(g, o, r as int, c) && seen_along(g, o, c, p);
    let j = choose|j: int| #[trigger] reached(g, sight_line(o, c), j) && sight_line(o, c)[j] == p;
    lemma_sight_line_within(o, c, j);
}

/// Occlusion: along a sight line, the first wall reached is itself seen, and no cell
/// past it on that line is reached. The wall is perceived whenever the line's far end is
/// a candidate of the view's radius and the view admits the wall's direction.
pub proof fn lemma_wall_stops_sight(
    g: Grid,
    o: Position,
    c: Position,
    j: int,
    dir: Direction,
    view: ViewMode,
)
    requires
        reached(g, sight_line(o, c), j),
        !g.holds(sight_line(o, c)[j]),
    ensures
        seen_along(g, o, c, sight_line(o, c)[j]),
        forall|k: int| j < k < sight_line(o, c).len() ==> !#[trigger] reached(g, sight_line(o, c), k),
        view != ViewMode::Full && in_box(g, o, view.radius_spec() as int, c) && g.in_bounds(
            sight_line(o, c)[j],
        ) && in_view(view, dir, o, sight_line(o, c)[j]) ==> sees(
            g,
            o,
            dir,
            view,
            sight_line(o, c)[j],
        ),
{
    let l = sight_line(o, c);
    assert(!passes(g, l, j));
    assert forall|k: int| j < k < l.len() implies !#[trigger] reached(g, l, k) by {
        assert(!passes(g, l, j));
    }
}

/// Corner cutting: when the step from the `i`-th to the next cell of a sight line passes
/// diagonally between two walls, neither that next cell nor any later one is reached.
pub proof fn lemma_corner_cut_blocks(g: Grid, o: Position, c: Position, i: int)
    requires
        0 <= i,
        i + 1 < sight_line(o, c).len(),
        corner_blocked(g, sight_line(o, c)[i], sight_line(o, c)[i + 1]),
    ensures
        forall|k: int| i < k < sight_line(o, c).len() ==> !#[trigger] reached(g, sight_line(o, c), k),
{
    let l = sight_line(o, c);
    assert(!passes(g, l, i));
}

/// Corner cutting, for the whole view: a traversable diagonal neighbour of the observer
/// is never perceived (except under `Full`) when both cells forming the corner between
/// them are walls.
pub proof fn lemma_cut_corner_hides_diagonal(
    g: Grid,
    o: Position,
    dir: Direction,
    view: ViewMode,
    s: Seq<Position>,
    t: Position,
)
    requires
        view != ViewMode::Full,
        is_visible_list(g, o, dir, view, s),
        abs(t.0 - o.0) == 1,
        abs(t.1 - o.1) == 1,
        g.holds(t),
        !g.holds((t.0, o.1)),
        !g.holds((o.0, t.1)),
    ensures
        !s.contains(t),
{
    if s.contains(t) {
        assert(sees(g, o, dir, view, t));
        let c = choose|c: Position| #[trigger] in_box(g, o, view.radius_spec() as int, c) && seen_along(g, o, c, t);
        let l = sight_line(o, c);
        let j = choose|j: int| #[trigger] reached(g, l, j) && l[j] == t;
        lemma_sight_line_steps(o, c, j);
        assert(j == 1);
        assert(l[0] == o);
        assert(corner_blocked(g, l[0], l[1]));
        assert(!passes(g, l, 0));
    }
}

/// Whether the step from `a` to `b` cuts a corner of two walls.
pub fn is_corner_blocked(g: &Grid, a: Position, b: Position) -> (r: bool)
    requires
        g.wf(),
    ensures
        r == corner_blocked(*g, a, b),
{
    let diagonal_x = (b.0 > a.0 && b.0 - a.0 == 1) || (a.0 > b.0 && a.0 - b.0 == 1);
    let diagonal_y = (b.1 > a.1 && b.1 - a.1 == 1) || (a.1 > b.1 && a.1 - b.1 == 1);
    diagonal_x && diagonal_y && g.is_valid(b) && !g.is_valid((b.0, a.1)) && !g.is_valid(
        (a.0, b.1),
    )
}

/// Whether `view`, facing `dir` from `o`, admits the direction towards `p`.
pub fn view_admits(view: ViewMode, dir: Direction, o: Position, p: Position) -> (r: bool)
    requires
        o.0 <= MAX_SIDE,
        o.1 <= MAX_SIDE,
        p.0 <= MAX_SIDE,
        p.1 <= MAX_SIDE,
    ensures
        r == in_view(view, dir, o, p),
{
    let dx: i64 = p.0 as i64 - o.0 as i64;
    let dy: i64 = p.1 as i64 - o.1 as i64;
    match view {
        ViewMode::Cone { .. } => match dir {
            Direction::North => dx >= dy && dx <= -dy,
            Direction::East => dy <= dx && dy >= -dx,
            Direction::South => dx <= dy && dx >= -dy,
            Direction::West => dy >= dx && dy <= -dx,
            Direction::NorthEast => dx >= 0 && dy <= 0,
            Direction::SouthEast => dx >= 0 && dy >= 0,
            Direction::SouthWest => dx <= 0 && dy >= 0,
            Direction::NorthWest => dx <= 0 && dy <= 0,
        },
        ViewMode::Plane { .. } => match dir {
            Direction::North => dy < 0,
            Direction::East => dx > 0,
            Direction::South => dy > 0,
            Direction::West => dx < 0,
            Direction::NorthEast => dx > dy,
            Direction::SouthEast => dx > -dy,
            Direction::SouthWest => dx < dy,
            Direction::NorthWest => dx < -dy,
        },
        _ => true,
    }
}

/// Walks the sight line from `o` towards `c`, marking in `marks` every on-grid cell that
/// is seen along it.
pub fn walk_sight_line(g: &Grid, marks: &mut Grid, o: Position, c: Position)
    requires
        g.wf(),
        old(marks).wf(),
        old(marks).cols() == g.cols(),
        old(marks).rows() == g.rows(),
        g.in_bounds(o),
        c.0 <= g.cols(),
        c.1 <= g.rows(),
    ensures
        final(marks).wf(),
        final(marks).cols() == g.cols(),
        final(marks).rows() == g.rows(),
        forall|p: Position| #[trigger]
            final(marks).holds(p) == (old(marks).holds(p) || (g.in_bounds(p) && seen_along(
                *g,
                o,
                c,
                p,
            ))),
{
    proof {
        g.lemma_area();
    }
    let line = bresenham_line((o.0 as i32, o.1 as i32), (c.0 as i32, c.1 as i32));
    let ghost raw = line_cells(ipos(o), ipos(c));
    let n = line.len();
    assert(n >= 1);
    let forward = line[0].0 == o.0 && line[0].1 == o.1;
    let ghost l = sight_line(o, c);
    assert(forward == (raw[0] == o));
    assert(l == oriented(raw, forward));
    let ghost m0 = *marks;
    let mut i: usize = 0;
    let mut go = true;
    while i < n && go
        invariant
            g.wf(),
            marks.wf(),
            marks.cols() == g.cols(),
            marks.rows() == g.rows(),
            n == line@.len(),
            line@ == raw,
            l == oriented(raw, forward),
            l.len() == n,
            i <= n,
            go ==> forall|j: int| 0 <= j < i ==> #[trigger] passes(*g, l, j),
            !go ==> i >= 1 && !passes(*g, l, i - 1) && forall|j: int|
                0 <= j < i - 1 ==> #[trigger] passes(*g, l, j),
            forall|p: Position| #[trigger]
                marks.holds(p) == (m0.holds(p) || (g.in_bounds(p) && exists|j: int|
                    0 <= j < i && l[j] == p)),
        decreases n - i,
    {
        let k = if forward { i } else { n - 1 - i };
        let q = line[k];
        assert(q == l[i as int]);
        let ghost before_marks = *marks;
        if q.0 < g.width() && q.1 < g.height() {
            marks.insert(q);
        }
        proof {
            assert forall|p: Position| #[trigger]
                marks.holds(p) == (m0.holds(p) || (g.in_bounds(p) && exists|j: int|
                    0 <= j < i + 1 && l[j] == p)) by {
                if p == q && g.in_bounds(p) {
                    assert(l[i as int] == p);
                }
                if exists|j: int| 0 <= j < i + 1 && l[j] == p {
                    let j = choose|j: int| 0 <= j < i + 1 && l[j] == p;
                    if j < i {
                        assert(exists|j: int| 0 <= j < i && l[j] == p);
                    }
                }
            }
        }
        if !g.is_valid(q) {
            go = false;
        } else if i + 1 < n {
            let k2 = if forward { i + 1 } else { n - 2 - i };
            let next = line[k2];
            assert(next == l[i + 1]);
            if is_corner_blocked(g, q, next) {
                go = false;
            }
        }
        i = i + 1;
    }
    proof {
        assert forall|p: Position| #[trigger]
            marks.holds(p) == (m0.holds(p) || (g.in_bounds(p) && seen_along(*g, o, c, p))) by {
            if exists|j: int| 0 <= j < i && l[j] == p {
                let j = choose|j: int| 0 <= j < i && l[j] == p;
                assert(reached(*g, l, j));
            }
            if seen_along(*g, o, c, p) {
                let j = choose|j: int| #[trigger] reached(*g, l, j) && l[j] == p;
                if j >= i {
                    assert(!go);
                    assert(passes(*g, l, i - 1));
                }
                assert(0 <= j < i && l[j] == p);
            }
        }
    }
}

/// Lists, row by row, the cells marked in `m` that `view` admits from `o` facing `dir`.
pub fn collect_admitted(m: &Grid, o: Position, dir: Direction, view: ViewMode) -> (r: Vec<
    Position,
>)
    requires
        m.wf(),
        o.0 <= MAX_SIDE,
        o.1 <= MAX_SIDE,
    ensures
        r@.no_duplicates(),
        forall|p: Position| #[trigger] r@.contains(p) == (m.holds(p) && in_view(view, dir, o, p)),
{
    proof {
        m.lemma_area();
    }
    let w = m.width();
    let h = m.height();
    let mut r: Vec<Position> = Vec::new();
    let mut y: usize = 0;
    while y < h
        invariant
            m.wf(),
            w == m.cols(),
            h == m.rows(),
            w <= MAX_SIDE,
            h <= MAX_SIDE,
            y <= h,
            o.0 <= MAX_SIDE,
            o.1 <= MAX_SIDE,
            r@.no_duplicates(),
            forall|k: int| 0 <= k < r@.len() ==> #[trigger] before(r@[k], y as int, 0),
            forall|p: Position| #[trigger]
                r@.contains(p) == (m.holds(p) && in_view(view, dir, o, p) && before(
                    p,
                    y as int,
                    0,
                )),
        decreases h - y,
    {
        let mut x: usize = 0;
        while x < w
            invariant
                m.wf(),
                w == m.cols(),
                h == m.rows(),
                w <= MAX_SIDE,
                h <= MAX_SIDE,
                y < h,
                x <= w,
                o.0 <= MAX_SIDE,
                o.1 <= MAX_SIDE,
                r@.no_duplicates(),
                forall|k: int| 0 <= k < r@.len() ==> #[trigger] before(r@[k], y as int, x as int),
                forall|p: Position| #[trigger]
                    r@.contains(p) == (m.holds(p) && in_view(view, dir, o, p) && before(
                        p,
                        y as int,
                        x as int,
                    )),
            decreases w - x,
        {
            if m.is_valid((x, y)) && view_admits(view, dir, o, (x, y)) {
                let ghost r0 = r@;
                proof {
                    if r0.contains((x, y)) {
                        let k = choose|k: int| 0 <= k < r0.len() && r0[k] == (x, y);
                        assert(before(r0[k], y as int, x as int));
                    }
                }
                r.push((x, y));
                proof {
                    assert forall|p: Position| #[trigger] r@.contains(p) == (r0.contains(p) || p == (
                    x, y)) by {
                        if r@.contains(p) {
                            let k = choose|k: int| 0 <= k < r@.len() && r@[k] == p;
                            if k < r0.len() {
                                assert(r0[k] == p);
                            }
                        }
                        if r0.contains(p) {
                            let k = choose|k: int| 0 <= k < r0.len() && r0[k] == p;
                            assert(r@[k] == p);
                        }
                        if p == (x, y) {
                            assert(r@[r0.len() as int] == p);
                        }
                    }
                    assert forall|k: int| 0 <= k < r@.len() implies #[trigger] before(
                        r@[k],
                        y as int,
                        x + 1,
                    ) by {
                        if k < r0.len() {
                            assert(r@[k] == r0[k]);
                            assert(before(r0[k], y as int, x as int));
                        }
                    }
                }
            } else {
                assert forall|k: int| 0 <= k < r@.len() implies #[trigger] before(
                    r@[k],
                    y as int,
                    x + 1,
                ) by {
                    assert(before(r@[k], y as int, x as int));
                }
            }
            x = x + 1;
        }
        proof {
            assert forall|k: int| 0 <= k < r@.len() implies #[trigger] before(
                r@[k],
                y + 1,
                0,
            ) by {
                assert(before(r@[k], y as int, x as int));
            }
            assert forall|p: Position| #[trigger]
                r@.contains(p) == (m.holds(p) && in_view(view, dir, o, p) && before(p, y + 1, 0)) by {
                m.lemma_holds_in_bounds(p);
            }
        }
        y = y + 1;
    }
    proof {
        assert forall|p: Position| #[trigger] r@.contains(p) == (m.holds(p) && in_view(view, dir, o, p)) by {
            m.lemma_holds_in_bounds(p);
        }
    }
    r
}

/// The cells that an observer at `o`, facing `dir` with `view`, perceives on `g`.
///
/// `Full` sees every traversable cell. Otherwise the sight line towards every cell of
/// the square of side `2r + 1` around `o` (clipped to the grid, plus one row and column
/// past its far edges) is walked outward from `o`; what is seen is kept if it lies on
/// the grid and passes the view's directional filter. Vertical and horizontal sight lines
/// come out of the rasteriser as the exact column or row, with no diagonal step to check.
pub fn compute_visible(g: &Grid, o: Position, dir: Direction, view: ViewMode) -> (r: Vec<Position>)
    requires
        g.wf(),
        g.in_bounds(o),
    ensures
        is_visible_list(*g, o, dir, view, r@),
{
    proof {
        g.lemma_area();
    }
    match view {
        ViewMode::Full => collect_admitted(g, o, dir, view),
        _ => {
            let rad = view.radius();
            let ghost ri = rad as int;
            let w = g.width();
            let h = g.height();
            let x_lo = if o.0 >= rad { o.0 - rad } else { 0 };
            let x_hi = if rad >= w - o.0 { w } else { o.0 + rad };
            let y_lo = if o.1 >= rad { o.1 - rad } else { 0 };
            let y_hi = if rad >= h - o.1 { h } else { o.1 + rad };
            assert(x_lo == range_lo(o.0 as int, ri) && x_hi == range_hi(o.0 as int, ri, w as int));
            assert(y_lo == range_lo(o.1 as int, ri) && y_hi == range_hi(o.1 as int, ri, h as int));
            let mut marks = Grid::new(w, h);
            let mut cy: usize = y_lo;
            while cy <= y_hi
                invariant
                    g.wf(),
                    marks.wf(),
                    marks.cols() == g.cols(),
                    marks.rows() == g.rows(),
                    g.in_bounds(o),
                    w == g.cols(),
                    h == g.rows(),
                    w <= MAX_SIDE,
                    h <= MAX_SIDE,
                    x_lo == range_lo(o.0 as int, ri),
                    x_hi == range_hi(o.0 as int, ri, w as int),
                    y_lo == range_lo(o.1 as int, ri),
                    y_hi == range_hi(o.1 as int, ri, h as int),
                    y_lo <= cy <= y_hi + 1,
                    forall|p: Position| #[trigger]
                        marks.holds(p) == (g.in_bounds(p) && swept_before(
                            *g,
                            o,
                            ri,
                            p,
                            cy as int,
                            0,
                        )),
                decreases y_hi + 1 - cy,
            {
                let mut cx: usize = x_lo;
                while cx <= x_hi
                    invariant
                        g.wf(),
                        marks.wf(),
                        marks.cols() == g.cols(),
                        marks.rows() == g.rows(),
                        g.in_bounds(o),
                        w == g.cols(),
                        h == g.rows(),
                        w <= MAX_SIDE,
                        h <= MAX_SIDE,
                        x_lo == range_lo(o.0 as int, ri),
                        x_hi == range_hi(o.0 as int, ri, w as int),
                        y_lo == range_lo(o.1 as int, ri),
                        y_hi == range_hi(o.1 as int, ri, h as int),
                        y_lo <= cy <= y_hi,
                        x_lo <= cx <= x_hi + 1,
                        forall|p: Position| #[trigger]
                            marks.holds(p) == (g.in_bounds(p) && swept_before(
                                *g,
                                o,
                                ri,
                                p,
                                cy as int,
                                cx as int,
                            )),
                    decreases x_hi + 1 - cx,
                {
                    let ghost m0 = marks;
                    walk_sight_line(g, &mut marks, o, (cx, cy));
                    proof {
                        let c = (cx, cy);
                        assert(in_box(*g, o, ri, c));
                        assert forall|p: Position| #[trigger]
                            marks.holds(p) == (g.in_bounds(p) && swept_before(
                                *g,
                                o,
                                ri,
                                p,
                                cy as int,
                                cx + 1,
                            )) by {
                            if swept_before(*g, o, ri, p, cy as int, cx + 1) {
                                let d = choose|d: Position| #[trigger]
                                    in_box(*g, o, ri, d) && before(d, cy as int, cx + 1)
                                        && seen_along(*g, o, d, p);
                                if d != c {
                                    assert(swept_before(*g, o, ri, p, cy as int, cx as int));
                                }
                            }
                            if swept_before(*g, o, ri, p, cy as int, cx as int) {
                                let d = choose|d: Position| #[trigger]
                                    in_box(*g, o, ri, d) && before(d, cy as int, cx as int)
                                        && seen_along(*g, o, d, p);
                                assert(before(d, cy as int, cx + 1));
                            }
                            if g.in_bounds(p) && seen_along(*g, o, c, p) {
                                assert(before(c, cy as int, cx + 1));
                            }
                        }
                    }
                    cx = cx + 1;
                }
                proof {
                    assert forall|p: Position| #[trigger]
                        marks.holds(p) == (g.in_bounds(p) && swept_before(
                            *g,
                            o,
                            ri,
                            p,
                            cy + 1,
                            0,
                        )) by {
                        if swept_before(*g, o, ri, p, cy + 1, 0) {
                            let d = choose|d: Position| #[trigger]
                                in_box(*g, o, ri, d) && before(d, cy + 1, 0) && seen_along(*g, o, d, p);
                            assert(before(d, cy as int, cx as int));
                        }
                        if swept_before(*g, o, ri, p, cy as int, cx as int) {
                            let d = choose|d: Position| #[trigger]
                                in_box(*g, o, ri, d) && before(d, cy as int, cx as int)
                                    && seen_along(*g, o, d, p);
                            assert(before(d, cy + 1, 0));
                        }
                    }
                }
                cy = cy + 1;
            }
            let r = collect_admitted(&marks, o, dir, view);
            proof {
                assert forall|p: Position| #[trigger] r@.contains(p) == sees(*g, o, dir, view, p) by {
                    if swept(*g, o, ri, p) {
                        let d = choose|d: Position| #[trigger] in_box(*g, o, ri, d) && seen_along(*g, o, d, p);
                        assert(before(d, cy as int, 0));
                    }
                    if swept_before(*g, o, ri, p, cy as int, 0) {
                        let d = choose|d: Position| #[trigger]
                            in_box(*g, o, ri, d) && before(d, cy as int, 0) && seen_along(*g, o, d, p);
                        assert(swept(*g, o, ri, p));
                    }
                }
            }
            r
        },
    }
}

} // verus!
