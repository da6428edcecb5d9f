//! The maze level: seeded generation, its valid-position index, spawn placement,
//! memoised perception and the success counters.

use vstd::prelude::*;
use rand_chacha::ChaCha8Rng;
use crate::geometry::{beyond_six, is_beyond_six, Direction, Position, ViewMode};
use crate::grid::{Grid, MAX_SIDE};
use crate::visibility::{collect_admitted, compute_visible, is_visible_list};
use crate::random::{
    draw_between, fresh_seed, maze_raster, pick_distinct, pick_index, raster_side, render_maze,
    seeded_rng,
};
use crate::carve::{carve_from_left, carve_from_right, in_tunnel, open_pair};
use crate::grid::pixel_is;
use crate::minotaur::Minotaur;

verus! {

/// The largest level id whose wall colour still changes with the id.
pub const MAX_MAZE_ID: usize = 10;

pub const DEFAULT_WALL_SIZE: usize = 2;

pub const DEFAULT_PASSAGE_SIZE: usize = 2;

/// The colour of traversable pixels while the maze is drawn.
pub const BACKGROUND: (u8, u8, u8) = (0, 0, 0);

/// Why a maze could not be generated.
#[derive(Clone, Copy, Debug, PartialEq, Eq, Structural)]
pub enum GenerationError {
    /// No width or height was set and the level id's default range is empty.
    EmptySizeRange,
    /// The rendered raster would be too large to address.
    TooLarge,
    /// Walls and passages are both zero pixels thick.
    ZeroThickness,
    /// The raster has no row for a two-cell gate inside its walls.
    NoGateRow,
    /// The entrance row meets no open pair of cells.
    EntranceUnreachable,
    /// The exit row meets no open pair of cells.
    ExitUnreachable,
    /// A drawn room does not fit inside the walls.
    NoRoomSpace,
}

/// Channel value `m / MAX_MAZE_ID` of the way from `lo` to `hi`, rounded down.
pub open spec fn blend(m: int, hi: int, lo: int) -> int {
    (m * hi + (MAX_MAZE_ID - m) * lo) / (MAX_MAZE_ID as int)
}

/// The wall colour of level `id`: from a pale blue at level zero towards red at
/// `MAX_MAZE_ID` and above.
pub open spec fn wall_color_spec(id: usize) -> (u8, u8, u8) {
    let m = if id < MAX_MAZE_ID { id as int } else { MAX_MAZE_ID as int };
    (blend(m, 208, 210) as u8, blend(m, 28, 240) as u8, blend(m, 28, 255) as u8)
}

pub fn wall_color(id: usize) -> (c: (u8, u8, u8))
    ensures
        c == wall_color_spec(id),
{
    let m: u32 = if id < MAX_MAZE_ID { id as u32 } else { MAX_MAZE_ID as u32 };
    let k: u32 = MAX_MAZE_ID as u32;
    assert(m * 208 + (k - m) * 210 <= 2550 && m * 28 + (k - m) * 240 <= 2550 && m * 28 + (k
        - m) * 255 <= 2550) by (nonlinear_arith)
        requires
            m <= 10,
            k == 10;
    let r = (m * 208 + (k - m) * 210) / k;
    let g = (m * 28 + (k - m) * 240) / k;
    let b = (m * 28 + (k - m) * 255) / k;
    (r as u8, g as u8, b as u8)
}

/// The range that an unset width (in maze cells) is drawn from on level `id`.
pub open spec fn default_width_range(id: usize) -> (int, int) {
    (16 + 2 * (id / 4), if 20 + 2 * (id / 2) < 32 { 20 + 2 * (id / 2) } else { 32 })
}

/// The range that an unset height (in maze cells) is drawn from on level `id`.
pub open spec fn default_height_range(id: usize) -> (int, int) {
    (4 + 2 * (id / 4), if 6 + 2 * (id / 2) < 20 { 6 + 2 * (id / 2) } else { 20 })
}

/// The four bytes of cell `p` in an RGBA buffer `w` pixels wide.
pub open spec fn rgba_at(s: Seq<u8>, w: int, p: Position) -> (u8, u8, u8, u8) {
    let i = 4 * (p.1 * w + p.0);
    (s[i], s[i + 1], s[i + 2], s[i + 3])
}

proof fn lemma_row_major(w: int, p: Position, y: int, x: int)
    requires
        p.0 < w,
        0 <= x,
        p.1 < y || (p.1 == y && p.0 < x),
    ensures
        p.1 * w + p.0 < y * w + x,
{
    if p.1 < y {
        assert(p.1 * w + w <= y * w) by (nonlinear_arith)
            requires p.1 < y, p.0 < w;
    }
}

/// Memoisation: two lists that each hold exactly what an observer perceives hold the same
/// cells. Every result of `get_and_cache_visible_positions` and of
/// `get_cached_visible_positions` for one key is such a list, so repeated requests agree.
pub proof fn lemma_perceptions_agree(
    g: Grid,
    o: Position,
    dir: Direction,
    view: ViewMode,
    s1: Seq<Position>,
    s2: Seq<Position>,
)
    requires
        is_visible_list(g, o, dir, view, s1),
        is_visible_list(g, o, dir, view, s2),
    ensures
        s1.to_set() == s2.to_set(),
{
    assert(s1.to_set() =~= s2.to_set());
}

/// A maze of `w × h` cells with these thicknesses draws a raster that can be addressed.
pub open spec fn raster_fits(w: usize, h: usize, wall: usize, passage: usize) -> bool {
    &&& w <= MAX_SIDE
    &&& h <= MAX_SIDE
    &&& wall <= MAX_SIDE
    &&& passage <= MAX_SIDE
    &&& raster_side(w as int, wall as int, passage as int) <= MAX_SIDE
    &&& raster_side(h as int, wall as int, passage as int) <= MAX_SIDE
    &&& 4 * raster_side(w as int, wall as int, passage as int) * raster_side(
        h as int,
        wall as int,
        passage as int,
    ) <= usize::MAX
}

/// A raster `rows` pixels tall with walls `wall` thick leaves no row for a gate.
pub open spec fn no_gate_row(wall: int, rows: int) -> bool {
    wall > MAX_SIDE || rows < 2 * wall + 2
}

/// `row` is a possible gate row: even, and with its pair inside the walls (the row is
/// drawn from `wall..=rows - wall - 2`, then rounded down to even).
pub open spec fn gate_row_fits(row: int, wall: int, rows: int) -> bool {
    row % 2 == 0 && wall <= row + 1 && row + wall + 2 <= rows
}

/// The column where the entrance scan starts on level `id`.
pub open spec fn gate_start(id: usize, wall: usize) -> usize {
    if id == 0 { wall } else { 0 }
}

/// Cell `q` is background (traversable) in an RGB raster of `cols × rows` pixels.
pub open spec fn base_open(raster: Seq<u8>, cols: int, rows: int, q: Position) -> bool {
    q.0 < cols && q.1 < rows && pixel_is(raster, cols, q, BACKGROUND)
}

/// Cells `(x, row)` and `(x, row + 1)` are both background in the raster.
pub open spec fn base_pair(raster: Seq<u8>, cols: int, rows: int, x: int, row: int) -> bool {
    x >= 0 && row >= 0 && base_open(raster, cols, rows, (x as usize, row as usize)) && base_open(
        raster,
        cols,
        rows,
        (x as usize, (row + 1) as usize),
    )
}

/// Cell `q` is open once the entrance tunnel on `erow` from `start` to `xe` is dug.
pub open spec fn entered_open(
    raster: Seq<u8>,
    cols: int,
    rows: int,
    erow: int,
    start: int,
    xe: int,
    q: Position,
) -> bool {
    base_open(raster, cols, rows, q) || in_tunnel(q, erow, start, xe)
}

/// Both cells of column `x` in rows `row`, `row + 1` are open once the entrance is dug.
pub open spec fn entered_pair(
    raster: Seq<u8>,
    cols: int,
    rows: int,
    erow: int,
    start: int,
    xe: int,
    x: int,
    row: int,
) -> bool {
    x >= 0 && row >= 0 && entered_open(raster, cols, rows, erow, start, xe, (x as usize, row as usize))
        && entered_open(raster, cols, rows, erow, start, xe, (x as usize, (row + 1) as usize))
}

/// The cells a built maze ends with, from the contracts of its generation steps.
proof fn lemma_assembled(
    m0: Maze,
    m1: Maze,
    m2: Maze,
    m3: Maze,
    m: Maze,
    ras: Seq<u8>,
    cols: int,
    rows: int,
    start: int,
    xe: int,
    xx: int,
    rooms: Seq<Room>,
)
    requires
        0 <= start,
        cols == m0.grid_spec().cols(),
        rows == m0.grid_spec().rows(),
        forall|q: Position| #[trigger] m0.grid_spec().holds(q) == base_open(ras, cols, rows, q),
        m1.opens_cells_of(m0),
        m2.opens_cells_of(m1),
        m3.opens_cells_of(m2),
        m2.entrance_spec() == m1.entrance_spec(),
        m3.entrance_spec() == m1.entrance_spec(),
        m3.exit_spec() == m2.exit_spec(),
        m.grid_spec() == m3.grid_spec(),
        m.entrance_spec() == m3.entrance_spec(),
        m.exit_spec() == m3.exit_spec(),
        m.config_spec() == m0.config_spec(),
        ({
            let row = m1.entrance_spec()[0].1;
            &&& start == m1.entrance_spec()[0].0 as int
            &&& start <= xe < cols
            &&& open_pair(m0.grid_spec(), xe, row as int)
            &&& forall|x2: int| start <= x2 < xe ==> !#[trigger] open_pair(m0.grid_spec(), x2, row as int)
            &&& forall|q: Position| #[trigger] m1.grid_spec().holds(q) == (m0.grid_spec().holds(q)
                || in_tunnel(q, row as int, start, xe))
        }),
        ({
            let row = m2.exit_spec()[0].1;
            &&& 0 <= xx < cols
            &&& open_pair(m1.grid_spec(), xx, row as int)
            &&& forall|x2: int| xx < x2 < cols ==> !#[trigger] open_pair(m1.grid_spec(), x2, row as int)
            &&& forall|q: Position| #[trigger] m2.grid_spec().holds(q) == (m1.grid_spec().holds(q)
                || in_tunnel(q, row as int, xx + 1, cols))
        }),
        ({
            let span = m2.config_spec().0 + m2.config_spec().1;
            &&& 4 <= rooms.len() <= most_rooms(span)
            &&& forall|i: int|
                0 <= i < rooms.len() ==> #[trigger] room_fits(rooms[i], widest_room(span), m2.config_spec().2 as int, cols, rows)
            &&& forall|q: Position| #[trigger] m3.grid_spec().holds(q) == (m2.grid_spec().holds(q)
                || in_some_room(rooms, q))
        }),
    ensures
        m.laid_out(ras, xe, xx, rooms),
{
    let erow = m1.entrance_spec()[0].1 as int;
    let xrow = m2.exit_spec()[0].1 as int;
    reveal(Maze::laid_out);
    assert forall|x2: int| start <= x2 < xe implies !#[trigger] base_pair(ras, cols, rows, x2, erow) by {
        assert(!open_pair(m0.grid_spec(), x2, erow));
    }
    assert forall|x2: int| xx < x2 < cols implies !#[trigger] entered_pair(ras, cols, rows, erow, start, xe, x2, xrow) by {
        assert(!open_pair(m1.grid_spec(), x2, xrow));
    }
    assert(entered_pair(ras, cols, rows, erow, start, xe, xx, xrow));
    assert forall|q: Position| #[trigger] m.grid_spec().holds(q) == (entered_open(ras, cols, rows, erow, start, xe, q)
        || in_tunnel(q, xrow, xx + 1, cols) || in_some_room(rooms, q)) by {
        assert(m3.grid_spec().holds(q) == (m2.grid_spec().holds(q) || in_some_room(rooms, q)));
        assert(m2.grid_spec().holds(q) == (m1.grid_spec().holds(q) || in_tunnel(q, xrow, xx + 1, cols)));
        assert(m1.grid_spec().holds(q) == (m0.grid_spec().holds(q) || in_tunnel(q, erow, start, xe)));
    }
}

/// A room: its left column, top row, width and height, in cells.
pub type Room = (usize, usize, usize, usize);

/// `q` lies inside room `r`.
pub open spec fn in_rect(r: Room, q: Position) -> bool {
    r.0 <= q.0 < r.0 + r.2 && r.1 <= q.1 < r.1 + r.3
}

/// `q` lies inside one of `rooms`.
pub open spec fn in_some_room(rooms: Seq<Room>, q: Position) -> bool {
    exists|i: int| 0 <= i < rooms.len() && #[trigger] in_rect(rooms[i], q)
}

/// The most rooms a maze of `span` = width + height cells gets.
pub open spec fn most_rooms(span: int) -> int {
    if span / 2 > 5 { span / 2 } else { 5 }
}

/// The longest room side in a maze of `span` = width + height cells.
pub open spec fn widest_room(span: int) -> int {
    if span / 6 > 5 { span / 6 } else { 5 }
}

/// Room `r` has sides in `4..=widest` and lies strictly inside the walls.
pub open spec fn room_fits(r: Room, widest: int, wall: int, cols: int, rows: int) -> bool {
    &&& 4 <= r.2 <= widest
    &&& 4 <= r.3 <= widest
    &&& wall <= r.0
    &&& r.0 + r.2 + wall < cols
    &&& wall <= r.1
    &&& r.1 + r.3 + wall < rows
}

/// Some room of a side up to `widest` may not fit inside the walls.
pub open spec fn no_room_space(widest: int, wall: int, cols: int, rows: int) -> bool {
    wall > MAX_SIDE || cols < widest + 2 * wall + 1 || rows < widest + 2 * wall + 1
}

/// `p` is further than six cells from every cell of `cells`.
pub open spec fn clear_of(cells: Seq<Position>, p: Position) -> bool {
    forall|i: int| 0 <= i < cells.len() ==> #[trigger] beyond_six(cells[i], p)
}

/// One memoised perception: the observer's key and what it sees.
pub type CacheEntry = (Position, Direction, ViewMode, Vec<Position>);

/// A maze level. Configure it with `new` and the setters, then `build` it once.
pub struct Maze {
    id: usize,
    random_seed: u64,
    rng: ChaCha8Rng,
    width: usize,
    height: usize,
    wall_size: usize,
    passage_size: usize,
    grid: Grid,
    wall_rgb: (u8, u8, u8),
    entrance: Vec<Position>,
    exit: Vec<Position>,
    power_ups: Vec<Position>,
    visible_positions_cache: Vec<CacheEntry>,
    passed: usize,
    attempted: usize,
}

impl Maze {
    /// The level id (difficulty).
    pub closed spec fn id_spec(&self) -> usize {
        self.id
    }

    /// The seed that generation is drawn from.
    pub closed spec fn seed_spec(&self) -> u64 {
        self.random_seed
    }

    /// Configured width and height in maze cells (`0`: drawn at build time), wall and
    /// passage thickness in pixels.
    pub closed spec fn config_spec(&self) -> (usize, usize, usize, usize) {
        (self.width, self.height, self.wall_size, self.passage_size)
    }

    /// The traversable cells, on a raster the size of the rendered maze.
    pub closed spec fn grid_spec(&self) -> Grid {
        self.grid
    }

    /// The colour of wall pixels in the raster artifact.
    pub closed spec fn wall_rgb_spec(&self) -> (u8, u8, u8) {
        self.wall_rgb
    }

    pub closed spec fn entrance_spec(&self) -> Seq<Position> {
        self.entrance@
    }

    pub closed spec fn exit_spec(&self) -> Seq<Position> {
        self.exit@
    }

    /// Where the power-ups lie.
    pub closed spec fn power_ups_spec(&self) -> Seq<Position> {
        self.power_ups@
    }

    /// The (passed, attempted) counters.
    pub closed spec fn counters_spec(&self) -> (usize, usize) {
        (self.passed, self.attempted)
    }

    /// The perceptions stored so far.
    pub closed spec fn cache_spec(&self) -> Seq<(Position, Direction, ViewMode, Seq<Position>)> {
        self.visible_positions_cache@.map_values(
            |e: CacheEntry| (e.0, e.1, e.2, e.3@),
        )
    }

    /// The perception of this key is stored.
    pub open spec fn is_cached(&self, o: Position, dir: Direction, view: ViewMode) -> bool {
        exists|k: int|
            0 <= k < self.cache_spec().len() && #[trigger] self.cache_spec()[k].0 == o
                && self.cache_spec()[k].1 == dir && self.cache_spec()[k].2 == view
    }

    /// Entrance and exit cells are open, and each stored perception is what its key sees.
    pub open spec fn wf(&self) -> bool {
        &&& self.grid_spec().wf()
        &&& forall|i: int|
            0 <= i < self.entrance_spec().len() ==> #[trigger] self.grid_spec().holds(
                self.entrance_spec()[i],
            )
        &&& forall|i: int|
            0 <= i < self.exit_spec().len() ==> #[trigger] self.grid_spec().holds(
                self.exit_spec()[i],
            )
        &&& forall|k: int|
            0 <= k < self.cache_spec().len() ==> {
                let e = #[trigger] self.cache_spec()[k];
                self.grid_spec().in_bounds(e.0) && is_visible_list(
                    self.grid_spec(),
                    e.0,
                    e.1,
                    e.2,
                    e.3,
                )
            }
    }

    /// `self` has the id, index, gates, cache and counters of `other`.
    pub open spec fn keeps_level_state(&self, other: Maze) -> bool {
        &&& self.id_spec() == other.id_spec()
        &&& self.grid_spec() == other.grid_spec()
        &&& self.wall_rgb_spec() == other.wall_rgb_spec()
        &&& self.entrance_spec() == other.entrance_spec()
        &&& self.exit_spec() == other.exit_spec()
        &&& self.cache_spec() == other.cache_spec()
        &&& self.counters_spec() == other.counters_spec()
        &&& self.power_ups_spec() == other.power_ups_spec()
    }

    /// `self` differs from `other` at most in its success counters.
    pub open spec fn keeps_level_state_but_counters(&self, other: Maze) -> bool {
        &&& self.id_spec() == other.id_spec()
        &&& self.seed_spec() == other.seed_spec()
        &&& self.config_spec() == other.config_spec()
        &&& self.grid_spec() == other.grid_spec()
        &&& self.wall_rgb_spec() == other.wall_rgb_spec()
        &&& self.entrance_spec() == other.entrance_spec()
        &&& self.exit_spec() == other.exit_spec()
        &&& self.cache_spec() == other.cache_spec()
        &&& self.power_ups_spec() == other.power_ups_spec()
    }

    /// `self` differs from `other` at most in its stored perceptions.
    pub open spec fn keeps_level_state_but_cache(&self, other: Maze) -> bool {
        &&& self.id_spec() == other.id_spec()
        &&& self.seed_spec() == other.seed_spec()
        &&& self.config_spec() == other.config_spec()
        &&& self.grid_spec() == other.grid_spec()
        &&& self.wall_rgb_spec() == other.wall_rgb_spec()
        &&& self.entrance_spec() == other.entrance_spec()
        &&& self.exit_spec() == other.exit_spec()
        &&& self.counters_spec() == other.counters_spec()
        &&& self.power_ups_spec() == other.power_ups_spec()
    }

    /// `self` is `other` with cells opened: same raster, every traversable cell of
    /// `other` still traversable, the other state unchanged but for the gates.
    pub open spec fn opens_cells_of(&self, other: Maze) -> bool {
        &&& self.id_spec() == other.id_spec()
        &&& self.seed_spec() == other.seed_spec()
        &&& self.config_spec() == other.config_spec()
        &&& self.wall_rgb_spec() == other.wall_rgb_spec()
        &&& self.counters_spec() == other.counters_spec()
        &&& self.power_ups_spec() == other.power_ups_spec()
        &&& self.cache_spec() == other.cache_spec()
        &&& self.grid_spec().cols() == other.grid_spec().cols()
        &&& self.grid_spec().rows() == other.grid_spec().rows()
        &&& forall|q: Position| #[trigger] other.grid_spec().holds(q) ==> self.grid_spec().holds(q)
    }

    /// A built maze: entrance and exit are each two vertically adjacent cells.
    pub open spec fn is_built(&self) -> bool {
        &&& self.wf()
        &&& self.entrance_spec().len() == 2
        &&& self.exit_spec().len() == 2
        &&& self.entrance_spec()[1] == (self.entrance_spec()[0].0, (self.entrance_spec()[0].1
            + 1) as usize)
        &&& self.exit_spec()[1] == (self.exit_spec()[0].0, (self.exit_spec()[0].1 + 1) as usize)
    }

    /// A maze configuration for level `id` with a seed from the operating system, default
    /// wall and passage sizes, and width and height left to be drawn at build time.
    pub fn new(id: usize) -> (m: Maze)
        ensures
            m.wf(),
            m.id_spec() == id,
            m.config_spec() == (0usize, 0usize, DEFAULT_WALL_SIZE, DEFAULT_PASSAGE_SIZE),
            m.entrance_spec().len() == 0,
            m.exit_spec().len() == 0,
            m.cache_spec().len() == 0,
            m.counters_spec() == (0usize, 0usize),
            m.power_ups_spec().len() == 0,
            m.grid_spec().cols() == 0,
            m.grid_spec().rows() == 0,
            forall|p: Position| !m.grid_spec().holds(p),
    {
        let random_seed = fresh_seed();
        let rng = seeded_rng(random_seed);
        let m = Maze {
            id,
            random_seed,
            rng,
            width: 0,
            height: 0,
            wall_size: DEFAULT_WALL_SIZE,
            passage_size: DEFAULT_PASSAGE_SIZE,
            grid: Grid::new(0, 0),
            wall_rgb: (0, 0, 0),
            entrance: Vec::new(),
            exit: Vec::new(),
            power_ups: Vec::new(),
            visible_positions_cache: Vec::new(),
            passed: 0,
            attempted: 0,
        };
        assert(m.cache_spec().len() == 0);
        m
    }

    /// The colour of traversable pixels in the raster artifact: fully transparent.
    pub fn background_color() -> (r: [u8; 4])
        ensures
            r@ == seq![0u8, 0u8, 0u8, 0u8],
    {
        let r = [0u8; 4];
        assert(r@ =~= seq![0u8, 0u8, 0u8, 0u8]);
        r
    }

    pub fn id(&self) -> (r: usize)
        ensures
            r == self.id_spec(),
    {
        self.id
    }

    /// Sets the width in maze cells and returns the configuration.
    pub fn width(self, width: usize) -> (m: Maze)
        ensures
            m.config_spec() == (width, self.config_spec().1, self.config_spec().2, self.config_spec().3),
            m.seed_spec() == self.seed_spec(),
            m.keeps_level_state(self),
    {
        Maze { width, ..self }
    }

    /// Sets the height in maze cells and returns the configuration.
    pub fn height(self, height: usize) -> (m: Maze)
        ensures
            m.config_spec() == (self.config_spec().0, height, self.config_spec().2, self.config_spec().3),
            m.seed_spec() == self.seed_spec(),
            m.keeps_level_state(self),
    {
        Maze { height, ..self }
    }

    /// Sets the seed that the whole generation is drawn from and returns the configuration.
    pub fn random_seed(self, random_seed: u64) -> (m: Maze)
        ensures
            m.seed_spec() == random_seed,
            m.config_spec() == self.config_spec(),
            m.keeps_level_state(self),
    {
        let rng = seeded_rng(random_seed);
        Maze { random_seed, rng, ..self }
    }

    /// Sets the wall thickness in pixels and returns the configuration.
    pub fn wall_size(self, wall_size: usize) -> (m: Maze)
        ensures
            m.config_spec() == (self.config_spec().0, self.config_spec().1, wall_size, self.config_spec().3),
            m.seed_spec() == self.seed_spec(),
            m.keeps_level_state(self),
    {
        Maze { wall_size, ..self }
    }

    /// Sets the passage thickness in pixels and returns the configuration.
    pub fn passage_size(self, passage_size: usize) -> (m: Maze)
        ensures
            m.config_spec() == (self.config_spec().0, self.config_spec().1, self.config_spec().2, passage_size),
            m.seed_spec() == self.seed_spec(),
            m.keeps_level_state(self),
    {
        Maze { passage_size, ..self }
    }
}

/// A copy of a list of cells.
fn copy_cells(v: &Vec<Position>) -> (r: Vec<Position>)
    ensures
        r@ == v@,
{
    let mut r: Vec<Position> = Vec::new();
    let mut i: usize = 0;
    while i < v.len()
        invariant
            i <= v@.len(),
            r@ == v@.subrange(0, i as int),
        decreases v@.len() - i,
    {
        r.push(v[i]);
        i = i + 1;
        assert(r@ =~= v@.subrange(0, i as int));
    }
    assert(r@ =~= v@);
    r
}

/// Whether `p` is further than six cells from every cell of `cells`.
pub fn is_clear_of(cells: &Vec<Position>, p: Position) -> (r: bool)
    requires
        p.0 <= MAX_SIDE,
        p.1 <= MAX_SIDE,
        forall|i: int| 0 <= i < cells@.len() ==> #[trigger] cells@[i].0 <= MAX_SIDE
            && cells@[i].1 <= MAX_SIDE,
    ensures
        r == clear_of(cells@, p),
{
    let mut i: usize = 0;
    while i < cells.len()
        invariant
            i <= cells@.len(),
            p.0 <= MAX_SIDE,
            p.1 <= MAX_SIDE,
            forall|j: int| 0 <= j < cells@.len() ==> #[trigger] cells@[j].0 <= MAX_SIDE
                && cells@[j].1 <= MAX_SIDE,
            forall|j: int| 0 <= j < i ==> #[trigger] beyond_six(cells@[j], p),
        decreases cells@.len() - i,
    {
        let c = cells[i];
        assert(c.0 <= MAX_SIDE && c.1 <= MAX_SIDE);
        if !is_beyond_six(c, p) {
            return false;
        }
        i = i + 1;
    }
    true
}

impl Maze {
    /// `p` may hold a spawned item: traversable, clear of the entrance and, when
    /// `avoid_exit`, of the exit.
    pub open spec fn spawnable(&self, p: Position, avoid_exit: bool) -> bool {
        &&& self.grid_spec().holds(p)
        &&& clear_of(self.entrance_spec(), p)
        &&& (avoid_exit ==> clear_of(self.exit_spec(), p))
    }

    /// The power-ups lie on distinct spawnable cells clear of the exit too, and there are
    /// `amount` of them unless fewer cells qualify, in which case all of them hold one.
    pub open spec fn power_ups_placed(&self, amount: usize) -> bool {
        &&& self.power_ups_spec().no_duplicates()
        &&& forall|i: int|
            0 <= i < self.power_ups_spec().len() ==> #[trigger] self.spawnable(
                self.power_ups_spec()[i],
                true,
            )
        &&& (self.power_ups_spec().len() == amount || (self.power_ups_spec().len() < amount
            && forall|p: Position| #[trigger]
            self.spawnable(p, true) ==> self.power_ups_spec().contains(p)))
    }

    /// Every spawnable cell, each once.
    fn spawnable_cells(&self, avoid_exit: bool) -> (r: Vec<Position>)
        requires
            self.wf(),
        ensures
            r@.no_duplicates(),
            forall|p: Position| #[trigger] r@.contains(p) == self.spawnable(p, avoid_exit),
    {
        proof {
            self.lemma_gate_bounds();
        }
        let all = collect_admitted(&self.grid, (0, 0), Direction::North, ViewMode::Full);
        let mut r: Vec<Position> = Vec::new();
        let mut i: usize = 0;
        while i < all.len()
            invariant
                self.wf(),
                self.grid_spec().cols() <= MAX_SIDE,
                self.grid_spec().rows() <= MAX_SIDE,
                forall|j: int| 0 <= j < self.entrance@.len() ==> #[trigger] self.grid_spec().in_bounds(self.entrance@[j]),
                forall|j: int| 0 <= j < self.exit@.len() ==> #[trigger] self.grid_spec().in_bounds(self.exit@[j]),
                i <= all@.len(),
                all@.no_duplicates(),
                forall|p: Position| #[trigger] all@.contains(p) == self.grid_spec().holds(p),
                r@.no_duplicates(),
                forall|p: Position| #[trigger]
                    r@.contains(p) == ((exists|j: int| 0 <= j < i && all@[j] == p) && self.spawnable(p, avoid_exit)),
            decreases all@.len() - i,
        {
            let p = all[i];
            proof {
                assert(all@.contains(p));
                self.grid.lemma_holds_in_bounds(p);
                assert forall|j: int| 0 <= j < self.entrance@.len() implies #[trigger] self.entrance@[j].0 <= MAX_SIDE
                    && self.entrance@[j].1 <= MAX_SIDE by {
                    assert(self.grid_spec().in_bounds(self.entrance@[j]));
                }
                assert forall|j: int| 0 <= j < self.exit@.len() implies #[trigger] self.exit@[j].0 <= MAX_SIDE
                    && self.exit@[j].1 <= MAX_SIDE by {
                    assert(self.grid_spec().in_bounds(self.exit@[j]));
                }
            }
            let keep = is_clear_of(&self.entrance, p) && (!avoid_exit || is_clear_of(&self.exit, p));
            let ghost r0 = r@;
            if keep {
                proof {
                    if r0.contains(p) {
                        let j = choose|j: int| 0 <= j < i && all@[j] == p;
                        assert(all@[j] == all@[i as int]);
                    }
                }
                r.push(p);
            }
            proof {
                assert forall|q: Position| #[trigger]
                    r@.contains(q) == ((exists|j: int| 0 <= j < i + 1 && all@[j] == q) && self.spawnable(q, avoid_exit)) by {
                    if exists|j: int| 0 <= j < i + 1 && all@[j] == q {
                        let j = choose|j: int| 0 <= j < i + 1 && all@[j] == q;
                        if j < i {
                            assert(exists|j: int| 0 <= j < i && all@[j] == q);
                        }
                    }
                    if keep {
                        assert(r@ == r0.push(p));
                        if r@.contains(q) && q != p {
                            let k = choose|k: int| 0 <= k < r@.len() && r@[k] == q;
                            assert(r0[k] == q);
                        }
                        if r0.contains(q) {
                            let k = choose|k: int| 0 <= k < r0.len() && r0[k] == q;
                            assert(r@[k] == q);
                        }
                        if q == p {
                            assert(r@[r0.len() as int] == q);
                        }
                    }
                }
            }
            i = i + 1;
        }
        proof {
            assert forall|p: Position| #[trigger] r@.contains(p) == self.spawnable(p, avoid_exit) by {
                if all@.contains(p) {
                    let j = choose|j: int| 0 <= j < all@.len() && all@[j] == p;
                }
            }
        }
        r
    }

    /// Places up to `amount` power-ups on distinct cells drawn uniformly from those clear
    /// of the entrance and the exit.
    fn set_power_up_position(&mut self, amount: usize)
        requires
            old(self).wf(),
        ensures
            final(self).wf(),
            final(self).id_spec() == old(self).id_spec(),
            final(self).grid_spec() == old(self).grid_spec(),
            final(self).wall_rgb_spec() == old(self).wall_rgb_spec(),
            final(self).entrance_spec() == old(self).entrance_spec(),
            final(self).exit_spec() == old(self).exit_spec(),
            final(self).cache_spec() == old(self).cache_spec(),
            final(self).counters_spec() == old(self).counters_spec(),
            final(self).seed_spec() == old(self).seed_spec(),
            final(self).config_spec() == old(self).config_spec(),
            final(self).power_ups_placed(amount),
    {
        let ghost s0 = *self;
        let cands = self.spawnable_cells(true);
        let n = cands.len();
        if amount >= n {
            self.power_ups = cands;
            proof {
                assert forall|i: int| 0 <= i < self.power_ups_spec().len() implies #[trigger] self.spawnable(
                    self.power_ups_spec()[i],
                    true,
                ) by {
                    assert(cands@.contains(cands@[i]));
                }
                self.lemma_wf_carries(s0);
            }
            return;
        }
        let idx = pick_distinct(n, amount);
        let mut ups: Vec<Position> = Vec::new();
        let mut i: usize = 0;
        while i < amount
            invariant
                i <= amount,
                idx@.len() == amount,
                cands@.len() == n,
                idx@.no_duplicates(),
                cands@.no_duplicates(),
                forall|j: int| 0 <= j < idx@.len() ==> #[trigger] idx@[j] < n,
                ups@.len() == i,
                forall|j: int| 0 <= j < i ==> #[trigger] ups@[j] == cands@[idx@[j] as int],
            decreases amount - i,
        {
            ups.push(cands[idx[i]]);
            i = i + 1;
        }
        self.power_ups = ups;
        proof {
            assert forall|a: int, b: int|
                0 <= a < ups@.len() && 0 <= b < ups@.len() && a != b implies ups@[a] != ups@[b] by {
                assert(ups@[a] == cands@[idx@[a] as int]);
                assert(ups@[b] == cands@[idx@[b] as int]);
                assert(idx@[a] != idx@[b]);
            }
            assert forall|j: int| 0 <= j < self.power_ups_spec().len() implies #[trigger] self.spawnable(
                self.power_ups_spec()[j],
                true,
            ) by {
                assert(ups@[j] == cands@[idx@[j] as int]);
                assert(cands@.contains(cands@[idx@[j] as int]));
            }
            self.lemma_wf_carries(s0);
        }
    }

    /// Places the level's monster on a cell drawn uniformly from the traversable cells
    /// further than six cells from every entrance cell, and stores its first perception.
    /// Returns `None` when no cell qualifies.
    pub fn spawn_minotaur(&mut self, name: String) -> (r: Option<Minotaur>)
        requires
            old(self).wf(),
        ensures
            final(self).wf(),
            final(self).keeps_level_state_but_cache(*old(self)),
            match r {
                Some(m) => {
                    &&& old(self).spawnable(m.position, false)
                    &&& m.name@ == name@
                    &&& m.maze_id == old(self).id_spec()
                    &&& m.speed == (if old(self).id_spec() / 3 < 6 { old(self).id_spec() / 3 } else { 6 })
                    &&& m.vision == (if 4 + old(self).id_spec() / 3 < 7 { 4 + old(self).id_spec() / 3 } else { 7 })
                    &&& m.aggression_tenths == (if 5 + old(self).id_spec() / 2 < 10 { 5 + old(self).id_spec() / 2 } else { 10 })
                    &&& final(self).is_cached(m.position, m.direction, m.view)
                    &&& final(self).cache_spec() == old(self).cache_spec() || exists|seen: Seq<Position>|
                        final(self).cache_spec() == #[trigger] old(self).cache_spec().push((m.position, m.direction, m.view, seen))
                },
                None => forall|p: Position| !old(self).spawnable(p, false),
            },
            r is None ==> final(self).cache_spec() == old(self).cache_spec(),
    {
        let cands = self.spawnable_cells(false);
        if cands.len() == 0 {
            proof {
                assert forall|p: Position| !self.spawnable(p, false) by {
                    if self.spawnable(p, false) {
                        assert(cands@.contains(p));
                    }
                }
            }
            return None;
        }
        let position = cands[pick_index(cands.len())];
        assert(cands@.contains(position));
        let id = self.id;
        let speed: u64 = if id / 3 < 6 { (id / 3) as u64 } else { 6 };
        let vision: usize = if id / 3 < 3 { 4 + id / 3 } else { 7 };
        let aggression: u64 = if id / 2 < 5 { (5 + id / 2) as u64 } else { 10 };
        let minotaur = Minotaur::new(name, id, position, speed, vision, aggression);
        proof {
            self.grid.lemma_holds_in_bounds(position);
        }
        let _ = self.get_and_cache_visible_positions(position, minotaur.direction(), minotaur.view());
        Some(minotaur)
    }

    /// A traversable cell drawn uniformly at random, or `None` on a maze without one.
    pub fn random_valid_position(&self) -> (r: Option<Position>)
        requires
            self.wf(),
        ensures
            match r {
                Some(p) => self.grid_spec().holds(p),
                None => forall|p: Position| !self.grid_spec().holds(p),
            },
    {
        let cells = collect_admitted(&self.grid, (0, 0), Direction::North, ViewMode::Full);
        if cells.len() == 0 {
            proof {
                assert forall|p: Position| !self.grid_spec().holds(p) by {
                    if self.grid_spec().holds(p) {
                        assert(cells@.contains(p));
                    }
                }
            }
            return None;
        }
        let p = cells[pick_index(cells.len())];
        assert(cells@.contains(p));
        Some(p)
    }

    /// `w × h` cells is a size that building this configuration may use: the configured
    /// value, or one of the level's default range where none is set.
    pub open spec fn size_choice(&self, w: usize, h: usize) -> bool {
        &&& (if self.config_spec().0 == 0 {
            default_width_range(self.id_spec()).0 <= w <= default_width_range(self.id_spec()).1
        } else {
            w == self.config_spec().0
        })
        &&& (if self.config_spec().1 == 0 {
            default_height_range(self.id_spec()).0 <= h <= default_height_range(self.id_spec()).1
        } else {
            h == self.config_spec().1
        })
    }

    /// The knossos raster that building this configuration with `w × h` cells draws.
    pub open spec fn raster_for(&self, w: usize, h: usize) -> Seq<u8> {
        maze_raster(
            w,
            h,
            self.seed_spec(),
            self.config_spec().2,
            self.config_spec().3,
            wall_color_spec(self.id_spec()),
            BACKGROUND,
        )
    }

    /// The traversable cells of a built maze are exactly the raster's background, the
    /// entrance tunnel (dug rightward to column `xe`, the first open pair), the exit tunnel
    /// (dug leftward to column `xx`, the first open pair then) and the rooms.
    #[verifier::opaque]
    pub open spec fn laid_out(&self, raster: Seq<u8>, xe: int, xx: int, rooms: Seq<Room>) -> bool {
        let (w, h, wall, passage) = self.config_spec();
        let cols = self.grid_spec().cols() as int;
        let rows = self.grid_spec().rows() as int;
        let erow = self.entrance_spec()[0].1 as int;
        let start = self.entrance_spec()[0].0 as int;
        let xrow = self.exit_spec()[0].1 as int;
        &&& start <= xe < cols
        &&& base_pair(raster, cols, rows, xe, erow)
        &&& forall|x2: int| start <= x2 < xe ==> !#[trigger] base_pair(raster, cols, rows, x2, erow)
        &&& 0 <= xx < cols
        &&& entered_pair(raster, cols, rows, erow, start, xe, xx, xrow)
        &&& forall|x2: int|
            xx < x2 < cols ==> !#[trigger] entered_pair(raster, cols, rows, erow, start, xe, x2, xrow)
        &&& 4 <= rooms.len() <= most_rooms(w + h)
        &&& forall|i: int|
            0 <= i < rooms.len() ==> #[trigger] room_fits(rooms[i], widest_room(w + h), wall as int, cols, rows)
        &&& forall|q: Position| #[trigger]
            self.grid_spec().holds(q) == (entered_open(raster, cols, rows, erow, start, xe, q)
                || in_tunnel(q, xrow, xx + 1, cols) || in_some_room(rooms, q))
    }

    /// One of the two entrance cells, drawn anew on every call.
    pub fn hero_starting_position(&self) -> (r: Position)
        requires
            self.is_built(),
        ensures
            self.entrance_spec().contains(r),
    {
        let k = pick_index(self.entrance.len());
        let r = self.entrance[k];
        assert(self.entrance_spec()[k as int] == r);
        r
    }

    /// The invariant depends only on the index, the gates and the cache.
    proof fn lemma_wf_carries(&self, other: Maze)
        requires
            other.wf(),
            self.grid_spec() == other.grid_spec(),
            self.entrance_spec() == other.entrance_spec(),
            self.exit_spec() == other.exit_spec(),
            self.cache_spec() == other.cache_spec(),
        ensures
            self.wf(),
    {
        assert forall|i: int| 0 <= i < self.entrance_spec().len() implies #[trigger] self.grid_spec().holds(
            self.entrance_spec()[i],
        ) by {
            assert(other.grid_spec().holds(other.entrance_spec()[i]));
        }
        assert forall|i: int| 0 <= i < self.exit_spec().len() implies #[trigger] self.grid_spec().holds(
            self.exit_spec()[i],
        ) by {
            assert(other.grid_spec().holds(other.exit_spec()[i]));
        }
        assert forall|k: int| 0 <= k < self.cache_spec().len() implies {
            let e = #[trigger] self.cache_spec()[k];
            self.grid_spec().in_bounds(e.0) && is_visible_list(self.grid_spec(), e.0, e.1, e.2, e.3)
        } by {
            assert(other.cache_spec()[k] == self.cache_spec()[k]);
        }
    }

    /// The gates' vertical span: `wall` to `rows - wall - 1`.
    fn gate_row(&mut self) -> (r: Result<usize, GenerationError>)
        requires
            old(self).wf(),
        ensures
            *final(self) == (Maze { rng: final(self).rng, ..*old(self) }),
            match r {
                Ok(row) => !no_gate_row(old(self).config_spec().2 as int, old(self).grid_spec().rows() as int)
                    && gate_row_fits(row as int, old(self).config_spec().2 as int, old(self).grid_spec().rows() as int),
                Err(e) => e == GenerationError::NoGateRow && no_gate_row(old(self).config_spec().2 as int, old(self).grid_spec().rows() as int),
            },
    {
        let rows = self.grid.height();
        let wall = self.wall_size;
        proof {
            self.grid.lemma_area();
        }
        if wall > MAX_SIDE || rows < 2 * wall + 2 {
            return Err(GenerationError::NoGateRow);
        }
        let drawn = draw_between(&mut self.rng, wall, rows - wall - 2);
        Ok(drawn / 2 * 2)
    }

    /// Opens the entrance: from the left edge (from inside the wall on level zero)
    /// rightward along a random even row pair until it meets two open cells.
    /// On success, returns the column where the scan met an open pair.
    fn build_entrance(&mut self) -> (r: Result<Ghost<int>, GenerationError>)
        requires
            old(self).wf(),
            old(self).cache_spec().len() == 0,
        ensures
            final(self).wf(),
            final(self).opens_cells_of(*old(self)),
            final(self).exit_spec() == old(self).exit_spec(),
            ({
                let wall = old(self).config_spec().2 as int;
                let rows = old(self).grid_spec().rows() as int;
                let cols = old(self).grid_spec().cols() as int;
                let start = gate_start(old(self).id_spec(), old(self).config_spec().2);
                let g0 = old(self).grid_spec();
                &&& (r matches Err(e) && e == GenerationError::NoGateRow) == no_gate_row(wall, rows)
                &&& r matches Err(e) ==> e == GenerationError::NoGateRow || (e
                    == GenerationError::EntranceUnreachable && exists|row: int|
                    gate_row_fits(row, wall, rows) && forall|x2: int|
                        start <= x2 < cols ==> !#[trigger] open_pair(g0, x2, row))
                &&& r matches Ok(x) ==> {
                    let row = final(self).entrance_spec()[0].1;
                    &&& final(self).entrance_spec() == seq![(start, row), (start, (row + 1) as usize)]
                    &&& gate_row_fits(row as int, wall, rows)
                    &&& start <= x@ < cols
                    &&& open_pair(g0, x@, row as int)
                    &&& forall|x2: int| start <= x2 < x@ ==> !#[trigger] open_pair(g0, x2, row as int)
                    &&& forall|q: Position| #[trigger] final(self).grid_spec().holds(q) == (g0.holds(q)
                        || in_tunnel(q, row as int, start as int, x@))
                }
            }),
    {
        let ghost s0 = *self;
        let row = match self.gate_row() {
            Ok(row) => row,
            Err(e) => {
                proof { self.lemma_wf_carries(s0); }
                return Err(e);
            },
        };
        let start = if self.id == 0 { self.wall_size } else { 0 };
        let ghost g0 = self.grid;
        let found = carve_from_left(&mut self.grid, row, start);
        proof {
            assert forall|q: Position| #[trigger] g0.holds(q) implies self.grid.holds(q) by {}
        }
        match found {
            Some(x) => {
                proof {
                    if x == start {
                        assert(open_pair(g0, x as int, row as int));
                    } else {
                        assert(in_tunnel((start, row), row as int, start as int, x as int));
                        assert(in_tunnel((start, (row + 1) as usize), row as int, start as int, x as int));
                    }
                    assert(self.grid.holds((start, row)));
                    assert(self.grid.holds((start, (row + 1) as usize)));
                }
                self.entrance = vec![(start, row), (start, row + 1)];
                proof {
                    assert forall|i: int| 0 <= i < self.exit_spec().len() implies #[trigger] self.grid_spec().holds(
                        self.exit_spec()[i],
                    ) by {
                        assert(s0.grid_spec().holds(s0.exit_spec()[i]));
                    }
                    assert(self.cache_spec().len() == 0);
                    assert(self.entrance_spec() =~= seq![(start, row), (start, (row + 1) as usize)]);
                }
                Ok(Ghost(x as int))
            },
            None => {
                proof {
                    assert forall|i: int| 0 <= i < self.exit_spec().len() implies #[trigger] self.grid_spec().holds(
                        self.exit_spec()[i],
                    ) by {
                        assert(s0.grid_spec().holds(s0.exit_spec()[i]));
                    }
                    assert forall|i: int| 0 <= i < self.entrance_spec().len() implies #[trigger] self.grid_spec().holds(
                        self.entrance_spec()[i],
                    ) by {
                        assert(s0.grid_spec().holds(s0.entrance_spec()[i]));
                    }
                    assert(self.cache_spec().len() == 0);
                    assert(gate_row_fits(row as int, s0.config_spec().2 as int, s0.grid_spec().rows() as int));
                }
                Err(GenerationError::EntranceUnreachable)
            },
        }
    }

    /// Opens the exit: from the right edge leftward along a random even row pair until it
    /// meets two open cells.
    /// On success, returns the column where the scan met an open pair.
    fn build_exit(&mut self) -> (r: Result<Ghost<int>, GenerationError>)
        requires
            old(self).wf(),
            old(self).cache_spec().len() == 0,
        ensures
            final(self).wf(),
            final(self).opens_cells_of(*old(self)),
            final(self).entrance_spec() == old(self).entrance_spec(),
            ({
                let wall = old(self).config_spec().2 as int;
                let rows = old(self).grid_spec().rows() as int;
                let cols = old(self).grid_spec().cols() as int;
                let g0 = old(self).grid_spec();
                &&& (r matches Err(e) && e == GenerationError::NoGateRow) == no_gate_row(wall, rows)
                &&& r matches Err(e) ==> e == GenerationError::NoGateRow || (e
                    == GenerationError::ExitUnreachable && exists|row: int|
                    gate_row_fits(row, wall, rows) && forall|x2: int|
                        0 <= x2 < cols ==> !#[trigger] open_pair(g0, x2, row))
                &&& r matches Ok(x) ==> {
                    let row = final(self).exit_spec()[0].1;
                    &&& final(self).exit_spec() == seq![((cols - 1) as usize, row), ((cols - 1) as usize, (row + 1) as usize)]
                    &&& gate_row_fits(row as int, wall, rows)
                    &&& 0 <= x@ < cols
                    &&& open_pair(g0, x@, row as int)
                    &&& forall|x2: int| x@ < x2 < cols ==> !#[trigger] open_pair(g0, x2, row as int)
                    &&& forall|q: Position| #[trigger] final(self).grid_spec().holds(q) == (g0.holds(q)
                        || in_tunnel(q, row as int, x@ + 1, cols))
                }
            }),
    {
        let ghost s0 = *self;
        let row = match self.gate_row() {
            Ok(row) => row,
            Err(e) => {
                proof { self.lemma_wf_carries(s0); }
                return Err(e);
            },
        };
        let ghost g0 = self.grid;
        let found = carve_from_right(&mut self.grid, row);
        proof {
            assert forall|q: Position| #[trigger] g0.holds(q) implies self.grid.holds(q) by {}
            assert forall|i: int| 0 <= i < self.entrance_spec().len() implies #[trigger] self.grid_spec().holds(
                self.entrance_spec()[i],
            ) by {
                assert(s0.grid_spec().holds(s0.entrance_spec()[i]));
            }
            assert(self.cache_spec().len() == 0);
        }
        match found {
            Some(x) => {
                let last = self.grid.width() - 1;
                proof {
                    if x == last {
                        assert(open_pair(g0, x as int, row as int));
                    } else {
                        assert(in_tunnel((last, row), row as int, x + 1, g0.cols() as int));
                        assert(in_tunnel((last, (row + 1) as usize), row as int, x + 1, g0.cols() as int));
                    }
                    assert(self.grid.holds((last, row)));
                    assert(self.grid.holds((last, (row + 1) as usize)));
                }
                self.exit = vec![(last, row), (last, row + 1)];
                proof {
                    assert forall|i: int| 0 <= i < self.entrance_spec().len() implies #[trigger] self.grid_spec().holds(
                        self.entrance_spec()[i],
                    ) by {
                        assert(s0.grid_spec().holds(s0.entrance_spec()[i]));
                    }
                    assert(self.cache_spec().len() == 0);
                    assert(self.exit_spec() =~= seq![(last, row), (last, (row + 1) as usize)]);
                }
                Ok(Ghost(x as int))
            },
            None => {
                proof {
                    assert forall|i: int| 0 <= i < self.exit_spec().len() implies #[trigger] self.grid_spec().holds(
                        self.exit_spec()[i],
                    ) by {
                        assert(s0.grid_spec().holds(s0.exit_spec()[i]));
                    }
                    assert(gate_row_fits(row as int, s0.config_spec().2 as int, s0.grid_spec().rows() as int));
                }
                Err(GenerationError::ExitUnreachable)
            },
        }
    }

    /// Opens between 4 and `max((width + height) / 2, 5)` rectangular rooms, each side
    /// between 4 and `max((width + height) / 6, 5)` cells, at random places inside the
    /// walls, turning the perfect maze into one with loops. On success, returns the rooms.
    fn build_extra_rooms(&mut self) -> (r: Result<Ghost<Seq<Room>>, GenerationError>)
        requires
            old(self).wf(),
            old(self).cache_spec().len() == 0,
            old(self).config_spec().0 <= MAX_SIDE,
            old(self).config_spec().1 <= MAX_SIDE,
        ensures
            final(self).wf(),
            final(self).opens_cells_of(*old(self)),
            final(self).entrance_spec() == old(self).entrance_spec(),
            final(self).exit_spec() == old(self).exit_spec(),
            ({
                let span = old(self).config_spec().0 + old(self).config_spec().1;
                let wall = old(self).config_spec().2 as int;
                let cols = old(self).grid_spec().cols() as int;
                let rows = old(self).grid_spec().rows() as int;
                &&& r matches Err(e) ==> e == GenerationError::NoRoomSpace && no_room_space(
                    widest_room(span),
                    wall,
                    cols,
                    rows,
                )
                &&& r matches Ok(rooms) ==> {
                    &&& 4 <= rooms@.len() <= most_rooms(span)
                    &&& forall|i: int|
                        0 <= i < rooms@.len() ==> #[trigger] room_fits(
                            rooms@[i],
                            widest_room(span),
                            wall,
                            cols,
                            rows,
                        )
                    &&& forall|q: Position| #[trigger] final(self).grid_spec().holds(q) == (old(
                        self,
                    ).grid_spec().holds(q) || in_some_room(rooms@, q))
                }
            }),
    {
        let ghost s0 = *self;
        proof {
            self.grid.lemma_area();
        }
        let span = self.width + self.height;
        let most = if span / 2 > 5 { span / 2 } else { 5 };
        let widest = if span / 6 > 5 { span / 6 } else { 5 };
        let count = draw_between(&mut self.rng, 4, most);
        let cols = self.grid.width();
        let rows = self.grid.height();
        let wall = self.wall_size;
        let ghost mut rooms: Seq<Room> = Seq::empty();
        let mut i: usize = 0;
        while i < count
            invariant
                self.grid.wf(),
                self.grid.cols() == cols,
                self.grid.rows() == rows,
                cols <= MAX_SIDE,
                rows <= MAX_SIDE,
                self.opens_cells_of(s0),
                wall == s0.config_spec().2,
                self.entrance_spec() == s0.entrance_spec(),
                self.exit_spec() == s0.exit_spec(),
                s0.wf(),
                s0.cache_spec().len() == 0,
                s0 == *old(self),
                widest == widest_room(span as int),
                widest <= MAX_SIDE,
                4 <= count <= most_rooms(span as int),
                span == s0.config_spec().0 + s0.config_spec().1,
                i <= count,
                rooms.len() == i,
                forall|j: int|
                    0 <= j < rooms.len() ==> #[trigger] room_fits(
                        rooms[j],
                        widest as int,
                        wall as int,
                        cols as int,
                        rows as int,
                    ),
                forall|q: Position| #[trigger]
                    self.grid_spec().holds(q) == (s0.grid_spec().holds(q) || in_some_room(rooms, q)),
            decreases count - i,
        {
            let room_width = draw_between(&mut self.rng, 4, widest);
            let room_height = draw_between(&mut self.rng, 4, widest);
            if wall > MAX_SIDE || cols < room_width + 2 * wall + 1 || rows < room_height + 2 * wall + 1 {
                proof {
                    self.lemma_grown_wf(s0);
                }
                return Err(GenerationError::NoRoomSpace);
            }
            let room_x = draw_between(&mut self.rng, wall, cols - room_width - wall - 1);
            let room_y = draw_between(&mut self.rng, wall, rows - room_height - wall - 1);
            let ghost g1 = self.grid;
            let ghost room: Room = (room_x, room_y, room_width, room_height);
            self.grid.open_rect(room_x, room_y, room_width, room_height);
            proof {
                let r0 = rooms;
                rooms = rooms.push(room);
                assert forall|q: Position| #[trigger]
                    self.grid_spec().holds(q) == (s0.grid_spec().holds(q) || in_some_room(rooms, q)) by {
                    if in_some_room(r0, q) {
                        let j = choose|j: int| 0 <= j < r0.len() && #[trigger] in_rect(r0[j], q);
                        assert(rooms[j] == r0[j]);
                    }
                    if in_rect(room, q) {
                        assert(rooms[r0.len() as int] == room);
                    }
                    if in_some_room(rooms, q) {
                        let j = choose|j: int| 0 <= j < rooms.len() && #[trigger] in_rect(rooms[j], q);
                        if j < r0.len() {
                            assert(rooms[j] == r0[j]);
                            assert(in_some_room(r0, q));
                        }
                    }
                }
                assert forall|j: int| 0 <= j < rooms.len() implies #[trigger] room_fits(
                    rooms[j],
                    widest as int,
                    wall as int,
                    cols as int,
                    rows as int,
                ) by {
                    if j < r0.len() {
                        assert(rooms[j] == r0[j]);
                    }
                }
            }
            i = i + 1;
        }
        proof {
            self.lemma_grown_wf(s0);
        }
        Ok(Ghost(rooms))
    }

    /// Opening cells keeps the invariant when the cache is empty.
    proof fn lemma_grown_wf(&self, other: Maze)
        requires
            other.wf(),
            other.cache_spec().len() == 0,
            self.grid_spec().wf(),
            self.opens_cells_of(other),
            self.entrance_spec() == other.entrance_spec(),
            self.exit_spec() == other.exit_spec(),
        ensures
            self.wf(),
    {
        assert forall|i: int| 0 <= i < self.entrance_spec().len() implies #[trigger] self.grid_spec().holds(
            self.entrance_spec()[i],
        ) by {
            assert(other.grid_spec().holds(other.entrance_spec()[i]));
        }
        assert forall|i: int| 0 <= i < self.exit_spec().len() implies #[trigger] self.grid_spec().holds(
            self.exit_spec()[i],
        ) by {
            assert(other.grid_spec().holds(other.exit_spec()[i]));
        }
    }

    /// `m` is a level built from this configuration: its size is an allowed choice that
    /// fits, its cells are laid out from the knossos raster of that size and the seed, its
    /// gates are two cells tall on the margins, and its power-ups are placed.
    #[verifier::opaque]
    pub open spec fn builds(&self, m: Maze) -> bool {
        let (w, h, wall, passage) = m.config_spec();
        let id = self.id_spec();
        &&& m.is_built()
        &&& id == m.id_spec()
        &&& m.seed_spec() == self.seed_spec()
        &&& wall == self.config_spec().2
        &&& passage == self.config_spec().3
        &&& self.size_choice(w, h)
        &&& raster_fits(w, h, wall, passage)
        &&& m.grid_spec().cols() == raster_side(w as int, wall as int, passage as int)
        &&& m.grid_spec().rows() == raster_side(h as int, wall as int, passage as int)
        &&& m.wall_rgb_spec() == wall_color_spec(id)
        &&& m.entrance_spec()[0].0 == gate_start(id, wall)
        &&& m.exit_spec()[0].0 + 1 == m.grid_spec().cols()
        &&& gate_row_fits(m.entrance_spec()[0].1 as int, wall as int, m.grid_spec().rows() as int)
        &&& gate_row_fits(m.exit_spec()[0].1 as int, wall as int, m.grid_spec().rows() as int)
        &&& exists|xe: int, xx: int, rooms: Seq<Room>|
            #[trigger] m.laid_out(self.raster_for(w, h), xe, xx, rooms)
        &&& m.power_ups_placed((id / 2 + 1) as usize)
        &&& m.cache_spec().len() == 0
        &&& m.counters_spec() == self.counters_spec()
    }

    /// When building fails, why: each error comes with the configuration or the drawn
    /// raster that causes it.
    #[verifier::opaque]
    pub open spec fn failure_explained(&self, e: GenerationError) -> bool {
        let empty = (self.config_spec().0 == 0 && default_width_range(self.id_spec()).0
            > default_width_range(self.id_spec()).1) || (self.config_spec().1 == 0
            && default_height_range(self.id_spec()).0 > default_height_range(
            self.id_spec(),
        ).1);
        &&& (e == GenerationError::EmptySizeRange) == empty
        &&& (e == GenerationError::ZeroThickness) == (!empty && self.config_spec().2 == 0
            && self.config_spec().3 == 0)
        &&& e == GenerationError::TooLarge ==> exists|w: usize, h: usize|
            self.size_choice(w, h) && !#[trigger] raster_fits(
                w,
                h,
                self.config_spec().2,
                self.config_spec().3,
            )
        &&& self.config_spec().0 != 0 && self.config_spec().1 != 0 && !empty
            && !(self.config_spec().2 == 0 && self.config_spec().3 == 0) ==> ((e
            == GenerationError::TooLarge) == !raster_fits(
            self.config_spec().0,
            self.config_spec().1,
            self.config_spec().2,
            self.config_spec().3,
        ))
        &&& e == GenerationError::NoGateRow ==> exists|w: usize, h: usize|
            #[trigger] self.size_choice(w, h) && raster_fits(w, h, self.config_spec().2, self.config_spec().3)
                && no_gate_row(self.config_spec().2 as int, raster_side(h as int, self.config_spec().2 as int, self.config_spec().3 as int))
        &&& e == GenerationError::NoRoomSpace ==> exists|w: usize, h: usize|
            #[trigger] self.size_choice(w, h) && raster_fits(w, h, self.config_spec().2, self.config_spec().3)
                && no_room_space(
                widest_room(w + h),
                self.config_spec().2 as int,
                raster_side(w as int, self.config_spec().2 as int, self.config_spec().3 as int),
                raster_side(h as int, self.config_spec().2 as int, self.config_spec().3 as int),
            )
        &&& e == GenerationError::EntranceUnreachable ==> exists|w: usize, h: usize, row: int|
            #[trigger] self.size_choice(w, h) && raster_fits(w, h, self.config_spec().2, self.config_spec().3)
                && #[trigger] gate_row_fits(row, self.config_spec().2 as int, raster_side(h as int, self.config_spec().2 as int, self.config_spec().3 as int))
                && forall|x2: int| gate_start(self.id_spec(), self.config_spec().2) <= x2 < raster_side(w as int, self.config_spec().2 as int, self.config_spec().3 as int)
                    ==> !#[trigger] base_pair(self.raster_for(w, h),
                        raster_side(w as int, self.config_spec().2 as int, self.config_spec().3 as int),
                        raster_side(h as int, self.config_spec().2 as int, self.config_spec().3 as int), x2, row)
        &&& e == GenerationError::ExitUnreachable ==> exists|w: usize, h: usize, row: int|
            #[trigger] self.size_choice(w, h) && raster_fits(w, h, self.config_spec().2, self.config_spec().3)
                && #[trigger] gate_row_fits(row, self.config_spec().2 as int, raster_side(h as int, self.config_spec().2 as int, self.config_spec().3 as int))
                && forall|x2: int| 0 <= x2 < raster_side(w as int, self.config_spec().2 as int, self.config_spec().3 as int)
                    ==> !#[trigger] base_pair(self.raster_for(w, h),
                        raster_side(w as int, self.config_spec().2 as int, self.config_spec().3 as int),
                        raster_side(h as int, self.config_spec().2 as int, self.config_spec().3 as int), x2, row)
    }

    /// Generates the level: the carved maze (drawn by knossos from the seed), the entrance
    /// on the left, the exit on the right, extra rooms and the power-ups. Every random
    /// choice but the power-ups' comes from the seed.
    #[verifier::rlimit(100)]
    #[verifier::spinoff_prover]
    pub fn build(self) -> (r: Result<Maze, GenerationError>)
        requires
            self.wf(),
        ensures
            match r {
                Ok(m) => self.builds(m),
                Err(e) => self.failure_explained(e),
            },
    {
        let mut m = self;
        let id = m.id;
        let width_empty = m.width == 0 && id / 4 > 8;
        let height_empty = m.height == 0 && id / 4 > 8;
        assert(width_empty == (self.config_spec().0 == 0 && default_width_range(id).0 > default_width_range(id).1));
        assert(height_empty == (self.config_spec().1 == 0 && default_height_range(id).0 > default_height_range(id).1));
        if width_empty || height_empty {
            proof {
                reveal(Maze::failure_explained);
            }
            return Err(GenerationError::EmptySizeRange);
        }
        if m.wall_size == 0 && m.passage_size == 0 {
            proof {
                reveal(Maze::failure_explained);
            }
            return Err(GenerationError::ZeroThickness);
        }
        if m.width == 0 {
            let hi = if id / 2 < 6 { 20 + 2 * (id / 2) } else { 32 };
            m.width = draw_between(&mut m.rng, 16 + 2 * (id / 4), hi);
        }
        if m.height == 0 {
            let hi = if id / 2 < 7 { 6 + 2 * (id / 2) } else { 20 };
            m.height = draw_between(&mut m.rng, 4 + 2 * (id / 4), hi);
        }
        let (w, h, wall, passage) = (m.width, m.height, m.wall_size, m.passage_size);
        assert(self.size_choice(w, h));
        if w > MAX_SIDE || h > MAX_SIDE || wall > MAX_SIDE || passage > MAX_SIDE {
            assert(self.size_choice(w, h) && !raster_fits(w, h, self.config_spec().2, self.config_spec().3));
            proof {
                reveal(Maze::failure_explained);
            }
            return Err(GenerationError::TooLarge);
        }
        assert(w * (wall + passage) <= 0x4000_0000 * 0x8000_0000 && h * (wall + passage) <= 0x4000_0000 * 0x8000_0000) by (nonlinear_arith)
            requires w <= 0x4000_0000, h <= 0x4000_0000, wall + passage <= 0x8000_0000;
        let side_w: u64 = w as u64 * (wall as u64 + passage as u64) + wall as u64;
        let side_h: u64 = h as u64 * (wall as u64 + passage as u64) + wall as u64;
        if side_w > MAX_SIDE as u64 || side_h > MAX_SIDE as u64 {
            assert(self.size_choice(w, h) && !raster_fits(w, h, self.config_spec().2, self.config_spec().3));
            proof {
                reveal(Maze::failure_explained);
            }
            return Err(GenerationError::TooLarge);
        }
        assert(4 * side_w * side_h <= 4 * 0x4000_0000 * 0x4000_0000) by (nonlinear_arith)
            requires side_w <= 0x4000_0000, side_h <= 0x4000_0000;
        let area: u128 = 4 * side_w as u128 * side_h as u128;
        if area > usize::MAX as u128 {
            assert(self.size_choice(w, h) && !raster_fits(w, h, self.config_spec().2, self.config_spec().3));
            proof {
                reveal(Maze::failure_explained);
            }
            return Err(GenerationError::TooLarge);
        }
        let fg = wall_color(id);
        let raster = render_maze(w, h, m.random_seed, wall, passage, fg, BACKGROUND);
        let grid = Grid::from_raster(&raster, side_w as usize, side_h as usize, BACKGROUND);
        m.grid = grid;
        m.wall_rgb = fg;
        m.entrance = Vec::new();
        m.exit = Vec::new();
        m.power_ups = Vec::new();
        m.visible_positions_cache = Vec::new();
        let ghost m0 = m;
        let ghost cols = side_w as int;
        let ghost rows = side_h as int;
        let ghost ras = self.raster_for(w, h);
        proof {
            assert(raster@ == ras);
            assert(raster_fits(w, h, wall, passage));
            assert(m.cache_spec().len() == 0);
            assert forall|q: Position| #[trigger] m0.grid_spec().holds(q) == base_open(ras, cols, rows, q) by {}
        }
        let xe = match m.build_entrance() {
            Ok(x) => x,
            Err(e) => {
                proof {
                    if e == GenerationError::EntranceUnreachable {
                        let row = choose|row: int| gate_row_fits(row, wall as int, rows) && forall|x2: int|
                            gate_start(id, wall) <= x2 < cols ==> !#[trigger] open_pair(m0.grid_spec(), x2, row);
                        assert forall|x2: int| gate_start(id, wall) <= x2 < cols implies !#[trigger] base_pair(ras, cols, rows, x2, row) by {
                            assert(!open_pair(m0.grid_spec(), x2, row));
                        }
                        assert(self.size_choice(w, h) && gate_row_fits(row, wall as int, rows));
                    } else {
                        assert(self.size_choice(w, h));
                    }
                }
                proof {
                    reveal(Maze::failure_explained);
                }
                return Err(e);
            },
        };
        let ghost m1 = m;
        let ghost erow = m1.entrance_spec()[0].1 as int;
        let ghost start = gate_start(id, wall) as int;
        proof {
            assert forall|q: Position| #[trigger] m1.grid_spec().holds(q) == entered_open(ras, cols, rows, erow, start, xe@, q) by {}
        }
        let xx = match m.build_exit() {
            Ok(x) => x,
            Err(e) => {
                proof {
                    if e == GenerationError::ExitUnreachable {
                        let row = choose|row: int| gate_row_fits(row, wall as int, rows) && forall|x2: int|
                            0 <= x2 < cols ==> !#[trigger] open_pair(m1.grid_spec(), x2, row);
                        assert forall|x2: int| 0 <= x2 < cols implies !#[trigger] base_pair(ras, cols, rows, x2, row) by {
                            assert(!open_pair(m1.grid_spec(), x2, row));
                            if base_pair(ras, cols, rows, x2, row) {
                                assert(m0.grid_spec().holds((x2 as usize, row as usize)));
                                assert(m0.grid_spec().holds((x2 as usize, (row + 1) as usize)));
                            }
                        }
                        assert(self.size_choice(w, h) && gate_row_fits(row, wall as int, rows));
                    } else {
                        assert(self.size_choice(w, h));
                    }
                }
                proof {
                    reveal(Maze::failure_explained);
                }
                return Err(e);
            },
        };
        let ghost m2 = m;
        let ghost xrow = m2.exit_spec()[0].1 as int;
        let rooms = match m.build_extra_rooms() {
            Ok(r) => r,
            Err(e) => {
                proof {
                    assert(self.size_choice(w, h));
                }
                proof {
                    reveal(Maze::failure_explained);
                }
                return Err(e);
            },
        };
        let ghost m3 = m;
        m.set_power_up_position(id / 2 + 1);
        proof {
            reveal(Maze::builds);
            lemma_assembled(m0, m1, m2, m3, m, ras, cols, rows, start, xe@, xx@, rooms@);
            assert(m.grid_spec().rows() == raster_side(h as int, wall as int, passage as int));
            assert(m.is_built());
            assert(m.config_spec().0 == w && m.config_spec().1 == h);
            assert(self.raster_for(w, h) == ras);
            assert(m.laid_out(self.raster_for(m.config_spec().0, m.config_spec().1), xe@, xx@, rooms@));
            assert(m.entrance_spec()[0].0 == gate_start(id, wall));
            assert(gate_row_fits(m.entrance_spec()[0].1 as int, wall as int, m.grid_spec().rows() as int));
            assert(gate_row_fits(m.exit_spec()[0].1 as int, wall as int, m.grid_spec().rows() as int));
            assert(m.power_ups_placed((id / 2 + 1) as usize));
        }
        Ok(m)
    }

    /// The colour of cell `p` in the raster artifact: transparent where traversable,
    /// opaque wall colour elsewhere.
    pub open spec fn artifact_pixel(&self, p: Position) -> (u8, u8, u8, u8) {
        if self.grid_spec().holds(p) {
            (0, 0, 0, 0)
        } else {
            (self.wall_rgb_spec().0, self.wall_rgb_spec().1, self.wall_rgb_spec().2, 255)
        }
    }

    /// The raster artifact: RGBA bytes, row by row, one pixel per grid cell.
    pub fn image(&self) -> (r: Vec<u8>)
        requires
            self.wf(),
            4 * self.grid_spec().cols() * self.grid_spec().rows() <= usize::MAX,
        ensures
            r@.len() == 4 * self.grid_spec().cols() * self.grid_spec().rows(),
            forall|p: Position| #[trigger]
                self.grid_spec().in_bounds(p) ==> rgba_at(r@, self.grid_spec().cols() as int, p)
                    == self.artifact_pixel(p),
    {
        let w = self.grid.width();
        let h = self.grid.height();
        let mut r: Vec<u8> = Vec::new();
        let mut y: usize = 0;
        let mut k: usize = 0;
        while y < h
            invariant
                self.wf(),
                w == self.grid_spec().cols(),
                h == self.grid_spec().rows(),
                4 * w * h <= usize::MAX,
                y <= h,
                k == y * w,
                r@.len() == 4 * k,
                forall|p: Position| #[trigger]
                    self.grid_spec().in_bounds(p) && p.1 < y ==> rgba_at(r@, w as int, p)
                        == self.artifact_pixel(p),
            decreases h - y,
        {
            let mut x: usize = 0;
            while x < w
                invariant
                    self.wf(),
                    w == self.grid_spec().cols(),
                    h == self.grid_spec().rows(),
                    4 * w * h <= usize::MAX,
                    y < h,
                    x <= w,
                    k == y * w + x,
                    r@.len() == 4 * k,
                    forall|p: Position| #[trigger]
                        self.grid_spec().in_bounds(p) && (p.1 < y || (p.1 == y && p.0 < x))
                            ==> rgba_at(r@, w as int, p) == self.artifact_pixel(p),
                decreases w - x,
            {
                assert(k < w * h && w * h <= 4 * w * h) by (nonlinear_arith)
                    requires k == y * w + x, x < w, y < h;
                let ghost r0 = r@;
                if self.grid.is_valid((x, y)) {
                    r.push(0);
                    r.push(0);
                    r.push(0);
                    r.push(0);
                } else {
                    r.push(self.wall_rgb.0);
                    r.push(self.wall_rgb.1);
                    r.push(self.wall_rgb.2);
                    r.push(255);
                }
                assert forall|p: Position| #[trigger]
                    self.grid_spec().in_bounds(p) && (p.1 < y || (p.1 == y && p.0 < x + 1))
                        implies rgba_at(r@, w as int, p) == self.artifact_pixel(p) by {
                    if p.1 < y || (p.1 == y && p.0 < x) {
                        lemma_row_major(w as int, p, y as int, x as int);
                        assert(rgba_at(r0, w as int, p) == self.artifact_pixel(p));
                    } else {
                        assert(p == (x, y));
                    }
                }
                x = x + 1;
                k = k + 1;
            }
            assert(k == (y + 1) * w) by (nonlinear_arith)
                requires k == y * w + w;
            y = y + 1;
        }
        assert(4 * k == 4 * w * h) by (nonlinear_arith)
            requires k == y * w, y == h;
        r
    }

    pub proof fn lemma_gate_bounds(&self)
        requires
            self.wf(),
        ensures
            forall|i: int| 0 <= i < self.entrance_spec().len() ==> #[trigger] self.grid_spec().in_bounds(self.entrance_spec()[i]),
            forall|i: int| 0 <= i < self.exit_spec().len() ==> #[trigger] self.grid_spec().in_bounds(self.exit_spec()[i]),
            self.grid_spec().cols() <= MAX_SIDE,
            self.grid_spec().rows() <= MAX_SIDE,
    {
        self.grid.lemma_area();
        assert forall|i: int| 0 <= i < self.entrance_spec().len() implies #[trigger] self.grid_spec().in_bounds(self.entrance_spec()[i]) by {
            self.grid.lemma_holds_in_bounds(self.entrance@[i]);
        }
        assert forall|i: int| 0 <= i < self.exit_spec().len() implies #[trigger] self.grid_spec().in_bounds(self.exit_spec()[i]) by {
            self.grid.lemma_holds_in_bounds(self.exit@[i]);
        }
    }

    /// Whether `p` is a traversable cell.
    pub fn is_valid_position(&self, p: Position) -> (r: bool)
        requires
            self.wf(),
        ensures
            r == self.grid_spec().holds(p),
    {
        self.grid.is_valid(p)
    }

    /// Whether the monster may be placed at `p`: traversable and further than six cells
    /// from every entrance cell.
    pub fn is_valid_minotaur_position(&self, p: Position) -> (r: bool)
        requires
            self.wf(),
        ensures
            r == (self.grid_spec().holds(p) && clear_of(self.entrance_spec(), p)),
    {
        if !self.grid.is_valid(p) {
            return false;
        }
        proof {
            self.lemma_gate_bounds();
            self.grid.lemma_holds_in_bounds(p);
            assert forall|i: int| 0 <= i < self.entrance@.len() implies #[trigger] self.entrance@[i].0 <= MAX_SIDE
                && self.entrance@[i].1 <= MAX_SIDE by {
                assert(self.grid_spec().in_bounds(self.entrance_spec()[i]));
            }
        }
        is_clear_of(&self.entrance, p)
    }

    pub fn is_entrance_position(&self, p: Position) -> (r: bool)
        ensures
            r == self.entrance_spec().contains(p),
    {
        let mut i: usize = 0;
        while i < self.entrance.len()
            invariant
                i <= self.entrance@.len(),
                forall|j: int| 0 <= j < i ==> self.entrance@[j] != p,
            decreases self.entrance@.len() - i,
        {
            if self.entrance[i].0 == p.0 && self.entrance[i].1 == p.1 {
                assert(self.entrance@[i as int] == p);
                return true;
            }
            i = i + 1;
        }
        false
    }

    pub fn is_exit_position(&self, p: Position) -> (r: bool)
        ensures
            r == self.exit_spec().contains(p),
    {
        let mut i: usize = 0;
        while i < self.exit.len()
            invariant
                i <= self.exit@.len(),
                forall|j: int| 0 <= j < i ==> self.exit@[j] != p,
            decreases self.exit@.len() - i,
        {
            if self.exit[i].0 == p.0 && self.exit[i].1 == p.1 {
                assert(self.exit@[i as int] == p);
                return true;
            }
            i = i + 1;
        }
        false
    }

    pub fn entrance_positions(&self) -> (r: &Vec<Position>)
        ensures
            r@ == self.entrance_spec(),
    {
        &self.entrance
    }

    pub fn exit_positions(&self) -> (r: &Vec<Position>)
        ensures
            r@ == self.exit_spec(),
    {
        &self.exit
    }

    /// Where the power-ups lie.
    pub fn power_up_positions(&self) -> (r: &Vec<Position>)
        ensures
            r@ == self.power_ups_spec(),
    {
        &self.power_ups
    }

    /// The traversable-cell index.
    pub fn valid_positions(&self) -> (r: &Grid)
        ensures
            *r == self.grid_spec(),
    {
        &self.grid
    }

    pub fn increase_attempted(&mut self)
        requires
            old(self).counters_spec().1 < usize::MAX,
        ensures
            final(self).counters_spec() == (old(self).counters_spec().0, (old(
                self,
            ).counters_spec().1 + 1) as usize),
            final(self).keeps_level_state_but_counters(*old(self)),
    {
        self.attempted = self.attempted + 1;
    }

    /// Takes back one attempt (one that was aborted).
    pub fn decrease_attempted(&mut self)
        requires
            old(self).counters_spec().1 > 0,
        ensures
            final(self).counters_spec() == (old(self).counters_spec().0, (old(
                self,
            ).counters_spec().1 - 1) as usize),
            final(self).keeps_level_state_but_counters(*old(self)),
    {
        self.attempted = self.attempted - 1;
    }

    pub fn increase_passed(&mut self)
        requires
            old(self).counters_spec().0 < usize::MAX,
        ensures
            final(self).counters_spec() == ((old(self).counters_spec().0 + 1) as usize, old(
                self,
            ).counters_spec().1),
            final(self).keeps_level_state_but_counters(*old(self)),
    {
        self.passed = self.passed + 1;
    }

    /// Takes back one pass.
    pub fn decrease_passed(&mut self)
        requires
            old(self).counters_spec().0 > 0,
        ensures
            final(self).counters_spec() == ((old(self).counters_spec().0 - 1) as usize, old(
                self,
            ).counters_spec().1),
            final(self).keeps_level_state_but_counters(*old(self)),
    {
        self.passed = self.passed - 1;
    }

    /// The levels passed and attempted on this maze; the success rate is their ratio.
    pub fn success_counts(&self) -> (r: (usize, usize))
        ensures
            r == self.counters_spec(),
    {
        (self.passed, self.attempted)
    }

    /// The cells that an observer at `o` facing `dir` with `view` perceives, computed on
    /// the first request for this key and stored; later requests return the stored list.
    pub fn get_and_cache_visible_positions(
        &mut self,
        o: Position,
        dir: Direction,
        view: ViewMode,
    ) -> (r: Vec<Position>)
        requires
            old(self).wf(),
            old(self).grid_spec().in_bounds(o),
        ensures
            final(self).wf(),
            is_visible_list(final(self).grid_spec(), o, dir, view, r@),
            final(self).is_cached(o, dir, view),
            final(self).keeps_level_state_but_cache(*old(self)),
            forall|k: int| 0 <= k < old(self).cache_spec().len() ==> #[trigger] final(self).cache_spec()[k] == old(self).cache_spec()[k],
            view == ViewMode::Full ==> r@.to_set() == final(self).grid_spec().valid_set(),
            old(self).is_cached(o, dir, view) ==> final(self).cache_spec() == old(self).cache_spec()
                && exists|k: int| 0 <= k < old(self).cache_spec().len() && #[trigger] old(self).cache_spec()[k] == (o, dir, view, r@),
            !old(self).is_cached(o, dir, view) ==> final(self).cache_spec() == old(self).cache_spec().push((o, dir, view, r@)),
    {
        let mut k: usize = 0;
        let ghost s0 = *self;
        while k < self.visible_positions_cache.len()
            invariant
                *self == s0,
                s0 == *old(self),
                self.wf(),
                k <= self.visible_positions_cache@.len(),
                forall|j: int| 0 <= j < k ==> !(#[trigger] self.cache_spec()[j].0 == o
                    && self.cache_spec()[j].1 == dir && self.cache_spec()[j].2 == view),
            decreases self.visible_positions_cache@.len() - k,
        {
            let e = &self.visible_positions_cache[k];
            assert(self.cache_spec()[k as int] == (e.0, e.1, e.2, e.3@));
            if e.0.0 == o.0 && e.0.1 == o.1 && e.1 == dir && e.2 == view {
                let r = copy_cells(&e.3);
                assert(self.cache_spec()[k as int] == (o, dir, view, r@));
                proof {
                    if view == ViewMode::Full {
                        crate::visibility::lemma_full_view_sees_valid_set(self.grid, o, dir, r@);
                    }
                }
                return r;
            }
            k = k + 1;
        }
        proof {
            if self.is_cached(o, dir, view) {
                let j = choose|j: int|
                    0 <= j < self.cache_spec().len() && #[trigger] self.cache_spec()[j].0 == o
                        && self.cache_spec()[j].1 == dir && self.cache_spec()[j].2 == view;
                assert(false);
            }
        }
        let visible = compute_visible(&self.grid, o, dir, view);
        let stored = copy_cells(&visible);
        let ghost before = self.cache_spec();
        self.visible_positions_cache.push((o, dir, view, stored));
        proof {
            if view == ViewMode::Full {
                crate::visibility::lemma_full_view_sees_valid_set(s0.grid, o, dir, visible@);
            }
        }
        assert(self.entrance == s0.entrance);
        assert(self.exit == s0.exit);
        assert(self.grid == s0.grid);
        assert forall|i: int| 0 <= i < self.entrance_spec().len() implies #[trigger] self.grid_spec().holds(
            self.entrance_spec()[i],
        ) by {
            assert(s0.grid_spec().holds(s0.entrance_spec()[i]));
        }
        assert forall|i: int| 0 <= i < self.exit_spec().len() implies #[trigger] self.grid_spec().holds(
            self.exit_spec()[i],
        ) by {
            assert(s0.grid_spec().holds(s0.exit_spec()[i]));
        }
        assert(self.cache_spec() =~= before.push((o, dir, view, visible@)));
        assert(self.cache_spec()[before.len() as int].0 == o);
        assert forall|k: int| 0 <= k < self.cache_spec().len() implies {
            let e = #[trigger] self.cache_spec()[k];
            self.grid_spec().in_bounds(e.0) && is_visible_list(self.grid_spec(), e.0, e.1, e.2, e.3)
        } by {
            if k < before.len() {
                assert(self.cache_spec()[k] == before[k]);
            }
        }
        visible
    }

    /// The stored perception of a key that `get_and_cache_visible_positions` has
    /// computed before.
    pub fn get_cached_visible_positions(&self, o: Position, dir: Direction, view: ViewMode) -> (r:
        Vec<Position>)
        requires
            self.wf(),
            self.is_cached(o, dir, view),
        ensures
            is_visible_list(self.grid_spec(), o, dir, view, r@),
    {
        let mut k: usize = 0;
        while k < self.visible_positions_cache.len()
            invariant
                self.wf(),
                self.is_cached(o, dir, view),
                k <= self.visible_positions_cache@.len(),
                forall|j: int| 0 <= j < k ==> !(#[trigger] self.cache_spec()[j].0 == o
                    && self.cache_spec()[j].1 == dir && self.cache_spec()[j].2 == view),
            decreases self.visible_positions_cache@.len() - k,
        {
            let e = &self.visible_positions_cache[k];
            assert(self.cache_spec()[k as int] == (e.0, e.1, e.2, e.3@));
            if e.0.0 == o.0 && e.0.1 == o.1 && e.1 == dir && e.2 == view {
                return copy_cells(&e.3);
            }
            k = k + 1;
        }
        proof {
            let j = choose|j: int|
                0 <= j < self.cache_spec().len() && #[trigger] self.cache_spec()[j].0 == o
                    && self.cache_spec()[j].1 == dir && self.cache_spec()[j].2 == view;
            assert(!(self.cache_spec()[j].0 == o && self.cache_spec()[j].1 == dir
                && self.cache_spec()[j].2 == view));
        }
        Vec::new()
    }
}

} // verus!
