//! Calls into rand, rand_chacha and knossos. Each function here is taken on trust: its
//! contract states what the called crate documents or its source shows, nothing more.

use vstd::prelude::*;
use rand::{Rng, SeedableRng};
use rand_chacha::ChaCha8Rng;
use knossos::maze::{GrowingTree, Image, Method, OrthogonalMazeBuilder};

verus! {

#[verifier::external_type_specification]
#[verifier::external_body]
pub struct ExChaCha8Rng(ChaCha8Rng);

/// The side, in pixels, of a knossos image of `cells` cells with the given wall and
/// passage widths and no margin.
pub open spec fn raster_side(cells: int, wall: int, passage: int) -> int {
    cells * (wall + passage) + wall
}

/// The RGB bytes, row by row, that knossos draws for a maze of `width × height` cells
/// grown from `seed`, with walls in `fg` over a `bg` background.
pub uninterp spec fn maze_raster(
    width: usize,
    height: usize,
    seed: u64,
    wall: usize,
    passage: usize,
    fg: (u8, u8, u8),
    bg: (u8, u8, u8),
) -> Seq<u8>;

/// Relies on rand_chacha's `ChaCha8Rng` through rand's `SeedableRng::seed_from_u64`: a
/// generator whose whole stream is fixed by `seed`.
#[verifier::external_body]
pub(crate) fn seeded_rng(seed: u64) -> ChaCha8Rng {
    ChaCha8Rng::seed_from_u64(seed)
}

/// Relies on rand_chacha's `ChaCha8Rng::from_os_rng` and rand's `Rng::random`: a seed
/// drawn from the operating system's entropy source.
#[verifier::external_body]
pub(crate) fn fresh_seed() -> u64 {
    ChaCha8Rng::from_os_rng().random::<u64>()
}

/// Relies on rand's `Rng::random_range` over the inclusive range `lo..=hi`: a value in
/// that range; it panics only on an empty range, which `requires` leaves out.
#[verifier::external_body]
pub(crate) fn draw_between(rng: &mut ChaCha8Rng, lo: usize, hi: usize) -> (r: usize)
    requires
        lo <= hi,
    ensures
        lo <= r <= hi,
{
    rng.random_range(lo..=hi)
}

/// Relies on rand's thread-local generator (`rand::rng`) and `Rng::random_range` over
/// `0..n`: an index below `n`; the range is never empty.
#[verifier::external_body]
pub(crate) fn pick_index(n: usize) -> (r: usize)
    requires
        n > 0,
    ensures
        r < n,
{
    rand::rng().random_range(0..n)
}

/// Relies on `rand::seq::index::sample` with rand's thread-local generator: exactly
/// `amount` distinct indices from `0..length`; it panics only when `amount > length`.
#[verifier::external_body]
pub(crate) fn pick_distinct(length: usize, amount: usize) -> (r: Vec<usize>)
    requires
        amount <= length,
    ensures
        r@.len() == amount,
        r@.no_duplicates(),
        forall|i: int| 0 <= i < r@.len() ==> #[trigger] r@[i] < length,
{
    rand::seq::index::sample(&mut rand::rng(), length, amount).into_vec()
}

/// Relies on knossos: `OrthogonalMazeBuilder` seeded with `seed`, grown by `GrowingTree`
/// with `Method::Newest75Random25`, then drawn by the `Image` formatter with the given
/// wall and passage widths, no margin, `fg` walls and a `bg` background. Its `sizes`
/// gives the image `raster_side` pixels per axis; the bytes are the `RgbImage`'s raw
/// buffer, three per pixel, row by row, and depend on the arguments alone. Its drawing
/// subtracts one from a cell's far edge, so a cell must be at least one pixel wide.
#[verifier::external_body]
pub(crate) fn render_maze(
    width: usize,
    height: usize,
    seed: u64,
    wall: usize,
    passage: usize,
    fg: (u8, u8, u8),
    bg: (u8, u8, u8),
) -> (r: Vec<u8>)
    requires
        width >= 1,
        height >= 1,
        wall + passage >= 1,
        raster_side(width as int, wall as int, passage as int) <= 0x4000_0000,
        raster_side(height as int, wall as int, passage as int) <= 0x4000_0000,
        4 * raster_side(width as int, wall as int, passage as int) * raster_side(
            height as int,
            wall as int,
            passage as int,
        ) <= usize::MAX,
    ensures
        r@ == maze_raster(width, height, seed, wall, passage, fg, bg),
        r@.len() == 3 * raster_side(width as int, wall as int, passage as int) * raster_side(
            height as int,
            wall as int,
            passage as int,
        ),
{
    let maze = OrthogonalMazeBuilder::new().width(width).height(height).algorithm(
        Box::new(GrowingTree::new(Method::Newest75Random25)),
    ).seed(Some(seed)).build();
    let formatter = Image::new().wall(wall).passage(passage).margin(0).background(
        knossos::Color::RGB(bg.0, bg.1, bg.2),
    ).foreground(knossos::Color::RGB(fg.0, fg.1, fg.2));
    maze.format(formatter).into_inner().into_raw()
}

} // verus!
