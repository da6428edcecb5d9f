//! Colours and names shared by the maze's collaborators.

use vstd::prelude::*;
use crate::random::pick_index;

verus! {

/// Whether the `i`-th pixel of an RGB buffer has colour `c`.
pub open spec fn rgb_pixel_is(s: Seq<u8>, i: int, c: (u8, u8, u8)) -> bool {
    s[3 * i] == c.0 && s[3 * i + 1] == c.1 && s[3 * i + 2] == c.2
}

/// The RGBA buffer of an RGB buffer: each pixel keeps its colour and is fully transparent
/// where it has the `background` colour, opaque elsewhere.
pub fn convert_rgb_to_rgba(rgb: &Vec<u8>, background: (u8, u8, u8)) -> (r: Vec<u8>)
    requires
        rgb@.len() % 3 == 0,
        rgb@.len() / 3 * 4 <= usize::MAX,
    ensures
        r@.len() == rgb@.len() / 3 * 4,
        forall|i: int|
            0 <= i < rgb@.len() / 3 ==> {
                &&& #[trigger] r@[4 * i] == rgb@[3 * i]
                &&& r@[4 * i + 1] == rgb@[3 * i + 1]
                &&& r@[4 * i + 2] == rgb@[3 * i + 2]
                &&& r@[4 * i + 3] == (if rgb_pixel_is(rgb@, i, background) { 0u8 } else { 255u8 })
            },
{
    let n = rgb.len() / 3;
    let mut r: Vec<u8> = Vec::new();
    let mut i: usize = 0;
    while i < n
        invariant
            n == rgb@.len() / 3,
            rgb@.len() % 3 == 0,
            n * 4 <= usize::MAX,
            i <= n,
            r@.len() == 4 * i,
            forall|j: int|
                0 <= j < i ==> {
                    &&& #[trigger] r@[4 * j] == rgb@[3 * j]
                    &&& r@[4 * j + 1] == rgb@[3 * j + 1]
                    &&& r@[4 * j + 2] == rgb@[3 * j + 2]
                    &&& r@[4 * j + 3] == (if rgb_pixel_is(rgb@, j, background) { 0u8 } else { 255u8 })
                },
        decreases n - i,
    {
        let red = rgb[3 * i];
        let green = rgb[3 * i + 1];
        let blue = rgb[3 * i + 2];
        let alpha: u8 = if red == background.0 && green == background.1 && blue == background.2 {
            0
        } else {
            255
        };
        let ghost r0 = r@;
        r.push(red);
        r.push(green);
        r.push(blue);
        r.push(alpha);
        assert forall|j: int| 0 <= j < i + 1 implies {
            &&& #[trigger] r@[4 * j] == rgb@[3 * j]
            &&& r@[4 * j + 1] == rgb@[3 * j + 1]
            &&& r@[4 * j + 2] == rgb@[3 * j + 2]
            &&& r@[4 * j + 3] == (if rgb_pixel_is(rgb@, j, background) { 0u8 } else { 255u8 })
        } by {
            if j < i {
                assert(r0[4 * j] == rgb@[3 * j]);
                assert(r@[4 * j + 1] == r0[4 * j + 1]);
                assert(r@[4 * j + 2] == r0[4 * j + 2]);
                assert(r@[4 * j + 3] == r0[4 * j + 3]);
            }
        }
        i = i + 1;
    }
    r
}

/// Display colours, RGBA.
pub struct GameColors {}

impl GameColors {
    pub const HERO: [u8; 4] = [35, 35, 255, 255];

    pub const OTHER_HERO: [u8; 4] = [3, 255, 3, 255];

    pub const MINOTAUR: [u8; 4] = [225, 203, 3, 255];

    pub const CHASING_MINOTAUR: [u8; 4] = [255, 15, 0, 255];

    pub const POWER_UP: [u8; 4] = [255, 180, 244, 255];
}

pub const MINOTAUR_NAMES: [&'static str; 7] = [
    "Ἀστερίων",
    "Μίνως",
    "Σαρπηδών",
    "Ῥαδάμανθυς",
    "Ἀμφιτρύων",
    "Πτερέλαος",
    "Τάφος",
];

/// One of `MINOTAUR_NAMES`, drawn at random.
pub fn random_minotaur_name() -> (r: String)
    ensures
        exists|i: int| 0 <= i < 7 && r@ == #[trigger] MINOTAUR_NAMES[i]@,
{
    let i = pick_index(7);
    let names = MINOTAUR_NAMES;
    let r = names[i].to_owned();
    assert(r@ == MINOTAUR_NAMES[i as int]@);
    r
}

} // verus!
