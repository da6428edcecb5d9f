use labyrinth::geometry::{is_beyond_six, ViewMode};
use labyrinth::line::bresenham_line;
use labyrinth::maze::wall_color;
use labyrinth::power_up::PowerUp;
use labyrinth::utils::{convert_rgb_to_rgba, random_minotaur_name, GameColors, MINOTAUR_NAMES};

#[test]
fn bresenham_shallow_line_rounds_to_nearest() {
    assert_eq!(bresenham_line((0, 0), (3, 1)), vec![(0, 0), (1, 0), (2, 1), (3, 1)]);
}

#[test]
fn bresenham_reversed_endpoints_start_at_low_end() {
    assert_eq!(bresenham_line((3, 1), (0, 0)), vec![(0, 0), (1, 0), (2, 1), (3, 1)]);
}

#[test]
fn bresenham_steep_line() {
    assert_eq!(bresenham_line((0, 0), (1, 5)), vec![(0, 0), (0, 1), (0, 2), (1, 3), (1, 4), (1, 5)]);
}

#[test]
fn bresenham_single_point_and_axes() {
    assert_eq!(bresenham_line((4, 4), (4, 4)), vec![(4, 4)]);
    assert_eq!(bresenham_line((2, 5), (2, 2)), vec![(2, 2), (2, 3), (2, 4), (2, 5)]);
    assert_eq!(bresenham_line((1, 7), (4, 7)), vec![(1, 7), (2, 7), (3, 7), (4, 7)]);
}

#[test]
fn bresenham_diagonal_down_left() {
    assert_eq!(bresenham_line((3, 0), (0, 3)), vec![(0, 3), (1, 2), (2, 1), (3, 0)]);
}

#[test]
fn distance_threshold_is_strict() {
    assert!(!is_beyond_six((0, 0), (6, 0)));
    assert!(is_beyond_six((0, 0), (7, 0)));
    assert!(is_beyond_six((0, 0), (5, 4)));
    assert!(!is_beyond_six((10, 10), (6, 6)));
}

#[test]
fn view_radius() {
    assert_eq!(ViewMode::Full.radius(), 0);
    assert_eq!(ViewMode::Cone { radius: 4 }.radius(), 4);
    assert_eq!(ViewMode::Plane { radius: 2 }.radius(), 2);
}

#[test]
fn wall_colour_blends_with_level() {
    assert_eq!(wall_color(0), (210, 240, 255));
    assert_eq!(wall_color(5), (209, 134, 141));
    assert_eq!(wall_color(10), (208, 28, 28));
    assert_eq!(wall_color(99), (208, 28, 28));
}

#[test]
fn rgb_to_rgba_makes_background_transparent() {
    let rgb = vec![0, 0, 0, 10, 20, 30, 0, 0, 1];
    let rgba = convert_rgb_to_rgba(&rgb, (0, 0, 0));
    assert_eq!(rgba, vec![0, 0, 0, 0, 10, 20, 30, 255, 0, 0, 1, 255]);
}

#[test]
fn power_up_kinds() {
    assert_eq!(PowerUp::all(), vec![PowerUp::Speed, PowerUp::Vision, PowerUp::Memory]);
    assert_eq!(PowerUp::Vision.name(), "Vision");
}

#[test]
fn colours_and_names() {
    assert_eq!(GameColors::HERO, [35, 35, 255, 255]);
    let name = random_minotaur_name();
    assert!(MINOTAUR_NAMES.iter().any(|n| *n == name));
}
