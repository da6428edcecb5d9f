use labyrinth::geometry::{Direction, ViewMode};
use labyrinth::maze::{GenerationError, Maze, MAX_MAZE_ID};
use std::collections::HashSet;

fn valid_cells(m: &Maze) -> Vec<(usize, usize)> {
    let g = m.valid_positions();
    let mut cells = Vec::new();
    for y in 0..g.height() {
        for x in 0..g.width() {
            if m.is_valid_position((x, y)) {
                cells.push((x, y));
            }
        }
    }
    cells
}

fn built(id: usize, seed: u64) -> Maze {
    Maze::new(id)
        .width(20)
        .height(6)
        .wall_size(2)
        .passage_size(2)
        .random_seed(seed)
        .build()
        .expect("maze builds")
}

fn dist_sq(a: (usize, usize), b: (usize, usize)) -> i64 {
    let dx = a.0 as i64 - b.0 as i64;
    let dy = a.1 as i64 - b.1 as i64;
    dx * dx + dy * dy
}

#[test]
fn test_random_mazes_image() {
    for id in 0..MAX_MAZE_ID {
        let maze = Maze::new(id);
        let image = maze.image();
        assert_eq!(image.len(), 0);
    }
}

#[test]
fn same_seed_same_maze() {
    let a = Maze::new(3).width(12).height(8).wall_size(1).passage_size(3).random_seed(7).build().unwrap();
    let b = Maze::new(3).width(12).height(8).wall_size(1).passage_size(3).random_seed(7).build().unwrap();
    assert_eq!(valid_cells(&a), valid_cells(&b));
    assert_eq!(a.entrance_positions(), b.entrance_positions());
    assert_eq!(a.exit_positions(), b.exit_positions());
}

#[test]
fn default_sizes_come_from_the_seed() {
    let a = Maze::new(2).random_seed(99).build().unwrap();
    let b = Maze::new(2).random_seed(99).build().unwrap();
    assert_eq!(a.valid_positions().width(), b.valid_positions().width());
    assert_eq!(valid_cells(&a), valid_cells(&b));
    let w = a.valid_positions().width();
    assert!(w >= 16 * 4 + 2 && w <= 22 * 4 + 2);
}

#[test]
fn scenario_twenty_by_six_reproduces() {
    let a = built(1, 12345);
    let b = built(1, 12345);
    assert_eq!(a.valid_positions().width(), 82);
    assert_eq!(a.valid_positions().height(), 26);
    assert_eq!(valid_cells(&a).len(), valid_cells(&b).len());
    assert_eq!(a.entrance_positions()[0].1, b.entrance_positions()[0].1);
    assert_eq!(a.exit_positions()[0].1, b.exit_positions()[0].1);
}

#[test]
fn gates_are_two_cells_tall_on_the_margins() {
    for (id, seed) in [(0, 1), (1, 2), (4, 3)] {
        let m = built(id, seed);
        let e = m.entrance_positions();
        let x = m.exit_positions();
        assert_eq!(e.len(), 2);
        assert_eq!(x.len(), 2);
        assert_eq!(e[1], (e[0].0, e[0].1 + 1));
        assert_eq!(x[1], (x[0].0, x[0].1 + 1));
        assert_eq!(e[0].0, if id == 0 { 2 } else { 0 });
        assert_eq!(x[0].0, m.valid_positions().width() - 1);
        assert_eq!(e[0].1 % 2, 0);
        for c in e.iter().chain(x.iter()) {
            assert!(m.is_valid_position(*c));
        }
        assert!(m.is_entrance_position(e[0]) && m.is_exit_position(x[1]));
        assert!(!m.is_entrance_position(x[0]));
    }
}

#[test]
fn full_view_of_a_built_maze() {
    let mut m = built(2, 5);
    let start = m.hero_starting_position();
    let seen = m.get_and_cache_visible_positions(start, Direction::West, ViewMode::Full);
    let seen: HashSet<(usize, usize)> = seen.into_iter().collect();
    let all: HashSet<(usize, usize)> = valid_cells(&m).into_iter().collect();
    assert_eq!(seen, all);
}

#[test]
fn circle_view_within_radius_in_a_built_maze() {
    let mut m = built(2, 6);
    let start = m.hero_starting_position();
    let seen = m.get_and_cache_visible_positions(start, Direction::East, ViewMode::Circle { radius: 3 });
    assert!(seen.contains(&start));
    for (x, y) in seen {
        assert!((x as i64 - start.0 as i64).abs() <= 3);
        assert!((y as i64 - start.1 as i64).abs() <= 3);
    }
}

#[test]
fn cache_returns_the_same_set() {
    let mut m = built(1, 8);
    let start = m.hero_starting_position();
    let view = ViewMode::Cone { radius: 4 };
    let first: HashSet<(usize, usize)> =
        m.get_and_cache_visible_positions(start, Direction::East, view).into_iter().collect();
    let second: HashSet<(usize, usize)> =
        m.get_and_cache_visible_positions(start, Direction::East, view).into_iter().collect();
    let cached: HashSet<(usize, usize)> =
        m.get_cached_visible_positions(start, Direction::East, view).into_iter().collect();
    assert_eq!(first, second);
    assert_eq!(first, cached);
}

#[test]
fn spawn_keeps_away_from_the_gates() {
    for seed in 0..4 {
        let mut m = built(6, seed);
        let minotaur = m.spawn_minotaur("Asterion".to_string()).expect("room to spawn");
        for e in m.entrance_positions() {
            assert!(dist_sq(*e, minotaur.position) > 36);
        }
        assert!(m.is_valid_minotaur_position(minotaur.position));
        assert_eq!(minotaur.speed, 2);
        assert_eq!(minotaur.vision, 6);
        assert_eq!(minotaur.aggression_tenths, 8);
        let seen = m.get_cached_visible_positions(minotaur.position, minotaur.direction, minotaur.view);
        assert!(seen.contains(&minotaur.position));

        let ups = m.power_up_positions();
        let distinct: HashSet<(usize, usize)> = ups.iter().copied().collect();
        assert_eq!(distinct.len(), ups.len());
        assert_eq!(ups.len(), 4);
        for p in ups {
            assert!(m.is_valid_position(*p));
            for g in m.entrance_positions().iter().chain(m.exit_positions().iter()) {
                assert!(dist_sq(*g, *p) > 36);
            }
        }
    }
}

#[test]
fn minotaur_attributes_saturate() {
    let mut m = Maze::new(30).width(20).height(10).random_seed(3).build().unwrap();
    let minotaur = m.spawn_minotaur("Minos".to_string()).unwrap();
    assert_eq!(minotaur.speed, 6);
    assert_eq!(minotaur.vision, 7);
    assert_eq!(minotaur.aggression_tenths, 10);
}

#[test]
fn hero_starts_on_an_entrance_cell() {
    let m = built(1, 11);
    for _ in 0..10 {
        assert!(m.is_entrance_position(m.hero_starting_position()));
    }
}

#[test]
fn success_counters() {
    let mut m = Maze::new(0);
    m.increase_attempted();
    m.increase_attempted();
    m.increase_passed();
    m.decrease_attempted();
    assert_eq!(m.success_counts(), (1, 1));
    m.decrease_passed();
    assert_eq!(m.success_counts(), (0, 1));
}

#[test]
fn default_size_range_can_be_empty() {
    let r = Maze::new(40).random_seed(1).build();
    assert_eq!(r.err(), Some(GenerationError::EmptySizeRange));
    let ok = Maze::new(40).width(20).height(6).random_seed(1).build();
    assert!(ok.is_ok());
}

#[test]
fn oversized_raster_is_refused() {
    let r = Maze::new(1).width(1 << 40).height(6).random_seed(1).build();
    assert_eq!(r.err(), Some(GenerationError::TooLarge));
}

#[test]
fn tiny_raster_has_no_gate_row() {
    let r = Maze::new(1).width(3).height(1).wall_size(2).passage_size(1).random_seed(1).build();
    assert_eq!(r.err(), Some(GenerationError::NoGateRow));
}

#[test]
fn rooms_need_space() {
    let r = Maze::new(1).width(1).height(4).wall_size(1).passage_size(1).random_seed(1).build();
    assert!(matches!(
        r.err(),
        Some(GenerationError::NoRoomSpace) | Some(GenerationError::EntranceUnreachable)
            | Some(GenerationError::ExitUnreachable)
    ));
}

#[test]
fn artifact_is_transparent_on_open_cells() {
    let m = built(3, 21);
    let img = m.image();
    let w = m.valid_positions().width();
    assert_eq!(img.len(), 4 * w * m.valid_positions().height());
    let e = m.entrance_positions()[0];
    let i = 4 * (e.1 * w + e.0);
    assert_eq!(&img[i..i + 4], &[0, 0, 0, 0]);
    assert_eq!(&img[0..4], &[209, 176, 186, 255]);
}

#[test]
fn zero_thickness_is_refused() {
    let r = Maze::new(1).width(4).height(4).wall_size(0).passage_size(0).random_seed(1).build();
    assert_eq!(r.err(), Some(GenerationError::ZeroThickness));
}

#[test]
fn background_is_transparent_black() {
    assert_eq!(Maze::background_color(), [0, 0, 0, 0]);
}

#[test]
fn random_valid_position_is_traversable() {
    let m = built(2, 17);
    for _ in 0..20 {
        let p = m.random_valid_position().expect("a built maze has open cells");
        assert!(m.is_valid_position(p));
    }
    assert_eq!(Maze::new(0).random_valid_position(), None);
}
