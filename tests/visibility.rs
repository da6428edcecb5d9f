use labyrinth::geometry::{Direction, ViewMode};
use labyrinth::grid::Grid;
use labyrinth::visibility::compute_visible;
use std::collections::HashSet;

fn open_grid(w: usize, h: usize, walls: &[(usize, usize)]) -> Grid {
    let mut g = Grid::new(w, h);
    for y in 0..h {
        for x in 0..w {
            if !walls.contains(&(x, y)) {
                g.insert((x, y));
            }
        }
    }
    g
}

fn as_set(v: Vec<(usize, usize)>) -> HashSet<(usize, usize)> {
    let n = v.len();
    let s: HashSet<(usize, usize)> = v.into_iter().collect();
    assert_eq!(s.len(), n, "no cell is listed twice");
    s
}

#[test]
fn grid_membership() {
    let g = open_grid(3, 2, &[(1, 0)]);
    assert!(g.is_valid((0, 0)));
    assert!(!g.is_valid((1, 0)));
    assert!(!g.is_valid((3, 0)));
    assert!(!g.is_valid((0, 2)));
}

#[test]
fn full_view_is_every_valid_cell() {
    let g = open_grid(4, 3, &[(1, 1), (2, 1)]);
    let a = as_set(compute_visible(&g, (0, 0), Direction::North, ViewMode::Full));
    let b = as_set(compute_visible(&g, (0, 0), Direction::South, ViewMode::Full));
    assert_eq!(a.len(), 10);
    assert_eq!(a, b);
    assert!(!a.contains(&(1, 1)));
}

#[test]
fn wall_on_a_column_stops_sight() {
    let g = open_grid(1, 6, &[(0, 3)]);
    let seen = as_set(compute_visible(&g, (0, 0), Direction::South, ViewMode::Circle { radius: 5 }));
    let expected: HashSet<(usize, usize)> = [(0, 0), (0, 1), (0, 2), (0, 3)].into_iter().collect();
    assert_eq!(seen, expected);
}

#[test]
fn wall_on_a_row_stops_sight_both_ways() {
    let g = open_grid(7, 1, &[(1, 0), (5, 0)]);
    let seen = as_set(compute_visible(&g, (3, 0), Direction::East, ViewMode::Circle { radius: 3 }));
    let expected: HashSet<(usize, usize)> =
        [(1, 0), (2, 0), (3, 0), (4, 0), (5, 0)].into_iter().collect();
    assert_eq!(seen, expected);
}

#[test]
fn diagonal_gap_between_two_walls_is_not_seen_through() {
    let g = open_grid(7, 7, &[(3, 2), (2, 3)]);
    let seen = as_set(compute_visible(&g, (2, 2), Direction::SouthEast, ViewMode::Cone { radius: 3 }));
    let expected: HashSet<(usize, usize)> = [(2, 2), (3, 2), (2, 3)].into_iter().collect();
    assert_eq!(seen, expected);
}

#[test]
fn each_diagonal_corner_is_blocked() {
    let cases = [
        ((3, 3), [(4, 3), (3, 2)], (4, 2), Direction::NorthEast),
        ((3, 3), [(4, 3), (3, 4)], (4, 4), Direction::SouthEast),
        ((3, 3), [(2, 3), (3, 4)], (2, 4), Direction::SouthWest),
        ((3, 3), [(2, 3), (3, 2)], (2, 2), Direction::NorthWest),
    ];
    for (o, walls, diag, dir) in cases {
        let g = open_grid(7, 7, &walls);
        let seen = as_set(compute_visible(&g, o, dir, ViewMode::Circle { radius: 3 }));
        assert!(!seen.contains(&diag));
        assert!(seen.contains(&walls[0]) && seen.contains(&walls[1]));
    }
}

#[test]
fn closed_door_in_a_wall_row_hides_everything_behind() {
    let walls: Vec<(usize, usize)> = (0..7).map(|x| (x, 3)).collect();
    let g = open_grid(7, 7, &walls);
    let seen = as_set(compute_visible(&g, (3, 1), Direction::South, ViewMode::Cone { radius: 5 }));
    assert!(seen.iter().all(|&(_, y)| y <= 3));
    assert!(seen.contains(&(3, 3)));
    assert!(seen.contains(&(3, 2)));
}

#[test]
fn circle_stays_in_its_square() {
    let g = open_grid(9, 9, &[(5, 5)]);
    let seen = as_set(compute_visible(&g, (4, 4), Direction::North, ViewMode::Circle { radius: 2 }));
    assert!(seen.iter().all(|&(x, y)| (2..=6).contains(&x) && (2..=6).contains(&y)));
    assert!(seen.contains(&(2, 2)) && seen.contains(&(6, 2)));
    assert!(!seen.contains(&(6, 6)));
}

#[test]
fn cone_and_plane_filters() {
    let g = open_grid(9, 9, &[]);
    let cone = as_set(compute_visible(&g, (4, 4), Direction::North, ViewMode::Cone { radius: 2 }));
    let cone_expected: HashSet<(usize, usize)> =
        [(4, 4), (3, 3), (4, 3), (5, 3), (2, 2), (3, 2), (4, 2), (5, 2), (6, 2)].into_iter().collect();
    assert_eq!(cone, cone_expected);
    let plane = as_set(compute_visible(&g, (4, 4), Direction::East, ViewMode::Plane { radius: 1 }));
    let plane_expected: HashSet<(usize, usize)> = [(5, 3), (5, 4), (5, 5)].into_iter().collect();
    assert_eq!(plane, plane_expected);
}
