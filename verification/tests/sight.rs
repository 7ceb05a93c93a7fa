use enemy_pathfinder::map::RuntimeMapAdapter;
use enemy_pathfinder::visibility::{furthest_visible_waypoint, los_grid_with_map, step_cell};

fn grid(rows: &[&str]) -> RuntimeMapAdapter {
    let height = rows.len();
    let width = rows[0].len();
    let mut solid = Vec::new();
    for row in rows {
        for byte in row.bytes() {
            solid.push(byte == b'#');
        }
    }
    RuntimeMapAdapter { tile_size: 10, width, height, solid }
}

#[test]
fn a_cell_sees_itself_unless_it_is_a_wall() {
    let map = grid(&[".#", ".."]);
    assert!(los_grid_with_map(&map, (0, 0), (0, 0)));
    assert!(!los_grid_with_map(&map, (1, 0), (1, 0)));
    assert!(!los_grid_with_map(&map, (5, 5), (5, 5)));
}

#[test]
fn sight_fails_when_either_end_is_a_wall() {
    let map = grid(&["..#", "..."]);
    assert!(!los_grid_with_map(&map, (0, 0), (2, 0)));
    assert!(!los_grid_with_map(&map, (2, 0), (0, 0)));
    assert!(!los_grid_with_map(&map, (0, 0), (3, 0)));
    assert!(los_grid_with_map(&map, (0, 0), (1, 0)));
}

#[test]
fn on_a_diagonal_the_ray_steps_along_y_first() {
    let blocked_below = grid(&["..", "#."]);
    assert!(!los_grid_with_map(&blocked_below, (0, 0), (1, 1)));
    let blocked_beside = grid(&[".#", ".."]);
    assert!(los_grid_with_map(&blocked_beside, (0, 0), (1, 1)));
    // Looking back, the ray from (1, 1) steps to (1, 0) first.
    assert!(!los_grid_with_map(&blocked_beside, (1, 1), (0, 0)));
    assert!(los_grid_with_map(&blocked_below, (1, 1), (0, 0)));
}

#[test]
fn a_shallow_ray_visits_the_cells_it_crosses() {
    // From (0, 0) to (3, 1) the ray visits (1, 0), then (1, 1) where both
    // crossings tie, then (2, 1).
    let open = grid(&["....", "...."]);
    assert!(los_grid_with_map(&open, (0, 0), (3, 1)));
    assert!(!los_grid_with_map(&grid(&[".#..", "...."]), (0, 0), (3, 1)));
    assert!(!los_grid_with_map(&grid(&["....", ".#.."]), (0, 0), (3, 1)));
    assert!(!los_grid_with_map(&grid(&["....", "..#."]), (0, 0), (3, 1)));
    assert!(los_grid_with_map(&grid(&["..##", "#..."]), (0, 0), (3, 1)));
}

#[test]
fn along_rows_and_columns_sight_is_the_same_both_ways() {
    let map = grid(&[
        "......", //
        "..#...", //
        "......", //
        "....#.",
    ]);
    for y in 0..4 {
        for a in 0..6 {
            for b in 0..6 {
                assert_eq!(
                    los_grid_with_map(&map, (a, y), (b, y)),
                    los_grid_with_map(&map, (b, y), (a, y))
                );
            }
        }
    }
    for x in 0..6 {
        for a in 0..4 {
            for b in 0..4 {
                assert_eq!(
                    los_grid_with_map(&map, (x, a), (x, b)),
                    los_grid_with_map(&map, (x, b), (x, a))
                );
            }
        }
    }
    assert!(los_grid_with_map(&map, (0, 0), (5, 0)));
    assert!(!los_grid_with_map(&map, (0, 1), (5, 1)));
    assert!(los_grid_with_map(&map, (3, 1), (5, 1)));
    assert!(!los_grid_with_map(&map, (2, 0), (2, 3)));
}

#[test]
fn a_step_lands_on_open_cells_only() {
    let map = grid(&["..#", "..."]);
    assert_eq!(step_cell(&map, (0, 0), true, true), Some((1, 0)));
    assert_eq!(step_cell(&map, (1, 0), true, true), None);
    assert_eq!(step_cell(&map, (1, 0), true, false), Some((0, 0)));
    assert_eq!(step_cell(&map, (0, 0), true, false), None);
    assert_eq!(step_cell(&map, (0, 0), false, true), Some((0, 1)));
    assert_eq!(step_cell(&map, (0, 1), false, true), None);
    assert_eq!(step_cell(&map, (0, 1), false, false), Some((0, 0)));
    assert_eq!(step_cell(&map, (0, 0), false, false), None);
    assert_eq!(step_cell(&map, (usize::MAX, 0), true, true), None);
    assert_eq!(step_cell(&map, (3, 1), true, false), Some((2, 1)));
}

#[test]
fn furthest_visible_waypoint_ends_the_run_at_the_first_hidden_one() {
    let map = grid(&[
        ".....", //
        ".##..", //
        ".....",
    ]);
    let path = vec![(0, 0), (1, 0), (2, 0), (3, 0), (3, 1), (3, 2), (2, 2)];
    // The pursuer stands in cell (0, 0).
    assert_eq!(furthest_visible_waypoint(&map, (5, 5), &path, 0), 3);
    assert_eq!(furthest_visible_waypoint(&map, (5, 5), &path, 3), 3);
    assert_eq!(furthest_visible_waypoint(&map, (5, 5), &path, 6), 6);
    assert_eq!(furthest_visible_waypoint(&map, (5, 5), &path, 9), 9);
    assert_eq!(furthest_visible_waypoint(&map, (5, 5), &path, usize::MAX), usize::MAX);
    assert_eq!(furthest_visible_waypoint(&map, (5, 5), &vec![], 2), 2);
    // From cell (4, 1) everything from (3, 0) on is in sight.
    assert_eq!(furthest_visible_waypoint(&map, (45, 15), &path, 2), 6);
}
