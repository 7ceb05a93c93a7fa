use enemy_pathfinder::map::RuntimeMapAdapter;
use enemy_pathfinder::open_set::{leaves_before, Node, OpenSet};
use enemy_pathfinder::pathfinding::{astar_impl, astar_with_map, manhattan, neighbors4};

fn grid(rows: &[&str]) -> RuntimeMapAdapter {
    let height = rows.len();
    let width = rows[0].len();
    let mut solid = Vec::new();
    for row in rows {
        for byte in row.bytes() {
            solid.push(byte == b'#');
        }
    }
    RuntimeMapAdapter { tile_size: 32, width, height, solid }
}

#[test]
fn route_from_a_cell_to_itself_is_that_cell() {
    let map = grid(&["..", ".#"]);
    assert_eq!(astar_with_map(&map, (0, 1), (0, 1)), vec![(0, 1)]);
    assert_eq!(astar_with_map(&map, (1, 1), (1, 1)), vec![]);
}

#[test]
fn wall_at_the_origin_gives_no_route_to_anywhere() {
    let map = grid(&["#..", "...", "..."]);
    for y in 0..4 {
        for x in 0..4 {
            assert!(astar_with_map(&map, (0, 0), (x, y)).is_empty());
            assert!(astar_with_map(&map, (x, y), (0, 0)).is_empty());
        }
    }
}

#[test]
fn endpoints_outside_the_grid_give_no_route() {
    let map = grid(&["...", "..."]);
    assert!(astar_with_map(&map, (0, 0), (3, 0)).is_empty());
    assert!(astar_with_map(&map, (0, 2), (0, 0)).is_empty());
    assert!(astar_with_map(&map, (usize::MAX, usize::MAX), (0, 0)).is_empty());
    let nothing = RuntimeMapAdapter { tile_size: 32, width: 0, height: 0, solid: vec![] };
    assert!(astar_with_map(&nothing, (0, 0), (0, 0)).is_empty());
}

#[test]
fn walled_off_goal_gives_no_route() {
    let map = grid(&[
        ".....", //
        ".###.", //
        ".#.#.", //
        ".###.", //
        ".....",
    ]);
    assert!(astar_with_map(&map, (0, 0), (2, 2)).is_empty());
    assert!(astar_with_map(&map, (2, 2), (4, 4)).is_empty());
    assert_eq!(astar_with_map(&map, (0, 0), (4, 4)).len(), 9);
}

#[test]
fn ties_between_shortest_routes_are_settled_the_same_way_every_time() {
    let map = grid(&["...", "...", "..."]);
    let expected = vec![(0, 0), (1, 0), (2, 0), (2, 1), (2, 2)];
    for _ in 0..3 {
        assert_eq!(astar_with_map(&map, (0, 0), (2, 2)), expected);
    }
    assert_eq!(astar_impl(&map, (0, 0), (2, 2)), expected);
    assert_eq!(
        astar_with_map(&map, (2, 2), (0, 0)),
        vec![(2, 2), (2, 1), (2, 0), (1, 0), (0, 0)]
    );
}

#[test]
fn route_bends_around_an_obstacle() {
    let map = grid(&[
        "....", //
        ".##.", //
        "....",
    ]);
    assert_eq!(
        astar_with_map(&map, (0, 1), (3, 1)),
        vec![(0, 1), (0, 0), (1, 0), (2, 0), (3, 0), (3, 1)]
    );
}

#[test]
fn route_follows_the_only_corridor() {
    let map = grid(&[
        ".#...", //
        ".#.#.", //
        "...#.",
    ]);
    assert_eq!(
        astar_with_map(&map, (0, 0), (4, 2)),
        vec![
            (0, 0),
            (0, 1),
            (0, 2),
            (1, 2),
            (2, 2),
            (2, 1),
            (2, 0),
            (3, 0),
            (4, 0),
            (4, 1),
            (4, 2)
        ]
    );
}

#[test]
fn every_route_on_a_small_grid_is_connected_and_no_longer_than_a_flood_fill_says() {
    let map = grid(&[
        "..#...", //
        ".##.#.", //
        "....#.", //
        ".#.##.", //
        ".#....",
    ]);
    let (w, h) = (6usize, 5usize);
    for sy in 0..h {
        for sx in 0..w {
            // Breadth-first distances from (sx, sy).
            let mut dist = vec![usize::MAX; w * h];
            let mut frontier = vec![];
            if !map.is_wall(sx, sy) {
                dist[sy * w + sx] = 0;
                frontier.push((sx, sy));
            }
            while !frontier.is_empty() {
                let mut next = vec![];
                for (x, y) in frontier {
                    let around =
                        [(x + 1, y), (x.wrapping_sub(1), y), (x, y + 1), (x, y.wrapping_sub(1))];
                    for (nx, ny) in around {
                        if !map.is_wall(nx, ny) && dist[ny * w + nx] == usize::MAX {
                            dist[ny * w + nx] = dist[y * w + x] + 1;
                            next.push((nx, ny));
                        }
                    }
                }
                frontier = next;
            }
            for gy in 0..h {
                for gx in 0..w {
                    let path = astar_with_map(&map, (sx, sy), (gx, gy));
                    let reachable =
                        !map.is_wall(sx, sy) && !map.is_wall(gx, gy) && dist[gy * w + gx] != usize::MAX;
                    assert_eq!(!path.is_empty(), reachable);
                    if reachable {
                        assert_eq!(path.len(), dist[gy * w + gx] + 1);
                        assert_eq!(path[0], (sx, sy));
                        assert_eq!(path[path.len() - 1], (gx, gy));
                        for pair in path.windows(2) {
                            assert_eq!(manhattan(pair[0], pair[1]), 1);
                            assert!(!map.is_wall(pair[1].0, pair[1].1));
                        }
                        assert_eq!(path, astar_with_map(&map, (sx, sy), (gx, gy)));
                    }
                }
            }
        }
    }
}

#[test]
fn neighbours_come_right_left_below_above() {
    assert_eq!(neighbors4(3, 5), [(4, 5), (2, 5), (3, 6), (3, 4)]);
    assert_eq!(neighbors4(0, 0), [(1, 0), (-1, 0), (0, 1), (0, -1)]);
    let top = usize::MAX as i128;
    assert_eq!(
        neighbors4(usize::MAX, usize::MAX),
        [(top + 1, top), (top - 1, top), (top, top + 1), (top, top - 1)]
    );
}

fn node(f: u128, g: usize, x: usize, y: usize) -> Node {
    Node { f, g, x, y }
}

#[test]
fn waiting_cells_leave_by_f_then_g_then_y_then_x() {
    let mut open = OpenSet::new();
    let entries = [
        node(9, 4, 1, 1),
        node(7, 5, 0, 0),
        node(7, 3, 9, 9),
        node(7, 3, 9, 2),
        node(7, 3, 4, 2),
        node(12, 0, 0, 0),
        node(7, 3, 4, 2),
        node(8, 1, 3, 3),
        node(6, 6, 6, 6),
    ];
    for entry in entries {
        open.push(entry);
    }
    let mut left = vec![];
    while let Some(next) = open.pop() {
        left.push((next.f, next.g, next.y, next.x));
    }
    assert_eq!(
        left,
        vec![
            (6, 6, 6, 6),
            (7, 3, 2, 4),
            (7, 3, 2, 4),
            (7, 3, 2, 9),
            (7, 3, 9, 9),
            (7, 5, 0, 0),
            (8, 1, 3, 3),
            (9, 4, 1, 1),
            (12, 0, 0, 0)
        ]
    );
    assert!(open.pop().is_none());
    assert!(leaves_before(&node(1, 9, 9, 9), &node(2, 0, 0, 0)));
    assert!(leaves_before(&node(1, 1, 9, 9), &node(1, 2, 0, 0)));
    assert!(leaves_before(&node(1, 1, 9, 1), &node(1, 1, 0, 2)));
    assert!(leaves_before(&node(1, 1, 1, 1), &node(1, 1, 2, 1)));
    assert!(!leaves_before(&node(1, 1, 1, 1), &node(1, 1, 1, 1)));
}
