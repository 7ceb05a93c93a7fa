use enemy_pathfinder::map::RuntimeMapAdapter;
use enemy_pathfinder::pathfinding::{astar_with_map, manhattan};
use enemy_pathfinder::tiled::{TiledJsonLayer, TiledJsonMap};
use enemy_pathfinder::visibility::los_grid_with_map;

const ROWS: [&str; 15] = [
    "####################",
    "#..................#",
    "#.###.###.###.####.#",
    "#.#.....#.#......#.#",
    "#.#.###.#.#.####.#.#",
    "#...#..........#...#",
    "#.#.#.########.#.#.#",
    "#.#..........#...#.#",
    "#.######.###.###.#.#",
    "#......#...#...#...#",
    "#.####.###.###.###.#",
    "#........#.......#.#",
    "#.######.#######.#.#",
    "#..................#",
    "####################",
];

fn wall_data() -> Vec<u32> {
    let mut data = Vec::new();
    for y in 0..20 {
        for x in 0..30 {
            let open = y < 15 && x < 20 && ROWS[y].as_bytes()[x] == b'.';
            data.push(if open { 0 } else { 7 });
        }
    }
    data
}

fn level() -> TiledJsonMap {
    TiledJsonMap {
        width: 30,
        height: 20,
        tilewidth: 32,
        tileheight: 32,
        layers: vec![TiledJsonLayer {
            name: String::from("Wall_Layer"),
            kind: String::from("tilelayer"),
            visible: None,
            width: 30,
            height: 20,
            data: wall_data(),
            objects: vec![],
        }],
    }
}

fn load_runtime_map() -> RuntimeMapAdapter {
    RuntimeMapAdapter::from_tiled_json_wall_layer(&level()).expect("Wall_Layer should parse")
}

#[test]
fn manhattan_distance_matches_expected() {
    assert_eq!(manhattan((1, 2), (4, 6)), 7);
    assert_eq!(manhattan((4, 6), (1, 2)), 7);
    assert_eq!(manhattan((3, 3), (3, 3)), 0);
}

#[test]
fn grid_world_conversion_round_trips_for_tile_centers() {
    let map = load_runtime_map();
    let world = map.grid_to_world(26, 10);
    assert_eq!(map.world_to_grid(world.0, world.1), (26, 10));
}

#[test]
fn line_of_sight_detects_open_and_blocked_segments() {
    let map = load_runtime_map();
    assert!(los_grid_with_map(&map, (1, 1), (5, 1)));
    assert!(!los_grid_with_map(&map, (1, 3), (12, 3)));
}

#[test]
fn astar_returns_empty_for_wall_start_or_goal() {
    let map = load_runtime_map();
    assert!(map.is_wall(0, 0));
    assert!(astar_with_map(&map, (0, 0), (1, 1)).is_empty());
    assert!(astar_with_map(&map, (1, 1), (0, 0)).is_empty());
}

#[test]
fn astar_returns_path_with_expected_endpoints_for_known_open_cells() {
    let map = load_runtime_map();
    let path = astar_with_map(&map, (1, 3), (12, 3));

    assert!(!path.is_empty());
    assert_eq!(path.first().copied(), Some((1, 3)));
    assert_eq!(path.last().copied(), Some((12, 3)));
}

#[test]
fn every_cell_centre_lies_in_its_cell() {
    let map = load_runtime_map();
    for y in 0..20 {
        for x in 0..30 {
            let world = map.grid_to_world(x, y);
            assert_eq!(map.world_to_grid(world.0, world.1), (x, y));
        }
    }
}

#[test]
fn manhattan_is_symmetric_and_zero_only_on_the_same_cell() {
    let cells = [(0usize, 0usize), (3, 0), (0, 5), (7, 9), (usize::MAX, usize::MAX)];
    for a in cells {
        for b in cells {
            assert_eq!(manhattan(a, b), manhattan(b, a));
            assert_eq!(manhattan(a, b) == 0, a == b);
        }
    }
    assert_eq!(manhattan((0, 0), (usize::MAX, usize::MAX)), 2 * (usize::MAX as u128));
}

#[test]
fn returned_routes_are_connected_and_shortest_on_the_level() {
    let map = load_runtime_map();
    let path = astar_with_map(&map, (1, 3), (12, 3));
    for pair in path.windows(2) {
        assert_eq!(manhattan(pair[0], pair[1]), 1);
        assert!(!map.is_wall(pair[1].0, pair[1].1));
    }
    // Up to row 1, along it to x = 13, down to row 3 and one cell left: 17 steps.
    assert_eq!(path.len(), 18);
}

#[test]
fn search_is_repeatable_on_the_level() {
    let map = load_runtime_map();
    let first = astar_with_map(&map, (1, 1), (18, 13));
    let second = astar_with_map(&map, (1, 1), (18, 13));
    assert!(!first.is_empty());
    assert_eq!(first, second);
}
