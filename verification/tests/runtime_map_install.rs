use enemy_pathfinder::map::{RuntimeMapAdapter, RuntimeMapAdapterSummary};
use enemy_pathfinder::pathfinding::astar;
use enemy_pathfinder::registry::{
    blocked_for_agent, grid_to_world, install_runtime_map, install_runtime_map_compatible,
    is_wall, map_height, map_tile_size, map_width, runtime_map, try_blocked_for_agent,
    try_grid_to_world, try_is_wall, try_map_height, try_map_tile_size, try_map_width,
    try_world_to_grid, world_to_grid, MapRegistry, RuntimeMapInstallError,
};
use enemy_pathfinder::visibility::los_grid;

fn room(width: usize, height: usize, tile_size: u32) -> RuntimeMapAdapter {
    let mut solid = Vec::new();
    for y in 0..height {
        for x in 0..width {
            solid.push(x == 0 || y == 0 || x + 1 == width || y + 1 == height);
        }
    }
    RuntimeMapAdapter { tile_size, width, height, solid }
}

#[test]
fn repeated_runtime_map_install_is_idempotent_for_same_map() {
    let adapter = room(30, 20, 32);
    let mut registry = MapRegistry::new();

    install_runtime_map_compatible(&mut registry, adapter.clone())
        .expect("first install should succeed");
    install_runtime_map_compatible(&mut registry, adapter)
        .expect("second install with same map should be ok");
}

#[test]
fn first_installed_map_stays() {
    let mut registry = MapRegistry::new();
    assert!(install_runtime_map(&mut registry, room(5, 4, 32)).is_ok());
    let refused = install_runtime_map(&mut registry, room(6, 4, 32)).expect_err("slot is taken");
    assert_eq!(refused.width, 6);
    assert_eq!(map_width(&registry), 5);
    assert_eq!(runtime_map(&registry).map(|m| m.height), Some(4));
}

#[test]
fn incompatible_install_reports_both_summaries() {
    let mut registry = MapRegistry::new();
    install_runtime_map_compatible(&mut registry, room(5, 4, 32)).expect("slot is free");
    let mut other = room(5, 4, 32);
    other.solid[6] = true;
    let error = install_runtime_map_compatible(&mut registry, other).expect_err("maps differ");
    assert_eq!(
        error,
        RuntimeMapInstallError::IncompatibleExisting {
            existing: RuntimeMapAdapterSummary { tile_size: 32, width: 5, height: 4, solid_cells: 14 },
            attempted: RuntimeMapAdapterSummary { tile_size: 32, width: 5, height: 4, solid_cells: 15 },
        }
    );
    assert!(!is_wall(&registry, 1, 1));
    assert!(install_runtime_map_compatible(&mut registry, room(5, 4, 16)).is_err());
    assert!(install_runtime_map_compatible(&mut registry, room(4, 5, 32)).is_err());
}

#[test]
fn queries_on_the_installed_map_agree_with_the_map() {
    let map = room(6, 5, 10);
    let mut registry = MapRegistry::new();
    install_runtime_map(&mut registry, map.clone()).expect("slot is free");
    assert_eq!(try_map_width(&registry), Some(6));
    assert_eq!(try_map_height(&registry), Some(5));
    assert_eq!(try_map_tile_size(&registry), Some(10));
    assert_eq!((map_width(&registry), map_height(&registry), map_tile_size(&registry)), (6, 5, 10));
    assert_eq!(try_world_to_grid(&registry, 25, 49), Some((2, 4)));
    assert_eq!(world_to_grid(&registry, 25, 49), (2, 4));
    assert_eq!(try_grid_to_world(&registry, 2, 4), Some((25, 45)));
    assert_eq!(grid_to_world(&registry, 2, 4), (25, 45));
    for y in 0..7 {
        for x in 0..8 {
            assert_eq!(try_is_wall(&registry, x, y), Some(map.is_wall(x, y)));
            assert_eq!(is_wall(&registry, x, y), map.is_wall(x, y));
            assert_eq!(try_blocked_for_agent(&registry, x, y), Some(map.is_wall(x, y)));
            assert_eq!(blocked_for_agent(&registry, x, y), map.is_wall(x, y));
        }
    }
    assert_eq!(astar(&registry, (1, 1), (3, 1)), vec![(1, 1), (2, 1), (3, 1)]);
    assert!(los_grid(&registry, (1, 1), (4, 3)));
    assert!(!los_grid(&registry, (1, 1), (5, 3)));
}

#[test]
fn compatibility_compares_dimensions_tile_size_and_cells() {
    let map = room(5, 4, 32);
    assert!(map.is_compatible_with(&room(5, 4, 32)));
    assert!(!map.is_compatible_with(&room(5, 4, 33)));
    assert!(!map.is_compatible_with(&room(4, 5, 32)));
    let mut other = room(5, 4, 32);
    other.solid[7] = true;
    assert!(!map.is_compatible_with(&other));
    assert_eq!(
        map.summary(),
        RuntimeMapAdapterSummary { tile_size: 32, width: 5, height: 4, solid_cells: 14 }
    );
}
