use enemy_pathfinder::registry::{
    try_blocked_for_agent, try_grid_to_world, try_is_wall, try_map_height, try_map_tile_size,
    try_map_width, try_world_to_grid, MapRegistry,
};

#[test]
fn try_map_queries_return_none_when_runtime_map_not_installed() {
    let registry = MapRegistry::new();
    assert_eq!(try_map_width(&registry), None);
    assert_eq!(try_map_height(&registry), None);
    assert_eq!(try_map_tile_size(&registry), None);
    assert_eq!(try_world_to_grid(&registry, 0, 0), None);
    assert_eq!(try_grid_to_world(&registry, 0, 0), None);
    assert_eq!(try_is_wall(&registry, 0, 0), None);
    assert_eq!(try_blocked_for_agent(&registry, 0, 0), None);
}
