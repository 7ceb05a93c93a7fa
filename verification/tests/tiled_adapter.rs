use enemy_pathfinder::map::RuntimeMapAdapter;
use enemy_pathfinder::tiled::{
    actor_spawn_candidate_matches, actor_spawn_from_tiled_json, actor_spawn_from_tiled_map,
    end_zone_from_tiled_map, LayerObject, ObjectLayer, ObjectShape, RuntimeMapAdapterError,
    TiledJsonLayer, TiledJsonMap, TiledJsonObject,
};

fn border_data(width: usize, height: usize) -> Vec<u32> {
    let mut data = Vec::new();
    for y in 0..height {
        for x in 0..width {
            let edge = x == 0 || y == 0 || x + 1 == width || y + 1 == height;
            data.push(if edge { 3 } else { 0 });
        }
    }
    data
}

fn tile_layer(name: &str, width: usize, height: usize, data: Vec<u32>) -> TiledJsonLayer {
    TiledJsonLayer {
        name: String::from(name),
        kind: String::from("tilelayer"),
        visible: None,
        width,
        height,
        data,
        objects: vec![],
    }
}

fn spawn(kind: &str) -> TiledJsonObject {
    TiledJsonObject { kind: Some(String::from(kind)), point: true, visible: None }
}

fn actors_layer(objects: Vec<TiledJsonObject>) -> TiledJsonLayer {
    TiledJsonLayer {
        name: String::from("Actors_Layer"),
        kind: String::from("objectgroup"),
        visible: None,
        width: 0,
        height: 0,
        data: vec![],
        objects,
    }
}

/// A level with the dimensions of the shipped one: 30 by 20 tiles of 32
/// units, walled in, with the enemy and the player spawn in its actors layer.
fn level() -> TiledJsonMap {
    TiledJsonMap {
        width: 30,
        height: 20,
        tilewidth: 32,
        tileheight: 32,
        layers: vec![
            tile_layer("Floor_Layer", 30, 20, vec![1; 600]),
            tile_layer("Wall_Layer", 30, 20, border_data(30, 20)),
            actors_layer(vec![spawn("Enemy"), spawn("Player")]),
        ],
    }
}

const SPAWN_POSITIONS: [(f64, f64); 2] = [(79.9962, 583.8801), (837.6610, 343.8916)];

#[test]
fn wall_layer_builds_runtime_solid_grid_and_preserves_oob_wall_behavior() {
    let adapter = RuntimeMapAdapter::from_tiled_json_wall_layer(&level())
        .expect("Wall_Layer should parse into a runtime adapter");

    assert_eq!(adapter.width, 30);
    assert_eq!(adapter.height, 20);
    assert_eq!(adapter.tile_size, 32);

    assert!(adapter.is_wall(0, 0));
    assert!(adapter.is_wall(29, 19));
    assert!(!adapter.is_wall(1, 1));
    assert!(adapter.is_wall(30, 0));
    assert!(adapter.is_wall(0, 20));
}

#[test]
fn actor_spawn_lookup_reads_enemy_and_player_from_actors_layer() {
    let map = level();

    let enemy_place = actor_spawn_from_tiled_json(&map, "Enemy").expect("enemy spawn should exist");
    let player_place =
        actor_spawn_from_tiled_json(&map, "Player").expect("player spawn should exist");
    assert_eq!(enemy_place, (2, 0));
    assert_eq!(player_place, (2, 1));
    let enemy = SPAWN_POSITIONS[enemy_place.1];
    let player = SPAWN_POSITIONS[player_place.1];

    assert!((enemy.0 - 79.9962).abs() < 0.01);
    assert!((enemy.1 - 583.8801).abs() < 0.01);
    assert!((player.0 - 837.6610).abs() < 0.01);
    assert!((player.1 - 343.8916).abs() < 0.01);
}

#[test]
fn runtime_grid_world_conversion_uses_runtime_tile_size() {
    let adapter = RuntimeMapAdapter::from_tiled_json_wall_layer(&level())
        .expect("Wall_Layer should parse into a runtime adapter");

    let world = adapter.grid_to_world(4, 3);
    assert_eq!(world, (144, 112));
    assert_eq!(adapter.world_to_grid(world.0, world.1), (4, 3));
}

#[test]
fn shared_spawn_filter_rejects_hidden_wrong_type_or_non_point_candidates() {
    assert!(actor_spawn_candidate_matches(
        "Enemy", "Enemy", true, true, true
    ));
    assert!(!actor_spawn_candidate_matches(
        "Enemy", "Enemy", false, true, true
    ));
    assert!(!actor_spawn_candidate_matches(
        "Enemy", "Enemy", true, false, true
    ));
    assert!(!actor_spawn_candidate_matches(
        "Enemy", "Enemy", true, true, false
    ));
    assert!(!actor_spawn_candidate_matches(
        "Enemy", "Player", true, true, true
    ));
}

#[test]
fn solid_cells_are_the_nonzero_tiles() {
    let mut map = level();
    map.layers[1].data[31] = 9;
    let adapter = RuntimeMapAdapter::from_tiled_json_wall_layer(&map).expect("layer is valid");
    assert_eq!(adapter.solid.len(), 600);
    for (i, gid) in map.layers[1].data.iter().enumerate() {
        assert_eq!(adapter.solid[i], *gid != 0);
    }
    assert!(adapter.is_wall(1, 1));
    assert!(adapter.is_well_formed());
}

#[test]
fn named_wall_layer_is_the_first_tile_layer_of_that_name() {
    let mut map = level();
    map.layers[0].kind = String::from("objectgroup");
    map.layers[0].name = String::from("Wall_Layer");
    map.layers.push(tile_layer("Wall_Layer", 30, 20, vec![1; 600]));
    let adapter = RuntimeMapAdapter::from_tiled_json_named_wall_layer(&map, "Wall_Layer")
        .expect("layer is valid");
    assert!(!adapter.is_wall(1, 1));
    let floor = RuntimeMapAdapter::from_tiled_json_named_wall_layer(&level(), "Floor_Layer")
        .expect("layer is valid");
    assert!(floor.is_wall(1, 1));
}

#[test]
fn non_square_tiles_are_refused_first() {
    let mut map = level();
    map.tileheight = 16;
    map.layers.clear();
    match RuntimeMapAdapter::from_tiled_json_wall_layer(&map) {
        Err(RuntimeMapAdapterError::UnsupportedNonSquareTiles { tilewidth, tileheight }) => {
            assert_eq!((tilewidth, tileheight), (32, 16));
        }
        other => panic!("unexpected outcome: {:?}", other),
    }
}

#[test]
fn missing_wall_layer_is_reported_by_name() {
    match RuntimeMapAdapter::from_tiled_json_named_wall_layer(&level(), "Walls") {
        Err(RuntimeMapAdapterError::MissingWallLayer { layer_name }) => {
            assert_eq!(layer_name, "Walls");
        }
        other => panic!("unexpected outcome: {:?}", other),
    }
}

#[test]
fn layer_dimensions_must_be_the_maps() {
    let mut map = level();
    map.layers[1].width = 29;
    match RuntimeMapAdapter::from_tiled_json_wall_layer(&map) {
        Err(RuntimeMapAdapterError::LayerDimensionsMismatch {
            layer_name,
            map_width,
            map_height,
            layer_width,
            layer_height,
        }) => {
            assert_eq!(layer_name, "Wall_Layer");
            assert_eq!((map_width, map_height, layer_width, layer_height), (30, 20, 29, 20));
        }
        other => panic!("unexpected outcome: {:?}", other),
    }
}

#[test]
fn layer_data_must_hold_one_tile_per_cell() {
    let mut map = level();
    map.layers[1].data.pop();
    match RuntimeMapAdapter::from_tiled_json_wall_layer(&map) {
        Err(RuntimeMapAdapterError::InvalidLayerDataLen { layer_name, expected, actual }) => {
            assert_eq!(layer_name, "Wall_Layer");
            assert_eq!((expected, actual), (600, 599));
        }
        other => panic!("unexpected outcome: {:?}", other),
    }
}

#[test]
fn a_cell_count_beyond_the_machine_word_is_a_length_error() {
    let map = TiledJsonMap {
        width: usize::MAX,
        height: 2,
        tilewidth: 8,
        tileheight: 8,
        layers: vec![tile_layer("Wall_Layer", usize::MAX, 2, vec![])],
    };
    match RuntimeMapAdapter::from_tiled_json_wall_layer(&map) {
        Err(RuntimeMapAdapterError::InvalidLayerDataLen { expected, actual, .. }) => {
            assert_eq!((expected, actual), (usize::MAX, 0));
        }
        other => panic!("unexpected outcome: {:?}", other),
    }
}

#[test]
fn spawn_lookup_takes_the_first_match_in_the_first_actors_layer() {
    let mut map = level();
    map.layers[2].objects = vec![
        TiledJsonObject { kind: None, point: true, visible: None },
        TiledJsonObject { kind: Some(String::from("Enemy")), point: false, visible: None },
        spawn("Enemy"),
        spawn("Enemy"),
    ];
    map.layers.push(actors_layer(vec![spawn("Player")]));
    assert_eq!(actor_spawn_from_tiled_json(&map, "Enemy"), Some((2, 2)));
    assert_eq!(actor_spawn_from_tiled_json(&map, "Player"), None);
    assert_eq!(actor_spawn_from_tiled_json(&map, ""), Some((2, 0)));
}

fn object(class_name: &str, visible: bool, shape: ObjectShape, has_area: bool) -> LayerObject {
    LayerObject { class_name: String::from(class_name), visible, shape, has_area }
}

fn loaded_layers() -> Vec<ObjectLayer> {
    vec![
        ObjectLayer {
            name: String::from("Actors_Layer"),
            visible: false,
            objects: vec![object("Enemy", true, ObjectShape::Point, false)],
        },
        ObjectLayer {
            name: String::from("End area"),
            visible: true,
            objects: vec![
                object("EndArea", false, ObjectShape::Rectangle, true),
                object("EndArea", true, ObjectShape::Point, true),
                object("EndArea", true, ObjectShape::Rectangle, false),
                object("Exit", true, ObjectShape::Rectangle, true),
                object("EndArea", true, ObjectShape::Rectangle, true),
            ],
        },
        ObjectLayer {
            name: String::from("Actors_Layer"),
            visible: true,
            objects: vec![
                object("Enemy", false, ObjectShape::Point, false),
                object("Enemy", true, ObjectShape::Rectangle, true),
                object("Player", true, ObjectShape::Point, false),
                object("Enemy", true, ObjectShape::Point, false),
            ],
        },
    ]
}

#[test]
fn loaded_map_spawn_lookup_skips_hidden_layers_and_objects() {
    let layers = loaded_layers();
    assert_eq!(actor_spawn_from_tiled_map(&layers, "Enemy"), Some((2, 3)));
    assert_eq!(actor_spawn_from_tiled_map(&layers, "Player"), Some((2, 2)));
    assert_eq!(actor_spawn_from_tiled_map(&layers, "Boss"), None);
    assert_eq!(actor_spawn_from_tiled_map(&layers[..1].to_vec(), "Enemy"), None);
}

#[test]
fn end_zone_is_the_first_visible_rectangle_with_area() {
    let mut layers = loaded_layers();
    assert_eq!(end_zone_from_tiled_map(&layers), Some((1, 4)));
    layers[1].objects.truncate(4);
    assert_eq!(end_zone_from_tiled_map(&layers), None);
    layers[1].visible = false;
    assert_eq!(end_zone_from_tiled_map(&layers), None);
}
