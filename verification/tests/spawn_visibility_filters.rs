use enemy_pathfinder::tiled::{
    actor_spawn_from_tiled_json, TiledJsonLayer, TiledJsonMap, TiledJsonObject,
};

fn write_map(visible_layer: bool, visible_object: bool) -> TiledJsonMap {
    TiledJsonMap {
        width: 1,
        height: 1,
        tilewidth: 32,
        tileheight: 32,
        layers: vec![TiledJsonLayer {
            name: String::from("Actors_Layer"),
            kind: String::from("objectgroup"),
            visible: Some(visible_layer),
            width: 0,
            height: 0,
            data: vec![],
            objects: vec![TiledJsonObject {
                kind: Some(String::from("Enemy")),
                point: true,
                visible: Some(visible_object),
            }],
        }],
    }
}

#[test]
fn hidden_spawn_object_is_ignored_by_json_helper() {
    let map = write_map(true, false);

    let spawn = actor_spawn_from_tiled_json(&map, "Enemy");

    assert_eq!(spawn, None);
}

#[test]
fn hidden_actors_layer_is_ignored_by_json_helper() {
    let map = write_map(false, true);

    let spawn = actor_spawn_from_tiled_json(&map, "Enemy");

    assert_eq!(spawn, None);
}

#[test]
fn visible_spawn_object_in_visible_layer_is_found() {
    let map = write_map(true, true);
    assert_eq!(actor_spawn_from_tiled_json(&map, "Enemy"), Some((0, 0)));
    assert_eq!(actor_spawn_from_tiled_json(&map, "Player"), None);
}
