use crate::map::RuntimeMapAdapter;
use vstd::prelude::*;

verus! {

/// An object of an object layer of a map file, as far as spawn lookup reads it.
#[derive(Clone, Debug)]
pub struct TiledJsonObject {
    /// The object's type; `None` where the file gives none.
    pub kind: Option<String>,
    pub point: bool,
    /// `None` where the file does not say; such an object is visible.
    pub visible: Option<bool>,
}

/// A layer of a map file: a tile layer carries `data`, an object layer
/// `objects`.
#[derive(Clone, Debug)]
pub struct TiledJsonLayer {
    pub name: String,
    pub kind: String,
    /// `None` where the file does not say; such a layer is visible.
    pub visible: Option<bool>,
    pub width: usize,
    pub height: usize,
    pub data: Vec<u32>,
    pub objects: Vec<TiledJsonObject>,
}

/// A map file after parsing.
#[derive(Clone, Debug)]
pub struct TiledJsonMap {
    pub width: usize,
    pub height: usize,
    pub tilewidth: u32,
    pub tileheight: u32,
    pub layers: Vec<TiledJsonLayer>,
}

/// Why a map file does not yield a solidity grid.
#[derive(Clone, Debug)]
pub enum RuntimeMapAdapterError {
    MissingWallLayer { layer_name: String },
    UnsupportedNonSquareTiles { tilewidth: u32, tileheight: u32 },
    LayerDimensionsMismatch {
        layer_name: String,
        map_width: usize,
        map_height: usize,
        layer_width: usize,
        layer_height: usize,
    },
    InvalidLayerDataLen { layer_name: String, expected: usize, actual: usize },
}

/// Whether two strings hold the same text.
pub fn same_text(a: &str, b: &str) -> (same: bool)
    ensures
        same == (a@ == b@),
{
    a.to_owned() == b.to_owned()
}

/// A spawn candidate counts when its layer and the object itself are visible,
/// the object is a point, and its type is the one asked for.
pub fn actor_spawn_candidate_matches(
    expected_actor_type: &str,
    candidate_actor_type: &str,
    layer_visible: bool,
    object_visible: bool,
    is_point: bool,
) -> (matches: bool)
    ensures
        matches == (layer_visible && object_visible && is_point && candidate_actor_type@
            == expected_actor_type@),
{
    layer_visible && object_visible && is_point && same_text(
        candidate_actor_type,
        expected_actor_type,
    )
}

/// A tile layer of the given name: the layer a solidity grid is read from.
pub open spec fn is_wall_layer(layer: TiledJsonLayer, name: Seq<char>) -> bool {
    layer.kind@ == "tilelayer"@ && layer.name@ == name
}

/// `i` is the first wall layer of the given name in `map`.
pub open spec fn first_wall_layer(map: TiledJsonMap, name: Seq<char>, i: int) -> bool {
    &&& 0 <= i < map.layers@.len()
    &&& is_wall_layer(map.layers@[i], name)
    &&& forall|j: int| 0 <= j < i ==> !is_wall_layer(#[trigger] map.layers@[j], name)
}

/// No layer of `map` is a wall layer of the given name.
pub open spec fn no_wall_layer(map: TiledJsonMap, name: Seq<char>) -> bool {
    forall|j: int| 0 <= j < map.layers@.len() ==> !is_wall_layer(#[trigger] map.layers@[j], name)
}

/// The solidity bitmap of a tile layer: a cell is solid where its tile id is
/// not zero.
pub open spec fn solid_bits(data: Seq<u32>) -> Seq<bool> {
    Seq::new(data.len(), |k: int| data[k] != 0)
}

/// The length that is reported as expected for the data of a layer.
pub open spec fn expected_len(map: TiledJsonMap) -> int {
    if map.width * map.height <= usize::MAX {
        map.width * map.height
    } else {
        usize::MAX as int
    }
}

fn find_wall_layer(map: &TiledJsonMap, wall_layer_name: &str) -> (found: Option<usize>)
    ensures
        match found {
            Some(i) => first_wall_layer(*map, wall_layer_name@, i as int),
            None => no_wall_layer(*map, wall_layer_name@),
        },
{
    let mut i: usize = 0;
    while i < map.layers.len()
        invariant
            i <= map.layers@.len(),
            forall|j: int| 0 <= j < i ==> !is_wall_layer(#[trigger] map.layers@[j], wall_layer_name@),
        decreases map.layers@.len() - i,
    {
        let layer = &map.layers[i];
        if same_text(layer.kind.as_str(), "tilelayer") && same_text(
            layer.name.as_str(),
            wall_layer_name,
        ) {
            return Some(i);
        }
        i = i + 1;
    }
    None
}

fn solid_from_data(data: &Vec<u32>) -> (solid: Vec<bool>)
    ensures
        solid@ == solid_bits(data@),
{
    let mut solid: Vec<bool> = Vec::new();
    let mut i: usize = 0;
    while i < data.len()
        invariant
            i <= data@.len(),
            solid@.len() == i,
            forall|k: int| 0 <= k < i ==> solid@[k] == (data@[k] != 0),
        decreases data@.len() - i,
    {
        solid.push(data[i] != 0);
        i = i + 1;
    }
    assert(solid@ =~= solid_bits(data@));
    solid
}

impl RuntimeMapAdapter {
    /// The solidity grid of the tile layer named `Wall_Layer`.
    pub fn from_tiled_json_wall_layer(map: &TiledJsonMap) -> (outcome: Result<
        Self,
        RuntimeMapAdapterError,
    >)
        ensures
            built_from(*map, "Wall_Layer"@, outcome),
    {
        Self::from_tiled_json_named_wall_layer(map, "Wall_Layer")
    }

    /// The solidity grid of the first tile layer named `wall_layer_name`. The
    /// tiles must be square, the layer must exist, its dimensions must be the
    /// map's, and its data must hold one tile id per cell; the checks are made
    /// in this order, and the first that fails is reported.
    pub fn from_tiled_json_named_wall_layer(map: &TiledJsonMap, wall_layer_name: &str) -> (outcome:
        Result<Self, RuntimeMapAdapterError>)
        ensures
            built_from(*map, wall_layer_name@, outcome),
    {
        if map.tilewidth != map.tileheight {
            return Err(
                RuntimeMapAdapterError::UnsupportedNonSquareTiles {
                    tilewidth: map.tilewidth,
                    tileheight: map.tileheight,
                },
            );
        }
        let index: usize = match find_wall_layer(map, wall_layer_name) {
            Some(index) => index,
            None => {
                return Err(
                    RuntimeMapAdapterError::MissingWallLayer {
                        layer_name: wall_layer_name.to_owned(),
                    },
                );
            },
        };
        let wall_layer = &map.layers[index];
        if wall_layer.width != map.width || wall_layer.height != map.height {
            return Err(
                RuntimeMapAdapterError::LayerDimensionsMismatch {
                    layer_name: wall_layer.name.clone(),
                    map_width: map.width,
                    map_height: map.height,
                    layer_width: wall_layer.width,
                    layer_height: wall_layer.height,
                },
            );
        }
        let cells: Option<usize> = map.width.checked_mul(map.height);
        let expected: usize = match cells {
            Some(cells) => cells,
            None => usize::MAX,
        };
        assert(wall_layer.data@.len() == wall_layer.data.len());
        if cells.is_none() || wall_layer.data.len() != expected {
            return Err(
                RuntimeMapAdapterError::InvalidLayerDataLen {
                    layer_name: wall_layer.name.clone(),
                    expected,
                    actual: wall_layer.data.len(),
                },
            );
        }
        let solid = solid_from_data(&wall_layer.data);
        Ok(
            RuntimeMapAdapter {
                tile_size: map.tilewidth,
                width: map.width,
                height: map.height,
                solid,
            },
        )
    }
}

/// What building a solidity grid from `map` and a layer name comes to.
pub open spec fn built_from(
    map: TiledJsonMap,
    name: Seq<char>,
    outcome: Result<RuntimeMapAdapter, RuntimeMapAdapterError>,
) -> bool {
    match outcome {
        Ok(adapter) => {
            &&& map.tilewidth == map.tileheight
            &&& exists|i: int|
                {
                    &&& first_wall_layer(map, name, i)
                    &&& map.layers@[i].width == map.width
                    &&& map.layers@[i].height == map.height
                    &&& map.layers@[i].data@.len() == map.width * map.height
                    &&& adapter.solid@ == solid_bits(#[trigger] map.layers@[i].data@)
                }
            &&& adapter.wf()
            &&& adapter.tile_size == map.tilewidth
            &&& adapter.width == map.width
            &&& adapter.height == map.height
        },
        Err(RuntimeMapAdapterError::UnsupportedNonSquareTiles { tilewidth, tileheight }) => {
            &&& map.tilewidth != map.tileheight
            &&& tilewidth == map.tilewidth
            &&& tileheight == map.tileheight
        },
        Err(RuntimeMapAdapterError::MissingWallLayer { layer_name }) => {
            &&& map.tilewidth == map.tileheight
            &&& no_wall_layer(map, name)
            &&& layer_name@ == name
        },
        Err(
            RuntimeMapAdapterError::LayerDimensionsMismatch {
                layer_name,
                map_width,
                map_height,
                layer_width,
                layer_height,
            },
        ) => {
            &&& map.tilewidth == map.tileheight
            &&& exists|i: int|
                {
                    &&& first_wall_layer(map, name, i)
                    &&& (map.layers@[i].width != map.width || map.layers@[i].height != map.height)
                    &&& layer_name@ == (#[trigger] map.layers@[i]).name@
                    &&& layer_width == map.layers@[i].width
                    &&& layer_height == map.layers@[i].height
                }
            &&& map_width == map.width
            &&& map_height == map.height
        },
        Err(RuntimeMapAdapterError::InvalidLayerDataLen { layer_name, expected, actual }) => {
            &&& map.tilewidth == map.tileheight
            &&& exists|i: int|
                {
                    &&& first_wall_layer(map, name, i)
                    &&& map.layers@[i].width == map.width
                    &&& map.layers@[i].height == map.height
                    &&& map.layers@[i].data@.len() != map.width * map.height
                    &&& layer_name@ == (#[trigger] map.layers@[i]).name@
                    &&& actual == map.layers@[i].data@.len()
                }
            &&& expected == expected_len(map)
        },
    }
}

/// Whether a setting that a file may leave out is on; left out, it is.
pub open spec fn shown(visible: Option<bool>) -> bool {
    visible != Some(false)
}

/// The type of an object; empty where the file gives none.
pub open spec fn kind_text(object: TiledJsonObject) -> Seq<char> {
    match object.kind {
        Some(kind) => kind@,
        None => Seq::empty(),
    }
}

/// The visible object layer that holds the spawn points.
pub open spec fn is_actors_layer(layer: TiledJsonLayer) -> bool {
    layer.kind@ == "objectgroup"@ && layer.name@ == "Actors_Layer"@ && shown(layer.visible)
}

/// A visible point object of the given type.
pub open spec fn is_spawn_of(object: TiledJsonObject, actor_type: Seq<char>) -> bool {
    shown(object.visible) && object.point && kind_text(object) == actor_type
}

/// Where the spawn point of `actor_type` stands in `map`: the first spawn
/// object of that type in the first actors layer, as a layer index and an
/// object index; `None` where there is no such layer or no such object in it.
pub open spec fn spawn_place(
    map: TiledJsonMap,
    actor_type: Seq<char>,
    place: Option<(usize, usize)>,
) -> bool {
    match place {
        Some((l, o)) => {
            &&& 0 <= l < map.layers@.len()
            &&& is_actors_layer(map.layers@[l as int])
            &&& forall|j: int| 0 <= j < l ==> !is_actors_layer(#[trigger] map.layers@[j])
            &&& 0 <= o < map.layers@[l as int].objects@.len()
            &&& is_spawn_of(map.layers@[l as int].objects@[o as int], actor_type)
            &&& forall|k: int|
                0 <= k < o ==> !is_spawn_of(
                    #[trigger] map.layers@[l as int].objects@[k],
                    actor_type,
                )
        },
        None => {
            ||| forall|j: int|
                0 <= j < map.layers@.len() ==> !is_actors_layer(#[trigger] map.layers@[j])
            ||| exists|l: int|
                {
                    &&& 0 <= l < map.layers@.len()
                    &&& is_actors_layer(#[trigger] map.layers@[l])
                    &&& forall|j: int| 0 <= j < l ==> !is_actors_layer(#[trigger] map.layers@[j])
                    &&& forall|k: int|
                        0 <= k < map.layers@[l].objects@.len() ==> !is_spawn_of(
                            #[trigger] map.layers@[l].objects@[k],
                            actor_type,
                        )
                }
        },
    }
}

fn setting_or_shown(visible: Option<bool>) -> (on: bool)
    ensures
        on == shown(visible),
{
    match visible {
        Some(on) => on,
        None => true,
    }
}

fn find_actors_layer(map: &TiledJsonMap) -> (found: Option<usize>)
    ensures
        match found {
            Some(l) => {
                &&& l < map.layers@.len()
                &&& is_actors_layer(map.layers@[l as int])
                &&& forall|j: int| 0 <= j < l ==> !is_actors_layer(#[trigger] map.layers@[j])
            },
            None => forall|j: int|
                0 <= j < map.layers@.len() ==> !is_actors_layer(#[trigger] map.layers@[j]),
        },
{
    let mut i: usize = 0;
    while i < map.layers.len()
        invariant
            i <= map.layers@.len(),
            forall|j: int| 0 <= j < i ==> !is_actors_layer(#[trigger] map.layers@[j]),
        decreases map.layers@.len() - i,
    {
        let layer = &map.layers[i];
        if same_text(layer.kind.as_str(), "objectgroup") && same_text(
            layer.name.as_str(),
            "Actors_Layer",
        ) && setting_or_shown(layer.visible) {
            return Some(i);
        }
        i = i + 1;
    }
    None
}

/// Where the spawn point of `actor_type` stands in `map`, as the index of its
/// layer and the index of the object in that layer.
pub fn actor_spawn_from_tiled_json(map: &TiledJsonMap, actor_type: &str) -> (place: Option<
    (usize, usize),
>)
    ensures
        spawn_place(*map, actor_type@, place),
{
    let l: usize = match find_actors_layer(map) {
        Some(l) => l,
        None => {
            return None;
        },
    };
    let layer = &map.layers[l];
    let layer_visible: bool = setting_or_shown(layer.visible);
    let mut o: usize = 0;
    while o < layer.objects.len()
        invariant
            o <= layer.objects@.len(),
            layer_visible,
            l < map.layers@.len(),
            *layer == map.layers@[l as int],
            is_actors_layer(map.layers@[l as int]),
            forall|j: int| 0 <= j < l ==> !is_actors_layer(#[trigger] map.layers@[j]),
            forall|k: int| 0 <= k < o ==> !is_spawn_of(#[trigger] layer.objects@[k], actor_type@),
        decreases layer.objects@.len() - o,
    {
        let object = &layer.objects[o];
        let kind: &str = match &object.kind {
            Some(kind) => kind.as_str(),
            None => "",
        };
        proof {
            reveal_strlit("");
            assert(""@ =~= Seq::<char>::empty());
        }
        if actor_spawn_candidate_matches(
            actor_type,
            kind,
            layer_visible,
            setting_or_shown(object.visible),
            object.point,
        ) {
            return Some((l, o));
        }
        o = o + 1;
    }
    None
}

/// The outline of an object of an object layer.
#[derive(Clone, Copy, Debug, PartialEq, Eq, Structural)]
pub enum ObjectShape {
    Point,
    Rectangle,
    Other,
}

/// An object of an object layer, as far as spawn and end-zone lookup read it.
#[derive(Clone, Debug)]
pub struct LayerObject {
    pub class_name: String,
    pub visible: bool,
    pub shape: ObjectShape,
    /// Whether both its width and its height are above zero.
    pub has_area: bool,
}

/// An object layer of a loaded map.
#[derive(Clone, Debug)]
pub struct ObjectLayer {
    pub name: String,
    pub visible: bool,
    pub objects: Vec<LayerObject>,
}

/// A visible point object of class `actor_type`.
pub open spec fn is_spawn_object(object: LayerObject, actor_type: Seq<char>) -> bool {
    object.visible && object.shape == ObjectShape::Point && object.class_name@ == actor_type
}

/// A visible rectangle of class `EndArea` that covers some area.
pub open spec fn is_end_zone_object(object: LayerObject) -> bool {
    object.visible && object.class_name@ == "EndArea"@ && object.shape == ObjectShape::Rectangle
        && object.has_area
}

/// `l` is the first visible layer of the given name.
pub open spec fn first_visible_layer(layers: Seq<ObjectLayer>, name: Seq<char>, l: int) -> bool {
    &&& 0 <= l < layers.len()
    &&& layers[l].name@ == name && layers[l].visible
    &&& forall|j: int|
        0 <= j < l ==> !((#[trigger] layers[j]).name@ == name && layers[j].visible)
}

/// No layer is visible and has the given name.
pub open spec fn no_visible_layer(layers: Seq<ObjectLayer>, name: Seq<char>) -> bool {
    forall|j: int|
        0 <= j < layers.len() ==> !((#[trigger] layers[j]).name@ == name && layers[j].visible)
}

fn find_visible_layer(layers: &Vec<ObjectLayer>, name: &str) -> (found: Option<usize>)
    ensures
        match found {
            Some(l) => first_visible_layer(layers@, name@, l as int),
            None => no_visible_layer(layers@, name@),
        },
{
    let mut i: usize = 0;
    while i < layers.len()
        invariant
            i <= layers@.len(),
            forall|j: int|
                0 <= j < i ==> !((#[trigger] layers@[j]).name@ == name@ && layers@[j].visible),
        decreases layers@.len() - i,
    {
        if same_text(layers[i].name.as_str(), name) && layers[i].visible {
            return Some(i);
        }
        i = i + 1;
    }
    None
}

/// Where the spawn point of `actor_type` stands among the object layers of a
/// loaded map: the first spawn object of that class in the first visible layer
/// named `Actors_Layer`, as a layer index and an object index.
pub fn actor_spawn_from_tiled_map(layers: &Vec<ObjectLayer>, actor_type: &str) -> (place: Option<
    (usize, usize),
>)
    ensures
        match place {
            Some((l, o)) => {
                &&& first_visible_layer(layers@, "Actors_Layer"@, l as int)
                &&& 0 <= o < layers@[l as int].objects@.len()
                &&& is_spawn_object(layers@[l as int].objects@[o as int], actor_type@)
                &&& forall|k: int|
                    0 <= k < o ==> !is_spawn_object(
                        #[trigger] layers@[l as int].objects@[k],
                        actor_type@,
                    )
            },
            None => {
                ||| no_visible_layer(layers@, "Actors_Layer"@)
                ||| exists|l: int|
                    {
                        &&& #[trigger] first_visible_layer(layers@, "Actors_Layer"@, l)
                        &&& forall|k: int|
                            0 <= k < layers@[l].objects@.len() ==> !is_spawn_object(
                                #[trigger] layers@[l].objects@[k],
                                actor_type@,
                            )
                    }
            },
        },
{
    let l: usize = match find_visible_layer(layers, "Actors_Layer") {
        Some(l) => l,
        None => {
            return None;
        },
    };
    let layer = &layers[l];
    let mut o: usize = 0;
    while o < layer.objects.len()
        invariant
            o <= layer.objects@.len(),
            layer.visible,
            *layer == layers@[l as int],
            first_visible_layer(layers@, "Actors_Layer"@, l as int),
            forall|k: int|
                0 <= k < o ==> !is_spawn_object(#[trigger] layer.objects@[k], actor_type@),
        decreases layer.objects@.len() - o,
    {
        let object = &layer.objects[o];
        if actor_spawn_candidate_matches(
            actor_type,
            object.class_name.as_str(),
            layer.visible,
            object.visible,
            object.shape == ObjectShape::Point,
        ) {
            return Some((l, o));
        }
        o = o + 1;
    }
    assert(first_visible_layer(layers@, "Actors_Layer"@, l as int));
    None
}

/// Where the end zone stands among the object layers of a loaded map: the
/// first end-zone object in the first visible layer named `End area`, as a
/// layer index and an object index.
pub fn end_zone_from_tiled_map(layers: &Vec<ObjectLayer>) -> (place: Option<(usize, usize)>)
    ensures
        match place {
            Some((l, o)) => {
                &&& first_visible_layer(layers@, "End area"@, l as int)
                &&& 0 <= o < layers@[l as int].objects@.len()
                &&& is_end_zone_object(layers@[l as int].objects@[o as int])
                &&& forall|k: int|
                    0 <= k < o ==> !is_end_zone_object(#[trigger] layers@[l as int].objects@[k])
            },
            None => {
                ||| no_visible_layer(layers@, "End area"@)
                ||| exists|l: int|
                    {
                        &&& #[trigger] first_visible_layer(layers@, "End area"@, l)
                        &&& forall|k: int|
                            0 <= k < layers@[l].objects@.len() ==> !is_end_zone_object(
                                #[trigger] layers@[l].objects@[k],
                            )
                    }
            },
        },
{
    let l: usize = match find_visible_layer(layers, "End area") {
        Some(l) => l,
        None => {
            return None;
        },
    };
    let layer = &layers[l];
    let mut o: usize = 0;
    while o < layer.objects.len()
        invariant
            o <= layer.objects@.len(),
            *layer == layers@[l as int],
            first_visible_layer(layers@, "End area"@, l as int),
            forall|k: int| 0 <= k < o ==> !is_end_zone_object(#[trigger] layer.objects@[k]),
        decreases layer.objects@.len() - o,
    {
        let object = &layer.objects[o];
        if object.visible && same_text(object.class_name.as_str(), "EndArea") && object.shape
            == ObjectShape::Rectangle && object.has_area {
            return Some((l, o));
        }
        o = o + 1;
    }
    assert(first_visible_layer(layers@, "End area"@, l as int));
    None
}

} // verus!
