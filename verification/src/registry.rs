use crate::map::{RuntimeMapAdapter, RuntimeMapAdapterSummary};
use vstd::prelude::*;

verus! {

/// Why a map could not be installed.
#[derive(Clone, Copy, Debug, PartialEq, Eq, Structural)]
pub enum RuntimeMapInstallError {
    /// Another map is installed already, and it describes a different grid.
    IncompatibleExisting { existing: RuntimeMapAdapterSummary, attempted: RuntimeMapAdapterSummary },
}

/// A slot for the one map that a session shares. The first map installed
/// stays; the slot never changes afterwards.
pub struct MapRegistry {
    active: Option<RuntimeMapAdapter>,
}

impl MapRegistry {
    /// The installed map, if any.
    pub closed spec fn installed(&self) -> Option<RuntimeMapAdapter> {
        self.active
    }

    /// The installed map, if any, is well formed.
    pub open spec fn wf(&self) -> bool {
        self.installed() matches Some(map) ==> map.wf()
    }

    /// An empty slot.
    pub fn new() -> (registry: Self)
        ensures
            registry.installed() is None,
            registry.wf(),
    {
        MapRegistry { active: None }
    }
}

/// The summary of a map, as `RuntimeMapAdapter::summary` computes it.
pub open spec fn summary_of(map: RuntimeMapAdapter, summary: RuntimeMapAdapterSummary) -> bool {
    &&& summary.tile_size == map.tile_size
    &&& summary.width == map.width
    &&& summary.height == map.height
    &&& summary.solid_cells as nat == map@.solid_cells()
}

/// Installs `adapter` if no map is installed yet; otherwise hands it back.
pub fn install_runtime_map(registry: &mut MapRegistry, adapter: RuntimeMapAdapter) -> (outcome:
    Result<(), RuntimeMapAdapter>)
    requires
        old(registry).wf(),
        adapter.wf(),
    ensures
        final(registry).wf(),
        old(registry).installed() is None ==> outcome is Ok && final(registry).installed() == Some(
            adapter,
        ),
        old(registry).installed() is Some ==> outcome == Err::<(), RuntimeMapAdapter>(adapter)
            && final(registry).installed() == old(registry).installed(),
{
    if registry.active.is_some() {
        return Err(adapter);
    }
    registry.active = Some(adapter);
    Ok(())
}

/// Installs `adapter` if no map is installed yet. With a map installed, the
/// call succeeds when `adapter` describes the same grid and fails otherwise;
/// either way the installed map stays.
pub fn install_runtime_map_compatible(registry: &mut MapRegistry, adapter: RuntimeMapAdapter) -> (outcome:
    Result<(), RuntimeMapInstallError>)
    requires
        old(registry).wf(),
        adapter.wf(),
    ensures
        final(registry).wf(),
        match old(registry).installed() {
            None => outcome is Ok && final(registry).installed() == Some(adapter),
            Some(existing) => {
                &&& final(registry).installed() == old(registry).installed()
                &&& existing@ == adapter@ ==> outcome is Ok
                &&& existing@ != adapter@ ==> (outcome matches Err(
                    RuntimeMapInstallError::IncompatibleExisting { existing: was, attempted },
                ) && summary_of(existing, was) && summary_of(adapter, attempted))
            },
        },
{
    match &registry.active {
        None => {
            registry.active = Some(adapter);
            Ok(())
        },
        Some(existing) => {
            if existing.is_compatible_with(&adapter) {
                Ok(())
            } else {
                Err(
                    RuntimeMapInstallError::IncompatibleExisting {
                        existing: existing.summary(),
                        attempted: adapter.summary(),
                    },
                )
            }
        },
    }
}

/// The installed map, if any.
pub fn runtime_map(registry: &MapRegistry) -> (map: Option<&RuntimeMapAdapter>)
    ensures
        match map {
            Some(found) => registry.installed() == Some(*found),
            None => registry.installed() is None,
        },
{
    registry.active.as_ref()
}

/// Width of the installed map, if one is installed.
pub fn try_map_width(registry: &MapRegistry) -> (width: Option<usize>)
    ensures
        width == match registry.installed() {
            Some(map) => Some(map.width),
            None => None,
        },
{
    match runtime_map(registry) {
        Some(map) => Some(map.width),
        None => None,
    }
}

/// Height of the installed map, if one is installed.
pub fn try_map_height(registry: &MapRegistry) -> (height: Option<usize>)
    ensures
        height == match registry.installed() {
            Some(map) => Some(map.height),
            None => None,
        },
{
    match runtime_map(registry) {
        Some(map) => Some(map.height),
        None => None,
    }
}

/// Tile size of the installed map, if one is installed.
pub fn try_map_tile_size(registry: &MapRegistry) -> (tile_size: Option<u32>)
    ensures
        tile_size == match registry.installed() {
            Some(map) => Some(map.tile_size),
            None => None,
        },
{
    match runtime_map(registry) {
        Some(map) => Some(map.tile_size),
        None => None,
    }
}

/// The cell of the installed map that holds world point `(x, y)`, if a map is installed.
pub fn try_world_to_grid(registry: &MapRegistry, x: u128, y: u128) -> (c: Option<(usize, usize)>)
    ensures
        match registry.installed() {
            Some(map) => c matches Some(found) && found.0 == map@.cell_coord(x as int) && found.1
                == map@.cell_coord(y as int),
            None => c is None,
        },
{
    match runtime_map(registry) {
        Some(map) => Some(map.world_to_grid(x, y)),
        None => None,
    }
}

/// The middle of cell `(x, y)` of the installed map, if a map is installed.
pub fn try_grid_to_world(registry: &MapRegistry, x: usize, y: usize) -> (w: Option<(u128, u128)>)
    ensures
        match registry.installed() {
            Some(map) => w matches Some(found) && found.0 == map@.centre_coord(x as int) && found.1
                == map@.centre_coord(y as int),
            None => w is None,
        },
{
    match runtime_map(registry) {
        Some(map) => Some(map.grid_to_world(x, y)),
        None => None,
    }
}

/// Whether `(x, y)` is a wall of the installed map, if a map is installed.
pub fn try_is_wall(registry: &MapRegistry, x: usize, y: usize) -> (wall: Option<bool>)
    requires
        registry.wf(),
    ensures
        wall == match registry.installed() {
            Some(map) => Some(map@.wall_at(x as int, y as int)),
            None => None,
        },
{
    match runtime_map(registry) {
        Some(map) => Some(map.is_wall(x, y)),
        None => None,
    }
}

/// Whether the planner must avoid `(x, y)` on the installed map, if a map is installed.
pub fn try_blocked_for_agent(registry: &MapRegistry, x: usize, y: usize) -> (blocked: Option<bool>)
    requires
        registry.wf(),
    ensures
        blocked == match registry.installed() {
            Some(map) => Some(map@.blocked_at(x as int, y as int)),
            None => None,
        },
{
    match runtime_map(registry) {
        Some(map) => Some(map.blocked_for_agent(x, y)),
        None => None,
    }
}

/// The installed map; there must be one.
pub fn installed_map(registry: &MapRegistry) -> (map: &RuntimeMapAdapter)
    requires
        registry.installed() is Some,
    ensures
        registry.installed() == Some(*map),
{
    runtime_map(registry).unwrap()
}

/// Width of the installed map; there must be one.
pub fn map_width(registry: &MapRegistry) -> (width: usize)
    requires
        registry.installed() is Some,
    ensures
        width == registry.installed()->0.width,
{
    installed_map(registry).width
}

/// Height of the installed map; there must be one.
pub fn map_height(registry: &MapRegistry) -> (height: usize)
    requires
        registry.installed() is Some,
    ensures
        height == registry.installed()->0.height,
{
    installed_map(registry).height
}

/// Tile size of the installed map; there must be one.
pub fn map_tile_size(registry: &MapRegistry) -> (tile_size: u32)
    requires
        registry.installed() is Some,
    ensures
        tile_size == registry.installed()->0.tile_size,
{
    installed_map(registry).tile_size
}

/// The cell of the installed map that holds world point `(x, y)`; there must be a map.
pub fn world_to_grid(registry: &MapRegistry, x: u128, y: u128) -> (c: (usize, usize))
    requires
        registry.installed() is Some,
    ensures
        c.0 == registry.installed()->0@.cell_coord(x as int),
        c.1 == registry.installed()->0@.cell_coord(y as int),
{
    installed_map(registry).world_to_grid(x, y)
}

/// The middle of cell `(x, y)` of the installed map; there must be a map.
pub fn grid_to_world(registry: &MapRegistry, x: usize, y: usize) -> (w: (u128, u128))
    requires
        registry.installed() is Some,
    ensures
        w.0 == registry.installed()->0@.centre_coord(x as int),
        w.1 == registry.installed()->0@.centre_coord(y as int),
{
    installed_map(registry).grid_to_world(x, y)
}

/// Whether `(x, y)` is a wall of the installed map; there must be a map.
pub fn is_wall(registry: &MapRegistry, x: usize, y: usize) -> (wall: bool)
    requires
        registry.wf(),
        registry.installed() is Some,
    ensures
        wall == registry.installed()->0@.wall_at(x as int, y as int),
{
    installed_map(registry).is_wall(x, y)
}

/// Whether the planner must avoid `(x, y)` on the installed map; there must be a map.
pub fn blocked_for_agent(registry: &MapRegistry, x: usize, y: usize) -> (blocked: bool)
    requires
        registry.wf(),
        registry.installed() is Some,
    ensures
        blocked == registry.installed()->0@.blocked_at(x as int, y as int),
{
    installed_map(registry).blocked_for_agent(x, y)
}

} // verus!
