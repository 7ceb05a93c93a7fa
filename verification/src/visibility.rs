use crate::map::{Grid, RuntimeMapAdapter};
use crate::pathfinding::{abs_diff, cell};
use crate::registry::{installed_map, MapRegistry};
use vstd::prelude::*;

verus! {

/// Whether a ray between tile centres that lie `dx` and `dy` cells apart, after
/// `kx` steps along x and `ky` along y, crosses a vertical grid line next. It
/// does when the next vertical line comes strictly before the next horizontal
/// one; an axis along which the ray does not move is never stepped.
pub open spec fn steps_x_next(dx: int, dy: int, kx: int, ky: int) -> bool {
    dx != 0 && (dy == 0 || (2 * kx + 1) * dy < (2 * ky + 1) * dx)
}

/// How many steps along x and along y the ray has taken after `n` steps.
pub open spec fn ray_progress(dx: int, dy: int, n: nat) -> (int, int)
    decreases n,
{
    if n == 0 {
        (0, 0)
    } else {
        let before = ray_progress(dx, dy, (n - 1) as nat);
        if steps_x_next(dx, dy, before.0, before.1) {
            (before.0 + 1, before.1)
        } else {
            (before.0, before.1 + 1)
        }
    }
}

/// The cell that lies `k` steps from coordinate `from` towards `to`.
pub open spec fn towards(from: int, to: int, k: int) -> int {
    if from < to {
        from + k
    } else {
        from - k
    }
}

/// The cell the ray from the centre of `a` to the centre of `b` is in after
/// `n` steps.
pub open spec fn ray_cell(a: (int, int), b: (int, int), n: nat) -> (int, int) {
    let progress = ray_progress(abs_diff(a.0, b.0), abs_diff(a.1, b.1), n);
    (towards(a.0, b.0, progress.0), towards(a.1, b.1, progress.1))
}

/// Number of steps the ray takes from `a` to `b`.
pub open spec fn ray_len(a: (int, int), b: (int, int)) -> nat {
    (abs_diff(a.0, b.0) + abs_diff(a.1, b.1)) as nat
}

/// Line of sight between the centres of two cells: no cell that the ray
/// visits, the first and the last included, is a wall.
pub open spec fn clear_ray(grid: Grid, a: (int, int), b: (int, int)) -> bool {
    forall|n: nat|
        n <= ray_len(a, b) ==> !grid.wall_at(
            (#[trigger] ray_cell(a, b, n)).0,
            ray_cell(a, b, n).1,
        )
}

/// The ray never oversteps: after `n` steps it has moved `n` cells in all, no
/// more than `dx` along x and `dy` along y.
pub proof fn lemma_ray_progress(dx: int, dy: int, n: nat)
    requires
        dx >= 0,
        dy >= 0,
        n <= dx + dy,
    ensures
        0 <= ray_progress(dx, dy, n).0 <= dx,
        0 <= ray_progress(dx, dy, n).1 <= dy,
        ray_progress(dx, dy, n).0 + ray_progress(dx, dy, n).1 == n,
    decreases n,
{
    if n > 0 {
        lemma_ray_progress(dx, dy, (n - 1) as nat);
        let before = ray_progress(dx, dy, (n - 1) as nat);
        if steps_x_next(dx, dy, before.0, before.1) {
            if before.0 == dx {
                assert(before.1 < dy);
                assert((2 * dx + 1) * dy >= (2 * before.1 + 1) * dx) by (nonlinear_arith)
                    requires
                        0 <= before.1 < dy,
                        dx >= 0,
                ;
            }
        } else {
            if before.1 == dy {
                assert(before.0 < dx);
                assert((2 * before.0 + 1) * dy < (2 * dy + 1) * dx) by (nonlinear_arith)
                    requires
                        0 <= before.0 < dx,
                        dy >= 0,
                ;
            }
        }
    }
}

/// The ray ends in `b`.
pub proof fn lemma_ray_ends(a: (int, int), b: (int, int))
    ensures
        ray_cell(a, b, 0) == a,
        ray_cell(a, b, ray_len(a, b)) == b,
{
    lemma_ray_progress(abs_diff(a.0, b.0), abs_diff(a.1, b.1), ray_len(a, b));
}

/// Along a row or a column the ray visits the cells between its ends, one
/// after the other.
pub proof fn lemma_ray_straight(a: (int, int), b: (int, int), n: nat)
    requires
        a.0 == b.0 || a.1 == b.1,
        n <= ray_len(a, b),
    ensures
        ray_cell(a, b, n) == if a.1 == b.1 {
            (towards(a.0, b.0, n as int), a.1)
        } else {
            (a.0, towards(a.1, b.1, n as int))
        },
    decreases n,
{
    if n > 0 {
        lemma_ray_straight(a, b, (n - 1) as nat);
    }
}

/// Between two cells of one row or one column, line of sight does not depend
/// on the direction in which one looks.
pub proof fn lemma_clear_ray_symmetric(grid: Grid, a: (int, int), b: (int, int))
    requires
        a.0 == b.0 || a.1 == b.1,
    ensures
        clear_ray(grid, a, b) == clear_ray(grid, b, a),
{
    let len = ray_len(a, b);
    assert(ray_len(b, a) == len);
    if clear_ray(grid, a, b) {
        assert forall|n: nat| n <= len implies !grid.wall_at(
            (#[trigger] ray_cell(b, a, n)).0,
            ray_cell(b, a, n).1,
        ) by {
            let m = (len - n) as nat;
            lemma_ray_straight(b, a, n);
            lemma_ray_straight(a, b, m);
            assert(ray_cell(a, b, m) == ray_cell(b, a, n));
        }
    }
    if clear_ray(grid, b, a) {
        assert forall|n: nat| n <= len implies !grid.wall_at(
            (#[trigger] ray_cell(a, b, n)).0,
            ray_cell(a, b, n).1,
        ) by {
            let m = (len - n) as nat;
            lemma_ray_straight(a, b, n);
            lemma_ray_straight(b, a, m);
            assert(ray_cell(b, a, m) == ray_cell(a, b, n));
        }
    }
}

/// The cell one step from `c`, along x or along y, forwards or backwards, if
/// that cell is not a wall.
pub fn step_cell(map: &RuntimeMapAdapter, c: (usize, usize), along_x: bool, forward: bool) -> (next:
    Option<(usize, usize)>)
    requires
        map.wf(),
    ensures
        ({
            let delta: int = if forward {
                1
            } else {
                -1
            };
            let target: (int, int) = if along_x {
                (c.0 + delta, c.1 as int)
            } else {
                (c.0 as int, c.1 + delta)
            };
            if map@.wall_at(target.0, target.1) {
                next is None
            } else {
                next matches Some(found) && cell(found) == target
            }
        }),
{
    let moving: usize = if along_x {
        c.0
    } else {
        c.1
    };
    if forward && moving == usize::MAX {
        return None;
    }
    if !forward && moving == 0 {
        return None;
    }
    let moved: usize = if forward {
        moving + 1
    } else {
        moving - 1
    };
    let target: (usize, usize) = if along_x {
        (moved, c.1)
    } else {
        (c.0, moved)
    };
    if map.is_wall(target.0, target.1) {
        None
    } else {
        Some(target)
    }
}

/// Whether cell `b` can be seen from cell `a`, centre to centre.
pub fn los_grid_with_map(map: &RuntimeMapAdapter, a: (usize, usize), b: (usize, usize)) -> (visible:
    bool)
    requires
        map.wf(),
    ensures
        visible == clear_ray(map@, cell(a), cell(b)),
{
    let ghost len = ray_len(cell(a), cell(b));
    proof {
        lemma_ray_ends(cell(a), cell(b));
    }
    if map.is_wall(a.0, a.1) {
        assert(ray_cell(cell(a), cell(b), 0) == cell(a));
        return false;
    }
    if map.is_wall(b.0, b.1) {
        assert(ray_cell(cell(a), cell(b), len) == cell(b));
        return false;
    }
    let dx: usize = if a.0 > b.0 {
        a.0 - b.0
    } else {
        b.0 - a.0
    };
    let dy: usize = if a.1 > b.1 {
        a.1 - b.1
    } else {
        b.1 - a.1
    };
    proof {
        assert(map.solid@.len() == map.solid.len());
        assert((2 * dx + 1) * (dy + 1) <= 2 * (map@.width * map@.height) + 1
            && (2 * dy + 1) * (dx + 1) <= 2 * (map@.width * map@.height) + 1) by (nonlinear_arith)
            requires
                0 <= dx < map@.width,
                0 <= dy < map@.height,
        ;
    }
    let mut cur: (usize, usize) = a;
    let mut kx: usize = 0;
    let mut ky: usize = 0;
    while cur.0 != b.0 || cur.1 != b.1
        invariant
            map.wf(),
            dx == abs_diff(a.0 as int, b.0 as int),
            dy == abs_diff(a.1 as int, b.1 as int),
            len == dx + dy,
            kx <= dx,
            ky <= dy,
            (2 * dx + 1) * (dy + 1) <= 2 * usize::MAX + 1,
            (2 * dy + 1) * (dx + 1) <= 2 * usize::MAX + 1,
            ray_progress(dx as int, dy as int, (kx + ky) as nat) == (kx as int, ky as int),
            cell(cur) == ray_cell(cell(a), cell(b), (kx + ky) as nat),
            forall|n: nat|
                n <= kx + ky ==> !map@.wall_at(
                    (#[trigger] ray_cell(cell(a), cell(b), n)).0,
                    ray_cell(cell(a), cell(b), n).1,
                ),
        decreases dx + dy - kx - ky,
    {
        proof {
            lemma_ray_progress(dx as int, dy as int, (kx + ky + 1) as nat);
            assert((2 * kx + 1) * dy <= (2 * dx + 1) * (dy + 1) && (2 * ky + 1) * dx <= (2 * dy
                + 1) * (dx + 1)) by (nonlinear_arith)
                requires
                    0 <= kx <= dx,
                    0 <= ky <= dy,
            ;
        }
        let along_x: bool = dx != 0 && (dy == 0 || (2 * (kx as u128) + 1) * (dy as u128) < (2 * (
        ky as u128) + 1) * (dx as u128));
        let forward: bool = if along_x {
            a.0 < b.0
        } else {
            a.1 < b.1
        };
        if along_x {
            kx = kx + 1;
        } else {
            ky = ky + 1;
        }
        match step_cell(map, cur, along_x, forward) {
            Some(next) => {
                cur = next;
            },
            None => {
                assert(!clear_ray(map@, cell(a), cell(b))) by {
                    let hit = ray_cell(cell(a), cell(b), (kx + ky) as nat);
                    assert(map@.wall_at(hit.0, hit.1));
                }
                return false;
            },
        }
    }
    proof {
        assert(kx + ky == len) by {
            lemma_ray_progress(dx as int, dy as int, (kx + ky) as nat);
        }
    }
    true
}

/// Whether cell `b` can be seen from cell `a` on the installed map.
pub fn los_grid(registry: &MapRegistry, a: (usize, usize), b: (usize, usize)) -> (visible: bool)
    requires
        registry.wf(),
        registry.installed() is Some,
    ensures
        visible == clear_ray(registry.installed()->0@, cell(a), cell(b)),
{
    los_grid_with_map(installed_map(registry), a, b)
}

/// The last waypoint of the unbroken run of waypoints after `from_idx` that
/// can be seen from the cell holding `enemy_pos`; `from_idx` itself where the
/// next waypoint cannot be seen or there is none.
pub fn furthest_visible_waypoint(
    map: &RuntimeMapAdapter,
    enemy_pos: (u128, u128),
    path: &Vec<(usize, usize)>,
    from_idx: usize,
) -> (best: usize)
    requires
        map.wf(),
    ensures
        from_idx <= best,
        best == from_idx || best < path@.len(),
        forall|i: int|
            from_idx < i <= best ==> clear_ray(
                map@,
                (map@.cell_coord(enemy_pos.0 as int), map@.cell_coord(enemy_pos.1 as int)),
                cell(#[trigger] path@[i]),
            ),
        best + 1 < path@.len() && from_idx < path@.len() ==> !clear_ray(
            map@,
            (map@.cell_coord(enemy_pos.0 as int), map@.cell_coord(enemy_pos.1 as int)),
            cell(path@[best + 1]),
        ),
{
    if from_idx >= path.len() {
        return from_idx;
    }
    let enemy_cell: (usize, usize) = map.world_to_grid(enemy_pos.0, enemy_pos.1);
    let mut best: usize = from_idx;
    while best < path.len() - 1
        invariant
            map.wf(),
            from_idx <= best < path@.len(),
            cell(enemy_cell) == (
                map@.cell_coord(enemy_pos.0 as int),
                map@.cell_coord(enemy_pos.1 as int),
            ),
            forall|i: int|
                from_idx < i <= best ==> clear_ray(map@, cell(enemy_cell), cell(#[trigger] path@[i])),
        decreases path@.len() - best,
    {
        if los_grid_with_map(map, enemy_cell, path[best + 1]) {
            best = best + 1;
        } else {
            return best;
        }
    }
    best
}

} // verus!
