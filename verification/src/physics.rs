use crate::map::{Grid, RuntimeMapAdapter};
use crate::pathfinding::cell;
use vstd::prelude::*;

verus! {

/// The cells that collision resolution looks at for a body whose centre is in
/// cell `(cx, cy)`: that cell and the up to eight around it, as far as they
/// lie inside the grid.
pub open spec fn in_window(grid: Grid, cx: int, cy: int, x: int, y: int) -> bool {
    grid.in_bounds(x, y) && cx - 1 <= x <= cx + 1 && cy - 1 <= y <= cy + 1
}

/// Row by row, and within a row from left to right.
pub open spec fn scans_before(a: (int, int), b: (int, int)) -> bool {
    a.1 < b.1 || (a.1 == b.1 && a.0 < b.0)
}

/// `walls` lists the walls of the window around `(cx, cy)`, each once, in
/// scan order.
pub open spec fn lists_window_walls(
    grid: Grid,
    cx: int,
    cy: int,
    walls: Seq<(usize, usize)>,
) -> bool {
    &&& forall|i: int|
        0 <= i < walls.len() ==> in_window(grid, cx, cy, cell(#[trigger] walls[i]).0, cell(walls[i]).1)
            && grid.wall_at(cell(walls[i]).0, cell(walls[i]).1)
    &&& forall|i: int, j: int|
        0 <= i < j < walls.len() ==> scans_before(cell(#[trigger] walls[i]), cell(#[trigger] walls[j]))
    &&& forall|x: int, y: int|
        in_window(grid, cx, cy, x, y) && #[trigger] grid.wall_at(x, y) ==> exists|i: int|
            0 <= i < walls.len() && cell(#[trigger] walls[i]) == (x, y)
}

/// `walls` lists the walls of the window around `(cx, cy)` that are scanned
/// before `limit`, each once, in scan order.
pub open spec fn lists_window_walls_below(
    grid: Grid,
    cx: int,
    cy: int,
    limit: (int, int),
    walls: Seq<(usize, usize)>,
) -> bool {
    &&& forall|i: int|
        0 <= i < walls.len() ==> in_window(grid, cx, cy, cell(#[trigger] walls[i]).0, cell(walls[i]).1)
            && grid.wall_at(cell(walls[i]).0, cell(walls[i]).1)
    &&& forall|i: int| 0 <= i < walls.len() ==> scans_before(cell(#[trigger] walls[i]), limit)
    &&& forall|i: int, j: int|
        0 <= i < j < walls.len() ==> scans_before(cell(#[trigger] walls[i]), cell(#[trigger] walls[j]))
    &&& forall|x: int, y: int|
        in_window(grid, cx, cy, x, y) && #[trigger] grid.wall_at(x, y) && scans_before((x, y), limit)
            ==> exists|i: int| 0 <= i < walls.len() && cell(#[trigger] walls[i]) == (x, y)
}

/// The walls that a body whose centre is in cell `(cx, cy)` may touch: the
/// walls among that cell and its neighbours inside the grid, row by row.
pub fn walls_around(map: &RuntimeMapAdapter, cx: usize, cy: usize) -> (walls: Vec<(usize, usize)>)
    requires
        map.wf(),
    ensures
        lists_window_walls(map@, cx as int, cy as int, walls@),
{
    let mut walls: Vec<(usize, usize)> = Vec::new();
    if map.width == 0 || map.height == 0 {
        return walls;
    }
    let y0: usize = if cy == 0 {
        0
    } else {
        cy - 1
    };
    let x0: usize = if cx == 0 {
        0
    } else {
        cx - 1
    };
    let y1: usize = if cy >= map.height - 1 {
        map.height - 1
    } else {
        cy + 1
    };
    let x1: usize = if cx >= map.width - 1 {
        map.width - 1
    } else {
        cx + 1
    };
    let mut ty: usize = y0;
    while ty <= y1
        invariant
            map.wf(),
            map.width > 0,
            map.height > 0,
            x0 == if cx == 0 { 0 } else { cx - 1 },
            y0 == if cy == 0 { 0 } else { cy - 1 },
            x1 == if cx >= map.width - 1 { map.width - 1 } else { cx + 1 },
            y1 == if cy >= map.height - 1 { map.height - 1 } else { cy + 1 },
            y0 <= ty,
            ty <= y1 + 1 || y1 < y0,
            lists_window_walls_below(map@, cx as int, cy as int, (x0 as int, ty as int), walls@),
        decreases y1 + 1 - ty,
    {
        let mut tx: usize = x0;
        while tx <= x1
            invariant
                map.wf(),
                map.width > 0,
                map.height > 0,
                x0 == if cx == 0 { 0 } else { cx - 1 },
                y0 == if cy == 0 { 0 } else { cy - 1 },
                x1 == if cx >= map.width - 1 { map.width - 1 } else { cx + 1 },
                y1 == if cy >= map.height - 1 { map.height - 1 } else { cy + 1 },
                y0 <= ty <= y1,
                x0 <= tx,
                tx <= x1 + 1 || x1 < x0,
                lists_window_walls_below(map@, cx as int, cy as int, (tx as int, ty as int), walls@),
            decreases x1 + 1 - tx,
        {
            let ghost before = walls@;
            if map.is_wall(tx, ty) {
                walls.push((tx, ty));
            }
            proof {
                let limit = (tx + 1, ty as int);
                assert forall|x: int, y: int|
                    in_window(map@, cx as int, cy as int, x, y) && #[trigger] map@.wall_at(x, y)
                        && scans_before((x, y), limit) implies exists|i: int|
                    0 <= i < walls@.len() && cell(#[trigger] walls@[i]) == (x, y) by {
                    if (x, y) == (tx as int, ty as int) {
                        assert(cell(walls@[walls@.len() - 1]) == (x, y));
                    } else {
                        assert(scans_before((x, y), (tx as int, ty as int)));
                        let i = choose|i: int|
                            0 <= i < before.len() && cell(#[trigger] before[i]) == (x, y);
                        assert(walls@[i] == before[i]);
                    }
                }
                assert forall|i: int| 0 <= i < walls@.len() implies scans_before(
                    cell(#[trigger] walls@[i]),
                    limit,
                ) && in_window(map@, cx as int, cy as int, cell(walls@[i]).0, cell(walls@[i]).1)
                    && map@.wall_at(cell(walls@[i]).0, cell(walls@[i]).1) by {
                    if i < before.len() {
                        assert(walls@[i] == before[i]);
                    }
                }
                assert forall|i: int, j: int| 0 <= i < j < walls@.len() implies scans_before(
                    cell(#[trigger] walls@[i]),
                    cell(#[trigger] walls@[j]),
                ) by {
                    assert(walls@[i] == before[i]);
                    if j < before.len() {
                        assert(walls@[j] == before[j]);
                    }
                }
            }
            tx = tx + 1;
        }
        proof {
            let limit = (x0 as int, ty + 1);
            assert forall|x: int, y: int|
                in_window(map@, cx as int, cy as int, x, y) && #[trigger] map@.wall_at(x, y)
                    && scans_before((x, y), limit) implies scans_before(
                (x, y),
                (tx as int, ty as int),
            ) by {}
        }
        ty = ty + 1;
    }
    proof {
        assert forall|x: int, y: int|
            in_window(map@, cx as int, cy as int, x, y) && #[trigger] map@.wall_at(
                x,
                y,
            ) implies scans_before((x, y), (x0 as int, ty as int)) by {}
    }
    walls
}

} // verus!
