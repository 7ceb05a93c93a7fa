use crate::cell_table::lemma_count_true_bounded;
use crate::map::{Grid, RuntimeMapAdapter};
use crate::registry::{installed_map, MapRegistry};
use crate::route::{
    lemma_astar_empty_iff, lemma_astar_route_connects, lemma_astar_same_cell,
    lemma_route_at_distance,
};
use crate::search::{
    closing_phase, lemma_close, lemma_drop_stale, lemma_unreachable, next_phase, opening_phase,
    quest, Search,
};
use vstd::prelude::*;

verus! {

/// A cell as a pair of mathematical integers.
pub open spec fn cell(c: (usize, usize)) -> (int, int) {
    (c.0 as int, c.1 as int)
}

/// A sequence of cells as pairs of mathematical integers.
pub open spec fn cells(path: Seq<(usize, usize)>) -> Seq<(int, int)> {
    path.map_values(|c: (usize, usize)| cell(c))
}

/// Absolute difference of two coordinates.
pub open spec fn abs_diff(a: int, b: int) -> int {
    if a > b {
        a - b
    } else {
        b - a
    }
}

/// Manhattan distance between two cells: `|dx| + |dy|`.
pub open spec fn manhattan_dist(a: (int, int), b: (int, int)) -> int {
    abs_diff(a.0, b.0) + abs_diff(a.1, b.1)
}

/// Two cells that share an edge.
pub open spec fn adjacent(a: (int, int), b: (int, int)) -> bool {
    manhattan_dist(a, b) == 1
}

/// A cell the agent may step onto.
pub open spec fn passable(grid: Grid, c: (int, int)) -> bool {
    !grid.blocked_at(c.0, c.1)
}

/// Whether some neighbour of `c` lies within `n` steps of `start`.
pub open spec fn neighbour_within(grid: Grid, start: (int, int), c: (int, int), n: nat) -> bool
    decreases n, 1nat,
{
    within(grid, start, (c.0 + 1, c.1), n) || within(grid, start, (c.0 - 1, c.1), n) || within(
        grid,
        start,
        (c.0, c.1 + 1),
        n,
    ) || within(grid, start, (c.0, c.1 - 1), n)
}

/// Whether `c` can be reached from `start` in at most `n` unit steps, each onto
/// a passable cell.
pub open spec fn within(grid: Grid, start: (int, int), c: (int, int), n: nat) -> bool
    decreases n, 0nat,
{
    if n == 0 {
        c == start
    } else {
        within(grid, start, c, (n - 1) as nat) || (passable(grid, c) && neighbour_within(
            grid,
            start,
            c,
            (n - 1) as nat,
        ))
    }
}

/// Whether some walk over passable cells leads from `start` to `c`.
pub open spec fn reachable(grid: Grid, start: (int, int), c: (int, int)) -> bool {
    exists|n: nat| within(grid, start, c, n)
}

/// `d` is the least number of steps from `start` to `c`.
pub open spec fn is_distance(grid: Grid, start: (int, int), c: (int, int), d: nat) -> bool {
    within(grid, start, c, d) && (d == 0 || !within(grid, start, c, (d - 1) as nat))
}

/// The least number of steps from `start` to `c`, where `c` can be reached.
pub open spec fn distance(grid: Grid, start: (int, int), c: (int, int)) -> nat {
    choose|d: nat| is_distance(grid, start, c, d)
}

/// A walk over the grid: consecutive cells share an edge, and every cell after
/// the first is passable.
pub open spec fn is_route(grid: Grid, route: Seq<(int, int)>) -> bool {
    &&& route.len() > 0
    &&& forall|i: int|
        1 <= i < route.len() ==> adjacent(route[i - 1], #[trigger] route[i]) && passable(
            grid,
            route[i],
        )
}

/// Among cells that could precede a cell on a shortest route, the one nearer
/// the goal by Manhattan distance is preferred, then the one with smaller `y`,
/// then the one with smaller `x`.
pub open spec fn preferred(goal: (int, int), a: (int, int), b: (int, int)) -> bool {
    let ha = manhattan_dist(a, goal);
    let hb = manhattan_dist(b, goal);
    ha < hb || (ha == hb && (a.1 < b.1 || (a.1 == b.1 && a.0 <= b.0)))
}

/// `w` is the cell from which a shortest route enters `v`, where `v` lies `d`
/// steps from `start`: a neighbour of `v` that lies `d - 1` steps from `start`,
/// preferred over every other such neighbour.
pub open spec fn is_best_pred(
    grid: Grid,
    start: (int, int),
    goal: (int, int),
    v: (int, int),
    d: nat,
    w: (int, int),
) -> bool {
    &&& adjacent(w, v)
    &&& within(grid, start, w, (d - 1) as nat)
    &&& forall|o: (int, int)|
        adjacent(o, v) && #[trigger] within(grid, start, o, (d - 1) as nat) ==> preferred(
            goal,
            w,
            o,
        )
}

/// The best predecessor of `v`, where it has one.
pub open spec fn best_pred(
    grid: Grid,
    start: (int, int),
    goal: (int, int),
    v: (int, int),
    d: nat,
) -> (int, int) {
    choose|w: (int, int)| is_best_pred(grid, start, goal, v, d, w)
}

/// The route that ends in `v`, which lies `d` steps from `start`, and enters
/// each of its cells from that cell's best predecessor.
pub open spec fn trace_back(
    grid: Grid,
    start: (int, int),
    goal: (int, int),
    v: (int, int),
    d: nat,
) -> Seq<(int, int)>
    decreases d,
{
    if d == 0 {
        seq![v]
    } else {
        trace_back(grid, start, goal, best_pred(grid, start, goal, v, d), (d - 1) as nat).push(v)
    }
}

/// The route the search returns: empty when an endpoint is a wall or the goal
/// cannot be reached, else the shortest route singled out by `trace_back`.
pub open spec fn astar_route(grid: Grid, start: (int, int), goal: (int, int)) -> Seq<(int, int)> {
    if grid.wall_at(start.0, start.1) || grid.wall_at(goal.0, goal.1) || !reachable(
        grid,
        start,
        goal,
    ) {
        Seq::empty()
    } else {
        trace_back(grid, start, goal, goal, distance(grid, start, goal))
    }
}

/// Manhattan distance between two cells.
pub fn manhattan(a: (usize, usize), b: (usize, usize)) -> (d: u128)
    ensures
        d as int == manhattan_dist(cell(a), cell(b)),
        d as int == manhattan_dist(cell(b), cell(a)),
        d == 0 <==> a == b,
{
    let dx: usize = if a.0 > b.0 {
        a.0 - b.0
    } else {
        b.0 - a.0
    };
    let dy: usize = if a.1 > b.1 {
        a.1 - b.1
    } else {
        b.1 - a.1
    };
    dx as u128 + dy as u128
}

/// The four cells that share an edge with `(x, y)`: right, left, below, above.
/// A coordinate may fall outside the grid, or below zero.
pub fn neighbors4(x: usize, y: usize) -> (around: [(i128, i128); 4])
    ensures
        around@[0].0 == x + 1 && around@[0].1 == y,
        around@[1].0 == x - 1 && around@[1].1 == y,
        around@[2].0 == x && around@[2].1 == y + 1,
        around@[3].0 == x && around@[3].1 == y - 1,
{
    [
        (x as i128 + 1, y as i128),
        (x as i128 - 1, y as i128),
        (x as i128, y as i128 + 1),
        (x as i128, y as i128 - 1),
    ]
}

/// Searches `map` for the route from `start` to `goal`.
pub fn astar_impl(map: &RuntimeMapAdapter, start: (usize, usize), goal: (usize, usize)) -> (path:
    Vec<(usize, usize)>)
    requires
        map.wf(),
    ensures
        cells(path@) == astar_route(map@, cell(start), cell(goal)),
{
    if map.is_wall(start.0, start.1) || map.is_wall(goal.0, goal.1) {
        let path: Vec<(usize, usize)> = Vec::new();
        assert(cells(path@) =~= Seq::empty());
        return path;
    }
    if start.0 == goal.0 && start.1 == goal.1 {
        let mut path: Vec<(usize, usize)> = Vec::new();
        path.push(start);
        proof {
            lemma_route_at_distance(map@, cell(start), cell(goal), 0);
            assert(cells(path@) =~= seq![cell(start)]);
        }
        return path;
    }
    let ghost q = quest(map@, start, goal);
    let mut search = Search::begin(map, start, goal);
    let ghost mut phase = opening_phase(q);
    let ghost cell_count = map@.width * map@.height;
    proof {
        lemma_count_true_bounded(search.closed.flat());
    }
    loop
        invariant
            map.wf(),
            q == quest(map@, start, goal),
            !map@.wall_at(start.0 as int, start.1 as int),
            !map@.wall_at(goal.0 as int, goal.1 as int),
            search.inv(q, phase),
            search.open.wf(),
            phase.relaxed == 4,
            !search.done(goal.0 as int, goal.1 as int),
            cell_count == map@.width * map@.height,
            search.closed_count() <= cell_count,
        decreases cell_count - search.closed_count(), search.open@.len(),
    {
        let ghost before = search;
        let popped = search.open.pop();
        match popped {
            None => {
                let path: Vec<(usize, usize)> = Vec::new();
                proof {
                    lemma_unreachable(before, q, phase);
                    assert(cells(path@) =~= Seq::empty());
                }
                return path;
            },
            Some(current) => {
                let cx: usize = current.x;
                let cy: usize = current.y;
                assert(q.grid.in_bounds(cx as int, cy as int));
                if search.closed.get(cx, cy) {
                    proof {
                        lemma_drop_stale(before, search, q, phase, current);
                    }
                } else {
                    search.closed.set(cx, cy, true);
                    proof {
                        lemma_close(before, search, q, phase, current);
                        phase = closing_phase(current);
                    }
                    if cx == goal.0 && cy == goal.1 {
                        let path = search.reconstruct(start, goal, Ghost(q), Ghost(phase));
                        proof {
                            assert(search.known(cx as int, cy as int));
                            lemma_route_at_distance(
                                map@,
                                cell(start),
                                cell(goal),
                                search.g(cx as int, cy as int) as nat,
                            );
                        }
                        return path;
                    }
                    let current_g: usize = search.g_score.get(cx, cy);
                    let around = neighbors4(cx, cy);
                    let ghost closed_now = search.closed;
                    let mut k: usize = 0;
                    while k < 4
                        invariant
                            map.wf(),
                            q == quest(map@, start, goal),
                            search.inv(q, phase),
                            search.open.wf(),
                            0 <= k <= 4,
                            phase.relaxed == k,
                            phase.cur == (cx as int, cy as int),
                            current_g == search.g(cx as int, cy as int),
                            search.closed == closed_now,
                            around@[0].0 == cx + 1 && around@[0].1 == cy,
                            around@[1].0 == cx - 1 && around@[1].1 == cy,
                            around@[2].0 == cx && around@[2].1 == cy + 1,
                            around@[3].0 == cx && around@[3].1 == cy - 1,
                        decreases 4 - k,
                    {
                        let n: (i128, i128) = around[k];
                        search.relax(map, goal, cx, cy, current_g, n, Ghost(q), Ghost(phase));
                        proof {
                            phase = next_phase(phase);
                        }
                        k = k + 1;
                    }
                }
            },
        }
    }
}

/// The route from `start` to `goal` over `map`: empty when an endpoint is a
/// wall or no walk joins them, else the shortest route, with ties between
/// shortest routes settled as `trace_back` says.
pub fn astar_with_map(map: &RuntimeMapAdapter, start: (usize, usize), goal: (usize, usize)) -> (path:
    Vec<(usize, usize)>)
    requires
        map.wf(),
    ensures
        cells(path@) == astar_route(map@, cell(start), cell(goal)),
        map@.wall_at(start.0 as int, start.1 as int) || map@.wall_at(goal.0 as int, goal.1 as int)
            ==> path@.len() == 0,
        !map@.wall_at(start.0 as int, start.1 as int) && start == goal ==> path@ == seq![start],
        path@.len() == 0 <==> (map@.wall_at(start.0 as int, start.1 as int) || map@.wall_at(
            goal.0 as int,
            goal.1 as int,
        ) || !reachable(map@, cell(start), cell(goal))),
        path@.len() > 0 ==> {
            &&& path@[0] == start
            &&& path@.last() == goal
            &&& is_route(map@, cells(path@))
            &&& path@.len() == distance(map@, cell(start), cell(goal)) + 1
            &&& forall|i: int|
                1 <= i < path@.len() ==> adjacent(cell(path@[i - 1]), cell(#[trigger] path@[i]))
        },
{
    let path = astar_impl(map, start, goal);
    proof {
        let route = astar_route(map@, cell(start), cell(goal));
        assert(path@.len() == cells(path@).len());
        lemma_astar_empty_iff(map@, cell(start), cell(goal));
        if !map@.wall_at(start.0 as int, start.1 as int) && start == goal {
            lemma_astar_same_cell(map@, cell(start));
            assert(cells(path@)[0] == cell(path@[0]));
            assert(path@ =~= seq![start]);
        }
        if path@.len() > 0 {
            lemma_astar_route_connects(map@, cell(start), cell(goal));
            assert(cells(path@)[0] == cell(path@[0]));
            assert(cells(path@).last() == cell(path@.last()));
            assert forall|i: int| 1 <= i < path@.len() implies adjacent(
                cell(path@[i - 1]),
                cell(#[trigger] path@[i]),
            ) by {
                assert(cells(path@)[i] == cell(path@[i]));
                assert(cells(path@)[i - 1] == cell(path@[i - 1]));
                assert(adjacent(route[i - 1], route[i]));
            }
        }
    }
    path
}

/// The route from `start` to `goal` over the installed map.
pub fn astar(registry: &MapRegistry, start: (usize, usize), goal: (usize, usize)) -> (path: Vec<
    (usize, usize),
>)
    requires
        registry.wf(),
        registry.installed() is Some,
    ensures
        cells(path@) == astar_route(registry.installed()->0@, cell(start), cell(goal)),
{
    astar_with_map(installed_map(registry), start, goal)
}

} // verus!
