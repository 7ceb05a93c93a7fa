use crate::map::Grid;
use crate::pathfinding::{
    adjacent, astar_route, best_pred, cell, cells, distance, is_best_pred, is_distance, is_route,
    manhattan_dist, neighbour_within, passable, preferred, reachable, trace_back, within,
};
use vstd::prelude::*;

verus! {

/// What is reached within `n` steps is reached within any larger number.
pub proof fn lemma_within_monotone(grid: Grid, start: (int, int), c: (int, int), n: nat, m: nat)
    requires
        within(grid, start, c, n),
        n <= m,
    ensures
        within(grid, start, c, m),
    decreases m,
{
    if n < m {
        lemma_within_monotone(grid, start, c, n, (m - 1) as nat);
    }
}

/// Whatever is reached is the start itself or a passable cell.
pub proof fn lemma_within_cell(grid: Grid, start: (int, int), c: (int, int), n: nat)
    requires
        within(grid, start, c, n),
    ensures
        c == start || passable(grid, c),
    decreases n,
{
    if n > 0 && within(grid, start, c, (n - 1) as nat) {
        lemma_within_cell(grid, start, c, (n - 1) as nat);
    }
}

/// A cell that shares an edge with `b` lies right, left, below or above it.
pub proof fn lemma_adjacent_cases(a: (int, int), b: (int, int))
    requires
        adjacent(a, b),
    ensures
        a == (b.0 + 1, b.1) || a == (b.0 - 1, b.1) || a == (b.0, b.1 + 1) || a == (b.0, b.1 - 1),
{
}

/// One more step onto a passable neighbour.
pub proof fn lemma_within_step(grid: Grid, start: (int, int), w: (int, int), c: (int, int), n: nat)
    requires
        within(grid, start, w, n),
        adjacent(w, c),
        passable(grid, c),
    ensures
        within(grid, start, c, n + 1),
{
    lemma_adjacent_cases(w, c);
    assert(neighbour_within(grid, start, c, n));
}

/// Moving to a neighbour changes the Manhattan distance to any cell by at most one.
pub proof fn lemma_manhattan_step(a: (int, int), b: (int, int), goal: (int, int))
    requires
        adjacent(a, b),
    ensures
        manhattan_dist(a, goal) <= manhattan_dist(b, goal) + 1,
        manhattan_dist(b, goal) <= manhattan_dist(a, goal) + 1,
{
}

/// A route of `k + 1` cells shows that its last cell lies within `k` steps of
/// its first.
pub proof fn lemma_route_within(grid: Grid, route: Seq<(int, int)>)
    requires
        is_route(grid, route),
    ensures
        within(grid, route[0], route.last(), (route.len() - 1) as nat),
    decreases route.len(),
{
    if route.len() > 1 {
        let shorter = route.drop_last();
        assert(is_route(grid, shorter)) by {
            assert forall|i: int| 1 <= i < shorter.len() implies adjacent(
                shorter[i - 1],
                #[trigger] shorter[i],
            ) && passable(grid, shorter[i]) by {
                assert(shorter[i] == route[i]);
            }
        }
        lemma_route_within(grid, shorter);
        let last = route.len() - 1;
        assert(adjacent(route[last - 1], route[last]) && passable(grid, route[last]));
        lemma_within_step(
            grid,
            route[0],
            route[last - 1],
            route[last],
            (shorter.len() - 1) as nat,
        );
    }
}

/// A cell has one distance from the start.
pub proof fn lemma_distance_unique(grid: Grid, start: (int, int), c: (int, int), d1: nat, d2: nat)
    requires
        is_distance(grid, start, c, d1),
        is_distance(grid, start, c, d2),
    ensures
        d1 == d2,
{
    if d1 < d2 {
        lemma_within_monotone(grid, start, c, d1, (d2 - 1) as nat);
    } else if d2 < d1 {
        lemma_within_monotone(grid, start, c, d2, (d1 - 1) as nat);
    }
}

/// A cell that is reached at all has a distance, and it is the least bound.
pub proof fn lemma_distance_exists(grid: Grid, start: (int, int), c: (int, int), n: nat)
    requires
        within(grid, start, c, n),
    ensures
        is_distance(grid, start, c, distance(grid, start, c)),
        distance(grid, start, c) <= n,
    decreases n,
{
    if n > 0 && within(grid, start, c, (n - 1) as nat) {
        lemma_distance_exists(grid, start, c, (n - 1) as nat);
    } else {
        assert(is_distance(grid, start, c, n));
        lemma_distance_unique(grid, start, c, n, distance(grid, start, c));
    }
}

/// A cell has one best predecessor.
pub proof fn lemma_best_pred_unique(
    grid: Grid,
    start: (int, int),
    goal: (int, int),
    v: (int, int),
    d: nat,
    w1: (int, int),
    w2: (int, int),
)
    requires
        is_best_pred(grid, start, goal, v, d, w1),
        is_best_pred(grid, start, goal, v, d, w2),
    ensures
        w1 == w2,
{
    assert(preferred(goal, w1, w2));
    assert(preferred(goal, w2, w1));
}

/// A cell at distance `d >= 1` has a best predecessor.
pub proof fn lemma_best_pred_exists(
    grid: Grid,
    start: (int, int),
    goal: (int, int),
    v: (int, int),
    d: nat,
)
    requires
        d >= 1,
        is_distance(grid, start, v, d),
    ensures
        is_best_pred(grid, start, goal, v, d, best_pred(grid, start, goal, v, d)),
{
    let k = (d - 1) as nat;
    let n0 = (v.0 + 1, v.1);
    let n1 = (v.0 - 1, v.1);
    let n2 = (v.0, v.1 + 1);
    let n3 = (v.0, v.1 - 1);
    let c0 = within(grid, start, n0, k);
    let c1 = within(grid, start, n1, k);
    let c2 = within(grid, start, n2, k);
    let c3 = within(grid, start, n3, k);
    assert(neighbour_within(grid, start, v, k));
    assert(c0 || c1 || c2 || c3);
    let w = if c0 && (!c1 || preferred(goal, n0, n1)) && (!c2 || preferred(goal, n0, n2)) && (!c3
        || preferred(goal, n0, n3)) {
        n0
    } else if c1 && (!c0 || preferred(goal, n1, n0)) && (!c2 || preferred(goal, n1, n2)) && (!c3
        || preferred(goal, n1, n3)) {
        n1
    } else if c2 && (!c0 || preferred(goal, n2, n0)) && (!c1 || preferred(goal, n2, n1)) && (!c3
        || preferred(goal, n2, n3)) {
        n2
    } else {
        n3
    };
    assert(is_best_pred(grid, start, goal, v, d, w)) by {
        assert(adjacent(w, v));
        assert(within(grid, start, w, k));
        assert forall|o: (int, int)| adjacent(o, v) && #[trigger] within(
            grid,
            start,
            o,
            k,
        ) implies preferred(goal, w, o) by {
            lemma_adjacent_cases(o, v);
        }
    }
}

/// The best predecessor of a cell at distance `d` lies at distance `d - 1`.
pub proof fn lemma_best_pred_distance(
    grid: Grid,
    start: (int, int),
    goal: (int, int),
    v: (int, int),
    d: nat,
    w: (int, int),
)
    requires
        d >= 1,
        is_distance(grid, start, v, d),
        is_best_pred(grid, start, goal, v, d, w),
    ensures
        is_distance(grid, start, w, (d - 1) as nat),
{
    if d >= 2 && within(grid, start, w, (d - 2) as nat) {
        lemma_within_cell(grid, start, v, d);
        if v == start {
            lemma_within_monotone(grid, start, v, 0, (d - 1) as nat);
        } else {
            lemma_within_step(grid, start, w, v, (d - 2) as nat);
        }
    }
}

/// `trace_back` yields a route of `d + 1` cells from `start` to `v`.
pub proof fn lemma_trace_back_route(
    grid: Grid,
    start: (int, int),
    goal: (int, int),
    v: (int, int),
    d: nat,
)
    requires
        is_distance(grid, start, v, d),
    ensures
        is_route(grid, trace_back(grid, start, goal, v, d)),
        trace_back(grid, start, goal, v, d).len() == d + 1,
        trace_back(grid, start, goal, v, d)[0] == start,
        trace_back(grid, start, goal, v, d).last() == v,
    decreases d,
{
    if d > 0 {
        let w = best_pred(grid, start, goal, v, d);
        lemma_best_pred_exists(grid, start, goal, v, d);
        lemma_best_pred_distance(grid, start, goal, v, d, w);
        lemma_trace_back_route(grid, start, goal, w, (d - 1) as nat);
        lemma_within_cell(grid, start, v, d);
        if v == start {
            lemma_within_monotone(grid, start, v, 0, (d - 1) as nat);
        }
        let before = trace_back(grid, start, goal, w, (d - 1) as nat);
        let route = before.push(v);
        assert forall|i: int| 1 <= i < route.len() implies adjacent(
            route[i - 1],
            #[trigger] route[i],
        ) && passable(grid, route[i]) by {
            if i < before.len() {
                assert(route[i] == before[i]);
                assert(route[i - 1] == before[i - 1]);
            }
        }
    }
}

/// A cell whose distance from the start is known fixes the route to it.
pub proof fn lemma_route_at_distance(grid: Grid, start: (int, int), goal: (int, int), d: nat)
    requires
        !grid.wall_at(start.0, start.1),
        !grid.wall_at(goal.0, goal.1),
        is_distance(grid, start, goal, d),
    ensures
        astar_route(grid, start, goal) == trace_back(grid, start, goal, goal, d),
{
    lemma_distance_exists(grid, start, goal, d);
    lemma_distance_unique(grid, start, goal, d, distance(grid, start, goal));
}

/// Manhattan distance is symmetric, and zero exactly between a cell and itself.
pub proof fn lemma_manhattan_symmetric(a: (int, int), b: (int, int))
    ensures
        manhattan_dist(a, b) == manhattan_dist(b, a),
        manhattan_dist(a, b) >= 0,
        manhattan_dist(a, b) == 0 <==> a == b,
{
}

/// When either endpoint is a wall the search returns no route, whatever the
/// grid.
pub proof fn lemma_astar_wall_endpoint(grid: Grid, start: (int, int), goal: (int, int))
    requires
        grid.wall_at(start.0, start.1) || grid.wall_at(goal.0, goal.1),
    ensures
        astar_route(grid, start, goal) == Seq::<(int, int)>::empty(),
{
}

/// From a cell that is not a wall to itself, the route is that single cell.
pub proof fn lemma_astar_same_cell(grid: Grid, start: (int, int))
    requires
        !grid.wall_at(start.0, start.1),
    ensures
        astar_route(grid, start, start) == seq![start],
{
    lemma_route_at_distance(grid, start, start, 0);
}

/// A route that the search returns starts at `start`, ends at `goal`, moves
/// between cells that share an edge, and has one cell more than the goal's
/// distance from the start.
pub proof fn lemma_astar_route_connects(grid: Grid, start: (int, int), goal: (int, int))
    requires
        astar_route(grid, start, goal).len() > 0,
    ensures
        is_route(grid, astar_route(grid, start, goal)),
        astar_route(grid, start, goal)[0] == start,
        astar_route(grid, start, goal).last() == goal,
        astar_route(grid, start, goal).len() == distance(grid, start, goal) + 1,
        forall|i: int|
            1 <= i < astar_route(grid, start, goal).len() ==> adjacent(
                astar_route(grid, start, goal)[i - 1],
                #[trigger] astar_route(grid, start, goal)[i],
            ),
{
    let n = choose|n: nat| within(grid, start, goal, n);
    lemma_distance_exists(grid, start, goal, n);
    lemma_trace_back_route(grid, start, goal, goal, distance(grid, start, goal));
}

/// Whenever some walk joins two cells that are not walls, the search returns
/// a route, and that route is no longer than the walk.
pub proof fn lemma_astar_route_shortest(
    grid: Grid,
    start: (int, int),
    goal: (int, int),
    other: Seq<(int, int)>,
)
    requires
        !grid.wall_at(start.0, start.1),
        !grid.wall_at(goal.0, goal.1),
        is_route(grid, other),
        other[0] == start,
        other.last() == goal,
    ensures
        0 < astar_route(grid, start, goal).len() <= other.len(),
{
    lemma_route_within(grid, other);
    let n = (other.len() - 1) as nat;
    assert(reachable(grid, start, goal));
    lemma_distance_exists(grid, start, goal, n);
    lemma_trace_back_route(grid, start, goal, goal, distance(grid, start, goal));
}

/// The search returns no route exactly when an endpoint is a wall or no walk
/// joins the two cells.
pub proof fn lemma_astar_empty_iff(grid: Grid, start: (int, int), goal: (int, int))
    ensures
        astar_route(grid, start, goal).len() == 0 <==> (grid.wall_at(start.0, start.1)
            || grid.wall_at(goal.0, goal.1) || !reachable(grid, start, goal)),
{
    if !(grid.wall_at(start.0, start.1) || grid.wall_at(goal.0, goal.1) || !reachable(
        grid,
        start,
        goal,
    )) {
        let n = choose|n: nat| within(grid, start, goal, n);
        lemma_distance_exists(grid, start, goal, n);
        lemma_trace_back_route(grid, start, goal, goal, distance(grid, start, goal));
    }
}

/// Two results of the search for the same grid, start and goal are the same
/// sequence of cells.
pub proof fn lemma_astar_deterministic(
    grid: Grid,
    start: (usize, usize),
    goal: (usize, usize),
    first: Seq<(usize, usize)>,
    second: Seq<(usize, usize)>,
)
    requires
        cells(first) == astar_route(grid, cell(start), cell(goal)),
        cells(second) == astar_route(grid, cell(start), cell(goal)),
    ensures
        first == second,
{
    assert(first.len() == cells(first).len());
    assert(second.len() == cells(second).len());
    assert forall|i: int| 0 <= i < first.len() implies first[i] == second[i] by {
        assert(cells(first)[i] == cell(first[i]));
        assert(cells(second)[i] == cell(second[i]));
    }
    assert(first =~= second);
}

} // verus!
