use crate::cell_table::{count_true, lemma_count_true_bounded, lemma_count_true_raise, CellTable};
use crate::map::{cell_index, lemma_blocked_is_wall, Grid, RuntimeMapAdapter};
use crate::open_set::{key_le, Node, OpenSet};
use crate::pathfinding::{
    adjacent, best_pred, cell, cells, is_best_pred, is_distance, manhattan, manhattan_dist,
    neighbour_within, passable, preferred, reachable, trace_back, within,
};
use crate::route::{
    lemma_adjacent_cases, lemma_best_pred_unique, lemma_manhattan_step, lemma_within_cell, lemma_within_monotone,
    lemma_within_step,
};
use vstd::multiset::Multiset;
use vstd::prelude::*;

verus! {

/// What is searched for: a route over `grid` from `start` to `goal`.
pub struct Quest {
    pub grid: Grid,
    pub start: (int, int),
    pub goal: (int, int),
}

/// Where the search stands: the rank of the cell that left the open set last,
/// and how many neighbours of the cell `cur` have been relaxed.
pub struct Phase {
    pub last: (int, int, int, int),
    pub cur: (int, int),
    pub relaxed: int,
}

/// The working state of a search: best known cost, predecessor and closed flag
/// for every cell, and the cells waiting to be expanded.
pub struct Search {
    pub g_score: CellTable<usize>,
    pub came_from: CellTable<Option<(usize, usize)>>,
    pub closed: CellTable<bool>,
    pub open: OpenSet,
}

/// Lexicographic order on `(f, g, y, x)`.
pub open spec fn rank_lt(a: (int, int, int, int), b: (int, int, int, int)) -> bool {
    a.0 < b.0 || (a.0 == b.0 && (a.1 < b.1 || (a.1 == b.1 && (a.2 < b.2 || (a.2 == b.2 && a.3
        < b.3)))))
}

/// Lexicographic order on `(f, g, y, x)`, equality included.
pub open spec fn rank_le(a: (int, int, int, int), b: (int, int, int, int)) -> bool {
    a == b || rank_lt(a, b)
}

/// The rank of cell `(x, y)` when its cost so far is `g`.
pub open spec fn rank_of(goal: (int, int), x: int, y: int, g: int) -> (int, int, int, int) {
    (g + manhattan_dist((x, y), goal), g, y, x)
}

/// The rank of a waiting entry.
pub open spec fn node_rank(e: Node) -> (int, int, int, int) {
    (e.f as int, e.g as int, e.y as int, e.x as int)
}

/// The waiting entry of cell `(x, y)` at cost `g`.
pub open spec fn node_of(goal: (int, int), x: int, y: int, g: int) -> Node {
    Node { f: (g + manhattan_dist((x, y), goal)) as u128, g: g as usize, x: x as usize, y: y as usize }
}

/// Position of `n` among the neighbours of `c`, in the order they are relaxed.
pub open spec fn neighbour_rank(c: (int, int), n: (int, int)) -> int {
    if n == (c.0 + 1, c.1) {
        0
    } else if n == (c.0 - 1, c.1) {
        1
    } else if n == (c.0, c.1 + 1) {
        2
    } else {
        3
    }
}

impl Search {
    /// Best known cost of cell `(x, y)`; the largest word where none is known.
    pub open spec fn g(&self, x: int, y: int) -> int {
        self.g_score.at(x, y) as int
    }

    /// Whether a cost is known for cell `(x, y)`.
    pub open spec fn known(&self, x: int, y: int) -> bool {
        self.g(x, y) < usize::MAX
    }

    /// Whether cell `(x, y)` is closed.
    pub open spec fn done(&self, x: int, y: int) -> bool {
        self.closed.at(x, y)
    }

    /// The cell from which `(x, y)` was entered; the cell itself where none is recorded.
    pub open spec fn pred(&self, x: int, y: int) -> (int, int) {
        match self.came_from.at(x, y) {
            Some(w) => cell(w),
            None => (x, y),
        }
    }

    /// Number of closed cells.
    pub open spec fn closed_count(&self) -> nat {
        count_true(self.closed.flat())
    }

    /// The tables have the dimensions of the grid, both ends lie in it, and the start costs nothing.
    pub open spec fn inv_tables(&self, q: Quest) -> bool {
        &&& q.grid.wf()
        &&& q.grid.width * q.grid.height <= usize::MAX
        &&& q.grid.in_bounds(q.start.0, q.start.1)
        &&& q.grid.in_bounds(q.goal.0, q.goal.1)
        &&& self.g_score.wf() && self.g_score.width() == q.grid.width && self.g_score.height()
            == q.grid.height
        &&& self.came_from.wf() && self.came_from.width() == q.grid.width
            && self.came_from.height() == q.grid.height
        &&& self.closed.wf() && self.closed.width() == q.grid.width && self.closed.height()
            == q.grid.height
        &&& self.closed.flat().len() == q.grid.width * q.grid.height
        &&& self.g(q.start.0, q.start.1) == 0
    }

    /// A known cost is witnessed by a walk of that many steps.
    pub open spec fn inv_known(&self, q: Quest) -> bool {
        forall|x: int, y: int|
            q.grid.in_bounds(x, y) && #[trigger] self.known(x, y) ==> within(
                q.grid,
                q.start,
                (x, y),
                self.g(x, y) as nat,
            ) && ((x, y) == q.start || passable(q.grid, (x, y)))
    }

    /// The cost of a closed cell is its distance from the start.
    pub open spec fn inv_closed(&self, q: Quest) -> bool {
        forall|x: int, y: int|
            q.grid.in_bounds(x, y) && #[trigger] self.done(x, y) ==> self.known(x, y)
                && is_distance(q.grid, q.start, (x, y), self.g(x, y) as nat)
    }

    /// Every known cell but the start was entered from a closed neighbour that
    /// costs one step less.
    pub open spec fn inv_pred(&self, q: Quest) -> bool {
        forall|x: int, y: int|
            q.grid.in_bounds(x, y) && #[trigger] self.known(x, y) && (x, y) != q.start ==> {
                let w = self.pred(x, y);
                &&& self.came_from.at(x, y) is Some
                &&& q.grid.in_bounds(w.0, w.1)
                &&& adjacent(w, (x, y))
                &&& self.done(w.0, w.1)
                &&& self.g(w.0, w.1) + 1 == self.g(x, y)
            }
    }

    /// Every known cell that is not closed waits in the open set at its cost.
    pub open spec fn inv_open_has(&self, q: Quest) -> bool {
        forall|x: int, y: int|
            q.grid.in_bounds(x, y) && #[trigger] self.known(x, y) && !self.done(x, y)
                ==> self.open@.count(node_of(q.goal, x, y, self.g(x, y))) > 0
    }

    /// Every waiting entry names a cell of the grid, at a cost no better than
    /// the best known one, and ranks no earlier than the last cell that left.
    pub open spec fn inv_open_entries(&self, q: Quest, last: (int, int, int, int)) -> bool {
        forall|e: Node| #[trigger]
            self.open@.count(e) > 0 ==> {
                &&& q.grid.in_bounds(e.x as int, e.y as int)
                &&& e.f == e.g + manhattan_dist((e.x as int, e.y as int), q.goal)
                &&& self.g(e.x as int, e.y as int) <= e.g
                &&& e.g < usize::MAX
                &&& rank_le(last, node_rank(e))
            }
    }

    /// Whether the step from closed cell `c` to its neighbour `n` has been
    /// relaxed.
    pub open spec fn settled(p: Phase, c: (int, int), n: (int, int)) -> bool {
        c != p.cur || neighbour_rank(c, n) < p.relaxed
    }

    /// A relaxed step leaves the neighbour at most one step dearer.
    pub open spec fn inv_expanded(&self, q: Quest, p: Phase) -> bool {
        forall|x: int, y: int, nx: int, ny: int|
            #![trigger self.done(x, y), self.g(nx, ny)]
            q.grid.in_bounds(x, y) && q.grid.in_bounds(nx, ny) && self.done(x, y) && adjacent(
                (x, y),
                (nx, ny),
            ) && passable(q.grid, (nx, ny)) && Self::settled(p, (x, y), (nx, ny)) ==> self.g(
                nx,
                ny,
            ) <= self.g(x, y) + 1
    }

    /// Closed cells rank no later than the last cell that left the open set.
    pub open spec fn inv_order(&self, q: Quest, last: (int, int, int, int)) -> bool {
        forall|x: int, y: int|
            q.grid.in_bounds(x, y) && #[trigger] self.done(x, y) ==> rank_le(
                rank_of(q.goal, x, y, self.g(x, y)),
                last,
            )
    }

    /// The recorded predecessor is preferred over every closed neighbour that
    /// would serve as well.
    pub open spec fn inv_tie(&self, q: Quest) -> bool {
        forall|x: int, y: int, ox: int, oy: int|
            #![trigger self.known(x, y), self.done(ox, oy)]
            q.grid.in_bounds(x, y) && self.known(x, y) && (x, y) != q.start && q.grid.in_bounds(
                ox,
                oy,
            ) && self.done(ox, oy) && adjacent((ox, oy), (x, y)) && self.g(ox, oy) + 1 == self.g(
                x,
                y,
            ) ==> preferred(q.goal, self.pred(x, y), (ox, oy))
    }

    /// The recorded predecessor of a closed cell is its best predecessor.
    pub open spec fn inv_best(&self, q: Quest) -> bool {
        forall|x: int, y: int|
            q.grid.in_bounds(x, y) && #[trigger] self.done(x, y) && (x, y) != q.start
                ==> is_best_pred(
                q.grid,
                q.start,
                q.goal,
                (x, y),
                self.g(x, y) as nat,
                self.pred(x, y),
            )
    }

    /// No known cost exceeds the number of closed cells, and the cost of a
    /// closed cell is below it.
    pub open spec fn inv_count(&self, q: Quest) -> bool {
        &&& forall|x: int, y: int|
            q.grid.in_bounds(x, y) && #[trigger] self.known(x, y) ==> self.g(x, y)
                <= self.closed_count()
        &&& forall|x: int, y: int|
            q.grid.in_bounds(x, y) && #[trigger] self.done(x, y) ==> self.g(x, y)
                < self.closed_count()
    }

    /// While a cell is being expanded it is closed and it is the last that
    /// left the open set.
    pub open spec fn inv_expanding(&self, q: Quest, p: Phase) -> bool {
        &&& 0 <= p.relaxed <= 4
        &&& p.relaxed < 4 ==> {
            &&& q.grid.in_bounds(p.cur.0, p.cur.1)
            &&& self.done(p.cur.0, p.cur.1)
            &&& p.last == rank_of(q.goal, p.cur.0, p.cur.1, self.g(p.cur.0, p.cur.1))
        }
    }

    /// Everything the search relies on between two of its steps.
    pub open spec fn inv(&self, q: Quest, p: Phase) -> bool {
        &&& self.inv_tables(q)
        &&& self.inv_known(q)
        &&& self.inv_closed(q)
        &&& self.inv_pred(q)
        &&& self.inv_open_has(q)
        &&& self.inv_open_entries(q, p.last)
        &&& self.inv_expanded(q, p)
        &&& self.inv_order(q, p.last)
        &&& self.inv_tie(q)
        &&& self.inv_best(q)
        &&& self.inv_count(q)
        &&& self.inv_expanding(q, p)
    }
}

/// In a well-formed grid a passable cell lies inside the grid.
pub proof fn lemma_passable_in_bounds(grid: Grid, c: (int, int))
    requires
        passable(grid, c),
    ensures
        grid.in_bounds(c.0, c.1),
        !grid.wall_at(c.0, c.1),
{
    lemma_blocked_is_wall(grid, c.0, c.1);
}

/// The rank of a waiting entry built for a cell of the grid.
pub proof fn lemma_node_rank(q: Quest, x: int, y: int, g: int)
    requires
        q.grid.in_bounds(x, y),
        q.grid.in_bounds(q.goal.0, q.goal.1),
        q.grid.width * q.grid.height <= usize::MAX,
        0 <= g <= usize::MAX,
    ensures
        node_rank(node_of(q.goal, x, y, g)) == rank_of(q.goal, x, y, g),
{
    lemma_grid_sides(q.grid, x, y);
    lemma_grid_sides(q.grid, q.goal.0, q.goal.1);
}

/// Each coordinate of a cell of the grid fits the machine word.
pub proof fn lemma_grid_sides(grid: Grid, x: int, y: int)
    requires
        grid.in_bounds(x, y),
        grid.width * grid.height <= usize::MAX,
    ensures
        grid.width <= usize::MAX,
        grid.height <= usize::MAX,
        0 <= x < usize::MAX,
        0 <= y < usize::MAX,
{
    assert(grid.width <= grid.width * grid.height && grid.height <= grid.width * grid.height)
        by (nonlinear_arith)
        requires
            grid.width >= 1,
            grid.height >= 1,
    ;
}

/// While some cell is not closed, fewer cells are closed than the grid holds.
pub proof fn lemma_room_left(s: Search, q: Quest, x: int, y: int)
    requires
        s.inv_tables(q),
        q.grid.in_bounds(x, y),
        !s.done(x, y),
    ensures
        s.closed_count() < q.grid.width * q.grid.height,
        s.closed_count() < usize::MAX,
{
    s.closed.lemma_flat_at(x, y);
    lemma_count_true_raise(s.closed.flat(), cell_index(s.closed.width(), x, y));
}

/// The least waiting entry of a cell that is not closed carries the best
/// known cost of that cell.
pub proof fn lemma_popped_cost(s: Search, q: Quest, p: Phase, e: Node)
    requires
        s.inv_tables(q),
        s.inv_open_has(q),
        s.inv_open_entries(q, p.last),
        s.open@.count(e) > 0,
        forall|o: Node| s.open@.count(o) > 0 ==> key_le(e, o),
        !s.done(e.x as int, e.y as int),
    ensures
        q.grid.in_bounds(e.x as int, e.y as int),
        s.known(e.x as int, e.y as int),
        s.g(e.x as int, e.y as int) == e.g,
        e == node_of(q.goal, e.x as int, e.y as int, e.g as int),
        node_rank(e) == rank_of(q.goal, e.x as int, e.y as int, e.g as int),
{
    let x = e.x as int;
    let y = e.y as int;
    assert(s.known(x, y));
    let fresh = node_of(q.goal, x, y, s.g(x, y));
    lemma_node_rank(q, x, y, s.g(x, y));
    lemma_node_rank(q, x, y, e.g as int);
    assert(s.open@.count(fresh) > 0);
    assert(key_le(e, fresh));
}

/// Before the least waiting entry `e` is closed, every cell that ranks before
/// it at a cost that some walk achieves is already closed, at no more than
/// that cost.
pub proof fn lemma_earlier_ranks_closed(
    s: Search,
    q: Quest,
    p: Phase,
    e: Node,
    x: int,
    y: int,
    n: nat,
)
    requires
        s.inv_tables(q),
        s.inv_closed(q),
        s.inv_open_has(q),
        s.inv_expanded(q, p),
        s.inv_count(q),
        p.relaxed == 4,
        s.open@.count(e) > 0,
        forall|o: Node| s.open@.count(o) > 0 ==> key_le(e, o),
        within(q.grid, q.start, (x, y), n),
        rank_lt(rank_of(q.goal, x, y, n as int), node_rank(e)),
    ensures
        q.grid.in_bounds(x, y),
        s.done(x, y),
        s.g(x, y) <= n,
    decreases n,
{
    lemma_within_cell(q.grid, q.start, (x, y), n);
    if (x, y) != q.start {
        lemma_passable_in_bounds(q.grid, (x, y));
    }
    if n > 0 && within(q.grid, q.start, (x, y), (n - 1) as nat) {
        lemma_earlier_ranks_closed(s, q, p, e, x, y, (n - 1) as nat);
    } else {
        if n > 0 {
            let k = (n - 1) as nat;
            assert(neighbour_within(q.grid, q.start, (x, y), k));
            let w: (int, int) = if within(q.grid, q.start, (x + 1, y), k) {
                (x + 1, y)
            } else if within(q.grid, q.start, (x - 1, y), k) {
                (x - 1, y)
            } else if within(q.grid, q.start, (x, y + 1), k) {
                (x, y + 1)
            } else {
                (x, y - 1)
            };
            assert(within(q.grid, q.start, w, k));
            assert(adjacent(w, (x, y)));
            lemma_manhattan_step(w, (x, y), q.goal);
            lemma_earlier_ranks_closed(s, q, p, e, w.0, w.1, k);
            assert(s.done(w.0, w.1));
            assert(Search::settled(p, w, (x, y)));
            assert(s.g(x, y) <= s.g(w.0, w.1) + 1);
        }
        assert(s.g(x, y) <= n);
        if !s.done(x, y) {
            lemma_room_left(s, q, x, y);
            assert(s.known(x, y));
            let fresh = node_of(q.goal, x, y, s.g(x, y));
            lemma_node_rank(q, x, y, s.g(x, y));
            assert(s.open@.count(fresh) > 0);
            assert(key_le(e, fresh));
            assert(false);
        }
    }
}

/// What the invariant says of the tables alone carries over to a state with
/// the same tables.
proof fn lemma_same_tables(old: Search, new: Search, q: Quest, p: Phase)
    requires
        old.inv(q, p),
        new.g_score == old.g_score,
        new.came_from == old.came_from,
        new.closed == old.closed,
    ensures
        new.inv_tables(q),
        new.inv_known(q),
        new.inv_closed(q),
        new.inv_pred(q),
        new.inv_expanded(q, p),
        new.inv_order(q, p.last),
        new.inv_tie(q),
        new.inv_best(q),
        new.inv_count(q),
        new.inv_expanding(q, p),
{
    assert(new.inv_known(q)) by {
        assert forall|x: int, y: int| q.grid.in_bounds(x, y) && #[trigger] new.known(
            x,
            y,
        ) implies within(q.grid, q.start, (x, y), new.g(x, y) as nat) && ((x, y) == q.start
            || passable(q.grid, (x, y))) by {
            assert(old.known(x, y));
        }
    }
    assert(new.inv_closed(q)) by {
        assert forall|x: int, y: int| q.grid.in_bounds(x, y) && #[trigger] new.done(
            x,
            y,
        ) implies new.known(x, y) && is_distance(q.grid, q.start, (x, y), new.g(x, y) as nat) by {
            assert(old.done(x, y));
        }
    }
    assert(new.inv_pred(q)) by {
        assert forall|x: int, y: int|
            q.grid.in_bounds(x, y) && #[trigger] new.known(x, y) && (x, y) != q.start implies {
            let w = new.pred(x, y);
            &&& new.came_from.at(x, y) is Some
            &&& q.grid.in_bounds(w.0, w.1)
            &&& adjacent(w, (x, y))
            &&& new.done(w.0, w.1)
            &&& new.g(w.0, w.1) + 1 == new.g(x, y)
        } by {
            assert(old.known(x, y));
        }
    }
    assert(new.inv_expanded(q, p)) by {
        assert forall|x: int, y: int, nx: int, ny: int|
            #![trigger new.done(x, y), new.g(nx, ny)]
            q.grid.in_bounds(x, y) && q.grid.in_bounds(nx, ny) && new.done(x, y) && adjacent(
                (x, y),
                (nx, ny),
            ) && passable(q.grid, (nx, ny)) && Search::settled(p, (x, y), (nx, ny)) implies new.g(
            nx,
            ny,
        ) <= new.g(x, y) + 1 by {
            assert(old.done(x, y));
            assert(old.g(nx, ny) <= old.g(x, y) + 1);
        }
    }
    assert(new.inv_order(q, p.last)) by {
        assert forall|x: int, y: int| q.grid.in_bounds(x, y) && #[trigger] new.done(
            x,
            y,
        ) implies rank_le(rank_of(q.goal, x, y, new.g(x, y)), p.last) by {
            assert(old.done(x, y));
        }
    }
    assert(new.inv_tie(q)) by {
        assert forall|x: int, y: int, ox: int, oy: int|
            #![trigger new.known(x, y), new.done(ox, oy)]
            q.grid.in_bounds(x, y) && new.known(x, y) && (x, y) != q.start && q.grid.in_bounds(
                ox,
                oy,
            ) && new.done(ox, oy) && adjacent((ox, oy), (x, y)) && new.g(ox, oy) + 1 == new.g(
                x,
                y,
            ) implies preferred(q.goal, new.pred(x, y), (ox, oy)) by {
            assert(old.known(x, y));
            assert(old.done(ox, oy));
        }
    }
    assert(new.inv_best(q)) by {
        assert forall|x: int, y: int|
            q.grid.in_bounds(x, y) && #[trigger] new.done(x, y) && (x, y)
                != q.start implies is_best_pred(
            q.grid,
            q.start,
            q.goal,
            (x, y),
            new.g(x, y) as nat,
            new.pred(x, y),
        ) by {
            assert(old.done(x, y));
        }
    }
    assert(new.inv_count(q)) by {
        assert forall|x: int, y: int| q.grid.in_bounds(x, y) && #[trigger] new.known(
            x,
            y,
        ) implies new.g(x, y) <= new.closed_count() by {
            assert(old.known(x, y));
        }
        assert forall|x: int, y: int| q.grid.in_bounds(x, y) && #[trigger] new.done(
            x,
            y,
        ) implies new.g(x, y) < new.closed_count() by {
            assert(old.done(x, y));
        }
    }
    assert(new.inv_expanding(q, p)) by {
        if p.relaxed < 4 {
            assert(old.done(p.cur.0, p.cur.1));
        }
    }
}

/// `new` is `old` after the waiting entry `e`, whose cell was closed before,
/// has been thrown away.
pub proof fn lemma_drop_stale(old: Search, new: Search, q: Quest, p: Phase, e: Node)
    requires
        old.inv(q, p),
        old.open@.count(e) > 0,
        old.done(e.x as int, e.y as int),
        new.open@ == old.open@.remove(e),
        new.g_score == old.g_score,
        new.came_from == old.came_from,
        new.closed == old.closed,
    ensures
        new.inv(q, p),
        new.open@.len() < old.open@.len(),
{
    broadcast use vstd::multiset::group_multiset_axioms;

    lemma_same_tables(old, new, q, p);
    assert(new.inv_open_has(q)) by {
        assert forall|x: int, y: int|
            q.grid.in_bounds(x, y) && #[trigger] new.known(x, y) && !new.done(
                x,
                y,
            ) implies new.open@.count(node_of(q.goal, x, y, new.g(x, y))) > 0 by {
            assert(old.known(x, y));
            lemma_grid_sides(q.grid, x, y);
            assert(node_of(q.goal, x, y, old.g(x, y)) != e);
        }
    }
    assert(new.inv_open_entries(q, p.last)) by {
        assert forall|o: Node| #[trigger] new.open@.count(o) > 0 implies {
            &&& q.grid.in_bounds(o.x as int, o.y as int)
            &&& o.f == o.g + manhattan_dist((o.x as int, o.y as int), q.goal)
            &&& new.g(o.x as int, o.y as int) <= o.g
            &&& o.g < usize::MAX
            &&& rank_le(p.last, node_rank(o))
        } by {
            assert(old.open@.count(o) > 0);
        }
    }
}

/// `new` is `old` after its least waiting entry `e`, whose cell was not
/// closed, has been taken out and that cell closed.
pub open spec fn closes(old: Search, new: Search, q: Quest, p: Phase, e: Node) -> bool {
    &&& old.inv(q, p)
    &&& p.relaxed == 4
    &&& old.open@.count(e) > 0
    &&& forall|o: Node| old.open@.count(o) > 0 ==> key_le(e, o)
    &&& !old.done(e.x as int, e.y as int)
    &&& new.open@ == old.open@.remove(e)
    &&& new.g_score == old.g_score
    &&& new.came_from == old.came_from
    &&& new.closed.wf()
    &&& new.closed.width() == old.closed.width()
    &&& new.closed.height() == old.closed.height()
    &&& new.closed.at(e.x as int, e.y as int)
    &&& forall|x: int, y: int|
        q.grid.in_bounds(x, y) && !(x == e.x && y == e.y) ==> #[trigger] new.closed.at(x, y)
            == old.closed.at(x, y)
    &&& new.closed.flat() == old.closed.flat().update(
        cell_index(q.grid.width, e.x as int, e.y as int),
        true,
    )
}

/// The phase right after the cell of `e` has been closed.
pub open spec fn closing_phase(e: Node) -> Phase {
    Phase { last: node_rank(e), cur: (e.x as int, e.y as int), relaxed: 0 }
}

proof fn lemma_close_basic(old: Search, new: Search, q: Quest, p: Phase, e: Node)
    requires
        closes(old, new, q, p, e),
    ensures
        new.inv_tables(q),
        new.inv_known(q),
        new.inv_pred(q),
        new.inv_open_has(q),
        new.inv_open_entries(q, node_rank(e)),
        new.inv_count(q),
        new.inv_expanding(q, closing_phase(e)),
        new.closed_count() == old.closed_count() + 1,
        new.open@.len() < old.open@.len(),
{
    broadcast use vstd::multiset::group_multiset_axioms;

    let ex = e.x as int;
    let ey = e.y as int;
    lemma_popped_cost(old, q, p, e);
    old.closed.lemma_flat_at(ex, ey);
    lemma_count_true_raise(old.closed.flat(), cell_index(q.grid.width, ex, ey));
    assert(new.inv_known(q)) by {
        assert forall|x: int, y: int| q.grid.in_bounds(x, y) && #[trigger] new.known(
            x,
            y,
        ) implies within(q.grid, q.start, (x, y), new.g(x, y) as nat) && ((x, y) == q.start
            || passable(q.grid, (x, y))) by {
            assert(old.known(x, y));
        }
    }
    assert(new.inv_pred(q)) by {
        assert forall|x: int, y: int|
            q.grid.in_bounds(x, y) && #[trigger] new.known(x, y) && (x, y) != q.start implies {
            let w = new.pred(x, y);
            &&& new.came_from.at(x, y) is Some
            &&& q.grid.in_bounds(w.0, w.1)
            &&& adjacent(w, (x, y))
            &&& new.done(w.0, w.1)
            &&& new.g(w.0, w.1) + 1 == new.g(x, y)
        } by {
            assert(old.known(x, y));
            let w = old.pred(x, y);
            assert(old.done(w.0, w.1));
        }
    }
    assert(new.inv_open_has(q)) by {
        assert forall|x: int, y: int|
            q.grid.in_bounds(x, y) && #[trigger] new.known(x, y) && !new.done(
                x,
                y,
            ) implies new.open@.count(node_of(q.goal, x, y, new.g(x, y))) > 0 by {
            assert(old.known(x, y));
            assert(!old.done(x, y));
            lemma_grid_sides(q.grid, x, y);
            assert(node_of(q.goal, x, y, old.g(x, y)) != e);
        }
    }
    assert(new.inv_open_entries(q, node_rank(e))) by {
        assert forall|o: Node| #[trigger] new.open@.count(o) > 0 implies {
            &&& q.grid.in_bounds(o.x as int, o.y as int)
            &&& o.f == o.g + manhattan_dist((o.x as int, o.y as int), q.goal)
            &&& new.g(o.x as int, o.y as int) <= o.g
            &&& o.g < usize::MAX
            &&& rank_le(node_rank(e), node_rank(o))
        } by {
            assert(old.open@.count(o) > 0);
            assert(key_le(e, o));
        }
    }
    assert(new.inv_count(q)) by {
        assert forall|x: int, y: int| q.grid.in_bounds(x, y) && #[trigger] new.known(
            x,
            y,
        ) implies new.g(x, y) <= new.closed_count() by {
            assert(old.known(x, y));
        }
        assert forall|x: int, y: int| q.grid.in_bounds(x, y) && #[trigger] new.done(
            x,
            y,
        ) implies new.g(x, y) < new.closed_count() by {
            if x == ex && y == ey {
                assert(old.known(x, y));
            } else {
                assert(old.done(x, y));
            }
        }
    }
}

proof fn lemma_close_closed(old: Search, new: Search, q: Quest, p: Phase, e: Node)
    requires
        closes(old, new, q, p, e),
    ensures
        new.inv_closed(q),
        new.inv_order(q, node_rank(e)),
        new.inv_expanded(q, closing_phase(e)),
{
    let ex = e.x as int;
    let ey = e.y as int;
    lemma_popped_cost(old, q, p, e);
    assert(old.known(ex, ey));
    let d = old.g(ex, ey);
    if d > 0 && within(q.grid, q.start, (ex, ey), (d - 1) as nat) {
        lemma_earlier_ranks_closed(old, q, p, e, ex, ey, (d - 1) as nat);
    }
    assert(new.inv_closed(q)) by {
        assert forall|x: int, y: int| q.grid.in_bounds(x, y) && #[trigger] new.done(
            x,
            y,
        ) implies new.known(x, y) && is_distance(q.grid, q.start, (x, y), new.g(x, y) as nat) by {
            if !(x == ex && y == ey) {
                assert(old.done(x, y));
            }
        }
    }
    assert(new.inv_order(q, node_rank(e))) by {
        assert forall|x: int, y: int| q.grid.in_bounds(x, y) && #[trigger] new.done(
            x,
            y,
        ) implies rank_le(rank_of(q.goal, x, y, new.g(x, y)), node_rank(e)) by {
            if !(x == ex && y == ey) {
                assert(old.done(x, y));
            }
        }
    }
    assert(new.inv_expanded(q, closing_phase(e))) by {
        assert forall|x: int, y: int, nx: int, ny: int|
            #![trigger new.done(x, y), new.g(nx, ny)]
            q.grid.in_bounds(x, y) && q.grid.in_bounds(nx, ny) && new.done(x, y) && adjacent(
                (x, y),
                (nx, ny),
            ) && passable(q.grid, (nx, ny)) && Search::settled(
                closing_phase(e),
                (x, y),
                (nx, ny),
            ) implies new.g(nx, ny) <= new.g(x, y) + 1 by {
            assert(!(x == ex && y == ey));
            assert(old.done(x, y));
            assert(Search::settled(p, (x, y), (nx, ny)));
            assert(old.g(nx, ny) <= old.g(x, y) + 1);
        }
    }
}

proof fn lemma_close_tie(old: Search, new: Search, q: Quest, p: Phase, e: Node)
    requires
        closes(old, new, q, p, e),
    ensures
        new.inv_tie(q),
{
    let ex = e.x as int;
    let ey = e.y as int;
    lemma_popped_cost(old, q, p, e);
    assert forall|x: int, y: int, ox: int, oy: int|
        #![trigger new.known(x, y), new.done(ox, oy)]
        q.grid.in_bounds(x, y) && new.known(x, y) && (x, y) != q.start && q.grid.in_bounds(ox, oy)
            && new.done(ox, oy) && adjacent((ox, oy), (x, y)) && new.g(ox, oy) + 1 == new.g(
            x,
            y,
        ) implies preferred(q.goal, new.pred(x, y), (ox, oy)) by {
        assert(old.known(x, y));
        if ox == ex && oy == ey {
            let w = old.pred(x, y);
            assert(old.done(w.0, w.1));
            assert(rank_le(rank_of(q.goal, w.0, w.1, old.g(w.0, w.1)), p.last));
            assert(rank_le(p.last, node_rank(e)));
        } else {
            assert(old.done(ox, oy));
        }
    }
}

proof fn lemma_close_best(old: Search, new: Search, q: Quest, p: Phase, e: Node)
    requires
        closes(old, new, q, p, e),
        new.inv_closed(q),
        new.inv_tie(q),
    ensures
        new.inv_best(q),
{
    let ex = e.x as int;
    let ey = e.y as int;
    lemma_popped_cost(old, q, p, e);
    assert forall|x: int, y: int|
        q.grid.in_bounds(x, y) && #[trigger] new.done(x, y) && (x, y) != q.start implies is_best_pred(
        q.grid,
        q.start,
        q.goal,
        (x, y),
        new.g(x, y) as nat,
        new.pred(x, y),
    ) by {
        if x == ex && y == ey {
            assert(old.known(x, y));
            let d = old.g(x, y) as nat;
            let w = old.pred(x, y);
            assert(old.done(w.0, w.1));
            assert(old.known(w.0, w.1));
            assert(is_distance(q.grid, q.start, (x, y), d));
            assert forall|o: (int, int)| adjacent(o, (x, y)) && #[trigger] within(
                q.grid,
                q.start,
                o,
                (d - 1) as nat,
            ) implies preferred(q.goal, w, o) by {
                lemma_manhattan_step(o, (x, y), q.goal);
                lemma_earlier_ranks_closed(old, q, p, e, o.0, o.1, (d - 1) as nat);
                assert(old.done(o.0, o.1));
                assert(old.known(o.0, o.1));
                if old.g(o.0, o.1) + 1 < d {
                    lemma_within_step(q.grid, q.start, o, (x, y), old.g(o.0, o.1) as nat);
                    lemma_within_monotone(
                        q.grid,
                        q.start,
                        (x, y),
                        (old.g(o.0, o.1) + 1) as nat,
                        (d - 1) as nat,
                    );
                }
                assert(new.done(o.0, o.1));
                assert(new.known(x, y));
            }
        } else {
            assert(old.done(x, y));
        }
    }
}

/// Closing the cell of the least waiting entry keeps the search sound; the
/// cell then stands at its distance from the start.
pub proof fn lemma_close(old: Search, new: Search, q: Quest, p: Phase, e: Node)
    requires
        closes(old, new, q, p, e),
    ensures
        new.inv(q, closing_phase(e)),
        new.closed_count() == old.closed_count() + 1,
        new.closed_count() <= q.grid.width * q.grid.height,
        new.g(e.x as int, e.y as int) == e.g,
{
    lemma_close_basic(old, new, q, p, e);
    lemma_close_closed(old, new, q, p, e);
    lemma_close_tie(old, new, q, p, e);
    lemma_close_best(old, new, q, p, e);
    lemma_popped_cost(old, q, p, e);
    lemma_count_true_bounded(new.closed.flat());
}

/// The `k`-th neighbour of `c`, in the order they are relaxed.
pub open spec fn neighbour_at(c: (int, int), k: int) -> (int, int) {
    if k == 0 {
        (c.0 + 1, c.1)
    } else if k == 1 {
        (c.0 - 1, c.1)
    } else if k == 2 {
        (c.0, c.1 + 1)
    } else {
        (c.0, c.1 - 1)
    }
}

/// The phase after one more neighbour has been relaxed.
pub open spec fn next_phase(p: Phase) -> Phase {
    Phase { relaxed: p.relaxed + 1, ..p }
}

/// A neighbour that is outside the grid, blocked, closed, or already as cheap
/// as the step would make it needs no change.
pub proof fn lemma_relax_skip(s: Search, q: Quest, p: Phase, n: (int, int))
    requires
        s.inv(q, p),
        0 <= p.relaxed < 4,
        n == neighbour_at(p.cur, p.relaxed),
        !q.grid.in_bounds(n.0, n.1) || !passable(q.grid, n) || s.done(n.0, n.1) || s.g(n.0, n.1)
            <= s.g(p.cur.0, p.cur.1) + 1,
    ensures
        s.inv(q, next_phase(p)),
{
    let later = next_phase(p);
    assert(s.inv_expanded(q, later)) by {
        assert forall|x: int, y: int, nx: int, ny: int|
            #![trigger s.done(x, y), s.g(nx, ny)]
            q.grid.in_bounds(x, y) && q.grid.in_bounds(nx, ny) && s.done(x, y) && adjacent(
                (x, y),
                (nx, ny),
            ) && passable(q.grid, (nx, ny)) && Search::settled(later, (x, y), (nx, ny)) implies s.g(
            nx,
            ny,
        ) <= s.g(x, y) + 1 by {
            if Search::settled(p, (x, y), (nx, ny)) {
            } else {
                lemma_adjacent_cases((nx, ny), (x, y));
                assert((nx, ny) == n);
                if s.done(nx, ny) {
                    lemma_manhattan_step((x, y), (nx, ny), q.goal);
                    assert(rank_le(rank_of(q.goal, nx, ny, s.g(nx, ny)), p.last));
                }
            }
        }
    }
}

/// `new` is `old` after the step from the cell being expanded to its next
/// neighbour `n` has lowered the cost of `n` to `t`.
pub open spec fn relaxes(old: Search, new: Search, q: Quest, p: Phase, n: (int, int), t: int) -> bool {
    &&& old.inv(q, p)
    &&& 0 <= p.relaxed < 4
    &&& n == neighbour_at(p.cur, p.relaxed)
    &&& q.grid.in_bounds(n.0, n.1)
    &&& passable(q.grid, n)
    &&& !old.done(n.0, n.1)
    &&& t == old.g(p.cur.0, p.cur.1) + 1
    &&& t < old.g(n.0, n.1)
    &&& new.closed == old.closed
    &&& new.g_score.wf()
    &&& new.g_score.width() == old.g_score.width()
    &&& new.g_score.height() == old.g_score.height()
    &&& new.g(n.0, n.1) == t
    &&& forall|x: int, y: int|
        q.grid.in_bounds(x, y) && !(x == n.0 && y == n.1) ==> #[trigger] new.g_score.at(x, y)
            == old.g_score.at(x, y)
    &&& new.came_from.wf()
    &&& new.came_from.width() == old.came_from.width()
    &&& new.came_from.height() == old.came_from.height()
    &&& new.came_from.at(n.0, n.1) == Some((p.cur.0 as usize, p.cur.1 as usize))
    &&& forall|x: int, y: int|
        q.grid.in_bounds(x, y) && !(x == n.0 && y == n.1) ==> #[trigger] new.came_from.at(x, y)
            == old.came_from.at(x, y)
    &&& new.open@ == old.open@.insert(node_of(q.goal, n.0, n.1, t))
}

proof fn lemma_relax_basic(old: Search, new: Search, q: Quest, p: Phase, n: (int, int), t: int)
    requires
        relaxes(old, new, q, p, n, t),
    ensures
        n != q.start,
        new.inv_tables(q),
        new.inv_known(q),
        new.inv_closed(q),
        new.inv_pred(q),
        new.inv_count(q),
        new.inv_best(q),
        new.inv_order(q, p.last),
        new.inv_expanding(q, next_phase(p)),
        t < usize::MAX,
{
    let cx = p.cur.0;
    let cy = p.cur.1;
    lemma_grid_sides(q.grid, cx, cy);
    lemma_room_left(old, q, n.0, n.1);
    assert(old.done(cx, cy));
    assert(old.known(cx, cy));
    assert(old.g(cx, cy) < old.closed_count());
    assert(new.known(n.0, n.1));
    assert(new.inv_known(q)) by {
        assert forall|x: int, y: int| q.grid.in_bounds(x, y) && #[trigger] new.known(
            x,
            y,
        ) implies within(q.grid, q.start, (x, y), new.g(x, y) as nat) && ((x, y) == q.start
            || passable(q.grid, (x, y))) by {
            if x == n.0 && y == n.1 {
                lemma_within_step(q.grid, q.start, p.cur, n, old.g(cx, cy) as nat);
            } else {
                assert(old.known(x, y));
            }
        }
    }
    assert(new.inv_closed(q)) by {
        assert forall|x: int, y: int| q.grid.in_bounds(x, y) && #[trigger] new.done(
            x,
            y,
        ) implies new.known(x, y) && is_distance(q.grid, q.start, (x, y), new.g(x, y) as nat) by {
            assert(old.done(x, y));
        }
    }
    assert(new.inv_pred(q)) by {
        assert forall|x: int, y: int|
            q.grid.in_bounds(x, y) && #[trigger] new.known(x, y) && (x, y) != q.start implies {
            let w = new.pred(x, y);
            &&& new.came_from.at(x, y) is Some
            &&& q.grid.in_bounds(w.0, w.1)
            &&& adjacent(w, (x, y))
            &&& new.done(w.0, w.1)
            &&& new.g(w.0, w.1) + 1 == new.g(x, y)
        } by {
            if x == n.0 && y == n.1 {
                assert(new.pred(x, y) == p.cur);
            } else {
                assert(old.known(x, y));
                let w = old.pred(x, y);
                assert(old.done(w.0, w.1));
            }
        }
    }
    assert(new.inv_count(q)) by {
        assert forall|x: int, y: int| q.grid.in_bounds(x, y) && #[trigger] new.known(
            x,
            y,
        ) implies new.g(x, y) <= new.closed_count() by {
            if !(x == n.0 && y == n.1) {
                assert(old.known(x, y));
            }
        }
        assert forall|x: int, y: int| q.grid.in_bounds(x, y) && #[trigger] new.done(
            x,
            y,
        ) implies new.g(x, y) < new.closed_count() by {
            assert(old.done(x, y));
        }
    }
    assert(new.inv_best(q)) by {
        assert forall|x: int, y: int|
            q.grid.in_bounds(x, y) && #[trigger] new.done(x, y) && (x, y)
                != q.start implies is_best_pred(
            q.grid,
            q.start,
            q.goal,
            (x, y),
            new.g(x, y) as nat,
            new.pred(x, y),
        ) by {
            assert(old.done(x, y));
        }
    }
    assert(new.inv_order(q, p.last)) by {
        assert forall|x: int, y: int| q.grid.in_bounds(x, y) && #[trigger] new.done(
            x,
            y,
        ) implies rank_le(rank_of(q.goal, x, y, new.g(x, y)), p.last) by {
            assert(old.done(x, y));
        }
    }
}

proof fn lemma_relax_open(old: Search, new: Search, q: Quest, p: Phase, n: (int, int), t: int)
    requires
        relaxes(old, new, q, p, n, t),
        t < usize::MAX,
    ensures
        new.inv_open_has(q),
        new.inv_open_entries(q, p.last),
{
    broadcast use vstd::multiset::group_multiset_axioms;

    let cx = p.cur.0;
    let cy = p.cur.1;
    let fresh = node_of(q.goal, n.0, n.1, t);
    lemma_node_rank(q, n.0, n.1, t);
    lemma_manhattan_step(p.cur, n, q.goal);
    assert(old.done(cx, cy));
    assert(new.inv_open_has(q)) by {
        assert forall|x: int, y: int|
            q.grid.in_bounds(x, y) && #[trigger] new.known(x, y) && !new.done(
                x,
                y,
            ) implies new.open@.count(node_of(q.goal, x, y, new.g(x, y))) > 0 by {
            if !(x == n.0 && y == n.1) {
                assert(old.known(x, y));
                assert(!old.done(x, y));
            }
        }
    }
    assert(new.inv_open_entries(q, p.last)) by {
        assert forall|o: Node| #[trigger] new.open@.count(o) > 0 implies {
            &&& q.grid.in_bounds(o.x as int, o.y as int)
            &&& o.f == o.g + manhattan_dist((o.x as int, o.y as int), q.goal)
            &&& new.g(o.x as int, o.y as int) <= o.g
            &&& o.g < usize::MAX
            &&& rank_le(p.last, node_rank(o))
        } by {
            if o != fresh {
                assert(old.open@.count(o) > 0);
            }
        }
    }
}

proof fn lemma_relax_expanded(old: Search, new: Search, q: Quest, p: Phase, n: (int, int), t: int)
    requires
        relaxes(old, new, q, p, n, t),
    ensures
        new.inv_expanded(q, next_phase(p)),
        new.inv_tie(q),
{
    let later = next_phase(p);
    lemma_grid_sides(q.grid, p.cur.0, p.cur.1);
    assert(new.inv_expanded(q, later)) by {
        assert forall|x: int, y: int, nx: int, ny: int|
            #![trigger new.done(x, y), new.g(nx, ny)]
            q.grid.in_bounds(x, y) && q.grid.in_bounds(nx, ny) && new.done(x, y) && adjacent(
                (x, y),
                (nx, ny),
            ) && passable(q.grid, (nx, ny)) && Search::settled(later, (x, y), (nx, ny)) implies new.g(
            nx,
            ny,
        ) <= new.g(x, y) + 1 by {
            assert(old.done(x, y));
            if Search::settled(p, (x, y), (nx, ny)) {
                assert(old.g(nx, ny) <= old.g(x, y) + 1);
            } else {
                lemma_adjacent_cases((nx, ny), (x, y));
                assert((nx, ny) == n);
            }
        }
    }
    assert(new.inv_tie(q)) by {
        assert forall|x: int, y: int, ox: int, oy: int|
            #![trigger new.known(x, y), new.done(ox, oy)]
            q.grid.in_bounds(x, y) && new.known(x, y) && (x, y) != q.start && q.grid.in_bounds(
                ox,
                oy,
            ) && new.done(ox, oy) && adjacent((ox, oy), (x, y)) && new.g(ox, oy) + 1 == new.g(
                x,
                y,
            ) implies preferred(q.goal, new.pred(x, y), (ox, oy)) by {
            assert(old.done(ox, oy));
            if x == n.0 && y == n.1 {
                assert(new.pred(x, y) == p.cur);
                if (ox, oy) != p.cur {
                    assert(Search::settled(p, (ox, oy), (x, y)));
                    assert(old.g(x, y) <= old.g(ox, oy) + 1);
                }
            } else {
                assert(old.known(x, y));
            }
        }
    }
}

/// Lowering the cost of the next neighbour keeps the search sound.
pub proof fn lemma_relax(old: Search, new: Search, q: Quest, p: Phase, n: (int, int), t: int)
    requires
        relaxes(old, new, q, p, n, t),
    ensures
        new.inv(q, next_phase(p)),
{
    lemma_relax_basic(old, new, q, p, n, t);
    lemma_relax_open(old, new, q, p, n, t);
    lemma_relax_expanded(old, new, q, p, n, t);
}

/// The phase before the first cell is expanded.
pub open spec fn opening_phase(q: Quest) -> Phase {
    Phase { last: rank_of(q.goal, q.start.0, q.start.1, 0), cur: q.start, relaxed: 4 }
}

/// The state in which only the start is known, at cost zero, and waits alone.
pub proof fn lemma_begin(s: Search, q: Quest)
    requires
        q.grid.wf(),
        q.grid.width * q.grid.height <= usize::MAX,
        q.grid.in_bounds(q.start.0, q.start.1),
        q.grid.in_bounds(q.goal.0, q.goal.1),
        s.g_score.wf() && s.g_score.width() == q.grid.width && s.g_score.height()
            == q.grid.height,
        s.came_from.wf() && s.came_from.width() == q.grid.width && s.came_from.height()
            == q.grid.height,
        s.closed.wf() && s.closed.width() == q.grid.width && s.closed.height() == q.grid.height,
        s.g(q.start.0, q.start.1) == 0,
        forall|x: int, y: int|
            q.grid.in_bounds(x, y) && (x, y) != q.start ==> #[trigger] s.g_score.at(x, y)
                == usize::MAX,
        forall|x: int, y: int| q.grid.in_bounds(x, y) ==> !#[trigger] s.closed.at(x, y),
        s.open@ == Multiset::<Node>::empty().insert(node_of(q.goal, q.start.0, q.start.1, 0)),
    ensures
        s.inv(q, opening_phase(q)),
{
    broadcast use vstd::multiset::group_multiset_axioms;

    s.closed.lemma_flat_at(q.start.0, q.start.1);
    lemma_node_rank(q, q.start.0, q.start.1, 0);
    lemma_grid_sides(q.grid, q.start.0, q.start.1);
    let first = node_of(q.goal, q.start.0, q.start.1, 0);
    assert(s.inv_open_entries(q, opening_phase(q).last)) by {
        assert forall|o: Node| #[trigger] s.open@.count(o) > 0 implies {
            &&& q.grid.in_bounds(o.x as int, o.y as int)
            &&& o.f == o.g + manhattan_dist((o.x as int, o.y as int), q.goal)
            &&& s.g(o.x as int, o.y as int) <= o.g
            &&& o.g < usize::MAX
            &&& rank_le(opening_phase(q).last, node_rank(o))
        } by {
            assert(o == first);
        }
    }
}

/// Once nothing waits, every cell that a walk from the start reaches is closed.
pub proof fn lemma_exhausted(s: Search, q: Quest, p: Phase, x: int, y: int, n: nat)
    requires
        s.inv(q, p),
        p.relaxed == 4,
        s.open@.len() == 0,
        within(q.grid, q.start, (x, y), n),
    ensures
        q.grid.in_bounds(x, y),
        s.done(x, y),
    decreases n,
{
    broadcast use vstd::multiset::group_multiset_axioms;

    lemma_within_cell(q.grid, q.start, (x, y), n);
    if (x, y) != q.start {
        lemma_passable_in_bounds(q.grid, (x, y));
    }
    if n > 0 && within(q.grid, q.start, (x, y), (n - 1) as nat) {
        lemma_exhausted(s, q, p, x, y, (n - 1) as nat);
    } else {
        if n > 0 {
            let k = (n - 1) as nat;
            assert(neighbour_within(q.grid, q.start, (x, y), k));
            let w: (int, int) = if within(q.grid, q.start, (x + 1, y), k) {
                (x + 1, y)
            } else if within(q.grid, q.start, (x - 1, y), k) {
                (x - 1, y)
            } else if within(q.grid, q.start, (x, y + 1), k) {
                (x, y + 1)
            } else {
                (x, y - 1)
            };
            lemma_exhausted(s, q, p, w.0, w.1, k);
            assert(s.done(w.0, w.1));
            assert(Search::settled(p, w, (x, y)));
            assert(s.g(x, y) <= s.g(w.0, w.1) + 1);
        }
        if !s.done(x, y) {
            lemma_room_left(s, q, x, y);
            assert(s.known(x, y));
            assert(s.open@.count(node_of(q.goal, x, y, s.g(x, y))) > 0);
            assert(false);
        }
    }
}

/// Once nothing waits and the goal is not closed, no walk reaches the goal.
pub proof fn lemma_unreachable(s: Search, q: Quest, p: Phase)
    requires
        s.inv(q, p),
        p.relaxed == 4,
        s.open@.len() == 0,
        !s.done(q.goal.0, q.goal.1),
    ensures
        !reachable(q.grid, q.start, q.goal),
{
    assert forall|n: nat| !within(q.grid, q.start, q.goal, n) by {
        if within(q.grid, q.start, q.goal, n) {
            lemma_exhausted(s, q, p, q.goal.0, q.goal.1, n);
        }
    }
}

/// The recorded predecessor of a closed cell other than the start is the one
/// that `trace_back` follows.
pub proof fn lemma_pred_is_best(s: Search, q: Quest, p: Phase, x: int, y: int)
    requires
        s.inv(q, p),
        q.grid.in_bounds(x, y),
        s.done(x, y),
        (x, y) != q.start,
    ensures
        s.came_from.at(x, y) is Some,
        s.pred(x, y) == best_pred(q.grid, q.start, q.goal, (x, y), s.g(x, y) as nat),
        q.grid.in_bounds(s.pred(x, y).0, s.pred(x, y).1),
        s.done(s.pred(x, y).0, s.pred(x, y).1),
        s.g(s.pred(x, y).0, s.pred(x, y).1) + 1 == s.g(x, y),
{
    assert(s.known(x, y));
    let d = s.g(x, y) as nat;
    let w = s.pred(x, y);
    assert(is_best_pred(q.grid, q.start, q.goal, (x, y), d, w));
    lemma_best_pred_unique(
        q.grid,
        q.start,
        q.goal,
        (x, y),
        d,
        w,
        best_pred(q.grid, q.start, q.goal, (x, y), d),
    );
}

impl Search {
    /// The state before the first cell is expanded.
    pub fn begin(map: &RuntimeMapAdapter, start: (usize, usize), goal: (usize, usize)) -> (s:
        Search)
        requires
            map.wf(),
            !map@.wall_at(start.0 as int, start.1 as int),
            !map@.wall_at(goal.0 as int, goal.1 as int),
        ensures
            s.inv(quest(map@, start, goal), opening_phase(quest(map@, start, goal))),
            !s.done(goal.0 as int, goal.1 as int),
            s.open.wf(),
    {
        let ghost q = quest(map@, start, goal);
        assert(map.solid@.len() == map.solid.len());
        let mut g_score: CellTable<usize> = CellTable::filled(map.width, map.height, usize::MAX);
        let came_from: CellTable<Option<(usize, usize)>> = CellTable::filled(
            map.width,
            map.height,
            None,
        );
        let closed: CellTable<bool> = CellTable::filled(map.width, map.height, false);
        g_score.set(start.0, start.1, 0);
        let mut open = OpenSet::new();
        let h: u128 = manhattan(start, goal);
        open.push(Node { f: h, g: 0, x: start.0, y: start.1 });
        let s = Search { g_score, came_from, closed, open };
        proof {
            lemma_node_rank(q, q.start.0, q.start.1, 0);
            assert(s.open@ =~= Multiset::<Node>::empty().insert(
                node_of(q.goal, q.start.0, q.start.1, 0),
            ));
            lemma_begin(s, q);
        }
        s
    }

    /// Relaxes the step from the cell being expanded, `(cx, cy)` at cost
    /// `current_g`, to its next neighbour `n`.
    pub fn relax(
        &mut self,
        map: &RuntimeMapAdapter,
        goal: (usize, usize),
        cx: usize,
        cy: usize,
        current_g: usize,
        n: (i128, i128),
        Ghost(q): Ghost<Quest>,
        Ghost(p): Ghost<Phase>,
    )
        requires
            old(self).inv(q, p),
            old(self).open.wf(),
            0 <= p.relaxed < 4,
            map.wf(),
            q.grid == map@,
            q.goal == cell(goal),
            p.cur == (cx as int, cy as int),
            current_g == old(self).g(cx as int, cy as int),
            (n.0 as int, n.1 as int) == neighbour_at(p.cur, p.relaxed),
        ensures
            final(self).inv(q, next_phase(p)),
            final(self).open.wf(),
            final(self).closed == old(self).closed,
            final(self).g(cx as int, cy as int) == old(self).g(cx as int, cy as int),
    {
        let ghost cell_n = (n.0 as int, n.1 as int);
        if n.0 < 0 || n.1 < 0 || n.0 >= map.width as i128 || n.1 >= map.height as i128 {
            proof {
                lemma_relax_skip(*self, q, p, cell_n);
            }
            return ;
        }
        let nx: usize = n.0 as usize;
        let ny: usize = n.1 as usize;
        if map.blocked_for_agent(nx, ny) {
            proof {
                lemma_relax_skip(*self, q, p, cell_n);
            }
            return ;
        }
        if self.closed.get(nx, ny) {
            proof {
                lemma_relax_skip(*self, q, p, cell_n);
            }
            return ;
        }
        proof {
            lemma_room_left(*self, q, nx as int, ny as int);
            assert(self.done(cx as int, cy as int));
        }
        let tentative_g: usize = current_g + 1;
        if tentative_g < self.g_score.get(nx, ny) {
            self.came_from.set(nx, ny, Some((cx, cy)));
            self.g_score.set(nx, ny, tentative_g);
            let h: u128 = manhattan((nx, ny), goal);
            self.open.push(Node { f: tentative_g as u128 + h, g: tentative_g, x: nx, y: ny });
            proof {
                lemma_node_rank(q, nx as int, ny as int, tentative_g as int);
                lemma_relax(*old(self), *self, q, p, cell_n, tentative_g as int);
            }
        } else {
            proof {
                lemma_relax_skip(*self, q, p, cell_n);
            }
        }
    }

    /// Follows the recorded predecessors from the closed goal back to the
    /// start and returns the cells in walking order.
    pub fn reconstruct(
        &self,
        start: (usize, usize),
        goal: (usize, usize),
        Ghost(q): Ghost<Quest>,
        Ghost(p): Ghost<Phase>,
    ) -> (path: Vec<(usize, usize)>)
        requires
            self.inv(q, p),
            q.start == cell(start),
            q.goal == cell(goal),
            self.done(goal.0 as int, goal.1 as int),
        ensures
            cells(path@) == trace_back(
                q.grid,
                q.start,
                q.goal,
                q.goal,
                self.g(goal.0 as int, goal.1 as int) as nat,
            ),
    {
        let ghost whole = trace_back(
            q.grid,
            q.start,
            q.goal,
            q.goal,
            self.g(goal.0 as int, goal.1 as int) as nat,
        );
        let mut rev: Vec<(usize, usize)> = Vec::new();
        rev.push(goal);
        let mut cur: (usize, usize) = goal;
        proof {
            assert(whole.last() == q.goal);
            assert(whole =~= whole.drop_last() + cells(rev@).reverse());
        }
        while cur.0 != start.0 || cur.1 != start.1
            invariant
                self.inv(q, p),
                q.start == cell(start),
                q.grid.in_bounds(cur.0 as int, cur.1 as int),
                self.done(cur.0 as int, cur.1 as int),
                rev@.len() >= 1,
                whole =~= trace_back(
                    q.grid,
                    q.start,
                    q.goal,
                    cell(cur),
                    self.g(cur.0 as int, cur.1 as int) as nat,
                ).drop_last() + cells(rev@).reverse(),
            decreases self.g(cur.0 as int, cur.1 as int),
        {
            proof {
                lemma_pred_is_best(*self, q, p, cur.0 as int, cur.1 as int);
            }
            let ghost d = self.g(cur.0 as int, cur.1 as int) as nat;
            let ghost here = trace_back(q.grid, q.start, q.goal, cell(cur), d);
            match self.came_from.get(cur.0, cur.1) {
                Some(prev) => {
                    let ghost before = trace_back(q.grid, q.start, q.goal, cell(prev), (d - 1) as nat);
                    proof {
                        assert(here == before.push(cell(cur)));
                        assert(here.drop_last() =~= before);
                        assert(before.last() == cell(prev));
                        assert(before =~= before.drop_last().push(cell(prev)));
                        assert(cells(rev@.push(prev)).reverse() =~= seq![cell(prev)] + cells(
                            rev@,
                        ).reverse());
                    }
                    cur = prev;
                    rev.push(cur);
                },
                None => {
                    return Vec::new();
                },
            }
        }
        let mut path: Vec<(usize, usize)> = Vec::new();
        let mut i: usize = rev.len();
        while i > 0
            invariant
                i <= rev@.len(),
                path@.len() == rev@.len() - i,
                forall|k: int| 0 <= k < path@.len() ==> path@[k] == rev@[rev@.len() - 1 - k],
            decreases i,
        {
            i = i - 1;
            path.push(rev[i]);
        }
        proof {
            assert(self.g(cur.0 as int, cur.1 as int) == 0);
            assert(cells(path@) =~= cells(rev@).reverse());
        }
        path
    }
}

/// The quest for a route over `grid` between two cells.
pub open spec fn quest(grid: Grid, start: (usize, usize), goal: (usize, usize)) -> Quest {
    Quest { grid, start: cell(start), goal: cell(goal) }
}

} // verus!
