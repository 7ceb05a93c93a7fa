use crate::cell_table::{count_true, lemma_count_true_push};
use vstd::prelude::*;

verus! {

/// How many cells an obstacle is grown by, in every direction, when a route is
/// planned. Zero: a cell is blocked for the agent exactly when it is a wall.
pub const AGENT_INFLATION: usize = 0;

/// Position of cell `(x, y)` in a row-major table that is `width` cells wide.
pub open spec fn cell_index(width: nat, x: int, y: int) -> int {
    y * width + x
}

/// A cell inside the grid has a position inside the table.
pub proof fn lemma_cell_index_bounds(width: nat, height: nat, x: int, y: int)
    requires
        0 <= x < width,
        0 <= y < height,
    ensures
        0 <= cell_index(width, x, y) < width * height,
        0 <= y * width <= cell_index(width, x, y),
{
    assert(0 <= y * width && y * width + width <= height * width) by (nonlinear_arith)
        requires
            0 <= y < height,
            0 <= width,
    ;
    assert(height * width == width * height) by (nonlinear_arith);
}

/// Two cells with the same position in the table are the same cell.
pub proof fn lemma_cell_index_injective(width: nat, x: int, y: int, x2: int, y2: int)
    requires
        0 <= x < width,
        0 <= x2 < width,
        0 <= y,
        0 <= y2,
        cell_index(width, x, y) == cell_index(width, x2, y2),
    ensures
        x == x2,
        y == y2,
{
    if y < y2 {
        assert(y * width + width <= y2 * width) by (nonlinear_arith)
            requires
                y < y2,
                0 <= width,
        ;
    } else if y2 < y {
        assert(y2 * width + width <= y * width) by (nonlinear_arith)
            requires
                y2 < y,
                0 <= width,
        ;
    }
}

/// The mathematical content of a map: its dimensions and which cells are solid.
pub struct Grid {
    pub tile_size: nat,
    pub width: nat,
    pub height: nat,
    pub solid: Seq<bool>,
}

impl Grid {
    /// The bitmap holds one entry per cell.
    pub open spec fn wf(self) -> bool {
        self.solid.len() == self.width * self.height
    }

    /// Whether `(x, y)` is a cell of the grid.
    pub open spec fn in_bounds(self, x: int, y: int) -> bool {
        0 <= x < self.width && 0 <= y < self.height
    }

    /// A cell is a wall when it lies outside the grid or its bit is set.
    pub open spec fn wall_at(self, x: int, y: int) -> bool {
        !self.in_bounds(x, y) || self.solid[cell_index(self.width, x, y)]
    }

    /// Whether some wall lies within `radius` cells of `(x, y)`, measured along
    /// each axis (a square neighbourhood).
    pub open spec fn wall_within(self, x: int, y: int, radius: int) -> bool {
        exists|nx: int, ny: int|
            x - radius <= nx <= x + radius && y - radius <= ny <= y + radius
                && #[trigger] self.wall_at(nx, ny)
    }

    /// Whether the planner must avoid `(x, y)`.
    pub open spec fn blocked_at(self, x: int, y: int) -> bool {
        self.wall_within(x, y, AGENT_INFLATION as int)
    }

    /// The cell coordinate that holds world coordinate `v`: `v` divided by the
    /// tile size, rounded down and capped at the largest coordinate. Where the
    /// tile size is zero the origin maps to cell 0 and every other coordinate
    /// to the largest cell.
    pub open spec fn cell_coord(self, v: int) -> int {
        if self.tile_size == 0 {
            if v == 0 {
                0
            } else {
                usize::MAX as int
            }
        } else if v / (self.tile_size as int) > usize::MAX {
            usize::MAX as int
        } else {
            v / (self.tile_size as int)
        }
    }

    /// The world coordinate of the middle of cell coordinate `g`, rounded down.
    pub open spec fn centre_coord(self, g: int) -> int {
        g * self.tile_size + self.tile_size / 2
    }

    /// How many cells are solid.
    pub open spec fn solid_cells(self) -> nat {
        count_true(self.solid)
    }
}

/// The centre of a cell lies in that cell.
pub proof fn lemma_grid_world_round_trip(grid: Grid, gx: int, gy: int)
    requires
        grid.tile_size > 0,
        0 <= gx <= usize::MAX,
        0 <= gy <= usize::MAX,
    ensures
        grid.cell_coord(grid.centre_coord(gx)) == gx,
        grid.cell_coord(grid.centre_coord(gy)) == gy,
{
    lemma_centre_in_cell(grid.tile_size as int, gx);
    lemma_centre_in_cell(grid.tile_size as int, gy);
}

proof fn lemma_centre_in_cell(tile: int, g: int)
    requires
        tile > 0,
        g >= 0,
    ensures
        (g * tile + tile / 2) / tile == g,
{
    let half = tile / 2;
    assert(0 <= half < tile);
    assert((g * tile + half) / tile == g) by (nonlinear_arith)
        requires
            tile > 0,
            0 <= half < tile,
            g >= 0,
    ;
}

/// With no inflation the planner avoids exactly the walls.
pub proof fn lemma_blocked_is_wall(grid: Grid, x: int, y: int)
    ensures
        grid.blocked_at(x, y) == grid.wall_at(x, y),
{
    if grid.wall_at(x, y) {
        assert(grid.wall_within(x, y, 0));
    }
}

/// What a map amounts to at a glance.
#[derive(Clone, Copy, Debug, PartialEq, Eq, Structural)]
pub struct RuntimeMapAdapterSummary {
    pub tile_size: u32,
    pub width: usize,
    pub height: usize,
    pub solid_cells: usize,
}

/// A solidity grid: `width * height` cells of `tile_size` world units each,
/// stored row by row; `true` marks an impassable cell.
#[derive(Clone, Debug)]
pub struct RuntimeMapAdapter {
    pub tile_size: u32,
    pub width: usize,
    pub height: usize,
    pub solid: Vec<bool>,
}

impl View for RuntimeMapAdapter {
    type V = Grid;

    open spec fn view(&self) -> Grid {
        Grid {
            tile_size: self.tile_size as nat,
            width: self.width as nat,
            height: self.height as nat,
            solid: self.solid@,
        }
    }
}

impl RuntimeMapAdapter {
    /// The invariant every query relies on: one bitmap entry per cell.
    pub open spec fn wf(&self) -> bool {
        self@.wf()
    }

    /// Tests the invariant at run time.
    pub fn is_well_formed(&self) -> (ok: bool)
        ensures
            ok == self.wf(),
    {
        assert(self.solid@.len() == self.solid.len());
        match self.width.checked_mul(self.height) {
            Some(cells) => self.solid.len() == cells,
            None => false,
        }
    }

    fn idx(&self, x: usize, y: usize) -> (i: usize)
        requires
            self.wf(),
            x < self.width,
            y < self.height,
        ensures
            i as int == cell_index(self.width as nat, x as int, y as int),
            i < self.solid@.len(),
    {
        proof {
            lemma_cell_index_bounds(self.width as nat, self.height as nat, x as int, y as int);
            assert(self.solid@.len() == self.solid.len());
        }
        y * self.width + x
    }

    /// Whether `(x, y)` is impassable; every cell outside the grid is.
    pub fn is_wall(&self, x: usize, y: usize) -> (wall: bool)
        requires
            self.wf(),
        ensures
            wall == self@.wall_at(x as int, y as int),
    {
        if x >= self.width || y >= self.height {
            return true;
        }
        self.solid[self.idx(x, y)]
    }

    /// Whether the planner must avoid `(x, y)`: some cell of the square
    /// neighbourhood of radius `AGENT_INFLATION` around it is a wall.
    pub fn blocked_for_agent(&self, x: usize, y: usize) -> (blocked: bool)
        requires
            self.wf(),
        ensures
            blocked == self@.blocked_at(x as int, y as int),
            blocked == self@.wall_at(x as int, y as int),
    {
        proof {
            lemma_blocked_is_wall(self@, x as int, y as int);
        }
        if self.is_wall(x, y) {
            return true;
        }
        let r: usize = AGENT_INFLATION;
        if x < r || y < r {
            assert(self@.wall_at(x as int - r as int, y as int));
            assert(self@.wall_at(x as int, y as int - r as int));
            return true;
        }
        if x > usize::MAX - r || y > usize::MAX - r {
            return true;
        }
        let mut ty: usize = y - r;
        while ty <= y + r
            invariant
                self.wf(),
                r == AGENT_INFLATION,
                r <= x <= usize::MAX - r,
                r <= y <= usize::MAX - r,
                y - r <= ty <= y + r + 1,
                forall|nx: int, ny: int|
                    x - r <= nx <= x + r && y - r <= ny < ty ==> !#[trigger] self@.wall_at(nx, ny),
            decreases y + r + 1 - ty,
        {
            let mut tx: usize = x - r;
            while tx <= x + r
                invariant
                    self.wf(),
                    r == AGENT_INFLATION,
                    r <= x <= usize::MAX - r,
                    r <= y <= usize::MAX - r,
                    y - r <= ty <= y + r,
                    x - r <= tx <= x + r + 1,
                    forall|nx: int, ny: int|
                        x - r <= nx <= x + r && y - r <= ny < ty ==> !#[trigger] self@.wall_at(
                            nx,
                            ny,
                        ),
                    forall|nx: int| x - r <= nx < tx ==> !#[trigger] self@.wall_at(nx, ty as int),
                decreases x + r + 1 - tx,
            {
                if self.is_wall(tx, ty) {
                    return true;
                }
                tx = tx + 1;
            }
            assert(!self@.wall_at(x as int, ty as int));
            ty = ty + 1;
        }
        false
    }
}

impl RuntimeMapAdapter {
    fn axis_to_cell(&self, v: u128) -> (c: usize)
        ensures
            c as int == self@.cell_coord(v as int),
    {
        if self.tile_size == 0 {
            if v == 0 {
                0
            } else {
                usize::MAX
            }
        } else {
            let q: u128 = v / (self.tile_size as u128);
            if q > usize::MAX as u128 {
                usize::MAX
            } else {
                q as usize
            }
        }
    }

    fn cell_to_axis(&self, g: usize) -> (v: u128)
        ensures
            v as int == self@.centre_coord(g as int),
    {
        assert(g * self.tile_size <= 0xffff_ffff_ffff_ffff * 0xffff_ffff) by (nonlinear_arith)
            requires
                0 <= g <= 0xffff_ffff_ffff_ffff,
                0 <= self.tile_size <= 0xffff_ffff,
        ;
        (g as u128) * (self.tile_size as u128) + (self.tile_size / 2) as u128
    }

    /// The cell that holds world point `(x, y)`.
    pub fn world_to_grid(&self, x: u128, y: u128) -> (c: (usize, usize))
        ensures
            c.0 as int == self@.cell_coord(x as int),
            c.1 as int == self@.cell_coord(y as int),
    {
        (self.axis_to_cell(x), self.axis_to_cell(y))
    }

    /// The world point in the middle of cell `(x, y)`.
    pub fn grid_to_world(&self, x: usize, y: usize) -> (w: (u128, u128))
        ensures
            w.0 as int == self@.centre_coord(x as int),
            w.1 as int == self@.centre_coord(y as int),
            self.tile_size > 0 ==> self@.cell_coord(w.0 as int) == x && self@.cell_coord(w.1 as int)
                == y,
    {
        proof {
            if self.tile_size > 0 {
                lemma_grid_world_round_trip(self@, x as int, y as int);
            }
        }
        (self.cell_to_axis(x), self.cell_to_axis(y))
    }

    /// Whether `other` describes the same grid: same dimensions, same tile
    /// size, same solid cells.
    pub fn is_compatible_with(&self, other: &Self) -> (same: bool)
        ensures
            same == (self@ == other@),
    {
        if self.width != other.width || self.height != other.height || self.tile_size
            != other.tile_size || self.solid.len() != other.solid.len() {
            return false;
        }
        let mut i: usize = 0;
        while i < self.solid.len()
            invariant
                i <= self.solid@.len(),
                self.solid@.len() == other.solid@.len(),
                forall|k: int| 0 <= k < i ==> self.solid@[k] == other.solid@[k],
            decreases self.solid@.len() - i,
        {
            if self.solid[i] != other.solid[i] {
                return false;
            }
            i = i + 1;
        }
        assert(self.solid@ =~= other.solid@);
        true
    }

    /// Dimensions, tile size and the number of solid cells.
    pub fn summary(&self) -> (summary: RuntimeMapAdapterSummary)
        ensures
            summary.tile_size == self.tile_size,
            summary.width == self.width,
            summary.height == self.height,
            summary.solid_cells as nat == self@.solid_cells(),
    {
        let mut solid_cells: usize = 0;
        let mut i: usize = 0;
        while i < self.solid.len()
            invariant
                i <= self.solid@.len(),
                solid_cells as nat == count_true(self.solid@.take(i as int)),
                solid_cells <= i,
            decreases self.solid@.len() - i,
        {
            proof {
                assert(self.solid@.take(i + 1) =~= self.solid@.take(i as int).push(
                    self.solid@[i as int],
                ));
                lemma_count_true_push(self.solid@.take(i as int), self.solid@[i as int]);
            }
            if self.solid[i] {
                solid_cells = solid_cells + 1;
            }
            i = i + 1;
        }
        assert(self.solid@.take(i as int) =~= self.solid@);
        RuntimeMapAdapterSummary {
            tile_size: self.tile_size,
            width: self.width,
            height: self.height,
            solid_cells,
        }
    }
}

} // verus!
