use crate::map::{cell_index, lemma_cell_index_bounds, lemma_cell_index_injective};
use vstd::prelude::*;

verus! {

/// Number of `true` entries in a sequence of flags.
pub open spec fn count_true(flags: Seq<bool>) -> nat
    decreases flags.len(),
{
    if flags.len() == 0 {
        0
    } else {
        count_true(flags.drop_last()) + if flags.last() {
            1nat
        } else {
            0nat
        }
    }
}

/// No more flags are raised than there are flags.
pub proof fn lemma_count_true_bounded(flags: Seq<bool>)
    ensures
        count_true(flags) <= flags.len(),
    decreases flags.len(),
{
    if flags.len() > 0 {
        lemma_count_true_bounded(flags.drop_last());
    }
}

/// Raising one flag raises the count by one, and the count was below the length.
pub proof fn lemma_count_true_raise(flags: Seq<bool>, i: int)
    requires
        0 <= i < flags.len(),
        !flags[i],
    ensures
        count_true(flags.update(i, true)) == count_true(flags) + 1,
        count_true(flags) < flags.len(),
    decreases flags.len(),
{
    let raised = flags.update(i, true);
    if i == flags.len() - 1 {
        assert(raised.drop_last() =~= flags.drop_last());
        lemma_count_true_bounded(flags.drop_last());
    } else {
        assert(raised.drop_last() =~= flags.drop_last().update(i, true));
        lemma_count_true_raise(flags.drop_last(), i);
    }
}

/// Appending a flag adds it to the count if it is raised.
pub proof fn lemma_count_true_push(flags: Seq<bool>, flag: bool)
    ensures
        count_true(flags.push(flag)) == count_true(flags) + if flag {
            1nat
        } else {
            0nat
        },
{
    assert(flags.push(flag).drop_last() =~= flags);
}

/// One value per cell of a `width * height` grid, stored row by row.
pub struct CellTable<T> {
    width: usize,
    height: usize,
    cells: Vec<T>,
}

impl<T: Copy> CellTable<T> {
    /// The table holds one value per cell.
    pub closed spec fn wf(&self) -> bool {
        self.cells@.len() == self.width * self.height
    }

    /// Number of columns.
    pub closed spec fn width(&self) -> nat {
        self.width as nat
    }

    /// Number of rows.
    pub closed spec fn height(&self) -> nat {
        self.height as nat
    }

    /// Whether `(x, y)` is a cell of the table.
    pub open spec fn in_bounds(&self, x: int, y: int) -> bool {
        0 <= x < self.width() && 0 <= y < self.height()
    }

    /// The value stored for cell `(x, y)`.
    pub closed spec fn at(&self, x: int, y: int) -> T {
        self.cells@[cell_index(self.width as nat, x, y)]
    }

    /// The stored values, row by row.
    pub closed spec fn flat(&self) -> Seq<T> {
        self.cells@
    }

    /// Where the value of a cell stands in the flat sequence.
    pub proof fn lemma_flat_at(&self, x: int, y: int)
        requires
            self.wf(),
            self.in_bounds(x, y),
        ensures
            0 <= cell_index(self.width(), x, y) < self.flat().len(),
            self.flat()[cell_index(self.width(), x, y)] == self.at(x, y),
            self.flat().len() == self.width() * self.height(),
    {
        lemma_cell_index_bounds(self.width as nat, self.height as nat, x, y);
    }

    /// A table that holds `value` for every cell.
    pub fn filled(width: usize, height: usize, value: T) -> (table: Self)
        requires
            width * height <= usize::MAX,
        ensures
            table.wf(),
            table.width() == width,
            table.height() == height,
            table.flat() == Seq::new((width * height) as nat, |i: int| value),
            forall|x: int, y: int| table.in_bounds(x, y) ==> #[trigger] table.at(x, y) == value,
    {
        let count: usize = width * height;
        let mut cells: Vec<T> = Vec::new();
        let mut i: usize = 0;
        while i < count
            invariant
                i <= count,
                cells@ =~= Seq::new(i as nat, |k: int| value),
            decreases count - i,
        {
            cells.push(value);
            i = i + 1;
        }
        let table = CellTable { width, height, cells };
        proof {
            assert forall|x: int, y: int| table.in_bounds(x, y) implies #[trigger] table.at(x, y)
                == value by {
                lemma_cell_index_bounds(width as nat, height as nat, x, y);
            }
        }
        table
    }

    /// The value stored for cell `(x, y)`.
    pub fn get(&self, x: usize, y: usize) -> (value: T)
        requires
            self.wf(),
            self.in_bounds(x as int, y as int),
        ensures
            value == self.at(x as int, y as int),
    {
        proof {
            lemma_cell_index_bounds(self.width as nat, self.height as nat, x as int, y as int);
            assert(self.cells@.len() == self.cells.len());
        }
        self.cells[y * self.width + x]
    }

    /// Stores `value` for cell `(x, y)` and leaves every other cell as it was.
    pub fn set(&mut self, x: usize, y: usize, value: T)
        requires
            old(self).wf(),
            old(self).in_bounds(x as int, y as int),
        ensures
            final(self).wf(),
            final(self).width() == old(self).width(),
            final(self).height() == old(self).height(),
            final(self).at(x as int, y as int) == value,
            final(self).flat() == old(self).flat().update(
                cell_index(old(self).width(), x as int, y as int),
                value,
            ),
            0 <= cell_index(old(self).width(), x as int, y as int) < old(self).flat().len(),
            old(self).flat()[cell_index(old(self).width(), x as int, y as int)] == old(self).at(
                x as int,
                y as int,
            ),
            forall|x2: int, y2: int|
                old(self).in_bounds(x2, y2) && !(x2 == x && y2 == y) ==> #[trigger] final(self).at(
                    x2,
                    y2,
                ) == old(self).at(x2, y2),
    {
        proof {
            lemma_cell_index_bounds(self.width as nat, self.height as nat, x as int, y as int);
            assert(self.cells@.len() == self.cells.len());
        }
        let i: usize = y * self.width + x;
        self.cells[i] = value;
        proof {
            assert forall|x2: int, y2: int|
                old(self).in_bounds(x2, y2) && !(x2 == x && y2 == y) implies #[trigger] self.at(
                x2,
                y2,
            ) == old(self).at(x2, y2) by {
                lemma_cell_index_bounds(self.width as nat, self.height as nat, x2, y2);
                if cell_index(self.width as nat, x2, y2) == i {
                    lemma_cell_index_injective(self.width as nat, x as int, y as int, x2, y2);
                }
            }
        }
    }
}

} // verus!
