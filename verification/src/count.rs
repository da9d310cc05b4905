//! Counting the discs of a grid.

use crate::cell::Cell;
use crate::rules::{disc, on_grid, rectangular, Grid};
use vstd::prelude::*;

verus! {

/// One where the cell is `c`, zero where it is not.
pub open spec fn one_if(cell: Cell, c: Cell) -> nat {
    if cell == c {
        1
    } else {
        0
    }
}

/// The number of cells of `row` that are `c`.
pub open spec fn count_in_row(row: Seq<Cell>, c: Cell) -> nat
    decreases row.len(),
{
    if row.len() == 0 {
        0
    } else {
        count_in_row(row.drop_last(), c) + one_if(row.last(), c)
    }
}

/// The number of cells of `g` that are `c`.
pub open spec fn count(g: Grid, c: Cell) -> nat
    decreases g.len(),
{
    if g.len() == 0 {
        0
    } else {
        count(g.drop_last(), c) + count_in_row(g.last(), c)
    }
}

/// Every cell of a row is empty, dark or light.
pub proof fn lemma_row_total(row: Seq<Cell>)
    ensures
        count_in_row(row, Cell::Empty) + count_in_row(row, Cell::Dark) + count_in_row(
            row,
            Cell::Light,
        ) == row.len(),
    decreases row.len(),
{
    if row.len() > 0 {
        lemma_row_total(row.drop_last());
    }
}

/// Every square of a `width` by `height` grid is empty, dark or light.
pub proof fn lemma_total(g: Grid, width: int, height: int)
    requires
        rectangular(g, width, height),
    ensures
        count(g, Cell::Empty) + count(g, Cell::Dark) + count(g, Cell::Light) == width * height,
    decreases g.len(),
{
    if g.len() > 0 {
        lemma_total(g.drop_last(), width, height - 1);
        lemma_row_total(g.last());
        assert((height - 1) * width + width == width * height) by (nonlinear_arith);
    } else {
        assert(width * 0 == 0) by (nonlinear_arith);
    }
}

/// Changing one cell of a row takes one from the count of what it was and
/// adds one to the count of what it becomes.
pub proof fn lemma_row_update(row: Seq<Cell>, k: int, new: Cell, c: Cell)
    requires
        0 <= k < row.len(),
    ensures
        count_in_row(row.update(k, new), c) + one_if(row[k], c) == count_in_row(row, c) + one_if(
            new,
            c,
        ),
    decreases row.len(),
{
    let after = row.update(k, new);
    if k == row.len() - 1 {
        assert(after.drop_last() =~= row.drop_last());
    } else {
        assert(after.drop_last() =~= row.drop_last().update(k, new));
        lemma_row_update(row.drop_last(), k, new, c);
    }
}

/// Replacing one row of a grid takes the old row's count and adds the new row's.
pub proof fn lemma_grid_update(g: Grid, r: int, row: Seq<Cell>, c: Cell)
    requires
        0 <= r < g.len(),
    ensures
        count(g.update(r, row), c) + count_in_row(g[r], c) == count(g, c) + count_in_row(row, c),
    decreases g.len(),
{
    let after = g.update(r, row);
    if r == g.len() - 1 {
        assert(after.drop_last() =~= g.drop_last());
    } else {
        assert(after.drop_last() =~= g.drop_last().update(r, row));
        lemma_grid_update(g.drop_last(), r, row, c);
    }
}

/// The grid `g` with the cell of square `(x, y)` set to `new`.
pub open spec fn with_disc(g: Grid, x: int, y: int, new: Cell) -> Grid {
    g.update(y - 1, g[y - 1].update(x - 1, new))
}

/// Changing the cell of one square takes one from the count of what it was
/// and adds one to the count of what it becomes.
pub proof fn lemma_count_with_disc(g: Grid, x: int, y: int, new: Cell, c: Cell)
    requires
        on_grid(g, x, y),
    ensures
        count(with_disc(g, x, y, new), c) + one_if(disc(g, x, y), c) == count(g, c) + one_if(
            new,
            c,
        ),
{
    lemma_row_update(g[y - 1], x - 1, new, c);
    lemma_grid_update(g, y - 1, g[y - 1].update(x - 1, new), c);
}

/// Counting one more cell of a row.
pub proof fn lemma_count_row_next(row: Seq<Cell>, k: int, c: Cell)
    requires
        0 <= k < row.len(),
    ensures
        count_in_row(row.take(k + 1), c) == count_in_row(row.take(k), c) + one_if(row[k], c),
{
    assert(row.take(k + 1).drop_last() =~= row.take(k));
}

/// Counting one more row of a grid.
pub proof fn lemma_count_next(g: Grid, r: int, c: Cell)
    requires
        0 <= r < g.len(),
    ensures
        count(g.take(r + 1), c) == count(g.take(r), c) + count_in_row(g[r], c),
{
    assert(g.take(r + 1).drop_last() =~= g.take(r));
}

} // verus!
