use vstd::prelude::*;

use crate::grid::{Cell, inside, shaped};

verus! {

/// 1 for true, 0 for false.
pub open spec fn ind(b: bool) -> nat {
    if b {
        1
    } else {
        0
    }
}

/// How many cells of the row satisfy `f`.
pub open spec fn row_count_of(row: Seq<Cell>, f: spec_fn(Cell) -> bool) -> nat
    decreases row.len(),
{
    if row.len() == 0 {
        0
    } else {
        row_count_of(row.drop_last(), f) + ind(f(row.last()))
    }
}

/// How many cells of the board satisfy `f`.
pub open spec fn grid_count_of(g: Seq<Seq<Cell>>, f: spec_fn(Cell) -> bool) -> nat
    decreases g.len(),
{
    if g.len() == 0 {
        0
    } else {
        grid_count_of(g.drop_last(), f) + row_count_of(g.last(), f)
    }
}

/// The cell is a hazard.
pub open spec fn hazard_pred() -> spec_fn(Cell) -> bool {
    |c: Cell| !c.is_safe
}

/// The cell is still hidden.
pub open spec fn hidden_pred() -> spec_fn(Cell) -> bool {
    |c: Cell| !c.is_visible
}

/// How many hazards the board holds.
pub open spec fn hazard_total(g: Seq<Seq<Cell>>) -> nat {
    grid_count_of(g, hazard_pred())
}

/// How many cells are still hidden.
pub open spec fn hidden_total(g: Seq<Seq<Cell>>) -> nat {
    grid_count_of(g, hidden_pred())
}

/// Two rows that differ at most in position `c` differ in count by what that
/// position contributes.
pub proof fn lemma_row_count_diff(a: Seq<Cell>, b: Seq<Cell>, c: int, f: spec_fn(Cell) -> bool)
    requires
        a.len() == b.len(),
        forall|j: int| 0 <= j < a.len() && j != c ==> a[j] == b[j],
    ensures
        0 <= c < a.len() ==> row_count_of(b, f) + ind(f(a[c])) == row_count_of(a, f) + ind(f(b[c])),
        !(0 <= c < a.len()) ==> row_count_of(b, f) == row_count_of(a, f),
    decreases a.len(),
{
    if a.len() > 0 {
        lemma_row_count_diff(a.drop_last(), b.drop_last(), c, f);
    }
}

/// Two boards of one shape that differ at most at (r, c) differ in count by
/// what that position contributes.
pub proof fn lemma_grid_count_diff(
    a: Seq<Seq<Cell>>,
    b: Seq<Seq<Cell>>,
    r: int,
    c: int,
    f: spec_fn(Cell) -> bool,
)
    requires
        a.len() == b.len(),
        forall|i: int| 0 <= i < a.len() ==> #[trigger] a[i].len() == b[i].len(),
        forall|i: int, j: int|
            0 <= i < a.len() && 0 <= j < a[i].len() && (i != r || j != c) ==> #[trigger] a[i][j]
                == b[i][j],
    ensures
        0 <= r < a.len() && 0 <= c < a[r].len() ==> grid_count_of(b, f) + ind(f(a[r][c]))
            == grid_count_of(a, f) + ind(f(b[r][c])),
        !(0 <= r < a.len() && 0 <= c < a[r].len()) ==> grid_count_of(b, f) == grid_count_of(a, f),
    decreases a.len(),
{
    if a.len() > 0 {
        let n = a.len() - 1;
        lemma_grid_count_diff(a.drop_last(), b.drop_last(), r, c, f);
        if n == r {
            lemma_row_count_diff(a[n], b[n], c, f);
        } else {
            lemma_row_count_diff(a[n], b[n], -1, f);
        }
    }
}

/// Boards of one shape on which `f` agrees everywhere have the same count.
pub proof fn lemma_grid_count_same(a: Seq<Seq<Cell>>, b: Seq<Seq<Cell>>, f: spec_fn(Cell) -> bool)
    requires
        a.len() == b.len(),
        forall|i: int| 0 <= i < a.len() ==> #[trigger] a[i].len() == b[i].len(),
        forall|i: int, j: int|
            0 <= i < a.len() && 0 <= j < a[i].len() ==> f(#[trigger] a[i][j]) == f(b[i][j]),
    ensures
        grid_count_of(b, f) == grid_count_of(a, f),
    decreases a.len(),
{
    if a.len() > 0 {
        let n = a.len() - 1;
        lemma_grid_count_same(a.drop_last(), b.drop_last(), f);
        lemma_row_count_same(a[n], b[n], f);
    }
}

proof fn lemma_row_count_same(a: Seq<Cell>, b: Seq<Cell>, f: spec_fn(Cell) -> bool)
    requires
        a.len() == b.len(),
        forall|j: int| 0 <= j < a.len() ==> f(#[trigger] a[j]) == f(b[j]),
    ensures
        row_count_of(b, f) == row_count_of(a, f),
    decreases a.len(),
{
    if a.len() > 0 {
        lemma_row_count_same(a.drop_last(), b.drop_last(), f);
    }
}

/// A board on which no cell satisfies `f` counts none.
pub proof fn lemma_grid_count_none(g: Seq<Seq<Cell>>, f: spec_fn(Cell) -> bool)
    requires
        forall|i: int, j: int| 0 <= i < g.len() && 0 <= j < g[i].len() ==> !f(#[trigger] g[i][j]),
    ensures
        grid_count_of(g, f) == 0,
    decreases g.len(),
{
    if g.len() > 0 {
        lemma_grid_count_none(g.drop_last(), f);
        lemma_row_count_none(g.last(), f);
    }
}

proof fn lemma_row_count_none(row: Seq<Cell>, f: spec_fn(Cell) -> bool)
    requires
        forall|j: int| 0 <= j < row.len() ==> !f(#[trigger] row[j]),
    ensures
        row_count_of(row, f) == 0,
    decreases row.len(),
{
    if row.len() > 0 {
        lemma_row_count_none(row.drop_last(), f);
    }
}

/// A `rows` by `cols` board counts at most `rows * cols` cells.
pub proof fn lemma_grid_count_bound(g: Seq<Seq<Cell>>, rows: int, cols: int, f: spec_fn(Cell) -> bool)
    requires
        shaped(g, rows, cols),
    ensures
        grid_count_of(g, f) <= rows * cols,
    decreases g.len(),
{
    if g.len() > 0 {
        let prev = g.drop_last();
        assert forall|r: int| 0 <= r < rows - 1 implies #[trigger] prev[r].len() == cols by {
            assert(g[r].len() == cols);
        }
        lemma_grid_count_bound(prev, rows - 1, cols, f);
        lemma_row_count_bound(g.last(), f);
        assert(g.last().len() == cols);
        assert(grid_count_of(g, f) == grid_count_of(prev, f) + row_count_of(g.last(), f));
        assert((rows - 1) * cols + cols == rows * cols) by (nonlinear_arith);
    } else {
        assert(rows * cols == 0) by (nonlinear_arith)
            requires
                rows == 0,
        ;
    }
}

proof fn lemma_row_count_bound(row: Seq<Cell>, f: spec_fn(Cell) -> bool)
    ensures
        row_count_of(row, f) <= row.len(),
    decreases row.len(),
{
    if row.len() > 0 {
        lemma_row_count_bound(row.drop_last(), f);
    }
}

/// A `rows` by `cols` board on which every cell satisfies `f` counts them all.
pub proof fn lemma_grid_count_all(g: Seq<Seq<Cell>>, rows: int, cols: int, f: spec_fn(Cell) -> bool)
    requires
        shaped(g, rows, cols),
        forall|i: int, j: int| inside(rows, cols, i, j) ==> f(#[trigger] g[i][j]),
    ensures
        grid_count_of(g, f) == rows * cols,
    decreases g.len(),
{
    if g.len() > 0 {
        let prev = g.drop_last();
        assert forall|r: int| 0 <= r < rows - 1 implies #[trigger] prev[r].len() == cols by {
            assert(g[r].len() == cols);
        }
        lemma_grid_count_all(prev, rows - 1, cols, f);
        assert(g.last().len() == cols);
        lemma_row_count_all(g.last(), f);
        assert(grid_count_of(g, f) == grid_count_of(prev, f) + row_count_of(g.last(), f));
        assert((rows - 1) * cols + cols == rows * cols) by (nonlinear_arith);
    } else {
        assert(rows * cols == 0) by (nonlinear_arith)
            requires
                rows == 0,
        ;
    }
}

proof fn lemma_row_count_all(row: Seq<Cell>, f: spec_fn(Cell) -> bool)
    requires
        forall|j: int| 0 <= j < row.len() ==> f(#[trigger] row[j]),
    ensures
        row_count_of(row, f) == row.len(),
    decreases row.len(),
{
    if row.len() > 0 {
        lemma_row_count_all(row.drop_last(), f);
    }
}

} // verus!
