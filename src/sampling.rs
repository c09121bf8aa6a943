use rand::Rng;
use vstd::prelude::*;

use crate::counting::{
    hazard_pred, hazard_total, lemma_grid_count_all, lemma_grid_count_bound, lemma_grid_count_diff,
};
use crate::grid::{grid_of, inside, put, shaped, Cell};

verus! {

/// Relies on rand::thread_rng and rand::Rng::gen_range: a number drawn from
/// `0..bound`, a range that is never empty here.
#[verifier::external_body]
fn random_below(bound: usize) -> (r: usize)
    requires
        bound > 0,
    ensures
        r < bound,
{
    rand::thread_rng().gen_range(0..bound)
}

/// `g` with every cell before (row, col), in reading order, made a hazard.
spec fn masked(g: Seq<Seq<Cell>>, row: int, col: int) -> Seq<Seq<Cell>> {
    g.map(
        |r: int, line: Seq<Cell>|
            line.map(
                |c: int, cell: Cell|
                    if r < row || (r == row && c < col) {
                        Cell { is_safe: false, ..cell }
                    } else {
                        cell
                    },
            ),
    )
}

/// Turns exactly `amount` safe cells into hazards; `present` is the number
/// of hazards already on the board.
///
/// Cells are visited in reading order, and each safe one is picked with a
/// chance of the hazards still to place over the safe cells still to visit:
/// every set of `amount` safe cells is equally likely, and one pass does.
pub(crate) fn place_hazards(
    board: &mut Vec<Vec<Cell>>,
    rows: usize,
    cols: usize,
    present: usize,
    amount: usize,
)
    requires
        shaped(grid_of(old(board)@), rows as int, cols as int),
        rows * cols <= usize::MAX,
        present == hazard_total(grid_of(old(board)@)),
        present + amount <= rows * cols,
    ensures
        shaped(grid_of(final(board)@), rows as int, cols as int),
        hazard_total(grid_of(final(board)@)) == present + amount,
        forall|r: int, c: int|
            inside(rows as int, cols as int, r, c) ==> #[trigger] grid_of(final(board)@)[r][c] == (
            Cell { is_safe: grid_of(final(board)@)[r][c].is_safe, ..grid_of(old(board)@)[r][c] }),
        forall|r: int, c: int|
            inside(rows as int, cols as int, r, c) && !grid_of(old(board)@)[r][c].is_safe
                ==> !(#[trigger] grid_of(final(board)@)[r][c]).is_safe,
{
    let ghost g0 = grid_of(board@);
    proof {
        lemma_grid_count_bound(g0, rows as int, cols as int, hazard_pred());
        assert(masked(g0, 0, 0) =~~= g0);
    }
    let mut left: usize = rows * cols - present;
    let mut needed: usize = amount;
    let mut row: usize = 0;
    while row < rows
        invariant
            row <= rows,
            g0 == grid_of(old(board)@),
            shaped(g0, rows as int, cols as int),
            shaped(grid_of(board@), rows as int, cols as int),
            rows * cols <= usize::MAX,
            left + hazard_total(masked(g0, row as int, 0)) == rows * cols,
            needed <= left,
            hazard_total(grid_of(board@)) + needed == present + amount,
            forall|r: int, c: int|
                inside(rows as int, cols as int, r, c) ==> #[trigger] grid_of(board@)[r][c] == (
                Cell { is_safe: grid_of(board@)[r][c].is_safe, ..g0[r][c] }),
            forall|r: int, c: int|
                inside(rows as int, cols as int, r, c) && !g0[r][c].is_safe ==> !(
                #[trigger] grid_of(board@)[r][c]).is_safe,
            forall|r: int, c: int|
                inside(rows as int, cols as int, r, c) && r >= row ==> (#[trigger] grid_of(
                    board@,
                )[r][c]).is_safe == g0[r][c].is_safe,
        decreases rows - row,
    {
        let mut col: usize = 0;
        while col < cols
            invariant
                row < rows,
                col <= cols,
                g0 == grid_of(old(board)@),
                shaped(g0, rows as int, cols as int),
                shaped(grid_of(board@), rows as int, cols as int),
                rows * cols <= usize::MAX,
                left + hazard_total(masked(g0, row as int, col as int)) == rows * cols,
                needed <= left,
                hazard_total(grid_of(board@)) + needed == present + amount,
                forall|r: int, c: int|
                    inside(rows as int, cols as int, r, c) ==> #[trigger] grid_of(board@)[r][c] == (
                    Cell { is_safe: grid_of(board@)[r][c].is_safe, ..g0[r][c] }),
                forall|r: int, c: int|
                    inside(rows as int, cols as int, r, c) && !g0[r][c].is_safe ==> !(
                    #[trigger] grid_of(board@)[r][c]).is_safe,
                forall|r: int, c: int|
                    inside(rows as int, cols as int, r, c) && (r > row || (r == row && c >= col))
                        ==> (#[trigger] grid_of(board@)[r][c]).is_safe == g0[r][c].is_safe,
            decreases cols - col,
        {
            let ghost m1 = masked(g0, row as int, col as int);
            let ghost m2 = masked(g0, row as int, col as int + 1);
            proof {
                assert forall|i: int| 0 <= i < m1.len() implies #[trigger] m1[i].len() == m2[i].len() by {
                    assert(g0[i].len() == cols);
                }
                assert forall|i: int, j: int|
                    0 <= i < m1.len() && 0 <= j < m1[i].len() && (i != row || j != col) implies #[trigger] m1[i][j]
                    == m2[i][j] by {
                    assert(g0[i].len() == cols);
                }
                assert(g0[row as int].len() == cols);
                lemma_grid_count_diff(m1, m2, row as int, col as int, hazard_pred());
                assert forall|r: int| 0 <= r < rows implies #[trigger] m2[r].len() == cols by {
                    assert(g0[r].len() == cols);
                }
                lemma_grid_count_bound(m2, rows as int, cols as int, hazard_pred());
            }
            assert(grid_of(board@)[row as int] == board@[row as int]@);
            let cell = board[row][col];
            if cell.is_safe {
                if needed > 0 && random_below(left) < needed {
                    let ghost g1 = grid_of(board@);
                    put(board, row, col, Cell { is_safe: false, ..cell });
                    proof {
                        lemma_grid_count_diff(g1, grid_of(board@), row as int, col as int, hazard_pred());
                    }
                    needed = needed - 1;
                }
                left = left - 1;
            }
            col = col + 1;
        }
        proof {
            assert(masked(g0, row as int, cols as int) =~~= masked(g0, row as int + 1, 0)) by {
                assert forall|i: int| 0 <= i < rows implies #[trigger] g0[i].len() == cols by {}
            }
        }
        row = row + 1;
    }
    proof {
        let m = masked(g0, rows as int, 0);
        assert forall|r: int| 0 <= r < rows implies #[trigger] m[r].len() == cols by {
            assert(g0[r].len() == cols);
        }
        assert forall|i: int, j: int| inside(rows as int, cols as int, i, j) implies hazard_pred()(
            #[trigger] m[i][j],
        ) by {
            assert(g0[i].len() == cols);
        }
        lemma_grid_count_all(m, rows as int, cols as int, hazard_pred());
    }
}

} // verus!
