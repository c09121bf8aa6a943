use vstd::prelude::*;
use vstd::string::*;

use crate::game_model::{lemma_counts_keep, set_cell, Board, State};
use crate::counting::{hazard_pred, hazard_total, lemma_grid_count_same};
use crate::grid::{
    calc_mines_count, counts_hold, fill_safe_numbers, fresh_board, fresh_cell, grid_of,
    hazards_around, inside, put, shaped, Cell,
};
use crate::cascade::{after_reveal, reveal_from};
use crate::sampling::place_hazards;

verus! {

/// Every hazard carries a flag, and no safe cell does.
pub open spec fn flags_exact(g: Seq<Seq<Cell>>, rows: int, cols: int) -> bool {
    forall|r: int, c: int|
        inside(rows, cols, r, c) ==> (#[trigger] g[r][c]).is_flagged == !g[r][c].is_safe
}

/// A square board with its hazards counted and every cell knowing the
/// hazards around it.
pub open spec fn square_wf(b: Board) -> bool {
    &&& b.rows == b.cols
    &&& shaped(b.cells, b.rows as int, b.cols as int)
    &&& b.rows * b.cols <= usize::MAX
    &&& b.mines == hazard_total(b.cells)
    &&& counts_hold(b.cells, b.rows as int, b.cols as int)
}

/// The square board once (r, c) has been opened: a hazard loses; a safe
/// cell reveals what it opens. Off the board nothing changes.
pub open spec fn square_after_open(b: Board, r: int, c: int) -> Board {
    if b.state != State::InProgress || !inside(b.rows as int, b.cols as int, r, c) {
        b
    } else if !b.cells[r][c].is_safe {
        Board { state: State::Lose, ..b }
    } else {
        Board { cells: after_reveal(b.cells, b.rows as int, b.cols as int, r, c), ..b }
    }
}

/// The square board once the flag on (r, c) has been flipped: the round is
/// won when the flags stand on the hazards and nowhere else. Off the board
/// nothing changes.
pub open spec fn square_after_flag(b: Board, r: int, c: int) -> Board {
    if b.state != State::InProgress || !inside(b.rows as int, b.cols as int, r, c) {
        b
    } else {
        let cell = b.cells[r][c];
        let cells = set_cell(b.cells, r, c, Cell { is_flagged: !cell.is_flagged, ..cell });
        Board {
            cells,
            state: if flags_exact(cells, b.rows as int, b.cols as int) {
                State::Win
            } else {
                b.state
            },
            ..b
        }
    }
}

/// A hazard count as shown on the board, padded to three columns.
pub open spec fn digit_text(n: int) -> Seq<char> {
    if n == 0 {
        "0  "@
    } else if n == 1 {
        "1  "@
    } else if n == 2 {
        "2  "@
    } else if n == 3 {
        "3  "@
    } else if n == 4 {
        "4  "@
    } else if n == 5 {
        "5  "@
    } else if n == 6 {
        "6  "@
    } else if n == 7 {
        "7  "@
    } else {
        "8  "@
    }
}

/// How a cell is shown: `*` while hidden (unless hidden cells are shown),
/// its hazard count when safe, `@` on a hazard; padded to three columns.
pub open spec fn cell_text(cell: Cell, show_hidden: bool) -> Seq<char> {
    if !cell.is_visible && !show_hidden {
        "*  "@
    } else if cell.is_safe {
        digit_text(cell.mines_count as int)
    } else {
        "@  "@
    }
}

/// The cells of a row, one space apart.
pub open spec fn row_text(row: Seq<Cell>, show_hidden: bool) -> Seq<char>
    decreases row.len(),
{
    if row.len() == 0 {
        Seq::empty()
    } else if row.len() == 1 {
        cell_text(row[0], show_hidden)
    } else {
        row_text(row.drop_last(), show_hidden) + " "@ + cell_text(row.last(), show_hidden)
    }
}

/// The rows of a board, one line each.
pub open spec fn board_text(g: Seq<Seq<Cell>>, show_hidden: bool) -> Seq<char>
    decreases g.len(),
{
    if g.len() == 0 {
        Seq::empty()
    } else if g.len() == 1 {
        row_text(g[0], show_hidden)
    } else {
        board_text(g.drop_last(), show_hidden) + "\n"@ + row_text(g.last(), show_hidden)
    }
}

fn cell_str(cell: Cell, show_hidden: bool) -> (r: &'static str)
    requires
        cell.mines_count <= 8,
    ensures
        r@ == cell_text(cell, show_hidden),
{
    if !cell.is_visible && !show_hidden {
        "*  "
    } else if cell.is_safe {
        match cell.mines_count {
            0 => "0  ",
            1 => "1  ",
            2 => "2  ",
            3 => "3  ",
            4 => "4  ",
            5 => "5  ",
            6 => "6  ",
            7 => "7  ",
            _ => "8  ",
        }
    } else {
        "@  "
    }
}

/// A square board played from a terminal.
pub struct GameBoard {
    cells: Vec<Vec<Cell>>,
    state: State,
    holes: usize,
    dim: usize,
}

impl View for GameBoard {
    type V = Board;

    closed spec fn view(&self) -> Board {
        Board {
            rows: self.dim as nat,
            cols: self.dim as nat,
            mines: self.holes as nat,
            state: self.state,
            cells: grid_of(self.cells@),
        }
    }
}

/// Whether the flags stand on the hazards and nowhere else.
fn check_flags(board: &Vec<Vec<Cell>>, rows: usize, cols: usize) -> (r: bool)
    requires
        shaped(grid_of(board@), rows as int, cols as int),
    ensures
        r == flags_exact(grid_of(board@), rows as int, cols as int),
{
    let ghost g = grid_of(board@);
    let mut row: usize = 0;
    while row < rows
        invariant
            row <= rows,
            g == grid_of(board@),
            shaped(g, rows as int, cols as int),
            forall|r: int, c: int|
                inside(row as int, cols as int, r, c) ==> (#[trigger] g[r][c]).is_flagged
                    == !g[r][c].is_safe,
        decreases rows - row,
    {
        assert(g[row as int] == board@[row as int]@);
        let mut col: usize = 0;
        while col < cols
            invariant
                row < rows,
                col <= cols,
                g == grid_of(board@),
                g[row as int] == board@[row as int]@,
                shaped(g, rows as int, cols as int),
                forall|r: int, c: int|
                    (inside(row as int, cols as int, r, c) || (r == row && 0 <= c < col)) ==> (
                    #[trigger] g[r][c]).is_flagged == !g[r][c].is_safe,
            decreases cols - col,
        {
            let cell = board[row][col];
            if cell.is_flagged != !cell.is_safe {
                assert(inside(rows as int, cols as int, row as int, col as int));
                return false;
            }
            col = col + 1;
        }
        row = row + 1;
    }
    true
}

impl GameBoard {
    /// A `dimension` by `dimension` board of hidden safe cells.
    pub fn new(dimension: usize) -> (b: GameBoard)
        requires
            dimension * dimension <= usize::MAX,
        ensures
            square_wf(b@),
            b@.rows == dimension,
            b@.state == State::InProgress,
            b@.mines == 0,
            forall|r: int, c: int|
                inside(dimension as int, dimension as int, r, c) ==> #[trigger] b@.cells[r][c]
                    == fresh_cell(),
    {
        let cells = fresh_board(dimension, dimension);
        GameBoard { cells, state: State::InProgress, holes: 0, dim: dimension }
    }

    pub fn is_game_over(&self) -> (r: bool)
        ensures
            r == (self@.state != State::InProgress),
    {
        self.state != State::InProgress
    }

    pub fn is_won(&self) -> (r: bool)
        ensures
            r == (self@.state == State::Win),
    {
        self.state == State::Win
    }

    /// Turns `amount` safe cells, picked at random, into hazards. After the
    /// round has ended nothing changes.
    pub fn populate_black_holes(&mut self, amount: usize)
        requires
            square_wf(old(self)@),
            old(self)@.mines + amount <= old(self)@.rows * old(self)@.cols,
        ensures
            square_wf(final(self)@),
            old(self)@.state != State::InProgress ==> final(self)@ == old(self)@,
            old(self)@.state == State::InProgress ==> {
                &&& final(self)@.rows == old(self)@.rows
                &&& final(self)@.state == State::InProgress
                &&& final(self)@.mines == old(self)@.mines + amount
                &&& forall|r: int, c: int|
                    inside(old(self)@.rows as int, old(self)@.cols as int, r, c) ==> {
                        &&& (#[trigger] final(self)@.cells[r][c]).is_visible
                            == old(self)@.cells[r][c].is_visible
                        &&& final(self)@.cells[r][c].is_flagged == old(self)@.cells[r][c].is_flagged
                        &&& !old(self)@.cells[r][c].is_safe ==> !final(self)@.cells[r][c].is_safe
                    }
            },
    {
        if self.is_game_over() {
            return;
        }
        place_hazards(&mut self.cells, self.dim, self.dim, self.holes, amount);
        let ghost g1 = grid_of(self.cells@);
        fill_safe_numbers(&mut self.cells, self.dim, self.dim);
        proof {
            lemma_grid_count_same(g1, grid_of(self.cells@), hazard_pred());
        }
        self.holes = self.holes + amount;
    }

    /// The number of hazards around (row, col), or `None` on a hazard.
    pub fn get_black_holes_count(&self, row: usize, col: usize) -> (r: Option<usize>)
        requires
            square_wf(self@),
            inside(self@.rows as int, self@.cols as int, row as int, col as int),
        ensures
            self@.cells[row as int][col as int].is_safe ==> r == Some(
                hazards_around(self@.cells, self@.rows as int, self@.cols as int, row as int, col as int) as usize,
            ),
            !self@.cells[row as int][col as int].is_safe ==> r == None::<usize>,
    {
        assert(grid_of(self.cells@)[row as int] == self.cells@[row as int]@);
        if self.cells[row][col].is_safe {
            Some(calc_mines_count(&self.cells, self.dim, self.dim, row, col))
        } else {
            None
        }
    }

    pub fn is_open(&self, row: usize, col: usize) -> (r: bool)
        requires
            square_wf(self@),
            inside(self@.rows as int, self@.cols as int, row as int, col as int),
        ensures
            r == self@.cells[row as int][col as int].is_visible,
    {
        assert(grid_of(self.cells@)[row as int] == self.cells@[row as int]@);
        self.cells[row][col].is_visible
    }

    /// Opens (row, col): a hazard loses the round, a safe cell is revealed
    /// with the region it opens. Off the board, or after the round has ended,
    /// nothing changes.
    pub fn open(&mut self, row: usize, col: usize)
        requires
            square_wf(old(self)@),
        ensures
            final(self)@ == square_after_open(old(self)@, row as int, col as int),
            square_wf(final(self)@),
    {
        if self.is_game_over() || row >= self.dim || col >= self.dim {
            return;
        }
        assert(grid_of(self.cells@)[row as int] == self.cells@[row as int]@);
        if self.cells[row][col].is_safe {
            let ghost g0 = grid_of(self.cells@);
            reveal_from(&mut self.cells, self.dim, self.dim, row, col);
            proof {
                let g = grid_of(self.cells@);
                let n = self.dim as int;
                assert forall|i: int| 0 <= i < n implies #[trigger] g[i].len() == n by {
                    assert(g0[i].len() == n);
                }
                assert forall|i: int, j: int| inside(n, n, i, j) implies (#[trigger] g[i][j]).is_safe
                    == g0[i][j].is_safe && g[i][j].mines_count == g0[i][j].mines_count by {
                    assert(g0[i].len() == n);
                }
                lemma_counts_keep(g0, g, n, n);
            }
        } else {
            self.state = State::Lose;
        }
    }

    /// Flips the flag on (row, col); the round is won once the flags stand on
    /// the hazards and nowhere else. Off the board, or after the round has
    /// ended, nothing changes.
    pub fn put_flag(&mut self, row: usize, col: usize)
        requires
            square_wf(old(self)@),
        ensures
            final(self)@ == square_after_flag(old(self)@, row as int, col as int),
            square_wf(final(self)@),
    {
        if self.is_game_over() || row >= self.dim || col >= self.dim {
            return;
        }
        let ghost g0 = grid_of(self.cells@);
        assert(grid_of(self.cells@)[row as int] == self.cells@[row as int]@);
        let cell = self.cells[row][col];
        put(&mut self.cells, row, col, Cell { is_flagged: !cell.is_flagged, ..cell });
        proof {
            let x = Cell { is_flagged: !cell.is_flagged, ..cell };
            assert(grid_of(self.cells@) =~~= set_cell(g0, row as int, col as int, x));
            lemma_counts_keep(g0, grid_of(self.cells@), self.dim as int, self.dim as int);
        }
        if check_flags(&self.cells, self.dim, self.dim) {
            self.state = State::Win;
        }
    }
    /// The board as text: one line per row, each cell shown as `cell_text`
    /// says, with hidden cells shown as they are when `ignore_hidden` holds.
    pub fn formatted(&self, ignore_hidden: bool) -> (r: String)
        requires
            square_wf(self@),
        ensures
            r@ == board_text(self@.cells, ignore_hidden),
    {
        let ghost g = grid_of(self.cells@);
        let n = self.dim;
        let mut out = String::new();
        let mut row: usize = 0;
        while row < n
            invariant
                row <= n,
                n == self.dim,
                g == grid_of(self.cells@),
                square_wf(self@),
                out@ == board_text(g.subrange(0, row as int), ignore_hidden),
            decreases n - row,
        {
            assert(g[row as int] == self.cells@[row as int]@);
            let mut line = String::new();
            let mut col: usize = 0;
            while col < n
                invariant
                    row < n,
                    col <= n,
                    n == self.dim,
                    g == grid_of(self.cells@),
                    g[row as int] == self.cells@[row as int]@,
                    square_wf(self@),
                    line@ == row_text(g[row as int].subrange(0, col as int), ignore_hidden),
                decreases n - col,
            {
                let ghost before = line@;
                if col > 0 {
                    line.append(" ");
                }
                let cell = self.cells[row][col];
                assert(cell.mines_count == hazards_around(g, n as int, n as int, row as int, col as int));
                line.append(cell_str(cell, ignore_hidden));
                proof {
                    let sub = g[row as int].subrange(0, col + 1);
                    assert(sub.drop_last() =~= g[row as int].subrange(0, col as int));
                    assert(sub.last() == cell);
                    if col == 0 {
                        assert(before =~= Seq::<char>::empty());
                        assert(line@ =~= cell_text(cell, ignore_hidden));
                    } else {
                        assert(line@ =~= before + " "@ + cell_text(cell, ignore_hidden));
                    }
                }
                col = col + 1;
            }
            let ghost before = out@;
            if row > 0 {
                out.append("\n");
            }
            out.append(line.as_str());
            proof {
                let sub = g.subrange(0, row + 1);
                assert(sub.drop_last() =~= g.subrange(0, row as int));
                assert(g[row as int].subrange(0, n as int) =~= g[row as int]);
                assert(sub.last() == g[row as int]);
                if row == 0 {
                    assert(out@ =~= row_text(g[row as int], ignore_hidden));
                } else {
                    assert(out@ =~= before + "\n"@ + row_text(g[row as int], ignore_hidden));
                }
            }
            row = row + 1;
        }
        assert(g.subrange(0, n as int) =~= g);
        out
    }
}

} // verus!
