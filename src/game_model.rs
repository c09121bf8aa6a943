use vstd::prelude::*;

use crate::counting::{
    hazard_pred, hazard_total, lemma_grid_count_bound, lemma_grid_count_diff,
    lemma_grid_count_same,
};
use crate::grid::{
    around_visible, check_win, counts_hold, fill_safe_numbers, fresh_board, fresh_cell, grid_of,
    has_safe_cell, hazards_around, inside, lemma_spread_keep, lemma_zero_count_neighbour_safe, put,
    revealed, shaped, touching, won, zero_spread, Cell,
};
use crate::cascade::{after_reveal, chain, lemma_chain_step, link, opened, reveal_from};
use crate::sampling::place_hazards;

verus! {

/// Where a round stands.
#[derive(Clone, Copy, Debug, PartialEq, Eq, Structural)]
pub enum State {
    InProgress,
    Win,
    Lose,
}

/// Why a cell could not be read.
#[derive(Clone, Copy, Debug, PartialEq, Eq, Structural)]
pub enum BoardError {
    /// The position lies off the board.
    OutOfRange,
}

/// A game as its contracts speak of it.
pub struct Board {
    pub rows: nat,
    pub cols: nat,
    pub mines: nat,
    pub state: State,
    pub cells: Seq<Seq<Cell>>,
}

/// The cells of `g`, with `x` written at (r, c).
pub open spec fn set_cell(g: Seq<Seq<Cell>>, r: int, c: int, x: Cell) -> Seq<Seq<Cell>> {
    g.update(r, g[r].update(c, x))
}

impl Board {
    /// The board holds `rows` by `cols` cells, `mines` of them hazards; each
    /// cell knows the hazards around it; no revealed cell is a hazard or
    /// carries a flag, and a revealed cell with no hazard around it has all
    /// its neighbours revealed.
    pub open spec fn wf(self) -> bool {
        &&& shaped(self.cells, self.rows as int, self.cols as int)
        &&& self.rows * self.cols <= usize::MAX
        &&& self.mines == hazard_total(self.cells)
        &&& counts_hold(self.cells, self.rows as int, self.cols as int)
        &&& forall|r: int, c: int|
            inside(self.rows as int, self.cols as int, r, c) && (#[trigger] self.cells[r][c]).is_visible
                ==> self.cells[r][c].is_safe && !self.cells[r][c].is_flagged
        &&& zero_spread(self.cells, self.rows as int, self.cols as int)
    }

    /// A round that has just begun on a `rows` by `cols` board with `mines`
    /// hazards: nothing is revealed and nothing is flagged.
    pub open spec fn is_fresh(self, rows: nat, cols: nat, mines: nat) -> bool {
        &&& self.wf()
        &&& self.rows == rows
        &&& self.cols == cols
        &&& self.mines == mines
        &&& self.state == State::InProgress
        &&& forall|r: int, c: int|
            inside(rows as int, cols as int, r, c) ==> !(#[trigger] self.cells[r][c]).is_visible
                && !self.cells[r][c].is_flagged
    }

    /// The round goes on, (r, c) lies on the board and is still hidden.
    pub open spec fn touchable(self, r: int, c: int) -> bool {
        &&& self.state == State::InProgress
        &&& inside(self.rows as int, self.cols as int, r, c)
        &&& !self.cells[r][c].is_visible
    }

    /// `cells` with the state that they bring about.
    pub open spec fn judged(self, cells: Seq<Seq<Cell>>) -> Board {
        Board {
            cells,
            state: if won(cells, self.rows as int, self.cols as int) {
                State::Win
            } else {
                self.state
            },
            ..self
        }
    }

    /// The game once (r, c) has been flagged or unflagged.
    pub open spec fn after_flag(self, r: int, c: int) -> Board {
        if !self.touchable(r, c) {
            self
        } else {
            let cell = self.cells[r][c];
            self.judged(set_cell(self.cells, r, c, Cell { is_flagged: !cell.is_flagged, ..cell }))
        }
    }

    /// The game once (r, c) has been opened: a hazard loses the round and
    /// reveals nothing; a safe cell reveals what it opens.
    pub open spec fn after_open(self, r: int, c: int) -> Board {
        if !self.touchable(r, c) {
            self
        } else if !self.cells[r][c].is_safe {
            let cell = self.cells[r][c];
            Board {
                cells: set_cell(self.cells, r, c, Cell { is_flagged: false, ..cell }),
                state: State::Lose,
                ..self
            }
        } else {
            self.judged(after_reveal(self.cells, self.rows as int, self.cols as int, r, c))
        }
    }
}

/// Two boards of one shape with the same hazards and counts: counts that
/// hold on one hold on the other.
pub proof fn lemma_counts_keep(a: Seq<Seq<Cell>>, b: Seq<Seq<Cell>>, rows: int, cols: int)
    requires
        shaped(a, rows, cols),
        shaped(b, rows, cols),
        counts_hold(a, rows, cols),
        forall|r: int, c: int|
            inside(rows, cols, r, c) ==> (#[trigger] b[r][c]).is_safe == a[r][c].is_safe
                && b[r][c].mines_count == a[r][c].mines_count,
    ensures
        counts_hold(b, rows, cols),
        hazard_total(b) == hazard_total(a),
{
    assert forall|r: int, c: int| inside(rows, cols, r, c) implies #[trigger] b[r][c].mines_count
        == hazards_around(b, rows, cols, r, c) by {
        assert(a[r][c].mines_count == hazards_around(a, rows, cols, r, c));
        assert(hazards_around(b, rows, cols, r, c) == hazards_around(a, rows, cols, r, c));
    }
    lemma_grid_count_same(a, b, hazard_pred());
}

/// The end of every path along which a reveal spreads is a safe cell.
pub proof fn lemma_opened_safe(
    g: Seq<Seq<Cell>>,
    rows: int,
    cols: int,
    sr: int,
    sc: int,
    r: int,
    c: int,
)
    requires
        inside(rows, cols, sr, sc),
        g[sr][sc].is_safe,
        opened(g, rows, cols, sr, sc, r, c),
    ensures
        inside(rows, cols, r, c),
        g[r][c].is_safe,
{
    let path = choose|path: Seq<(int, int)>|
        #[trigger] chain(g, rows, cols, sr, sc, path) && path.last() == (r, c);
    if path.len() > 1 {
        assert(link(g, rows, cols, path, path.len() - 2));
    }
}

/// Revealing from a hidden safe cell keeps the board well formed.
pub proof fn lemma_reveal_wf(b: Board, r: int, c: int)
    requires
        b.wf(),
        b.touchable(r, c),
        b.cells[r][c].is_safe,
    ensures
        (Board { cells: after_reveal(b.cells, b.rows as int, b.cols as int, r, c), ..b }).wf(),
{
    let rows = b.rows as int;
    let cols = b.cols as int;
    let g = after_reveal(b.cells, rows, cols, r, c);
    assert forall|i: int| 0 <= i < rows implies #[trigger] g[i].len() == cols by {
        assert(b.cells[i].len() == cols);
    }
    assert forall|i: int, j: int| inside(rows, cols, i, j) implies (#[trigger] g[i][j]).is_safe
        == b.cells[i][j].is_safe && g[i][j].mines_count == b.cells[i][j].mines_count by {
        assert(b.cells[i].len() == cols);
    }
    lemma_counts_keep(b.cells, g, rows, cols);
    assert forall|i: int, j: int|
        inside(rows, cols, i, j) && (#[trigger] g[i][j]).is_visible implies g[i][j].is_safe
        && !g[i][j].is_flagged by {
        assert(b.cells[i].len() == cols);
        if opened(b.cells, rows, cols, r, c, i, j) && !b.cells[i][j].is_visible {
            lemma_opened_safe(b.cells, rows, cols, r, c, i, j);
        }
    }
    assert forall|i: int, j: int|
        inside(rows, cols, i, j) && (#[trigger] g[i][j]).is_visible && g[i][j].mines_count
            == 0 implies around_visible(g, rows, cols, i, j) by {
        assert(b.cells[i].len() == cols);
        if b.cells[i][j].is_visible {
            assert(around_visible(b.cells, rows, cols, i, j));
            assert forall|pi: int, pj: int|
                #[trigger] touching(i, j, pi, pj) && inside(rows, cols, pi, pj) implies g[pi][pj].is_visible by {
                assert(b.cells[pi].len() == cols);
                assert(b.cells[pi][pj].is_visible);
            }
        } else {
            lemma_opened_safe(b.cells, rows, cols, r, c, i, j);
            let path = choose|path: Seq<(int, int)>|
                #[trigger] chain(b.cells, rows, cols, r, c, path) && path.last() == (i, j);
            assert forall|pi: int, pj: int|
                #[trigger] touching(i, j, pi, pj) && inside(rows, cols, pi, pj) implies g[pi][pj].is_visible by {
                assert(b.cells[pi].len() == cols);
                assert(b.cells[i][j].mines_count == hazards_around(b.cells, rows, cols, i, j));
                lemma_zero_count_neighbour_safe(b.cells, rows, cols, i, j, pi, pj);
                lemma_chain_step(b.cells, rows, cols, r, c, path, pi, pj);
            }
        }
    }
}


/// Every listed position lies on the board, and some cell is left out.
pub open spec fn layout_ok(rows: int, cols: int, hazards: Seq<(usize, usize)>) -> bool {
    &&& forall|i: int| 0 <= i < hazards.len() ==> inside(rows, cols, #[trigger] hazards[i].0 as int, hazards[i].1 as int)
    &&& exists|r: int, c: int|
        inside(rows, cols, r, c) && !#[trigger] hazards.contains((r as usize, c as usize))
}

/// The engine: owns the board of one round and applies the player's moves.
pub struct GameModel {
    board: Vec<Vec<Cell>>,
    state: State,
    mines: usize,
    row_count: usize,
    col_count: usize,
}

/// The engine under its shorter name.
pub type Game = GameModel;

impl View for GameModel {
    type V = Board;

    closed spec fn view(&self) -> Board {
        Board {
            rows: self.row_count as nat,
            cols: self.col_count as nat,
            mines: self.mines as nat,
            state: self.state,
            cells: grid_of(self.board@),
        }
    }
}

impl GameModel {
    /// An engine with no board yet.
    pub fn new() -> (g: GameModel)
        ensures
            g@.wf(),
            g@.rows == 0,
            g@.cols == 0,
            g@.mines == 0,
            g@.state == State::InProgress,
            g@.cells.len() == 0,
    {
        let g = GameModel {
            board: Vec::new(),
            state: State::InProgress,
            mines: 0,
            row_count: 0,
            col_count: 0,
        };
        proof {
            assert(grid_of(g.board@) =~= Seq::<Seq<Cell>>::empty());
        }
        g
    }

    /// Begins a round on a `rows` by `cols` board with `mines` hazards placed
    /// at random. With no safe cell left (`mines >= rows * cols`) nothing
    /// changes.
    pub fn start(&mut self, rows: usize, cols: usize, mines: usize)
        requires
            rows * cols <= usize::MAX,
        ensures
            mines >= rows * cols ==> final(self)@ == old(self)@,
            mines < rows * cols ==> final(self)@.is_fresh(rows as nat, cols as nat, mines as nat),
    {
        if mines >= rows * cols {
            return;
        }
        let mut board = fresh_board(rows, cols);
        place_hazards(&mut board, rows, cols, 0, mines);
        let ghost g1 = grid_of(board@);
        fill_safe_numbers(&mut board, rows, cols);
        proof {
            let g = grid_of(board@);
            lemma_grid_count_same(g1, g, hazard_pred());
        }
        self.board = board;
        self.row_count = rows;
        self.col_count = cols;
        self.mines = mines;
        self.state = State::InProgress;
    }

    /// Begins a round on a `rows` by `cols` board whose hazards stand at the
    /// listed positions. With a position off the board, or no safe cell
    /// left, nothing changes.
    pub fn start_with_layout(&mut self, rows: usize, cols: usize, hazards: &Vec<(usize, usize)>)
        requires
            rows * cols <= usize::MAX,
        ensures
            !layout_ok(rows as int, cols as int, hazards@) ==> final(self)@ == old(self)@,
            layout_ok(rows as int, cols as int, hazards@) ==> final(self)@.is_fresh(
                rows as nat,
                cols as nat,
                final(self)@.mines,
            ),
            layout_ok(rows as int, cols as int, hazards@) ==> forall|r: int, c: int|
                inside(rows as int, cols as int, r, c) ==> (#[trigger] final(self)@.cells[r][c]).is_safe
                    == !hazards@.contains((r as usize, c as usize)),
    {
        let mut i: usize = 0;
        while i < hazards.len()
            invariant
                i <= hazards@.len(),
                forall|j: int|
                    0 <= j < i ==> inside(
                        rows as int,
                        cols as int,
                        #[trigger] hazards@[j].0 as int,
                        hazards@[j].1 as int,
                    ),
            decreases hazards@.len() - i,
        {
            let (r, c) = hazards[i];
            if r >= rows || c >= cols {
                assert(!inside(rows as int, cols as int, hazards@[i as int].0 as int, hazards@[i as int].1 as int));
                return;
            }
            i = i + 1;
        }
        let mut board = fresh_board(rows, cols);
        let mut count: usize = 0;
        i = 0;
        while i < hazards.len()
            invariant
                i <= hazards@.len(),
                rows * cols <= usize::MAX,
                forall|j: int|
                    0 <= j < hazards@.len() ==> inside(
                        rows as int,
                        cols as int,
                        #[trigger] hazards@[j].0 as int,
                        hazards@[j].1 as int,
                    ),
                shaped(grid_of(board@), rows as int, cols as int),
                hazard_total(grid_of(board@)) == count,
                forall|r: int, c: int|
                    inside(rows as int, cols as int, r, c) ==> #[trigger] grid_of(board@)[r][c] == (
                    Cell { is_safe: grid_of(board@)[r][c].is_safe, ..fresh_cell() }),
                forall|r: int, c: int|
                    inside(rows as int, cols as int, r, c) ==> ((#[trigger] grid_of(
                        board@,
                    )[r][c]).is_safe <==> !hazards@.subrange(0, i as int).contains(
                        (r as usize, c as usize),
                    )),
            decreases hazards@.len() - i,
        {
            let (r, c) = hazards[i];
            let ghost g1 = grid_of(board@);
            assert(grid_of(board@)[r as int] == board@[r as int]@);
            let cell = board[r][c];
            put(&mut board, r, c, Cell { is_safe: false, ..cell });
            proof {
                let g2 = grid_of(board@);
                lemma_grid_count_diff(g1, g2, r as int, c as int, hazard_pred());
                lemma_grid_count_bound(g2, rows as int, cols as int, hazard_pred());
                let s1 = hazards@.subrange(0, i as int);
                let s2 = hazards@.subrange(0, i + 1);
                assert(s2 == s1.push((r, c)));
                assert forall|x: (usize, usize)| #[trigger] s2.contains(x) <==> s1.contains(x) || x == (r, c) by {
                    if s1.contains(x) {
                        let j = choose|j: int| 0 <= j < s1.len() && s1[j] == x;
                        assert(s2[j] == x);
                    }
                    if x == (r, c) {
                        assert(s2[s1.len() as int] == x);
                    }
                    if s2.contains(x) {
                        let j = choose|j: int| 0 <= j < s2.len() && s2[j] == x;
                        if j < s1.len() {
                            assert(s1[j] == x);
                        }
                    }
                }
                assert forall|rr: int, cc: int| inside(rows as int, cols as int, rr, cc) implies (
                (#[trigger] g2[rr][cc]).is_safe <==> !s2.contains((rr as usize, cc as usize))) by {
                    if rr == r && cc == c {
                    } else {
                        assert((rr as usize, cc as usize) != (r, c));
                    }
                }
            }
            if cell.is_safe {
                count = count + 1;
            }
            i = i + 1;
        }
        assert(hazards@.subrange(0, hazards@.len() as int) == hazards@);
        if !has_safe_cell(&board, rows, cols) {
            proof {
                let g = grid_of(board@);
                assert forall|r: int, c: int| inside(rows as int, cols as int, r, c) implies #[trigger] hazards@.contains(
                    (r as usize, c as usize),
                ) by {
                    assert(!g[r][c].is_safe);
                }
            }
            return;
        }
        let ghost g1 = grid_of(board@);
        fill_safe_numbers(&mut board, rows, cols);
        proof {
            lemma_grid_count_same(g1, grid_of(board@), hazard_pred());
        }
        self.board = board;
        self.row_count = rows;
        self.col_count = cols;
        self.mines = count;
        self.state = State::InProgress;
    }

    /// Begins a new round with the size and hazard count of the last one.
    pub fn restart(&mut self)
        requires
            old(self)@.wf(),
        ensures
            old(self)@.mines >= old(self)@.rows * old(self)@.cols ==> final(self)@ == old(self)@,
            old(self)@.mines < old(self)@.rows * old(self)@.cols ==> final(self)@.is_fresh(
                old(self)@.rows,
                old(self)@.cols,
                old(self)@.mines,
            ),
    {
        self.start(self.row_count, self.col_count, self.mines);
    }

    /// Whether a move may touch (row, col): the round goes on, the position
    /// lies on the board and the cell is still hidden.
    fn can_touch_cell(&self, row: usize, col: usize) -> (r: bool)
        requires
            self@.wf(),
        ensures
            r == self@.touchable(row as int, col as int),
    {
        if self.state != State::InProgress {
            return false;
        }
        if row >= self.row_count || col >= self.col_count {
            return false;
        }
        assert(grid_of(self.board@)[row as int] == self.board@[row as int]@);
        !self.board[row][col].is_visible
    }

    /// Declares the round won when the board shows it.
    fn track_win_state(&mut self)
        requires
            shaped(grid_of(old(self).board@), old(self).row_count as int, old(self).col_count as int),
        ensures
            final(self)@ == old(self)@.judged(old(self)@.cells),
    {
        if check_win(&self.board, self.row_count, self.col_count) {
            self.state = State::Win;
        }
    }

    /// Opens (row, col). A hazard loses the round; a safe cell is revealed,
    /// together with the region it opens when no hazard is around it, and
    /// the round is won once the board shows it. Off the board, on a
    /// revealed cell or after the round has ended, nothing changes.
    pub fn open_cell(&mut self, row: usize, col: usize)
        requires
            old(self)@.wf(),
        ensures
            final(self)@ == old(self)@.after_open(row as int, col as int),
            final(self)@.wf(),
    {
        if !self.can_touch_cell(row, col) {
            return;
        }
        let ghost b0 = self@;
        assert(grid_of(self.board@)[row as int] == self.board@[row as int]@);
        let cell = self.board[row][col];
        if cell.is_safe {
            reveal_from(&mut self.board, self.row_count, self.col_count, row, col);
            proof {
                lemma_reveal_wf(b0, row as int, col as int);
            }
            self.track_win_state();
        } else {
            put(&mut self.board, row, col, Cell { is_flagged: false, ..cell });
            self.state = State::Lose;
            proof {
                let x = Cell { is_flagged: false, ..cell };
                assert(grid_of(self.board@) =~~= set_cell(b0.cells, row as int, col as int, x));
                lemma_counts_keep(b0.cells, grid_of(self.board@), b0.rows as int, b0.cols as int);
                lemma_spread_keep(b0.cells, grid_of(self.board@), b0.rows as int, b0.cols as int);
            }
        }
    }

    /// Flags (row, col), or takes its flag away; the round is won once the
    /// board shows it. Off the board, on a revealed cell or after the round
    /// has ended, nothing changes.
    pub fn flag_cell(&mut self, row: usize, col: usize)
        requires
            old(self)@.wf(),
        ensures
            final(self)@ == old(self)@.after_flag(row as int, col as int),
            final(self)@.wf(),
    {
        if !self.can_touch_cell(row, col) {
            return;
        }
        let ghost b0 = self@;
        assert(grid_of(self.board@)[row as int] == self.board@[row as int]@);
        let cell = self.board[row][col];
        put(&mut self.board, row, col, Cell { is_flagged: !cell.is_flagged, ..cell });
        proof {
            let x = Cell { is_flagged: !cell.is_flagged, ..cell };
            assert(grid_of(self.board@) =~~= set_cell(b0.cells, row as int, col as int, x));
            lemma_counts_keep(b0.cells, grid_of(self.board@), b0.rows as int, b0.cols as int);
            lemma_spread_keep(b0.cells, grid_of(self.board@), b0.rows as int, b0.cols as int);
        }
        self.track_win_state();
    }

    pub fn state(&self) -> (r: State)
        ensures
            r == self@.state,
    {
        self.state
    }

    /// The number of rows and of columns.
    pub fn board_size(&self) -> (r: (usize, usize))
        ensures
            r.0 == self@.rows,
            r.1 == self@.cols,
    {
        (self.row_count, self.col_count)
    }

    /// The number of hazards on the board.
    pub fn mines(&self) -> (r: usize)
        ensures
            r == self@.mines,
    {
        self.mines
    }

    /// The cell at (row, col), or `OutOfRange` off the board.
    pub fn get_cell(&self, row: usize, col: usize) -> (r: Result<Cell, BoardError>)
        requires
            self@.wf(),
        ensures
            inside(self@.rows as int, self@.cols as int, row as int, col as int) ==> r == Ok::<
                Cell,
                BoardError,
            >(self@.cells[row as int][col as int]),
            !inside(self@.rows as int, self@.cols as int, row as int, col as int) ==> r == Err::<
                Cell,
                BoardError,
            >(BoardError::OutOfRange),
    {
        if row >= self.row_count || col >= self.col_count {
            return Err(BoardError::OutOfRange);
        }
        assert(grid_of(self.board@)[row as int] == self.board@[row as int]@);
        Ok(self.board[row][col])
    }
}

} // verus!
