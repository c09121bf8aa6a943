use vstd::prelude::*;

use crate::counting::{hazard_pred, hazard_total, lemma_grid_count_none};

verus! {

/// One square of the board.
#[derive(Clone, Copy, Debug, PartialEq, Eq, Structural)]
pub struct Cell {
    pub is_visible: bool,
    pub is_safe: bool,
    pub is_flagged: bool,
    pub mines_count: usize,
}

impl Cell {
    /// A hidden, safe, unflagged cell with no hazard around it.
    pub(crate) fn new() -> (r: Cell)
        ensures
            r == fresh_cell(),
    {
        Cell { is_visible: false, is_safe: true, is_flagged: false, mines_count: 0 }
    }

    pub fn is_visible(&self) -> (r: bool)
        ensures
            r == self.is_visible,
    {
        self.is_visible
    }

    pub fn is_safe(&self) -> (r: bool)
        ensures
            r == self.is_safe,
    {
        self.is_safe
    }

    pub fn is_flagged(&self) -> (r: bool)
        ensures
            r == self.is_flagged,
    {
        self.is_flagged
    }

    pub fn mines_count(&self) -> (r: usize)
        ensures
            r == self.mines_count,
    {
        self.mines_count
    }
}

pub open spec fn fresh_cell() -> Cell {
    Cell { is_visible: false, is_safe: true, is_flagged: false, mines_count: 0 }
}

/// The cell as it stands once revealed: visible, and no longer flagged.
pub open spec fn revealed(c: Cell) -> Cell {
    Cell { is_visible: true, is_flagged: false, ..c }
}

/// The board as rows of cells.
pub open spec fn grid_of(b: Seq<Vec<Cell>>) -> Seq<Seq<Cell>> {
    b.map_values(|row: Vec<Cell>| row@)
}

pub open spec fn inside(rows: int, cols: int, r: int, c: int) -> bool {
    0 <= r < rows && 0 <= c < cols
}

/// `rows` rows of `cols` cells each.
pub open spec fn shaped(g: Seq<Seq<Cell>>, rows: int, cols: int) -> bool {
    &&& g.len() == rows
    &&& forall|r: int| 0 <= r < rows ==> #[trigger] g[r].len() == cols
}

/// Two distinct positions that share a side or a corner.
pub open spec fn touching(r1: int, c1: int, r2: int, c2: int) -> bool {
    &&& (r1 != r2 || c1 != c2)
    &&& -1 <= r1 - r2 <= 1
    &&& -1 <= c1 - c2 <= 1
}

/// 1 when a hazard stands at (r, c) on the board, else 0.
pub open spec fn hazard_at(g: Seq<Seq<Cell>>, rows: int, cols: int, r: int, c: int) -> int {
    if inside(rows, cols, r, c) && !g[r][c].is_safe {
        1
    } else {
        0
    }
}

/// The number of hazards among the up-to-eight neighbours of (r, c).
pub open spec fn hazards_around(g: Seq<Seq<Cell>>, rows: int, cols: int, r: int, c: int) -> int {
    hazard_at(g, rows, cols, r + 1, c) + hazard_at(g, rows, cols, r - 1, c) + hazard_at(
        g,
        rows,
        cols,
        r,
        c + 1,
    ) + hazard_at(g, rows, cols, r, c - 1) + hazard_at(g, rows, cols, r + 1, c + 1) + hazard_at(
        g,
        rows,
        cols,
        r - 1,
        c - 1,
    ) + hazard_at(g, rows, cols, r + 1, c - 1) + hazard_at(g, rows, cols, r - 1, c + 1)
}

/// Every cell holds the number of hazards around it.
pub open spec fn counts_hold(g: Seq<Seq<Cell>>, rows: int, cols: int) -> bool {
    forall|r: int, c: int|
        inside(rows, cols, r, c) ==> #[trigger] g[r][c].mines_count == hazards_around(
            g,
            rows,
            cols,
            r,
            c,
        )
}

/// A step along one axis.
pub(crate) enum Op {
    Inc,
    Dec,
    Stay,
}

impl Op {
    pub(crate) open spec fn delta(&self) -> int {
        match self {
            Op::Inc => 1,
            Op::Dec => -1,
            Op::Stay => 0,
        }
    }

    /// Whether the step keeps `value` inside `0..max_value`.
    pub(crate) fn is_applicable(&self, value: usize, max_value: usize) -> (r: bool)
        requires
            value < max_value,
        ensures
            r == (0 <= value + self.delta() < max_value),
    {
        match self {
            Op::Inc => value + 1 < max_value,
            Op::Dec => value > 0,
            Op::Stay => true,
        }
    }

    pub(crate) fn apply(&self, value: usize) -> (r: usize)
        requires
            0 <= value + self.delta() <= usize::MAX,
        ensures
            r == value + self.delta(),
    {
        match self {
            Op::Inc => value + 1,
            Op::Dec => value - 1,
            Op::Stay => value,
        }
    }
}

/// Every listed position is a neighbour of (row, col) on the board.
pub open spec fn all_neighbours(
    s: Seq<(usize, usize)>,
    rows: int,
    cols: int,
    row: int,
    col: int,
) -> bool {
    forall|i: int|
        0 <= i < s.len() ==> inside(rows, cols, #[trigger] s[i].0 as int, s[i].1 as int)
            && touching(row, col, s[i].0 as int, s[i].1 as int)
}

fn push_neighbour(
    v: &mut Vec<(usize, usize)>,
    rows: usize,
    cols: usize,
    row: usize,
    col: usize,
    dr: Op,
    dc: Op,
)
    requires
        row < rows,
        col < cols,
        dr.delta() != 0 || dc.delta() != 0,
        all_neighbours(old(v)@, rows as int, cols as int, row as int, col as int),
        old(v)@.no_duplicates(),
        inside(rows as int, cols as int, row + dr.delta(), col + dc.delta()) ==> !old(v)@.contains(
            ((row + dr.delta()) as usize, (col + dc.delta()) as usize),
        ),
    ensures
        all_neighbours(final(v)@, rows as int, cols as int, row as int, col as int),
        final(v)@.no_duplicates(),
        final(v)@.len() <= old(v)@.len() + 1,
        forall|x: (usize, usize)|
            #[trigger] final(v)@.contains(x) <==> old(v)@.contains(x) || (inside(
                rows as int,
                cols as int,
                row + dr.delta(),
                col + dc.delta(),
            ) && x == ((row + dr.delta()) as usize, (col + dc.delta()) as usize)),
{
    let ghost target = ((row + dr.delta()) as usize, (col + dc.delta()) as usize);
    let ghost on_board = inside(rows as int, cols as int, row + dr.delta(), col + dc.delta());
    if dr.is_applicable(row, rows) && dc.is_applicable(col, cols) {
        let p = (dr.apply(row), dc.apply(col));
        assert(p == ((row + dr.delta()) as usize, (col + dc.delta()) as usize));
        let ghost s0 = v@;
        v.push(p);
        assert forall|x: (usize, usize)| #[trigger] v@.contains(x) <==> s0.contains(x) || x == p by {
            if s0.contains(x) {
                let i = choose|i: int| 0 <= i < s0.len() && s0[i] == x;
                assert(v@[i] == x);
            }
            if x == p {
                assert(v@[s0.len() as int] == x);
            }
            if v@.contains(x) {
                let i = choose|i: int| 0 <= i < v@.len() && v@[i] == x;
                if i < s0.len() {
                    assert(s0[i] == x);
                }
            }
        }
        assert(on_board && p == target);
    } else {
        assert(!on_board);
    }
}

/// The positions around (row, col) that lie on a `rows` by `cols` board.
pub(crate) fn adjacent_cells(rows: usize, cols: usize, row: usize, col: usize) -> (r: Vec<
    (usize, usize),
>)
    requires
        row < rows,
        col < cols,
    ensures
        all_neighbours(r@, rows as int, cols as int, row as int, col as int),
        r@.no_duplicates(),
        r@.len() <= 8,
        forall|pr: int, pc: int|
            inside(rows as int, cols as int, pr, pc) && touching(row as int, col as int, pr, pc)
                ==> r@.contains((pr as usize, pc as usize)),
{
    let mut v: Vec<(usize, usize)> = Vec::new();
    push_neighbour(&mut v, rows, cols, row, col, Op::Inc, Op::Stay);
    push_neighbour(&mut v, rows, cols, row, col, Op::Dec, Op::Stay);
    push_neighbour(&mut v, rows, cols, row, col, Op::Stay, Op::Inc);
    push_neighbour(&mut v, rows, cols, row, col, Op::Stay, Op::Dec);
    push_neighbour(&mut v, rows, cols, row, col, Op::Inc, Op::Inc);
    push_neighbour(&mut v, rows, cols, row, col, Op::Dec, Op::Dec);
    push_neighbour(&mut v, rows, cols, row, col, Op::Inc, Op::Dec);
    push_neighbour(&mut v, rows, cols, row, col, Op::Dec, Op::Inc);
    v
}

/// 1 when a hazard stands one step `dr`, `dc` away from (row, col), else 0.
fn hazard_towards(
    board: &Vec<Vec<Cell>>,
    rows: usize,
    cols: usize,
    row: usize,
    col: usize,
    dr: Op,
    dc: Op,
) -> (r: usize)
    requires
        shaped(grid_of(board@), rows as int, cols as int),
        row < rows,
        col < cols,
    ensures
        r == hazard_at(
            grid_of(board@),
            rows as int,
            cols as int,
            row + dr.delta(),
            col + dc.delta(),
        ),
{
    if dr.is_applicable(row, rows) && dc.is_applicable(col, cols) {
        let r = dr.apply(row);
        let c = dc.apply(col);
        assert(grid_of(board@)[r as int] == board@[r as int]@);
        if board[r][c].is_safe {
            0
        } else {
            1
        }
    } else {
        0
    }
}

/// The number of hazards around (row, col).
pub(crate) fn calc_mines_count(
    board: &Vec<Vec<Cell>>,
    rows: usize,
    cols: usize,
    row: usize,
    col: usize,
) -> (r: usize)
    requires
        shaped(grid_of(board@), rows as int, cols as int),
        row < rows,
        col < cols,
    ensures
        r == hazards_around(grid_of(board@), rows as int, cols as int, row as int, col as int),
{
    let a = hazard_towards(board, rows, cols, row, col, Op::Inc, Op::Stay);
    let b = hazard_towards(board, rows, cols, row, col, Op::Dec, Op::Stay);
    let c = hazard_towards(board, rows, cols, row, col, Op::Stay, Op::Inc);
    let d = hazard_towards(board, rows, cols, row, col, Op::Stay, Op::Dec);
    let e = hazard_towards(board, rows, cols, row, col, Op::Inc, Op::Inc);
    let f = hazard_towards(board, rows, cols, row, col, Op::Dec, Op::Dec);
    let g = hazard_towards(board, rows, cols, row, col, Op::Inc, Op::Dec);
    let h = hazard_towards(board, rows, cols, row, col, Op::Dec, Op::Inc);
    a + b + c + d + e + f + g + h
}

/// Writes `x` at (r, c) and leaves every other cell as it was.
pub(crate) fn put(board: &mut Vec<Vec<Cell>>, r: usize, c: usize, x: Cell)
    requires
        r < old(board)@.len(),
        c < old(board)@[r as int]@.len(),
    ensures
        final(board)@.len() == old(board)@.len(),
        forall|i: int|
            0 <= i < old(board)@.len() ==> #[trigger] grid_of(final(board)@)[i].len() == grid_of(
                old(board)@,
            )[i].len(),
        forall|i: int, j: int|
            0 <= i < old(board)@.len() && 0 <= j < grid_of(old(board)@)[i].len() ==> #[trigger] grid_of(
                final(board)@,
            )[i][j] == if i == r && j == c {
                x
            } else {
                grid_of(old(board)@)[i][j]
            },
{
    board[r][c] = x;
}

/// The two boards differ at most in the counts their cells hold.
pub open spec fn same_but_counts(a: Seq<Seq<Cell>>, b: Seq<Seq<Cell>>, rows: int, cols: int) -> bool {
    &&& shaped(a, rows, cols)
    &&& shaped(b, rows, cols)
    &&& forall|r: int, c: int|
        inside(rows, cols, r, c) ==> #[trigger] b[r][c] == (Cell {
            mines_count: b[r][c].mines_count,
            ..a[r][c]
        })
}

/// Writes into every cell the number of hazards around it.
pub(crate) fn fill_safe_numbers(board: &mut Vec<Vec<Cell>>, rows: usize, cols: usize)
    requires
        shaped(grid_of(old(board)@), rows as int, cols as int),
    ensures
        same_but_counts(grid_of(old(board)@), grid_of(final(board)@), rows as int, cols as int),
        counts_hold(grid_of(final(board)@), rows as int, cols as int),
{
    let ghost g0 = grid_of(board@);
    let mut row: usize = 0;
    while row < rows
        invariant
            row <= rows,
            g0 == grid_of(old(board)@),
            shaped(g0, rows as int, cols as int),
            same_but_counts(g0, grid_of(board@), rows as int, cols as int),
            forall|r: int, c: int|
                inside(row as int, cols as int, r, c) ==> #[trigger] grid_of(board@)[r][c].mines_count
                    == hazards_around(g0, rows as int, cols as int, r, c),
        decreases rows - row,
    {
        let mut col: usize = 0;
        while col < cols
            invariant
                row < rows,
                col <= cols,
                g0 == grid_of(old(board)@),
                shaped(g0, rows as int, cols as int),
                same_but_counts(g0, grid_of(board@), rows as int, cols as int),
                forall|r: int, c: int|
                    (inside(row as int, cols as int, r, c) || (r == row && 0 <= c < col))
                        ==> #[trigger] grid_of(board@)[r][c].mines_count == hazards_around(
                        g0,
                        rows as int,
                        cols as int,
                        r,
                        c,
                    ),
            decreases cols - col,
        {
            let n = calc_mines_count(board, rows, cols, row, col);
            assert(n == hazards_around(g0, rows as int, cols as int, row as int, col as int));
            assert(grid_of(board@)[row as int] == board@[row as int]@);
            let cell = Cell { mines_count: n, ..board[row][col] };
            put(board, row, col, cell);
            col = col + 1;
        }
        row = row + 1;
    }
    assert forall|r: int, c: int| inside(rows as int, cols as int, r, c) implies #[trigger] grid_of(
        board@,
    )[r][c].mines_count == hazards_around(grid_of(board@), rows as int, cols as int, r, c) by {
        assert(hazards_around(grid_of(board@), rows as int, cols as int, r, c) == hazards_around(
            g0,
            rows as int,
            cols as int,
            r,
            c,
        ));
    }
}

/// Every safe cell is revealed and carries no flag.
pub open spec fn all_safe_open(g: Seq<Seq<Cell>>, rows: int, cols: int) -> bool {
    forall|r: int, c: int|
        inside(rows, cols, r, c) && (#[trigger] g[r][c]).is_safe ==> g[r][c].is_visible
            && !g[r][c].is_flagged
}

/// Every hazard carries a flag.
pub open spec fn all_hazards_flagged(g: Seq<Seq<Cell>>, rows: int, cols: int) -> bool {
    forall|r: int, c: int|
        inside(rows, cols, r, c) && !(#[trigger] g[r][c]).is_safe ==> g[r][c].is_flagged
}

/// The board shows a won game.
pub open spec fn won(g: Seq<Seq<Cell>>, rows: int, cols: int) -> bool {
    all_safe_open(g, rows, cols) || all_hazards_flagged(g, rows, cols)
}

/// Whether the board shows a won game; the scan stops once both ways to win
/// are ruled out.
pub(crate) fn check_win(board: &Vec<Vec<Cell>>, rows: usize, cols: usize) -> (r: bool)
    requires
        shaped(grid_of(board@), rows as int, cols as int),
    ensures
        r == won(grid_of(board@), rows as int, cols as int),
{
    let ghost g = grid_of(board@);
    let mut is_flag_win = true;
    let mut is_open_win = true;
    let mut row: usize = 0;
    while row < rows
        invariant
            row <= rows,
            g == grid_of(board@),
            shaped(g, rows as int, cols as int),
            is_open_win == (forall|r: int, c: int|
                inside(row as int, cols as int, r, c) && (#[trigger] g[r][c]).is_safe
                    ==> g[r][c].is_visible && !g[r][c].is_flagged),
            is_flag_win == (forall|r: int, c: int|
                inside(row as int, cols as int, r, c) && !(#[trigger] g[r][c]).is_safe
                    ==> g[r][c].is_flagged),
        decreases rows - row,
    {
        let mut col: usize = 0;
        assert(g[row as int] == board@[row as int]@);
        while col < cols
            invariant
                row < rows,
                col <= cols,
                g == grid_of(board@),
                g[row as int] == board@[row as int]@,
                shaped(g, rows as int, cols as int),
                is_open_win == (forall|r: int, c: int|
                    (inside(row as int, cols as int, r, c) || (r == row && 0 <= c < col)) && (
                    #[trigger] g[r][c]).is_safe ==> g[r][c].is_visible && !g[r][c].is_flagged),
                is_flag_win == (forall|r: int, c: int|
                    (inside(row as int, cols as int, r, c) || (r == row && 0 <= c < col)) && !(
                    #[trigger] g[r][c]).is_safe ==> g[r][c].is_flagged),
            decreases cols - col,
        {
            let cell = board[row][col];
            if cell.is_safe {
                is_open_win = is_open_win && cell.is_visible && !cell.is_flagged;
            } else {
                is_flag_win = is_flag_win && cell.is_flagged;
            }
            if !is_flag_win && !is_open_win {
                return false;
            }
            col = col + 1;
        }
        row = row + 1;
    }
    is_flag_win || is_open_win
}

/// A `rows` by `cols` board of hidden, safe, unflagged cells.
pub(crate) fn fresh_board(rows: usize, cols: usize) -> (b: Vec<Vec<Cell>>)
    ensures
        shaped(grid_of(b@), rows as int, cols as int),
        forall|r: int, c: int|
            inside(rows as int, cols as int, r, c) ==> #[trigger] grid_of(b@)[r][c] == fresh_cell(),
        hazard_total(grid_of(b@)) == 0,
{
    let mut b: Vec<Vec<Cell>> = Vec::new();
    let mut r: usize = 0;
    while r < rows
        invariant
            r <= rows,
            b@.len() == r,
            forall|i: int| 0 <= i < r ==> (#[trigger] b@[i])@.len() == cols,
            forall|i: int, j: int| 0 <= i < r && 0 <= j < cols ==> #[trigger] b@[i]@[j] == fresh_cell(),
        decreases rows - r,
    {
        let mut line: Vec<Cell> = Vec::new();
        let mut c: usize = 0;
        while c < cols
            invariant
                c <= cols,
                line@.len() == c,
                forall|j: int| 0 <= j < c ==> #[trigger] line@[j] == fresh_cell(),
            decreases cols - c,
        {
            line.push(Cell::new());
            c = c + 1;
        }
        b.push(line);
        r = r + 1;
    }
    proof {
        lemma_grid_count_none(grid_of(b@), hazard_pred());
    }
    b
}

/// Whether some cell of the board is safe.
pub(crate) fn has_safe_cell(board: &Vec<Vec<Cell>>, rows: usize, cols: usize) -> (r: bool)
    requires
        shaped(grid_of(board@), rows as int, cols as int),
    ensures
        r == exists|i: int, j: int|
            inside(rows as int, cols as int, i, j) && (#[trigger] grid_of(board@)[i][j]).is_safe,
{
    let ghost g = grid_of(board@);
    let mut row: usize = 0;
    while row < rows
        invariant
            row <= rows,
            g == grid_of(board@),
            shaped(g, rows as int, cols as int),
            forall|i: int, j: int| inside(row as int, cols as int, i, j) ==> !(#[trigger] g[i][j]).is_safe,
        decreases rows - row,
    {
        assert(g[row as int] == board@[row as int]@);
        let mut col: usize = 0;
        while col < cols
            invariant
                row < rows,
                col <= cols,
                g == grid_of(board@),
                g[row as int] == board@[row as int]@,
                shaped(g, rows as int, cols as int),
                forall|i: int, j: int|
                    (inside(row as int, cols as int, i, j) || (i == row && 0 <= j < col)) ==> !(
                    #[trigger] g[i][j]).is_safe,
            decreases cols - col,
        {
            if board[row][col].is_safe {
                assert(inside(rows as int, cols as int, row as int, col as int) && g[row as int][col as int].is_safe);
                return true;
            }
            col = col + 1;
        }
        row = row + 1;
    }
    false
}

/// Every cell next to (r, c) on the board is revealed.
pub open spec fn around_visible(g: Seq<Seq<Cell>>, rows: int, cols: int, r: int, c: int) -> bool {
    forall|pr: int, pc: int|
        #[trigger] touching(r, c, pr, pc) && inside(rows, cols, pr, pc) ==> g[pr][pc].is_visible
}

/// A revealed cell with no hazard around it has all its neighbours revealed.
pub open spec fn zero_spread(g: Seq<Seq<Cell>>, rows: int, cols: int) -> bool {
    forall|r: int, c: int|
        inside(rows, cols, r, c) && (#[trigger] g[r][c]).is_visible && g[r][c].mines_count == 0
            ==> around_visible(g, rows, cols, r, c)
}

/// Step `i` of the path goes from a safe cell with no hazard around it to a
/// safe cell next to it.
pub open spec fn zero_link(g: Seq<Seq<Cell>>, rows: int, cols: int, path: Seq<(int, int)>, i: int) -> bool {
    &&& inside(rows, cols, path[i].0, path[i].1)
    &&& g[path[i].0][path[i].1].is_safe
    &&& g[path[i].0][path[i].1].mines_count == 0
    &&& touching(path[i].0, path[i].1, path[i + 1].0, path[i + 1].1)
    &&& inside(rows, cols, path[i + 1].0, path[i + 1].1)
    &&& g[path[i + 1].0][path[i + 1].1].is_safe
}

/// (r, c) is reached from (sr, sc) through a chain of safe cells with no
/// hazard around them.
pub open spec fn zero_reached(g: Seq<Seq<Cell>>, rows: int, cols: int, sr: int, sc: int, r: int, c: int) -> bool {
    exists|path: Seq<(int, int)>|
        #[trigger] zero_chain(g, rows, cols, sr, sc, path) && path.last() == (r, c)
}

/// A path from (sr, sc) that leaves only safe cells with no hazard around
/// them.
pub open spec fn zero_chain(g: Seq<Seq<Cell>>, rows: int, cols: int, sr: int, sc: int, path: Seq<(int, int)>) -> bool {
    &&& path.len() > 0
    &&& path[0] == (sr, sc)
    &&& forall|i: int| 0 <= i < path.len() - 1 ==> #[trigger] zero_link(g, rows, cols, path, i)
}

/// Boards that agree on what is revealed and on the counts agree on spread.
pub proof fn lemma_spread_keep(a: Seq<Seq<Cell>>, b: Seq<Seq<Cell>>, rows: int, cols: int)
    requires
        shaped(a, rows, cols),
        shaped(b, rows, cols),
        zero_spread(a, rows, cols),
        forall|r: int, c: int|
            inside(rows, cols, r, c) ==> (#[trigger] b[r][c]).is_visible == a[r][c].is_visible
                && b[r][c].mines_count == a[r][c].mines_count,
    ensures
        zero_spread(b, rows, cols),
{
    assert forall|r: int, c: int|
        inside(rows, cols, r, c) && (#[trigger] b[r][c]).is_visible && b[r][c].mines_count
            == 0 implies around_visible(b, rows, cols, r, c) by {
        assert(a[r][c].is_visible);
        assert(around_visible(a, rows, cols, r, c));
        assert forall|pr: int, pc: int|
            #[trigger] touching(r, c, pr, pc) && inside(rows, cols, pr, pc) implies b[pr][pc].is_visible by {
            assert(a[pr][pc].is_visible);
        }
    }
}

/// No hazard stands next to a cell that counts none.
pub proof fn lemma_zero_count_neighbour_safe(
    g: Seq<Seq<Cell>>,
    rows: int,
    cols: int,
    r: int,
    c: int,
    pr: int,
    pc: int,
)
    requires
        hazards_around(g, rows, cols, r, c) == 0,
        touching(r, c, pr, pc),
        inside(rows, cols, pr, pc),
    ensures
        g[pr][pc].is_safe,
{
    assert(hazard_at(g, rows, cols, pr, pc) == 0);
}

} // verus!
